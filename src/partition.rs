use vstd::prelude::*;

use crate::group::Group;
use vstd::seq_lib::lemma_flatten_concat;

verus! {

/// The members of each group, in order.
pub open spec fn groups_view(gs: Seq<Group>) -> Seq<Seq<String>> {
    gs.map_values(|g: Group| g@)
}

/// Adding a group at the end adds its members at the end of the view.
pub proof fn lemma_groups_view_push(gs: Seq<Group>, g: Group)
    ensures
        groups_view(gs.push(g)) == groups_view(gs).push(g@),
{
    assert(groups_view(gs.push(g)) =~= groups_view(gs).push(g@));
}

/// How many identifiers the groups hold together.
pub open spec fn total(gs: Seq<Seq<String>>) -> nat {
    gs.flatten().len()
}

/// Every group holds from `lo` to `hi` members.
pub open spec fn sizes_between(gs: Seq<Seq<String>>, lo: nat, hi: nat) -> bool {
    forall|i: int| 0 <= i < gs.len() ==> lo <= #[trigger] gs[i].len() <= hi
}

/// Every group holds two or three members.
pub open spec fn sizes_valid(gs: Seq<Seq<String>>) -> bool {
    sizes_between(gs, 2, 3)
}

/// Cuts `s` into consecutive chunks, front to back: three at a time, except
/// that four are cut as two and two, so no chunk of one is left at the end.
/// A list of one to three members is a single chunk.
pub open spec fn small_groups(s: Seq<String>) -> Seq<Seq<String>>
    decreases s.len(),
{
    if s.len() == 0 {
        Seq::empty()
    } else if s.len() <= 3 {
        seq![s]
    } else {
        let k: int = if s.len() == 4 { 2 } else { 3 };
        seq![s.take(k)] + small_groups(s.skip(k))
    }
}

/// The chunks of `small_groups` put back together give the list again.
pub proof fn lemma_small_groups_flatten(s: Seq<String>)
    ensures
        small_groups(s).flatten() == s,
    decreases s.len(),
{
    if s.len() == 0 {
    } else if s.len() <= 3 {
        seq![s].lemma_flatten_one_element();
    } else {
        let k: int = if s.len() == 4 { 2 } else { 3 };
        lemma_small_groups_flatten(s.skip(k));
        lemma_flatten_concat(seq![s.take(k)], small_groups(s.skip(k)));
        seq![s.take(k)].lemma_flatten_one_element();
        assert(s.take(k) + s.skip(k) =~= s);
    }
}

/// A list of two or more members is cut into chunks of two or three.
pub proof fn lemma_small_groups_sizes(s: Seq<String>)
    requires
        s.len() != 1,
    ensures
        sizes_valid(small_groups(s)),
    decreases s.len(),
{
    if s.len() > 3 {
        let k: int = if s.len() == 4 { 2 } else { 3 };
        lemma_small_groups_sizes(s.skip(k));
        let rest = small_groups(s.skip(k));
        assert forall|i: int| 0 <= i < small_groups(s).len() implies 2 <= #[trigger] small_groups(
            s,
        )[i].len() <= 3 by {
            if i > 0 {
                assert(small_groups(s)[i] == rest[i - 1]);
            }
        }
    }
}

/// Flattening a non-empty list of groups ends with its last group.
pub proof fn lemma_flatten_last(gs: Seq<Seq<String>>)
    requires
        gs.len() > 0,
    ensures
        gs.flatten() == gs.drop_last().flatten() + gs.last(),
{
    gs.drop_last().lemma_flatten_push(gs.last());
    assert(gs.drop_last().push(gs.last()) =~= gs);
}

/// Flattening holds at least the members of the last group.
pub proof fn lemma_flatten_len_last(gs: Seq<Seq<String>>)
    requires
        gs.len() > 0,
    ensures
        gs.flatten().len() >= gs.last().len(),
{
    lemma_flatten_last(gs);
}

/// Two lists whose groups keep within the same bounds make one that does.
pub proof fn lemma_sizes_between_concat(a: Seq<Seq<String>>, b: Seq<Seq<String>>, lo: nat, hi: nat)
    requires
        sizes_between(a, lo, hi),
        sizes_between(b, lo, hi),
    ensures
        sizes_between(a + b, lo, hi),
{
    assert forall|i: int| 0 <= i < (a + b).len() implies lo <= #[trigger] (a + b)[i].len() <= hi by {
        if i >= a.len() {
            assert((a + b)[i] == b[i - a.len()]);
        }
    }
}

/// Splits `members` into consecutive groups of two or three, front to back,
/// four being split as two and two. A single member makes a group of its own.
pub fn split_into_small_groups(members: Vec<String>) -> (r: Vec<Group>)
    ensures
        groups_view(r@) == small_groups(members@),
{
    let mut result: Vec<Group> = Vec::new();
    let n = members.len();
    if n == 0 {
        proof {
            assert(groups_view(result@) =~= small_groups(members@));
        }
        return result;
    }
    let mut idx: usize = 0;
    proof {
        assert(members@.skip(0) =~= members@);
        assert(groups_view(result@) + small_groups(members@) =~= small_groups(members@));
    }
    while idx < n
        invariant
            n == members@.len(),
            idx <= n,
            groups_view(result@) + small_groups(members@.skip(idx as int)) == small_groups(
                members@,
            ),
        decreases n - idx,
    {
        let remaining = n - idx;
        let group_size: usize = if remaining > 3 {
            if remaining == 4 {
                2
            } else {
                3
            }
        } else {
            remaining
        };
        let mut new_group = Group::new();
        let mut i: usize = 0;
        while i < group_size
            invariant
                n == members@.len(),
                idx + group_size <= n,
                i <= group_size,
                new_group@ == members@.subrange(idx as int, idx + i),
            decreases group_size - i,
        {
            new_group.members.push(members[idx + i].clone());
            i += 1;
            proof {
                assert(new_group@ =~= members@.subrange(idx as int, idx + i));
            }
        }
        proof {
            let rest = members@.skip(idx as int);
            assert(rest.take(group_size as int) =~= new_group@);
            assert(rest.skip(group_size as int) =~= members@.skip(idx + group_size));
            if remaining <= 3 {
                assert(rest.take(group_size as int) =~= rest);
                assert(members@.skip(idx + group_size) =~= Seq::<String>::empty());
            }
            assert(groups_view(result@.push(new_group)) =~= groups_view(result@).push(new_group@));
        }
        result.push(new_group);
        idx += group_size;
        proof {
            assert(groups_view(result@) + small_groups(members@.skip(idx as int)) =~= small_groups(
                members@,
            ));
        }
    }
    proof {
        assert(members@.skip(n as int) =~= Seq::<String>::empty());
        assert(groups_view(result@) + Seq::<Seq<String>>::empty() =~= groups_view(result@));
    }
    result
}

/// Forms groups of two or three from the front of `singletons`, as
/// `split_into_small_groups` cuts them, and leaves none behind. Fewer than
/// two are left where they are.
pub fn group_singletons(singletons: &mut Vec<String>) -> (r: Vec<Group>)
    ensures
        old(singletons)@.len() >= 2 ==> groups_view(r@) == small_groups(old(singletons)@)
            && final(singletons)@.len() == 0,
        old(singletons)@.len() < 2 ==> r@.len() == 0 && final(singletons)@ == old(
            singletons,
        )@,
{
    let ghost start = singletons@;
    let mut groups: Vec<Group> = Vec::new();
    proof {
        assert(groups_view(groups@) + small_groups(start) =~= small_groups(start));
    }
    while singletons.len() >= 2
        invariant
            start.len() >= 2 ==> groups_view(groups@) + small_groups(singletons@) == small_groups(
                start,
            ) && singletons@.len() != 1,
            start.len() < 2 ==> groups@.len() == 0 && singletons@ == start,
        decreases singletons@.len(),
    {
        let take: usize = if singletons.len() == 4 {
            2
        } else if singletons.len() < 3 {
            singletons.len()
        } else {
            3
        };
        let ghost before = singletons@;
        let mut chunk = singletons.split_off(take);
        std::mem::swap(singletons, &mut chunk);
        let mut new_group = Group::new();
        new_group.members = chunk;
        proof {
            assert(before.take(take as int) =~= new_group@);
            assert(before.skip(take as int) =~= singletons@);
            if before.len() <= 3 {
                assert(before.take(take as int) =~= before);
                assert(singletons@ =~= Seq::<String>::empty());
            }
            assert(groups_view(groups@.push(new_group)) =~= groups_view(groups@).push(new_group@));
        }
        groups.push(new_group);
        proof {
            assert(groups_view(groups@) + small_groups(singletons@) =~= small_groups(start));
        }
    }
    proof {
        if start.len() >= 2 {
            assert(groups_view(groups@) + Seq::<Seq<String>>::empty() =~= groups_view(groups@));
        }
    }
    groups
}

} // verus!
