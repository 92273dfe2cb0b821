use rand::seq::SliceRandom;
use vstd::prelude::*;

use crate::group::Group;
use crate::partition::{
    groups_view, lemma_flatten_last, lemma_flatten_len_last, lemma_groups_view_push, lemma_small_groups_flatten,
    lemma_small_groups_sizes, sizes_valid, small_groups, split_into_small_groups, total,
};
use vstd::seq_lib::{lemma_flatten_concat, lemma_multiset_commutative};

verus! {

/// The groups of three members or more, in order.
pub open spec fn full_groups(gs: Seq<Seq<String>>) -> Seq<Seq<String>> {
    gs.filter(|g: Seq<String>| g.len() >= 3)
}

/// The members of the groups of fewer than three, group after group.
pub open spec fn partial_members(gs: Seq<Seq<String>>) -> Seq<String> {
    gs.filter(|g: Seq<String>| g.len() < 3).flatten()
}

/// The partition that incremental mode makes from the full groups `complete`
/// and the members `pool` of the partial groups, in the order drawn.
///
/// A lone drawn member takes one member from the last full group and pairs
/// with it, or joins that group where it holds more than three; with no full
/// group it is left out. Otherwise the pool is cut by `small_groups` after the
/// full groups.
pub open spec fn regroup(complete: Seq<Seq<String>>, pool: Seq<String>) -> Seq<Seq<String>> {
    if pool.len() == 1 {
        if complete.len() == 0 {
            Seq::empty()
        } else if complete.last().len() == 3 {
            complete.drop_last().push(complete.last().drop_last()).push(
                seq![complete.last().last(), pool[0]],
            )
        } else {
            complete.drop_last().push(complete.last().push(pool[0]))
        }
    } else {
        complete + small_groups(pool)
    }
}

/// Relies on rand's `SliceRandom::shuffle` with `rand::thread_rng`: the slice
/// is rearranged by swaps, so the same members stay, each as many times.
#[verifier::external_body]
fn shuffle_members(members: &mut Vec<String>)
    ensures
        final(members)@.to_multiset() == old(members)@.to_multiset(),
{
    members.shuffle(&mut rand::thread_rng());
}

/// Places the members drawn from the partial groups after the full groups
/// `complete`, as `regroup` says.
pub fn regroup_pool(complete: Vec<Group>, pool: Vec<String>) -> (r: Vec<Group>)
    ensures
        groups_view(r@) == regroup(groups_view(complete@), pool@),
{
    let mut final_groups = complete;
    let ghost c = groups_view(final_groups@);
    if pool.len() == 1 {
        if final_groups.len() > 0 {
            let mut last = final_groups.pop().unwrap();
            proof {
                assert(c.drop_last() =~= groups_view(final_groups@));
            }
            let single = pool[0].clone();
            if last.members.len() == 3 {
                let borrowed = last.members.pop().unwrap();
                let mut pair = Group::new();
                pair.members.push(borrowed);
                pair.members.push(single);
                proof {
                    lemma_groups_view_push(final_groups@, last);
                    lemma_groups_view_push(final_groups@.push(last), pair);
                    assert(pair@ =~= seq![c.last().last(), pool@[0]]);
                }
                final_groups.push(last);
                final_groups.push(pair);
            } else {
                last.members.push(single);
                proof {
                    lemma_groups_view_push(final_groups@, last);
                }
                final_groups.push(last);
            }
        }
        proof {
            if c.len() == 0 {
                assert(groups_view(final_groups@) =~= Seq::<Seq<String>>::empty());
            }
        }
        return final_groups;
    }
    let mut formed = split_into_small_groups(pool);
    proof {
        assert(groups_view(final_groups@ + formed@) =~= groups_view(final_groups@) + groups_view(
            formed@,
        ));
    }
    final_groups.append(&mut formed);
    final_groups
}

/// Reorganises groups gathered interactively: full groups are kept in order,
/// and the members of the partial groups are drawn in random order and
/// placed as `regroup` says.
pub fn reorganize_incomplete_groups(groups: Vec<Group>) -> (r: Vec<Group>)
    ensures
        exists|pool: Seq<String>|
            pool.to_multiset() == partial_members(groups_view(groups@)).to_multiset()
                && groups_view(r@) == #[trigger] regroup(full_groups(groups_view(groups@)), pool),
{
    let ghost all = groups@;
    let mut complete: Vec<Group> = Vec::new();
    let mut incomplete_members: Vec<String> = Vec::new();
    for group in it: groups
        invariant
            it.seq() == all,
            groups_view(complete@) == full_groups(groups_view(all.take(it.index() as int))),
            incomplete_members@ == partial_members(groups_view(all.take(it.index() as int))),
    {
        let ghost i = it.index() as int;
        let ghost before = groups_view(all.take(i));
        proof {
            assert(all.take(i + 1) =~= all.take(i).push(group));
            lemma_groups_view_push(all.take(i), group);
            before.lemma_filter_push(group@, |g: Seq<String>| g.len() >= 3);
            before.lemma_filter_push(group@, |g: Seq<String>| g.len() < 3);
            before.filter(|g: Seq<String>| g.len() < 3).lemma_flatten_push(group@);
        }
        if group.is_full() {
            proof {
                lemma_groups_view_push(complete@, group);
            }
            complete.push(group);
        } else {
            let mut partial = group;
            incomplete_members.append(&mut partial.members);
        }
    }
    proof {
        assert(all.take(all.len() as int) =~= all);
    }
    shuffle_members(&mut incomplete_members);
    let ghost pool = incomplete_members@;
    let r = regroup_pool(complete, incomplete_members);
    proof {
        assert(groups_view(r@) == regroup(full_groups(groups_view(all)), pool));
    }
    r
}

proof fn lemma_split_step(gs: Seq<Seq<String>>)
    requires
        gs.len() > 0,
    ensures
        full_groups(gs) == if gs.last().len() >= 3 {
            full_groups(gs.drop_last()).push(gs.last())
        } else {
            full_groups(gs.drop_last())
        },
        partial_members(gs) == if gs.last().len() >= 3 {
            partial_members(gs.drop_last())
        } else {
            partial_members(gs.drop_last()) + gs.last()
        },
{
    let prev = gs.drop_last();
    assert(prev.push(gs.last()) =~= gs);
    prev.lemma_filter_push(gs.last(), |g: Seq<String>| g.len() >= 3);
    prev.lemma_filter_push(gs.last(), |g: Seq<String>| g.len() < 3);
    prev.filter(|g: Seq<String>| g.len() < 3).lemma_flatten_push(gs.last());
}

/// The members of all groups are those of the full groups together with those
/// of the partial ones.
proof fn lemma_split_members(gs: Seq<Seq<String>>)
    ensures
        gs.flatten().to_multiset() == full_groups(gs).flatten().to_multiset().add(
            partial_members(gs).to_multiset(),
        ),
    decreases gs.len(),
{
    broadcast use lemma_multiset_commutative;

    if gs.len() == 0 {
        assert(full_groups(gs) =~= Seq::<Seq<String>>::empty()) by {
            reveal(Seq::filter);
        }
        assert(partial_members(gs) =~= Seq::<String>::empty()) by {
            reveal(Seq::filter);
        }
        assert(gs.flatten() =~= Seq::<String>::empty());
        assert(Seq::<Seq<String>>::empty().flatten() =~= Seq::<String>::empty());
        vstd::seq_lib::to_multiset_len(Seq::<String>::empty());
        vstd::multiset::lemma_multiset_empty_len(Seq::<String>::empty().to_multiset());
        assert(gs.flatten().to_multiset() =~= full_groups(gs).flatten().to_multiset().add(
            partial_members(gs).to_multiset(),
        ));
    } else {
        let prev = gs.drop_last();
        lemma_split_members(prev);
        lemma_split_step(gs);
        lemma_flatten_last(gs);
        let fm = full_groups(prev).flatten().to_multiset();
        let pm = partial_members(prev).to_multiset();
        let lm = gs.last().to_multiset();
        assert(gs.flatten().to_multiset() == prev.flatten().to_multiset().add(lm));
        if gs.last().len() >= 3 {
            full_groups(prev).lemma_flatten_push(gs.last());
            assert(full_groups(gs).flatten().to_multiset() == fm.add(lm));
            assert(partial_members(gs).to_multiset() == pm);
        } else {
            assert(full_groups(gs).flatten().to_multiset() == fm);
            assert(partial_members(gs).to_multiset() == pm.add(lm));
        }
        assert(gs.flatten().to_multiset() =~= full_groups(gs).flatten().to_multiset().add(
            partial_members(gs).to_multiset(),
        ));
    }
}

proof fn lemma_regroup_members(c: Seq<Seq<String>>, pool: Seq<String>)
    requires
        pool.len() != 1 || c.len() > 0,
    ensures
        regroup(c, pool).flatten().to_multiset() == c.flatten().to_multiset().add(
            pool.to_multiset(),
        ),
{
    broadcast use lemma_multiset_commutative;

    let r = regroup(c, pool);
    if pool.len() == 1 {
        let last = c.last();
        lemma_flatten_last(c);
        assert(pool =~= seq![pool[0]]);
        if last.len() == 3 {
            let kept = c.drop_last().push(last.drop_last());
            c.drop_last().lemma_flatten_push(last.drop_last());
            kept.lemma_flatten_push(seq![last.last(), pool[0]]);
            assert(last.drop_last() + seq![last.last()] =~= last);
            assert(seq![last.last(), pool[0]] =~= seq![last.last()] + pool);
            assert(r.flatten() =~= c.drop_last().flatten() + last.drop_last() + (seq![last.last()]
                + pool));
            assert(r.flatten().to_multiset() =~= c.flatten().to_multiset().add(pool.to_multiset()));
        } else {
            c.drop_last().lemma_flatten_push(last.push(pool[0]));
            assert(r.flatten() =~= c.flatten() + pool);
        }
    } else {
        lemma_flatten_concat(c, small_groups(pool));
        lemma_small_groups_flatten(pool);
    }
}

/// Incremental mode keeps every identifier, whatever order they were drawn
/// in, except where there is just one identifier in all: that one cannot
/// form a group and is left out.
pub proof fn lemma_incremental_conserves(gs: Seq<Seq<String>>, pool: Seq<String>)
    requires
        pool.to_multiset() == partial_members(gs).to_multiset(),
        total(gs) != 1,
    ensures
        regroup(full_groups(gs), pool).flatten().to_multiset() == gs.flatten().to_multiset(),
{
    broadcast use vstd::seq_lib::to_multiset_len;

    lemma_split_members(gs);
    let c = full_groups(gs);
    if pool.len() == 1 && c.len() == 0 {
        assert(c.flatten() =~= Seq::<String>::empty());
        assert(gs.flatten().to_multiset().len() == pool.to_multiset().len());
    }
    lemma_regroup_members(c, pool);
}

proof fn lemma_full_groups_long(gs: Seq<Seq<String>>)
    ensures
        forall|i: int| 0 <= i < full_groups(gs).len() ==> #[trigger] full_groups(gs)[i].len() >= 3,
{
    assert forall|i: int| 0 <= i < full_groups(gs).len() implies #[trigger] full_groups(
        gs,
    )[i].len() >= 3 by {
        gs.lemma_filter_pred(|g: Seq<String>| g.len() >= 3, i);
    }
}

proof fn lemma_full_groups_of_three(gs: Seq<Seq<String>>)
    requires
        forall|i: int| 0 <= i < gs.len() ==> #[trigger] gs[i].len() <= 3,
    ensures
        forall|i: int| 0 <= i < full_groups(gs).len() ==> #[trigger] full_groups(gs)[i].len() == 3,
    decreases gs.len(),
{
    if gs.len() > 0 {
        assert(forall|i: int| 0 <= i < gs.drop_last().len() ==> gs.drop_last()[i] == gs[i]);
        assert(gs[gs.len() - 1].len() <= 3);
        lemma_full_groups_of_three(gs.drop_last());
        lemma_split_step(gs);
    }
}

/// In incremental mode, where no group holds more than three members, every
/// group of the partition holds two or three members; a single identifier in
/// all gives no group.
pub proof fn lemma_incremental_sizes(gs: Seq<Seq<String>>, pool: Seq<String>)
    requires
        forall|i: int| 0 <= i < gs.len() ==> #[trigger] gs[i].len() <= 3,
        pool.to_multiset() == partial_members(gs).to_multiset(),
    ensures
        sizes_valid(regroup(full_groups(gs), pool)),
        total(gs) == 1 ==> regroup(full_groups(gs), pool).len() == 0,
{
    broadcast use vstd::seq_lib::to_multiset_len;

    let c = full_groups(gs);
    let r = regroup(c, pool);
    lemma_full_groups_of_three(gs);
    lemma_split_members(gs);
    assert(gs.flatten().to_multiset().len() == c.flatten().to_multiset().len()
        + partial_members(gs).to_multiset().len());
    assert(pool.to_multiset().len() == partial_members(gs).to_multiset().len());
    if total(gs) == 1 && c.len() > 0 {
        lemma_flatten_len_last(c);
        assert(c[c.len() - 1].len() == 3);
    }
    if pool.len() == 1 {
        if c.len() > 0 {
            assert(c[c.len() - 1].len() == 3);
            assert(forall|i: int| 0 <= i < c.len() - 1 ==> r[i] == c[i]);
            assert(r[c.len() - 1] == c.last().drop_last());
        }
    } else {
        lemma_small_groups_sizes(pool);
        assert(forall|i: int| 0 <= i < c.len() ==> r[i] == c[i]);
        assert(forall|i: int| c.len() <= i < r.len() ==> r[i] == small_groups(pool)[i - c.len()]);
    }
}

/// In incremental mode no group of the partition holds a single member when
/// there are two identifiers or more.
pub proof fn lemma_incremental_no_singleton(gs: Seq<Seq<String>>, pool: Seq<String>)
    requires
        pool.to_multiset() == partial_members(gs).to_multiset(),
        total(gs) >= 2,
    ensures
        forall|i: int|
            0 <= i < regroup(full_groups(gs), pool).len() ==> #[trigger] regroup(
                full_groups(gs),
                pool,
            )[i].len() != 1,
{
    broadcast use vstd::seq_lib::to_multiset_len;

    let c = full_groups(gs);
    let r = regroup(c, pool);
    lemma_full_groups_long(gs);
    lemma_split_members(gs);
    if pool.len() == 1 {
        if c.len() == 0 {
            assert(c.flatten() =~= Seq::<String>::empty());
            assert(gs.flatten().to_multiset().len() == pool.to_multiset().len());
        } else {
            assert(c[c.len() - 1].len() >= 3);
            assert(forall|i: int| 0 <= i < c.len() - 1 ==> r[i] == c[i]);
        }
    } else {
        lemma_small_groups_sizes(pool);
        assert(forall|i: int| 0 <= i < c.len() ==> r[i] == c[i]);
        assert(forall|i: int| c.len() <= i < r.len() ==> r[i] == small_groups(pool)[i - c.len()]);
    }
}

/// In incremental mode every group of three is kept as it is, in order, ahead
/// of the new groups; the one exception is the last of them when a lone member
/// was drawn: it gives up its last member, which pairs with the lone one in a
/// new group right after it.
pub proof fn lemma_incremental_keeps_full_groups(gs: Seq<Seq<String>>, pool: Seq<String>)
    requires
        forall|i: int| 0 <= i < gs.len() ==> #[trigger] gs[i].len() <= 3,
    ensures
        forall|i: int|
            0 <= i < gs.len() && gs[i].len() == 3 ==> #[trigger] full_groups(gs).contains(gs[i]),
        ({
            let c = full_groups(gs);
            let r = regroup(c, pool);
            &&& (pool.len() != 1 || c.len() == 0) ==> r.take(c.len() as int) == c
            &&& (pool.len() == 1 && c.len() > 0) ==> {
                &&& r.len() == c.len() + 1
                &&& r.take(c.len() - 1) == c.drop_last()
                &&& r[c.len() - 1] == c.last().drop_last()
                &&& r[c.len() as int] == seq![c.last().last(), pool[0]]
            }
        }),
{
    let c = full_groups(gs);
    let r = regroup(c, pool);
    lemma_full_groups_of_three(gs);
    assert forall|i: int| 0 <= i < gs.len() && gs[i].len() == 3 implies #[trigger] full_groups(
        gs,
    ).contains(gs[i]) by {
        gs.lemma_filter_contains(|g: Seq<String>| g.len() >= 3, i);
    }
    if pool.len() != 1 {
        assert(r.take(c.len() as int) =~= c);
    } else if c.len() == 0 {
        assert(r.take(0) =~= c);
    } else {
        assert(c[c.len() - 1].len() == 3);
        assert(r.take(c.len() - 1) =~= c.drop_last());
    }
}

/// Incremental mode returns a list of full groups unchanged, in order.
pub proof fn lemma_incremental_keeps_all_full(gs: Seq<Seq<String>>, pool: Seq<String>)
    requires
        forall|i: int| 0 <= i < gs.len() ==> #[trigger] gs[i].len() == 3,
        pool.to_multiset() == partial_members(gs).to_multiset(),
    ensures
        regroup(full_groups(gs), pool) == gs,
{
    broadcast use vstd::seq_lib::to_multiset_len;

    lemma_all_full_split(gs);
    vstd::seq_lib::to_multiset_len(pool);
    vstd::seq_lib::to_multiset_len(partial_members(gs));
    assert(pool.len() == 0);
    assert(gs + small_groups(pool) =~= gs);
}

proof fn lemma_all_full_split(gs: Seq<Seq<String>>)
    requires
        forall|i: int| 0 <= i < gs.len() ==> #[trigger] gs[i].len() == 3,
    ensures
        full_groups(gs) == gs,
        partial_members(gs).len() == 0,
    decreases gs.len(),
{
    if gs.len() == 0 {
        assert(full_groups(gs) =~= gs) by {
            reveal(Seq::filter);
        }
        assert(partial_members(gs) =~= Seq::<String>::empty()) by {
            reveal(Seq::filter);
        }
    } else {
        assert(forall|i: int| 0 <= i < gs.drop_last().len() ==> gs.drop_last()[i] == gs[i]);
        assert(gs[gs.len() - 1].len() == 3);
        lemma_all_full_split(gs.drop_last());
        lemma_split_step(gs);
        assert(gs.drop_last().push(gs.last()) =~= gs);
    }
}

} // verus!
