use vstd::prelude::*;

use crate::group::Group;
use crate::partition::{
    group_singletons, groups_view, lemma_flatten_last, lemma_flatten_len_last, lemma_groups_view_push,
    lemma_sizes_between_concat, lemma_small_groups_flatten, lemma_small_groups_sizes,
    sizes_between, sizes_valid, small_groups, split_into_small_groups, total,
};
use vstd::seq_lib::{lemma_flatten_concat, lemma_multiset_commutative};

verus! {

/// A group of more than three is cut by `small_groups`, an empty group is
/// dropped, and any other stays as it is.
pub open spec fn split_if_oversized(g: Seq<String>) -> Seq<Seq<String>> {
    if g.len() == 0 {
        Seq::empty()
    } else if g.len() <= 3 {
        seq![g]
    } else {
        small_groups(g)
    }
}

/// Each group split as `split_if_oversized` says, in order.
pub open spec fn split_each(gs: Seq<Seq<String>>) -> Seq<Seq<String>> {
    gs.flat_map(|g: Seq<String>| split_if_oversized(g))
}

/// Moves pending members to the end of the last group while it has fewer than
/// three members.
pub open spec fn offer_to_last(res: Seq<Seq<String>>, pend: Seq<String>) -> (Seq<Seq<String>>, Seq<String>) {
    if pend.len() > 0 && res.len() > 0 && res.last().len() < 3 {
        let room = 3 - res.last().len();
        let take = if room < pend.len() { room } else { pend.len() as int };
        (res.drop_last().push(res.last() + pend.take(take)), pend.skip(take))
    } else {
        (res, pend)
    }
}

/// Offers the pending members to the last group, then forms groups of two or
/// three from what is still pending, if two or more are.
pub open spec fn settle_pending(res: Seq<Seq<String>>, pend: Seq<String>) -> (Seq<Seq<String>>, Seq<String>) {
    let offered = offer_to_last(res, pend);
    if offered.1.len() >= 2 {
        (offered.0 + small_groups(offered.1), Seq::empty())
    } else {
        offered
    }
}

/// One step of the merge: a group of one joins the pending members, which
/// become a group as soon as two or three are pending; any other group first
/// settles what is pending, then takes a last pending member at its front if
/// it has room, and is emitted.
pub open spec fn merge_step(st: (Seq<Seq<String>>, Seq<String>), g: Seq<String>) -> (Seq<Seq<String>>, Seq<String>) {
    if g.len() == 1 {
        let p = st.1 + g;
        if 2 <= p.len() <= 3 {
            (st.0.push(p), Seq::empty())
        } else {
            (st.0, p)
        }
    } else {
        let settled = settle_pending(st.0, st.1);
        if settled.1.len() == 1 && g.len() < 3 {
            (settled.0.push(settled.1 + g), Seq::empty())
        } else {
            (settled.0.push(g), settled.1)
        }
    }
}

/// The emitted groups and the pending members after merging every group of `gs`.
pub open spec fn merge_all(gs: Seq<Seq<String>>) -> (Seq<Seq<String>>, Seq<String>)
    decreases gs.len(),
{
    if gs.len() == 0 {
        (Seq::empty(), Seq::empty())
    } else {
        merge_step(merge_all(gs.drop_last()), gs.last())
    }
}

/// Settles what is still pending at the end; a single member that is left
/// joins the last group. Where there is no group at all, that member is the
/// only identifier, which cannot form a group, and it is left out.
pub open spec fn close_pending(st: (Seq<Seq<String>>, Seq<String>)) -> Seq<Seq<String>> {
    let settled = settle_pending(st.0, st.1);
    if settled.1.len() == 1 && settled.0.len() > 0 {
        settled.0.drop_last().push(settled.0.last() + settled.1)
    } else {
        settled.0
    }
}

/// The partition that batch mode makes of `gs`: oversized groups are split and
/// empty ones dropped, groups of one are merged, and what the merge left
/// oversized is split again.
pub open spec fn batch_partition(gs: Seq<Seq<String>>) -> Seq<Seq<String>> {
    split_each(close_pending(merge_all(split_each(gs))))
}

/// Splits every group of more than three members and drops empty groups,
/// keeping the order.
fn split_oversized(groups: Vec<Group>) -> (r: Vec<Group>)
    ensures
        groups_view(r@) == split_each(groups_view(groups@)),
{
    let ghost all = groups@;
    let mut result: Vec<Group> = Vec::new();
    for group in it: groups
        invariant
            it.seq() == all,
            groups_view(result@) == split_each(groups_view(all.take(it.index() as int))),
    {
        let ghost i = it.index() as int;
        proof {
            assert(all.take(i + 1) =~= all.take(i).push(group));
            lemma_groups_view_push(all.take(i), group);
            groups_view(all.take(i)).lemma_flat_map_push(|g: Seq<String>| split_if_oversized(g), group@);
        }
        if group.members.len() == 0 {
            proof {
                assert(groups_view(result@) + Seq::<Seq<String>>::empty() =~= groups_view(result@));
            }
        } else if group.members.len() <= 3 {
            proof {
                lemma_groups_view_push(result@, group);
            }
            result.push(group);
        } else {
            let mut small = split_into_small_groups(group.members);
            proof {
                assert(groups_view(result@ + small@) =~= groups_view(result@) + groups_view(small@));
            }
            result.append(&mut small);
        }
    }
    proof {
        assert(all.take(all.len() as int) =~= all);
    }
    result
}

/// Offers the pending members to the last group, then groups what is still
/// pending among themselves.
fn settle(result: &mut Vec<Group>, pending: &mut Vec<String>)
    ensures
        (groups_view(final(result)@), final(pending)@) == settle_pending(
            groups_view(old(result)@),
            old(pending)@,
        ),
{
    if pending.len() > 0 && result.len() > 0 {
        let mut last = result.pop().unwrap();
        if last.members.len() < 3 {
            let room = 3 - last.members.len();
            let take = if room < pending.len() {
                room
            } else {
                pending.len()
            };
            let ghost before = pending@;
            let mut taken = pending.split_off(take);
            std::mem::swap(pending, &mut taken);
            proof {
                assert(taken@ =~= before.take(take as int));
            }
            last.members.append(&mut taken);
        }
        proof {
            assert(groups_view(old(result)@).drop_last() =~= groups_view(result@));
            lemma_groups_view_push(result@, last);
        }
        result.push(last);
        proof {
            let offered = offer_to_last(groups_view(old(result)@), old(pending)@);
            assert(offered.0 =~= groups_view(result@));
        }
    }
    let mut formed = group_singletons(pending);
    proof {
        assert(groups_view(result@ + formed@) =~= groups_view(result@) + groups_view(formed@));
        assert(groups_view(result@) + Seq::<Seq<String>>::empty() =~= groups_view(result@));
    }
    result.append(&mut formed);
}

/// Reorganises groups given as blocks: every group of more than three is split
/// into groups of two or three, groups of one are merged with their
/// neighbours or with each other, empty groups are dropped, and any other
/// group is kept as it is. A single identifier in all cannot form a group and
/// gives none.
pub fn reorganize_batch_groups(groups: Vec<Group>) -> (r: Vec<Group>)
    ensures
        groups_view(r@) == batch_partition(groups_view(groups@)),
{
    let split_groups = split_oversized(groups);
    let ghost split = split_groups@;
    let mut result_groups: Vec<Group> = Vec::new();
    let mut pending: Vec<String> = Vec::new();
    for group in it: split_groups
        invariant
            it.seq() == split,
            (groups_view(result_groups@), pending@) == merge_all(
                groups_view(split.take(it.index() as int)),
            ),
    {
        let ghost i = it.index() as int;
        proof {
            assert(split.take(i + 1) =~= split.take(i).push(group));
            lemma_groups_view_push(split.take(i), group);
            assert(groups_view(split.take(i + 1)).drop_last() =~= groups_view(split.take(i)));
        }
        if group.members.len() == 1 {
            let mut single = group;
            pending.append(&mut single.members);
            if pending.len() >= 2 && pending.len() <= 3 {
                let mut new_group = Group::new();
                std::mem::swap(&mut new_group.members, &mut pending);
                proof {
                    lemma_groups_view_push(result_groups@, new_group);
                }
                result_groups.push(new_group);
            }
        } else {
            let ghost grp = group@;
            settle(&mut result_groups, &mut pending);
            let ghost settled = pending@;
            if pending.len() == 1 && group.members.len() < 3 {
                let mut merged = group;
                let member = pending.pop().unwrap();
                merged.members.insert(0, member);
                proof {
                    assert(merged@ =~= settled + grp);
                    assert(pending@ =~= Seq::<String>::empty());
                    lemma_groups_view_push(result_groups@, merged);
                }
                result_groups.push(merged);
            } else {
                proof {
                    lemma_groups_view_push(result_groups@, group);
                }
                result_groups.push(group);
            }
        }
    }
    proof {
        assert(split.take(split.len() as int) =~= split);
    }
    let ghost merged = merge_all(groups_view(split));
    settle(&mut result_groups, &mut pending);
    let ghost settled = (groups_view(result_groups@), pending@);
    if pending.len() == 1 && result_groups.len() > 0 {
        let mut last = result_groups.pop().unwrap();
        proof {
            assert(settled.0.drop_last() =~= groups_view(result_groups@));
        }
        last.members.append(&mut pending);
        proof {
            lemma_groups_view_push(result_groups@, last);
        }
        result_groups.push(last);
    }
    proof {
        assert(groups_view(result_groups@) =~= close_pending(merged));
    }
    split_oversized(result_groups)
}

proof fn lemma_split_each_last(gs: Seq<Seq<String>>)
    requires
        gs.len() > 0,
    ensures
        split_each(gs) == split_each(gs.drop_last()) + split_if_oversized(gs.last()),
{
    gs.drop_last().lemma_flat_map_push(|g: Seq<String>| split_if_oversized(g), gs.last());
    assert(gs.drop_last().push(gs.last()) =~= gs);
}

proof fn lemma_split_if_oversized_flatten(g: Seq<String>)
    ensures
        split_if_oversized(g).flatten() == g,
{
    if g.len() == 0 {
        assert(split_if_oversized(g).flatten() =~= g);
    } else if g.len() <= 3 {
        seq![g].lemma_flatten_one_element();
    } else {
        lemma_small_groups_flatten(g);
    }
}

proof fn lemma_split_each_flatten(gs: Seq<Seq<String>>)
    ensures
        split_each(gs).flatten() == gs.flatten(),
    decreases gs.len(),
{
    if gs.len() == 0 {
        assert(split_each(gs) =~= Seq::<Seq<String>>::empty());
    } else {
        lemma_split_each_flatten(gs.drop_last());
        lemma_split_each_last(gs);
        lemma_flatten_concat(split_each(gs.drop_last()), split_if_oversized(gs.last()));
        lemma_split_if_oversized_flatten(gs.last());
        lemma_flatten_last(gs);
    }
}

proof fn lemma_offer_flatten(res: Seq<Seq<String>>, pend: Seq<String>)
    ensures
        offer_to_last(res, pend).0.flatten() + offer_to_last(res, pend).1 == res.flatten() + pend,
{
    let o = offer_to_last(res, pend);
    if pend.len() > 0 && res.len() > 0 && res.last().len() < 3 {
        let room = 3 - res.last().len();
        let take = if room < pend.len() { room } else { pend.len() as int };
        lemma_flatten_last(res);
        res.drop_last().lemma_flatten_push(res.last() + pend.take(take));
        assert(pend.take(take) + pend.skip(take) =~= pend);
        assert(o.0.flatten() + o.1 =~= res.flatten() + pend);
    }
}

proof fn lemma_settle_flatten(res: Seq<Seq<String>>, pend: Seq<String>)
    ensures
        settle_pending(res, pend).0.flatten() + settle_pending(res, pend).1 == res.flatten() + pend,
{
    let o = offer_to_last(res, pend);
    lemma_offer_flatten(res, pend);
    if o.1.len() >= 2 {
        lemma_flatten_concat(o.0, small_groups(o.1));
        lemma_small_groups_flatten(o.1);
        assert(o.0.flatten() + o.1 + Seq::<String>::empty() =~= o.0.flatten() + o.1);
    }
}

proof fn lemma_merge_step_members(st: (Seq<Seq<String>>, Seq<String>), g: Seq<String>)
    ensures
        (merge_step(st, g).0.flatten() + merge_step(st, g).1).to_multiset() == (st.0.flatten()
            + st.1 + g).to_multiset(),
{
    broadcast use lemma_multiset_commutative;

    let m = merge_step(st, g);
    if g.len() == 1 {
        let p = st.1 + g;
        if 2 <= p.len() <= 3 {
            st.0.lemma_flatten_push(p);
            assert(m.0.flatten() + m.1 =~= st.0.flatten() + st.1 + g);
        } else {
            assert(m.0.flatten() + m.1 =~= st.0.flatten() + st.1 + g);
        }
    } else {
        let s = settle_pending(st.0, st.1);
        lemma_settle_flatten(st.0, st.1);
        if s.1.len() == 1 && g.len() < 3 {
            s.0.lemma_flatten_push(s.1 + g);
            assert(m.0.flatten() + m.1 =~= st.0.flatten() + st.1 + g);
        } else {
            s.0.lemma_flatten_push(g);
            assert((m.0.flatten() + m.1).to_multiset() =~= (st.0.flatten() + st.1 + g).to_multiset());
        }
    }
}

proof fn lemma_merge_all_members(gs: Seq<Seq<String>>)
    ensures
        (merge_all(gs).0.flatten() + merge_all(gs).1).to_multiset() == gs.flatten().to_multiset(),
    decreases gs.len(),
{
    broadcast use lemma_multiset_commutative;

    if gs.len() == 0 {
        assert(merge_all(gs).0.flatten() + merge_all(gs).1 =~= gs.flatten());
    } else {
        let prev = merge_all(gs.drop_last());
        lemma_merge_all_members(gs.drop_last());
        lemma_merge_step_members(prev, gs.last());
        lemma_flatten_last(gs);
        assert((prev.0.flatten() + prev.1 + gs.last()).to_multiset() =~= (gs.drop_last().flatten()
            + gs.last()).to_multiset());
    }
}

proof fn lemma_close_flatten(st: (Seq<Seq<String>>, Seq<String>))
    requires
        st.0.len() > 0 || st.1.len() != 1,
    ensures
        close_pending(st).flatten() == st.0.flatten() + st.1,
{
    let s = settle_pending(st.0, st.1);
    lemma_settle_flatten(st.0, st.1);
    if s.1.len() == 1 {
        lemma_flatten_last(s.0);
        s.0.drop_last().lemma_flatten_push(s.0.last() + s.1);
        assert(close_pending(st).flatten() =~= s.0.flatten() + s.1);
    } else {
        assert(s.0.flatten() + s.1 =~= s.0.flatten());
    }
}

/// A merge that emitted no group leaves pending every identifier there is.
proof fn lemma_merged_nothing(gs: Seq<Seq<String>>)
    requires
        merge_all(split_each(gs)).0.len() == 0,
    ensures
        merge_all(split_each(gs)).1.len() == total(gs),
{
    broadcast use vstd::seq_lib::to_multiset_len;

    let merged = merge_all(split_each(gs));
    lemma_merge_all_members(split_each(gs));
    lemma_split_each_flatten(gs);
    assert(merged.0.flatten() + merged.1 =~= merged.1);
    assert(merged.1.to_multiset().len() == gs.flatten().to_multiset().len());
}

/// Batch mode keeps every identifier: the partition holds exactly the members
/// that the groups held, each as many times. The one exception is a single
/// identifier in all, which cannot form a group and is left out.
pub proof fn lemma_batch_conserves(gs: Seq<Seq<String>>)
    requires
        total(gs) != 1,
    ensures
        batch_partition(gs).flatten().to_multiset() == gs.flatten().to_multiset(),
{
    lemma_split_each_flatten(gs);
    lemma_merge_all_members(split_each(gs));
    if merge_all(split_each(gs)).0.len() == 0 {
        lemma_merged_nothing(gs);
    }
    lemma_close_flatten(merge_all(split_each(gs)));
    lemma_split_each_flatten(close_pending(merge_all(split_each(gs))));
}

proof fn lemma_split_each_sizes(gs: Seq<Seq<String>>, lo: nat)
    requires
        1 <= lo <= 2,
        forall|i: int| 0 <= i < gs.len() ==> #[trigger] gs[i].len() == 0 || lo <= gs[i].len(),
    ensures
        sizes_between(split_each(gs), lo, 3),
    decreases gs.len(),
{
    if gs.len() == 0 {
        assert(split_each(gs) =~= Seq::<Seq<String>>::empty());
    } else {
        let g = gs.last();
        assert(gs[gs.len() - 1].len() == 0 || lo <= gs[gs.len() - 1].len());
        assert(forall|i: int| 0 <= i < gs.drop_last().len() ==> gs.drop_last()[i] == gs[i]);
        lemma_split_each_sizes(gs.drop_last(), lo);
        lemma_split_each_last(gs);
        if g.len() > 3 {
            lemma_small_groups_sizes(g);
        }
        assert(sizes_between(split_if_oversized(g), lo, 3));
        lemma_sizes_between_concat(split_each(gs.drop_last()), split_if_oversized(g), lo, 3);
    }
}

proof fn lemma_settle_sizes(res: Seq<Seq<String>>, pend: Seq<String>)
    requires
        sizes_valid(res),
        pend.len() <= 1,
    ensures
        sizes_valid(settle_pending(res, pend).0),
        settle_pending(res, pend).1.len() <= 1,
        settle_pending(res, pend).0.len() == res.len(),
        settle_pending(res, pend).1.len() == 1 && res.len() > 0 ==> settle_pending(
            res,
            pend,
        ).0.last().len() == 3,
{
    let s = settle_pending(res, pend);
    if pend.len() > 0 && res.len() > 0 && res.last().len() < 3 {
        assert(res[res.len() - 1].len() >= 2);
        assert forall|i: int| 0 <= i < s.0.len() implies 2 <= #[trigger] s.0[i].len() <= 3 by {
            if i < res.len() - 1 {
                assert(s.0[i] == res[i]);
            }
        }
    }
    if res.len() > 0 {
        assert(res[res.len() - 1].len() <= 3);
    }
}

proof fn lemma_merge_step_sizes(st: (Seq<Seq<String>>, Seq<String>), g: Seq<String>)
    requires
        sizes_valid(st.0),
        st.1.len() <= 1,
        1 <= g.len() <= 3,
    ensures
        sizes_valid(merge_step(st, g).0),
        merge_step(st, g).1.len() <= 1,
{
    let m = merge_step(st, g);
    if g.len() == 1 {
        let p = st.1 + g;
        if 2 <= p.len() <= 3 {
            assert(m.0.last() == p);
            assert(forall|i: int| 0 <= i < st.0.len() ==> m.0[i] == st.0[i]);
        }
    } else {
        let s = settle_pending(st.0, st.1);
        lemma_settle_sizes(st.0, st.1);
        assert(forall|i: int| 0 <= i < s.0.len() ==> m.0[i] == s.0[i]);
        if s.1.len() == 1 && g.len() < 3 {
            assert(m.0.last() == s.1 + g);
        } else {
            assert(m.0.last() == g);
        }
    }
}

proof fn lemma_merge_all_sizes(gs: Seq<Seq<String>>)
    requires
        sizes_between(gs, 1, 3),
    ensures
        sizes_valid(merge_all(gs).0),
        merge_all(gs).1.len() <= 1,
    decreases gs.len(),
{
    if gs.len() > 0 {
        assert(sizes_between(gs.drop_last(), 1, 3)) by {
            assert(forall|i: int| 0 <= i < gs.drop_last().len() ==> gs.drop_last()[i] == gs[i]);
        }
        assert(1 <= gs[gs.len() - 1].len() <= 3);
        lemma_merge_all_sizes(gs.drop_last());
        lemma_merge_step_sizes(merge_all(gs.drop_last()), gs.last());
    }
}

proof fn lemma_close_sizes(st: (Seq<Seq<String>>, Seq<String>))
    requires
        sizes_valid(st.0),
        st.1.len() <= 1,
    ensures
        sizes_between(close_pending(st), 2, 4),
{
    let s = settle_pending(st.0, st.1);
    lemma_settle_sizes(st.0, st.1);
    if s.1.len() == 1 && s.0.len() > 0 {
        let c = close_pending(st);
        assert(forall|i: int| 0 <= i < s.0.len() - 1 ==> c[i] == s.0[i]);
        assert(c.last() == s.0.last() + s.1);
        assert(forall|i: int| 0 <= i < c.len() - 1 ==> 2 <= #[trigger] c[i].len() <= 3);
    }
}

/// In batch mode every group of the partition holds two or three members,
/// whatever groups, empty ones included, were given.
pub proof fn lemma_batch_sizes(gs: Seq<Seq<String>>)
    ensures
        sizes_valid(batch_partition(gs)),
{
    lemma_split_each_sizes(gs, 1);
    let split = split_each(gs);
    let merged = merge_all(split);
    lemma_merge_all_sizes(split);
    lemma_close_sizes(merged);
    lemma_split_each_sizes(close_pending(merged), 2);
}

/// In batch mode, where there are two identifiers or more, no group of the
/// partition holds a single member.
pub proof fn lemma_batch_no_singleton(gs: Seq<Seq<String>>)
    requires
        total(gs) >= 2,
    ensures
        forall|i: int|
            0 <= i < batch_partition(gs).len() ==> #[trigger] batch_partition(gs)[i].len() != 1,
{
    lemma_batch_sizes(gs);
}

/// In batch mode a single identifier in all gives no group.
pub proof fn lemma_batch_single_identifier(gs: Seq<Seq<String>>)
    requires
        total(gs) == 1,
    ensures
        batch_partition(gs).len() == 0,
{
    broadcast use vstd::seq_lib::to_multiset_len;

    let split = split_each(gs);
    let merged = merge_all(split);
    lemma_split_each_sizes(gs, 1);
    lemma_merge_all_sizes(split);
    lemma_merge_all_members(split);
    lemma_split_each_flatten(gs);
    if merged.0.len() > 0 {
        lemma_flatten_len_last(merged.0);
        assert(merged.0[merged.0.len() - 1].len() >= 2);
        assert((merged.0.flatten() + merged.1).to_multiset().len() == gs.flatten().to_multiset().len());
        assert(false);
    }
    lemma_merged_nothing(gs);
    assert(close_pending(merged) =~= Seq::<Seq<String>>::empty());
    assert(split_each(Seq::<Seq<String>>::empty()) =~= Seq::<Seq<String>>::empty());
}

proof fn lemma_split_each_keeps_small(gs: Seq<Seq<String>>)
    requires
        forall|i: int| 0 <= i < gs.len() ==> 1 <= #[trigger] gs[i].len() <= 3,
    ensures
        split_each(gs) == gs,
    decreases gs.len(),
{
    if gs.len() == 0 {
        assert(split_each(gs) =~= gs);
    } else {
        assert(1 <= gs[gs.len() - 1].len() <= 3);
        assert(forall|i: int| 0 <= i < gs.drop_last().len() ==> gs.drop_last()[i] == gs[i]);
        lemma_split_each_keeps_small(gs.drop_last());
        lemma_split_each_last(gs);
        assert(gs.drop_last() + seq![gs.last()] =~= gs);
    }
}

proof fn lemma_merge_all_full(gs: Seq<Seq<String>>)
    requires
        forall|i: int| 0 <= i < gs.len() ==> #[trigger] gs[i].len() == 3,
    ensures
        merge_all(gs) == (gs, Seq::<String>::empty()),
    decreases gs.len(),
{
    if gs.len() > 0 {
        assert(gs[gs.len() - 1].len() == 3);
        assert(forall|i: int| 0 <= i < gs.drop_last().len() ==> gs.drop_last()[i] == gs[i]);
        lemma_merge_all_full(gs.drop_last());
        assert(gs.drop_last().push(gs.last()) =~= gs);
    }
}

/// In batch mode a list of full groups comes back unchanged, in order.
pub proof fn lemma_batch_keeps_full_groups(gs: Seq<Seq<String>>)
    requires
        forall|i: int| 0 <= i < gs.len() ==> #[trigger] gs[i].len() == 3,
    ensures
        batch_partition(gs) == gs,
{
    lemma_split_each_keeps_small(gs);
    lemma_merge_all_full(gs);
    lemma_split_each_keeps_small(gs);
}

} // verus!
