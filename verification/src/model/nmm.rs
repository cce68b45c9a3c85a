//! Greedy non-maximum merging over ranked candidates.
//!
//! Candidates are numbered `0..n`, ranked by the caller (largest first), and
//! `merges[i][j]` says whether a kept candidate `i` absorbs candidate `j`.
//! The grouping is decided here; the caller combines each group.
use vstd::prelude::*;
use crate::model::nms::{
    greedy_keep, lemma_filter_members, matrix_view, relates, spared_by, taken_by, well_ranked,
};

verus! {

broadcast use vstd::seq_lib::group_seq_properties, vstd::seq_lib::group_filter_ensures;

/// Greedy merging: the best remaining candidate heads a group that absorbs
/// every later candidate it takes; the others go on in ranking order.
pub open spec fn merge_groups(order: Seq<usize>, rel: Seq<Seq<bool>>) -> Seq<(usize, Seq<usize>)>
    decreases order.len(),
{
    if order.len() == 0 {
        Seq::empty()
    } else {
        let i = order[0];
        let tail = order.drop_first();
        proof {
            tail.lemma_filter_len(spared_by(rel, i));
        }
        seq![(i, tail.filter(taken_by(rel, i)))] + merge_groups(tail.filter(spared_by(rel, i)), rel)
    }
}

/// The groups with their member lists as sequences.
pub open spec fn groups_view(gs: Seq<(usize, Vec<usize>)>) -> Seq<(usize, Seq<usize>)> {
    gs.map_values(|g: (usize, Vec<usize>)| (g.0, g.1@))
}

/// The heads of the groups, in order.
pub open spec fn heads(gs: Seq<(usize, Seq<usize>)>) -> Seq<usize> {
    gs.map_values(|g: (usize, Seq<usize>)| g.0)
}

/// How many candidates the groups hold, heads included.
pub open spec fn group_total(gs: Seq<(usize, Seq<usize>)>) -> nat
    decreases gs.len(),
{
    if gs.len() == 0 {
        0
    } else {
        1 + gs[0].1.len() + group_total(gs.drop_first())
    }
}

/// Splitting a sequence by a predicate and its negation loses nothing.
pub proof fn lemma_filter_split_len(s: Seq<usize>, p: spec_fn(usize) -> bool, q: spec_fn(usize) -> bool)
    requires
        forall|x: usize| #[trigger] q(x) == !p(x),
    ensures
        s.filter(p).len() + s.filter(q).len() == s.len(),
    decreases s.len(),
{
    reveal(Seq::filter);
    if s.len() > 0 {
        lemma_filter_split_len(s.drop_last(), p, q);
    }
}

/// The heads of the merge groups are exactly what greedy suppression with the
/// same relation keeps.
pub proof fn lemma_merge_heads(order: Seq<usize>, rel: Seq<Seq<bool>>)
    ensures
        heads(merge_groups(order, rel)) == greedy_keep(order, rel),
    decreases order.len(),
{
    if order.len() > 0 {
        let i = order[0];
        let tail = order.drop_first();
        let rest = tail.filter(spared_by(rel, i));
        tail.lemma_filter_len(spared_by(rel, i));
        lemma_merge_heads(rest, rel);
        let gs = merge_groups(order, rel);
        assert(heads(gs) =~= seq![i] + heads(merge_groups(rest, rel)));
    }
}

/// Every member of a group is taken by the group's head.
pub proof fn lemma_merge_members_taken(order: Seq<usize>, rel: Seq<Seq<bool>>)
    ensures
        forall|g: int, m: int|
            0 <= g < merge_groups(order, rel).len() && 0 <= m < merge_groups(order, rel)[g].1.len()
                ==> relates(
                rel,
                merge_groups(order, rel)[g].0,
                #[trigger] merge_groups(order, rel)[g].1[m],
            ),
    decreases order.len(),
{
    if order.len() > 0 {
        let i = order[0];
        let tail = order.drop_first();
        let rest = tail.filter(spared_by(rel, i));
        tail.lemma_filter_len(spared_by(rel, i));
        lemma_merge_members_taken(rest, rel);
        let gs = merge_groups(order, rel);
        assert forall|g: int, m: int|
            0 <= g < gs.len() && 0 <= m < gs[g].1.len() implies relates(
            rel,
            gs[g].0,
            #[trigger] gs[g].1[m],
        ) by {
            if g == 0 {
                tail.lemma_filter_pred(taken_by(rel, i), m);
            } else {
                assert(gs[g] == merge_groups(rest, rel)[g - 1]);
            }
        }
    }
}

/// The groups hold as many candidates as the ranking: each candidate lands in
/// exactly one group, as head or as member.
pub proof fn lemma_merge_total(order: Seq<usize>, rel: Seq<Seq<bool>>)
    ensures
        group_total(merge_groups(order, rel)) == order.len(),
    decreases order.len(),
{
    if order.len() > 0 {
        let i = order[0];
        let tail = order.drop_first();
        let rest = tail.filter(spared_by(rel, i));
        tail.lemma_filter_len(spared_by(rel, i));
        lemma_merge_total(rest, rel);
        lemma_filter_split_len(tail, taken_by(rel, i), spared_by(rel, i));
        let gs = merge_groups(order, rel);
        assert(gs.drop_first() =~= merge_groups(rest, rel));
    }
}

/// Group `g` exists and holds `x`, as head or as member.
pub open spec fn holds_candidate(gs: Seq<(usize, Seq<usize>)>, g: int, x: usize) -> bool {
    0 <= g < gs.len() && (gs[g].0 == x || gs[g].1.contains(x))
}

/// Every candidate of the ranking heads a group or belongs to one.
pub proof fn lemma_merge_covers(order: Seq<usize>, rel: Seq<Seq<bool>>, x: usize)
    requires
        order.contains(x),
    ensures
        exists|g: int| #[trigger] holds_candidate(merge_groups(order, rel), g, x),
    decreases order.len(),
{
    let i = order[0];
    let tail = order.drop_first();
    let rest = tail.filter(spared_by(rel, i));
    tail.lemma_filter_len(spared_by(rel, i));
    let gs = merge_groups(order, rel);
    if x == i {
        assert(holds_candidate(gs, 0, x));
    } else {
        let m = choose|m: int| 0 <= m < order.len() && order[m] == x;
        assert(tail[m - 1] == x);
        assert(tail.contains(x));
        if relates(rel, i, x) {
            lemma_filter_members(tail, taken_by(rel, i), x);
            assert(holds_candidate(gs, 0, x));
        } else {
            lemma_filter_members(tail, spared_by(rel, i), x);
            lemma_merge_covers(rest, rel, x);
            let g = choose|g: int| #[trigger] holds_candidate(merge_groups(rest, rel), g, x);
            assert(gs[g + 1] == merge_groups(rest, rel)[g]);
            assert(holds_candidate(gs, g + 1, x));
        }
    }
}

/// Groups the candidates for merging: walking the ranking best first, each
/// candidate still standing heads a group and absorbs every later candidate
/// that `merges[head][later]` marks; the heads come out in ranking order,
/// each with its members in ranking order.
pub fn merge_plan(order: &Vec<usize>, merges: &Vec<Vec<bool>>) -> (groups: Vec<(usize, Vec<usize>)>)
    requires
        well_ranked(order@, matrix_view(merges@)),
    ensures
        groups_view(groups@) == merge_groups(order@, matrix_view(merges@)),
{
    let ghost rel = matrix_view(merges@);
    let mut groups: Vec<(usize, Vec<usize>)> = Vec::new();
    let mut remaining: Vec<usize> = order.clone();
    while remaining.len() > 0
        invariant
            rel == matrix_view(merges@),
            well_ranked(remaining@, rel),
            groups_view(groups@) + merge_groups(remaining@, rel) == merge_groups(order@, rel),
        decreases remaining.len(),
    {
        let i = remaining[0];
        let ghost p = spared_by(rel, i);
        let ghost q = taken_by(rel, i);
        let mut next: Vec<usize> = Vec::new();
        let mut members: Vec<usize> = Vec::new();
        let mut k: usize = 1;
        while k < remaining.len()
            invariant
                rel == matrix_view(merges@),
                well_ranked(remaining@, rel),
                i == remaining@[0],
                p == spared_by(rel, i),
                q == taken_by(rel, i),
                1 <= k <= remaining.len(),
                next@ == remaining@.subrange(1, k as int).filter(p),
                members@ == remaining@.subrange(1, k as int).filter(q),
                well_ranked(next@, rel),
            decreases remaining.len() - k,
        {
            let j = remaining[k];
            assert(remaining@.subrange(1, k + 1) =~= remaining@.subrange(1, k as int).push(j));
            proof {
                remaining@.subrange(1, k as int).lemma_filter_push(j, p);
                remaining@.subrange(1, k as int).lemma_filter_push(j, q);
            }
            assert(i < merges.len());
            assert(merges@[i as int]@.len() == rel.len());
            if merges[i][j] {
                members.push(j);
            } else {
                next.push(j);
            }
            k += 1;
        }
        assert(remaining@.subrange(1, remaining@.len() as int) =~= remaining@.drop_first());
        let ghost before = groups_view(groups@);
        groups.push((i, members));
        assert(groups_view(groups@) =~= before.push((i, remaining@.drop_first().filter(q))));
        assert(merge_groups(remaining@, rel) =~= seq![(i, remaining@.drop_first().filter(q))]
            + merge_groups(next@, rel));
        proof {
            remaining@.drop_first().lemma_filter_len(p);
        }
        remaining = next;
    }
    assert(groups_view(groups@) + merge_groups(remaining@, rel) =~= groups_view(groups@));
    groups
}

} // verus!
