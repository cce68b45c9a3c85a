//! Greedy non-maximum suppression over ranked candidates.
//!
//! Candidates are numbered `0..n`. The caller ranks them (best first) and
//! says, for every pair, whether keeping the first suppresses the second.
//! The selection itself is decided here.
use vstd::prelude::*;

verus! {

broadcast use vstd::seq_lib::group_seq_properties, vstd::seq_lib::group_filter_ensures;

/// The relation `rel[i][j]`, read as "keeping `i` removes `j`".
pub open spec fn relates(rel: Seq<Seq<bool>>, i: usize, j: usize) -> bool {
    rel[i as int][j as int]
}

/// The candidates that survive next to a kept candidate `i`.
pub open spec fn spared_by(rel: Seq<Seq<bool>>, i: usize) -> spec_fn(usize) -> bool {
    |j: usize| !relates(rel, i, j)
}

/// The candidates that a kept candidate `i` takes away.
pub open spec fn taken_by(rel: Seq<Seq<bool>>, i: usize) -> spec_fn(usize) -> bool {
    |j: usize| relates(rel, i, j)
}

/// A square relation over `0..n` and a ranking whose entries all lie in `0..n`.
pub open spec fn well_ranked(order: Seq<usize>, rel: Seq<Seq<bool>>) -> bool {
    &&& forall|k: int| 0 <= k < order.len() ==> #[trigger] order[k] < rel.len()
    &&& forall|i: int| 0 <= i < rel.len() ==> #[trigger] rel[i].len() == rel.len()
}

/// The rows of a boolean matrix as sequences.
pub open spec fn matrix_view(m: Seq<Vec<bool>>) -> Seq<Seq<bool>> {
    m.map_values(|row: Vec<bool>| row@)
}

/// Greedy selection: keep the best remaining candidate, drop every candidate
/// that it removes, and go on with the rest in ranking order.
pub open spec fn greedy_keep(order: Seq<usize>, rel: Seq<Seq<bool>>) -> Seq<usize>
    decreases order.len(),
{
    if order.len() == 0 {
        Seq::empty()
    } else {
        let i = order[0];
        let rest = order.drop_first().filter(spared_by(rel, i));
        proof {
            order.drop_first().lemma_filter_len(spared_by(rel, i));
        }
        seq![i] + greedy_keep(rest, rel)
    }
}

/// Every element of `s` satisfies `p`.
pub open spec fn all_satisfy(s: Seq<usize>, p: spec_fn(usize) -> bool) -> bool {
    forall|k: int| 0 <= k < s.len() ==> #[trigger] p(s[k])
}

/// Filtering keeps the elements that satisfy the predicate and nothing else.
pub proof fn lemma_filter_members(s: Seq<usize>, p: spec_fn(usize) -> bool, x: usize)
    ensures
        s.filter(p).contains(x) <==> (s.contains(x) && p(x)),
{
    if s.filter(p).contains(x) {
        s.lemma_filter_contains_rev(p, x);
        let k = choose|k: int| 0 <= k < s.filter(p).len() && s.filter(p)[k] == x;
        s.lemma_filter_pred(p, k);
    }
    if s.contains(x) && p(x) {
        let k = choose|k: int| 0 <= k < s.len() && s[k] == x;
        s.lemma_filter_contains(p, k);
    }
}

/// Filtering a sequence whose elements all satisfy the predicate changes nothing.
pub proof fn lemma_filter_all(s: Seq<usize>, p: spec_fn(usize) -> bool)
    requires
        all_satisfy(s, p),
    ensures
        s.filter(p) == s,
    decreases s.len(),
{
    reveal(Seq::filter);
    if s.len() > 0 {
        assert(p(s[s.len() - 1]));
        lemma_filter_all(s.drop_last(), p);
        assert(s.drop_last().push(s.last()) =~= s);
    }
}

/// Every kept candidate comes from the ranking.
pub proof fn lemma_greedy_members(order: Seq<usize>, rel: Seq<Seq<bool>>, x: usize)
    ensures
        greedy_keep(order, rel).contains(x) ==> order.contains(x),
    decreases order.len(),
{
    if order.len() > 0 {
        let i = order[0];
        let rest = order.drop_first().filter(spared_by(rel, i));
        order.drop_first().lemma_filter_len(spared_by(rel, i));
        lemma_greedy_members(rest, rel, x);
        let g = greedy_keep(order, rel);
        if g.contains(x) && x != i {
            let k = choose|k: int| 0 <= k < g.len() && g[k] == x;
            assert(greedy_keep(rest, rel)[k - 1] == x);
            assert(greedy_keep(rest, rel).contains(x));
            lemma_filter_members(order.drop_first(), spared_by(rel, i), x);
            let m = choose|m: int| 0 <= m < order.drop_first().len() && order.drop_first()[m] == x;
            assert(order[m + 1] == x);
        }
        if x == i {
            assert(order[0] == x);
        }
    }
}

/// Soundness: no kept candidate removes a candidate kept after it.
pub proof fn lemma_greedy_sound(order: Seq<usize>, rel: Seq<Seq<bool>>)
    ensures
        forall|a: int, b: int|
            0 <= a < b < greedy_keep(order, rel).len() ==> !relates(
                rel,
                #[trigger] greedy_keep(order, rel)[a],
                #[trigger] greedy_keep(order, rel)[b],
            ),
    decreases order.len(),
{
    if order.len() > 0 {
        let i = order[0];
        let rest = order.drop_first().filter(spared_by(rel, i));
        order.drop_first().lemma_filter_len(spared_by(rel, i));
        lemma_greedy_sound(rest, rel);
        let g = greedy_keep(order, rel);
        let h = greedy_keep(rest, rel);
        assert forall|a: int, b: int| 0 <= a < b < g.len() implies !relates(
            rel,
            #[trigger] g[a],
            #[trigger] g[b],
        ) by {
            assert(g[b] == h[b - 1]);
            if a == 0 {
                lemma_greedy_members(rest, rel, h[b - 1]);
                assert(h.contains(h[b - 1]));
                lemma_filter_members(order.drop_first(), spared_by(rel, i), h[b - 1]);
            } else {
                assert(g[a] == h[a - 1]);
            }
        }
    }
}

/// Completeness: every candidate of the ranking is kept, or removed by a kept one.
pub proof fn lemma_greedy_complete(order: Seq<usize>, rel: Seq<Seq<bool>>, x: usize)
    requires
        order.contains(x),
    ensures
        greedy_keep(order, rel).contains(x) || exists|a: int|
            0 <= a < greedy_keep(order, rel).len() && relates(
                rel,
                #[trigger] greedy_keep(order, rel)[a],
                x,
            ),
    decreases order.len(),
{
    let i = order[0];
    let rest = order.drop_first().filter(spared_by(rel, i));
    order.drop_first().lemma_filter_len(spared_by(rel, i));
    let g = greedy_keep(order, rel);
    let h = greedy_keep(rest, rel);
    if x == i {
        assert(g[0] == x);
    } else if relates(rel, i, x) {
        assert(g[0] == i);
    } else {
        let m = choose|m: int| 0 <= m < order.len() && order[m] == x;
        assert(order.drop_first()[m - 1] == x);
        lemma_filter_members(order.drop_first(), spared_by(rel, i), x);
        lemma_greedy_complete(rest, rel, x);
        if h.contains(x) {
            let k = choose|k: int| 0 <= k < h.len() && h[k] == x;
            assert(g[k + 1] == x);
        } else {
            let a = choose|a: int| 0 <= a < h.len() && relates(rel, #[trigger] h[a], x);
            assert(g[a + 1] == h[a]);
        }
    }
}

/// `w` places the elements of `s` at strictly increasing positions of `t`.
pub open spec fn embeds(w: Seq<int>, s: Seq<usize>, t: Seq<usize>) -> bool {
    &&& w.len() == s.len()
    &&& forall|k: int| 0 <= k < w.len() ==> 0 <= #[trigger] w[k] < t.len() && t[w[k]] == s[k]
    &&& forall|a: int, b: int| 0 <= a < b < w.len() ==> #[trigger] w[a] < #[trigger] w[b]
}

/// `s` is `t` with some elements left out, the rest in their order.
pub open spec fn is_subsequence(s: Seq<usize>, t: Seq<usize>) -> bool {
    exists|w: Seq<int>| embeds(w, s, t)
}

/// A filtered sequence keeps its elements in their order.
pub proof fn lemma_filter_embeds(s: Seq<usize>, p: spec_fn(usize) -> bool) -> (w: Seq<int>)
    ensures
        embeds(w, s.filter(p), s),
    decreases s.len(),
{
    if s.len() == 0 {
        reveal(Seq::filter);
        Seq::empty()
    } else {
        let x = s[0];
        let r = s.drop_first();
        let wr = lemma_filter_embeds(r, p);
        assert(seq![x] + r =~= s);
        r.lemma_filter_prepend(x, p);
        let shifted = wr.map_values(|v: int| v + 1);
        if p(x) {
            let w = seq![0int] + shifted;
            assert(s.filter(p) =~= seq![x] + r.filter(p));
            assert forall|k: int| 0 <= k < w.len() implies 0 <= #[trigger] w[k] < s.len() && s[w[k]]
                == s.filter(p)[k] by {
                if k > 0 {
                    assert(w[k] == wr[k - 1] + 1);
                }
            }
            assert forall|a: int, b: int| 0 <= a < b < w.len() implies #[trigger] w[a]
                < #[trigger] w[b] by {
                if a > 0 {
                    assert(wr[a - 1] < wr[b - 1]);
                } else {
                    assert(0 <= wr[b - 1]);
                }
            }
            w
        } else {
            assert(s.filter(p) =~= r.filter(p));
            assert forall|a: int, b: int| 0 <= a < b < shifted.len() implies #[trigger] shifted[a]
                < #[trigger] shifted[b] by {
                assert(wr[a] < wr[b]);
            }
            shifted
        }
    }
}

/// The kept candidates appear in ranking order: the selection is a
/// subsequence of the ranking.
pub proof fn lemma_greedy_in_order(order: Seq<usize>, rel: Seq<Seq<bool>>) -> (w: Seq<int>)
    ensures
        embeds(w, greedy_keep(order, rel), order),
        is_subsequence(greedy_keep(order, rel), order),
    decreases order.len(),
{
    if order.len() == 0 {
        let w: Seq<int> = Seq::empty();
        assert(embeds(w, greedy_keep(order, rel), order));
        w
    } else {
        let i = order[0];
        let tail = order.drop_first();
        let rest = tail.filter(spared_by(rel, i));
        tail.lemma_filter_len(spared_by(rel, i));
        let wf = lemma_filter_embeds(tail, spared_by(rel, i));
        let wg = lemma_greedy_in_order(rest, rel);
        let g = greedy_keep(order, rel);
        let h = greedy_keep(rest, rel);
        let w = seq![0int] + wg.map_values(|v: int| wf[v] + 1);
        assert forall|k: int| 0 <= k < w.len() implies 0 <= #[trigger] w[k] < order.len()
            && order[w[k]] == g[k] by {
            if k > 0 {
                let v = wg[k - 1];
                assert(0 <= v < rest.len());
                assert(rest[v] == h[k - 1]);
                assert(0 <= wf[v] < tail.len() && tail[wf[v]] == rest[v]);
                assert(w[k] == wf[v] + 1);
            }
        }
        assert forall|a: int, b: int| 0 <= a < b < w.len() implies #[trigger] w[a]
            < #[trigger] w[b] by {
            let vb = wg[b - 1];
            assert(0 <= vb < rest.len());
            assert(0 <= wf[vb]);
            if a > 0 {
                let va = wg[a - 1];
                assert(va < vb);
                assert(0 <= va < rest.len());
                assert(wf[va] < wf[vb]);
            }
        }
        assert(embeds(w, g, order));
        w
    }
}

/// The best-ranked candidate is always kept first.
pub proof fn lemma_greedy_keeps_best(order: Seq<usize>, rel: Seq<Seq<bool>>)
    requires
        order.len() > 0,
    ensures
        greedy_keep(order, rel).len() > 0,
        greedy_keep(order, rel)[0] == order[0],
{
}

/// Running the selection again on what it kept keeps all of it.
pub proof fn lemma_greedy_idempotent(order: Seq<usize>, rel: Seq<Seq<bool>>)
    ensures
        greedy_keep(greedy_keep(order, rel), rel) == greedy_keep(order, rel),
    decreases order.len(),
{
    if order.len() > 0 {
        let i = order[0];
        let rest = order.drop_first().filter(spared_by(rel, i));
        order.drop_first().lemma_filter_len(spared_by(rel, i));
        let g = greedy_keep(order, rel);
        let h = greedy_keep(rest, rel);
        lemma_greedy_idempotent(rest, rel);
        assert(g.drop_first() =~= h);
        assert forall|k: int| 0 <= k < h.len() implies #[trigger] spared_by(rel, i)(h[k]) by {
            assert(h.contains(h[k]));
            lemma_greedy_members(rest, rel, h[k]);
            lemma_filter_members(order.drop_first(), spared_by(rel, i), h[k]);
        }
        lemma_filter_all(h, spared_by(rel, i));
        assert(g[0] == i);
        assert(greedy_keep(g, rel) =~= seq![i] + greedy_keep(h, rel));
    }
}

/// Keeps the candidates that greedy suppression selects: walking the ranking
/// best first, each candidate still standing is kept and removes every later
/// candidate that `suppresses[kept][later]` marks.
pub fn greedy_select(order: &Vec<usize>, suppresses: &Vec<Vec<bool>>) -> (kept: Vec<usize>)
    requires
        well_ranked(order@, matrix_view(suppresses@)),
    ensures
        kept@ == greedy_keep(order@, matrix_view(suppresses@)),
{
    let ghost rel = matrix_view(suppresses@);
    let mut kept: Vec<usize> = Vec::new();
    let mut remaining: Vec<usize> = order.clone();
    while remaining.len() > 0
        invariant
            rel == matrix_view(suppresses@),
            well_ranked(remaining@, rel),
            kept@ + greedy_keep(remaining@, rel) == greedy_keep(order@, rel),
        decreases remaining.len(),
    {
        let i = remaining[0];
        kept.push(i);
        let ghost p = spared_by(rel, i);
        let mut next: Vec<usize> = Vec::new();
        let mut k: usize = 1;
        while k < remaining.len()
            invariant
                rel == matrix_view(suppresses@),
                well_ranked(remaining@, rel),
                i == remaining@[0],
                p == spared_by(rel, i),
                1 <= k <= remaining.len(),
                next@ == remaining@.subrange(1, k as int).filter(p),
                well_ranked(next@, rel),
            decreases remaining.len() - k,
        {
            let j = remaining[k];
            assert(remaining@.subrange(1, k + 1) =~= remaining@.subrange(1, k as int).push(j));
            proof {
                remaining@.subrange(1, k as int).lemma_filter_push(j, p);
            }
            assert(i < suppresses.len());
            assert(suppresses@[i as int]@.len() == rel.len());
            if !suppresses[i][j] {
                next.push(j);
            }
            k += 1;
        }
        assert(remaining@.subrange(1, remaining@.len() as int) =~= remaining@.drop_first());
        assert(greedy_keep(remaining@, rel) =~= seq![i] + greedy_keep(next@, rel));
        assert(kept@ + greedy_keep(next@, rel) =~= (kept@.drop_last() + greedy_keep(remaining@, rel)));
        proof {
            remaining@.drop_first().lemma_filter_len(p);
        }
        remaining = next;
    }
    assert(kept@ + greedy_keep(remaining@, rel) =~= kept@);
    kept
}

} // verus!
