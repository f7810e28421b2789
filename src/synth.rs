use vstd::prelude::*;

use crate::ilasp::{ILExampleView, ILTaskBuilder};
use crate::set::{set_of, strictly_sorted, SortedSet};
use vstd::slice::slice_to_vec;

verus! {

/// `s` lists the elements of `x` in strictly increasing order.
pub open spec fn exact(s: Seq<usize>, x: Set<usize>) -> bool {
    strictly_sorted(s) && set_of(s) == x
}

/// The union of the element sets of `outs`.
pub open spec fn union_all(outs: Seq<SortedSet>) -> Set<usize>
    decreases outs.len(),
{
    if outs.len() == 0 {
        Set::empty()
    } else {
        union_all(outs.drop_last()).union(outs.last().elems())
    }
}

/// An observed input together with its accepted outputs.
#[derive(Debug)]
pub struct Example {
    pub input: SortedSet,
    pub output: Vec<SortedSet>,
}

/// A spurious candidate answer: extra literals drawn from the outputs that
/// neither contain nor are contained in any output's own additions.
pub open spec fn candidate(a: Set<usize>, input: Set<usize>, outs: Seq<SortedSet>) -> bool {
    &&& outs.len() > 0
    &&& a.subset_of(union_all(outs).difference(input))
    &&& forall|k: int|
        0 <= k < outs.len() ==> !(#[trigger] outs[k].elems()).difference(input).subset_of(a)
            && !a.subset_of(outs[k].elems().difference(input))
}

proof fn lemma_union_all_has(outs: Seq<SortedSet>, k: int)
    requires
        0 <= k < outs.len(),
    ensures
        outs[k].elems().subset_of(union_all(outs)),
    decreases outs.len(),
{
    if k < outs.len() - 1 {
        lemma_union_all_has(outs.drop_last(), k);
        assert(outs.drop_last()[k] == outs[k]);
    }
}

/// A spurious candidate is neither empty nor all the literals that the
/// outputs add to the input.
pub proof fn lemma_candidate_proper(a: Set<usize>, input: Set<usize>, outs: Seq<SortedSet>)
    requires
        candidate(a, input, outs),
    ensures
        a != Set::<usize>::empty(),
        a != union_all(outs).difference(input),
{
    let o = outs[0].elems().difference(input);
    assert(!o.subset_of(a) && !a.subset_of(o));
    if a == Set::<usize>::empty() {
        assert(a.subset_of(o));
    }
    lemma_union_all_has(outs, 0);
    if a == union_all(outs).difference(input) {
        assert(o.subset_of(a));
    }
}

/// A negative example that rules out the spurious candidate `a`, with the
/// universe beyond `b`'s literals excluded.
#[verifier::opaque]
pub open spec fn spurious_negative(
    ex: ILExampleView,
    input: SortedSet,
    outs: Seq<SortedSet>,
    universe: Set<usize>,
) -> bool {
    exists|a: Set<usize>, b: Set<usize>|
        #![trigger candidate(a, input.elems(), outs), candidate(b, input.elems(), outs)]
        candidate(a, input.elems(), outs) && candidate(b, input.elems(), outs) && a.subset_of(b)
            && exact(ex.0, a.union(input.elems())) && exact(
            ex.1,
            universe.difference(input.elems().union(b)),
        ) && ex.2 == input@
}


/// `idx` lists strictly increasing positions within `start..n`.
pub open spec fn increasing_in(idx: Seq<int>, start: int, n: int) -> bool {
    &&& forall|t: int| 0 <= t < idx.len() ==> start <= #[trigger] idx[t] < n
    &&& forall|s: int, t: int| 0 <= s < t < idx.len() ==> idx[s] < idx[t]
}

/// The elements of `elems` at the positions `idx`.
pub open spec fn pick(elems: Seq<usize>, idx: Seq<int>) -> Seq<usize> {
    idx.map_values(|j: int| elems[j])
}

/// Some entry of `l` holds exactly the elements `c`.
pub open spec fn listed(l: Seq<SortedSet>, c: Set<usize>) -> bool {
    exists|t: int| 0 <= t < l.len() && (#[trigger] l[t]).elems() == c
}

/// Appends to `out`, in lexicographic order, every extension of `current`
/// by `k` elements of `elems` taken at increasing positions from `start`.
fn combinations(
    elems: &Vec<usize>,
    start: usize,
    k: usize,
    current: &mut Vec<usize>,
    out: &mut Vec<SortedSet>,
)
    requires
        start <= elems@.len(),
        set_of(old(current)@).subset_of(set_of(elems@)),
        forall|t: int| 0 <= t < old(out)@.len() ==> (#[trigger] old(out)@[t]).wf(),
    ensures
        final(current)@ == old(current)@,
        old(out)@.len() <= final(out)@.len(),
        forall|t: int| 0 <= t < old(out)@.len() ==> final(out)@[t] == old(out)@[t],
        forall|t: int|
            0 <= t < final(out)@.len() ==> (#[trigger] final(out)@[t]).wf() && (t
                >= old(out)@.len() ==> final(out)@[t].elems().subset_of(set_of(elems@))),
        forall|idx: Seq<int>|
            #![trigger increasing_in(idx, start as int, elems@.len() as int)]
            increasing_in(idx, start as int, elems@.len() as int) && idx.len() == k ==> exists|
                t: int,
            |
                old(out)@.len() <= t < final(out)@.len() && (#[trigger] final(out)@[t]).elems()
                    == set_of(old(current)@ + pick(elems@, idx)),
    decreases k, elems@.len() - start,
{
    let ghost out0 = out@.len();
    let ghost cur0 = current@;
    if k == 0 {
        let c = SortedSet::new(slice_to_vec(current.as_slice()));
        out.push(c);
        assert forall|idx: Seq<int>|
            #![trigger increasing_in(idx, start as int, elems@.len() as int)]
            increasing_in(idx, start as int, elems@.len() as int) && idx.len() == k implies exists|
                t: int,
            |
                out0 <= t < out@.len() && (#[trigger] out@[t]).elems() == set_of(
                    cur0 + pick(elems@, idx),
                ) by {
            assert(cur0 + pick(elems@, idx) =~= cur0);
            assert(out@[out0 as int].elems() == set_of(cur0));
        }
        return;
    }
    let mut i: usize = start;
    while i < elems.len()
        invariant
            start <= i <= elems@.len(),
            k > 0,
            current@ == old(current)@,
            cur0 == old(current)@,
            out0 == old(out)@.len(),
            set_of(current@).subset_of(set_of(elems@)),
            old(out)@.len() <= out@.len(),
            forall|t: int| 0 <= t < old(out)@.len() ==> out@[t] == old(out)@[t],
            forall|t: int|
                0 <= t < out@.len() ==> (#[trigger] out@[t]).wf() && (t >= old(out)@.len()
                    ==> out@[t].elems().subset_of(set_of(elems@))),
            forall|idx: Seq<int>|
                #![trigger increasing_in(idx, start as int, elems@.len() as int)]
                increasing_in(idx, start as int, elems@.len() as int) && idx.len() == k && idx[0]
                    < i ==> exists|t: int|
                    out0 <= t < out@.len() && (#[trigger] out@[t]).elems() == set_of(
                        cur0 + pick(elems@, idx),
                    ),
        decreases elems@.len() - i,
    {
        let ghost before = current@;
        current.push(elems[i]);
        proof {
            assert forall|y: usize| set_of(current@).contains(y) implies set_of(elems@).contains(
                y,
            ) by {
                let t = choose|t: int| 0 <= t < current@.len() && current@[t] == y;
                if t < before.len() {
                    assert(before[t] == y);
                    assert(set_of(before).contains(y));
                } else {
                    assert(elems@[i as int] == y);
                }
            }
        }
        let ghost mid = out@;
        let ghost pushed = current@;
        combinations(elems, i + 1, k - 1, current, out);
        proof {
            assert forall|idx: Seq<int>|
                #![trigger increasing_in(idx, start as int, elems@.len() as int)]
                increasing_in(idx, start as int, elems@.len() as int) && idx.len() == k && idx[0]
                    < i + 1 implies exists|t: int|
                    out0 <= t < out@.len() && (#[trigger] out@[t]).elems() == set_of(
                        cur0 + pick(elems@, idx),
                    ) by {
                if idx[0] < i {
                    let t = choose|t: int|
                        out0 <= t < mid.len() && (#[trigger] mid[t]).elems() == set_of(
                            cur0 + pick(elems@, idx),
                        );
                    assert(out@[t] == mid[t]);
                } else {
                    let rest = idx.drop_first();
                    assert(increasing_in(rest, i + 1, elems@.len() as int)) by {
                        assert forall|t: int| 0 <= t < rest.len() implies i + 1 <= #[trigger] rest[t] < elems@.len() by {
                            assert(idx[0] < idx[t + 1]);
                        }
                        assert forall|s: int, t: int| 0 <= s < t < rest.len() implies rest[s] < rest[t] by {
                            assert(idx[s + 1] < idx[t + 1]);
                        }
                    }
                    assert(idx[0] == i);
                    assert(pushed =~= cur0.push(elems@[i as int]));
                    assert(pushed + pick(elems@, rest) =~= cur0 + pick(elems@, idx));
                    assert(mid.len() <= out@.len());
                    let t = choose|t: int|
                        mid.len() <= t < out@.len() && (#[trigger] out@[t]).elems() == set_of(
                            pushed + pick(elems@, rest),
                        );
                }
            }
        }
        current.pop();
        assert(current@ =~= before);
        i = i + 1;
    }
    assert forall|idx: Seq<int>|
        #![trigger increasing_in(idx, start as int, elems@.len() as int)]
        increasing_in(idx, start as int, elems@.len() as int) && idx.len() == k implies exists|
            t: int,
        |
            out0 <= t < out@.len() && (#[trigger] out@[t]).elems() == set_of(
                cur0 + pick(elems@, idx),
            ) by {
        assert(idx[0] < elems@.len());
    }
}

/// The increasing positions in `s[..n]` of the elements that `x` holds.
pub open spec fn positions_in(s: Seq<usize>, x: Set<usize>, n: int) -> Seq<int>
    decreases n,
{
    if n <= 0 {
        Seq::empty()
    } else if x.contains(s[n - 1]) {
        positions_in(s, x, n - 1).push(n - 1)
    } else {
        positions_in(s, x, n - 1)
    }
}

proof fn lemma_positions(s: Seq<usize>, x: Set<usize>, n: int)
    requires
        0 <= n <= s.len(),
    ensures
        increasing_in(positions_in(s, x, n), 0, n),
        forall|y: usize|
            #![trigger set_of(pick(s, positions_in(s, x, n))).contains(y)]
            set_of(pick(s, positions_in(s, x, n))).contains(y) <==> (x.contains(y) && set_of(
                s.subrange(0, n),
            ).contains(y)),
    decreases n,
{
    if n > 0 {
        lemma_positions(s, x, n - 1);
        let p = positions_in(s, x, n - 1);
        let q = positions_in(s, x, n);
        assert forall|y: usize|
            set_of(pick(s, q)).contains(y) <==> (x.contains(y) && set_of(s.subrange(0, n)).contains(
                y,
            )) by {
            assert(set_of(pick(s, q)).contains(y) == pick(s, q).contains(y));
            assert(set_of(pick(s, p)).contains(y) == pick(s, p).contains(y));
            assert(set_of(s.subrange(0, n)).contains(y) == s.subrange(0, n).contains(y));
            assert(set_of(s.subrange(0, n - 1)).contains(y) == s.subrange(0, n - 1).contains(y));
            if pick(s, q).contains(y) {
                let t = choose|t: int| 0 <= t < pick(s, q).len() && pick(s, q)[t] == y;
                if t < p.len() {
                    assert(pick(s, p)[t] == y);
                    assert(pick(s, p).contains(y));
                    assert(set_of(pick(s, p)).contains(y));
                    assert(set_of(s.subrange(0, n - 1)).contains(y));
                    assert(s.subrange(0, n - 1).contains(y));
                    let u = choose|u: int| 0 <= u < n - 1 && #[trigger] s.subrange(0, n - 1)[u] == y;
                    assert(s.subrange(0, n)[u] == y);
                } else {
                    assert(x.contains(s[n - 1]));
                    assert(s.subrange(0, n)[n - 1] == y);
                }
            }
            if x.contains(y) && s.subrange(0, n).contains(y) {
                let u = choose|u: int| 0 <= u < n && #[trigger] s.subrange(0, n)[u] == y;
                if u < n - 1 {
                    assert(s.subrange(0, n - 1)[u] == y);
                    assert(s.subrange(0, n - 1).contains(y));
                    let t = choose|t: int| 0 <= t < pick(s, p).len() && pick(s, p)[t] == y;
                    assert(pick(s, q)[t] == y);
                } else {
                    assert(pick(s, q)[p.len() as int] == y);
                }
            }
        }
        assert(increasing_in(q, 0, n)) by {
            if x.contains(s[n - 1]) {
                assert forall|t: int| 0 <= t < q.len() implies 0 <= #[trigger] q[t] < n by {
                    if t < p.len() {
                        assert(q[t] == p[t]);
                    }
                }
                assert forall|a: int, t: int| 0 <= a < t < q.len() implies q[a] < q[t] by {
                    assert(q[a] == p[a]);
                    if t < p.len() {
                        assert(q[t] == p[t]);
                    }
                }
            }
        }
    } else {
        assert forall|y: usize| !set_of(s.subrange(0, n)).contains(y) by {
            assert(s.subrange(0, n).len() == 0);
        }
    }
}

/// Every subset of a sequence's elements is picked by some increasing positions.
proof fn lemma_subset_picked(s: Seq<usize>, x: Set<usize>)
    requires
        x.subset_of(set_of(s)),
    ensures
        exists|idx: Seq<int>|
            #![trigger pick(s, idx)]
            increasing_in(idx, 0, s.len() as int) && set_of(pick(s, idx)) == x,
{
    lemma_positions(s, x, s.len() as int);
    let idx = positions_in(s, x, s.len() as int);
    assert(s.subrange(0, s.len() as int) == s);
    assert(set_of(pick(s, idx)) =~= x);
}

/// Whether `c` is kept by the filter against `less_out`.
pub open spec fn unnested(c: Set<usize>, less_out: Seq<SortedSet>) -> bool {
    forall|o: int|
        0 <= o < less_out.len() ==> !(#[trigger] less_out[o]).elems().subset_of(c) && !c.subset_of(
            less_out[o].elems(),
        )
}

/// The subsets of `elements` that pass the filter against `less_out`,
/// smallest first, in lexicographic order within each size.
fn spurious_candidates(elements: &SortedSet, less_out: &Vec<SortedSet>) -> (r: Vec<SortedSet>)
    requires
        elements.wf(),
        forall|t: int| 0 <= t < less_out@.len() ==> (#[trigger] less_out@[t]).wf(),
    ensures
        forall|t: int|
            0 <= t < r@.len() ==> (#[trigger] r@[t]).wf() && r@[t].elems().subset_of(
                elements.elems(),
            ) && unnested(r@[t].elems(), less_out@),
        forall|c: Set<usize>|
            #![trigger unnested(c, less_out@)]
            c.subset_of(elements.elems()) && unnested(c, less_out@) ==> listed(r@, c),
{
    let elems = slice_to_vec(elements.iter());
    let mut all: Vec<SortedSet> = Vec::new();
    let mut size: usize = 0;
    loop
        invariant
            elems@ == elements@,
            size <= elems@.len(),
            forall|t: int|
                0 <= t < all@.len() ==> (#[trigger] all@[t]).wf() && all@[t].elems().subset_of(
                    set_of(elems@),
                ),
            forall|idx: Seq<int>|
                #![trigger increasing_in(idx, 0, elems@.len() as int)]
                increasing_in(idx, 0, elems@.len() as int) && idx.len() < size ==> listed(
                    all@,
                    set_of(pick(elems@, idx)),
                ),
        ensures
            forall|t: int|
                0 <= t < all@.len() ==> (#[trigger] all@[t]).wf() && all@[t].elems().subset_of(
                    set_of(elems@),
                ),
            forall|idx: Seq<int>|
                #![trigger increasing_in(idx, 0, elems@.len() as int)]
                increasing_in(idx, 0, elems@.len() as int) ==> listed(all@, set_of(pick(elems@, idx))),
        decreases elems@.len() - size,
    {
        let mut current: Vec<usize> = Vec::new();
        assert(set_of(current@) =~= Set::empty());
        let ghost before = all@;
        combinations(&elems, 0, size, &mut current, &mut all);
        proof {
            assert forall|idx: Seq<int>|
                #![trigger increasing_in(idx, 0, elems@.len() as int)]
                increasing_in(idx, 0, elems@.len() as int) && idx.len() < size + 1 implies listed(
                    all@,
                    set_of(pick(elems@, idx)),
                ) by {
                if idx.len() < size {
                    let t = choose|t: int| 0 <= t < before.len() && (#[trigger] before[t]).elems() == set_of(pick(elems@, idx));
                    assert(all@[t] == before[t]);
                } else {
                    assert(Seq::<usize>::empty() + pick(elems@, idx) =~= pick(elems@, idx));
                    let t = choose|t: int| before.len() <= t < all@.len() && (#[trigger] all@[t]).elems() == set_of(Seq::<usize>::empty() + pick(elems@, idx));
                }
            }
            assert forall|idx: Seq<int>| #![trigger increasing_in(idx, 0, elems@.len() as int)] increasing_in(idx, 0, elems@.len() as int) implies idx.len() <= elems@.len() by {
                lemma_increasing_len(idx, 0, elems@.len() as int);
            }
        }
        if size == elems.len() {
            break;
        }
        size = size + 1;
    }
    let mut r: Vec<SortedSet> = Vec::new();
    let mut i: usize = 0;
    while i < all.len()
        invariant
            elems@ == elements@,
            i <= all@.len(),
            forall|t: int|
                0 <= t < all@.len() ==> (#[trigger] all@[t]).wf() && all@[t].elems().subset_of(
                    set_of(elems@),
                ),
            forall|t: int| 0 <= t < less_out@.len() ==> (#[trigger] less_out@[t]).wf(),
            forall|t: int|
                0 <= t < r@.len() ==> (#[trigger] r@[t]).wf() && r@[t].elems().subset_of(
                    elements.elems(),
                ) && unnested(r@[t].elems(), less_out@),
            forall|t: int|
                0 <= t < i && unnested((#[trigger] all@[t]).elems(), less_out@) ==> listed(
                    r@,
                    all@[t].elems(),
                ),
        decreases all@.len() - i,
    {
        let c = &all[i];
        let mut keep = true;
        let mut o: usize = 0;
        while o < less_out.len()
            invariant
                o <= less_out@.len(),
                c.wf(),
                forall|t: int| 0 <= t < less_out@.len() ==> (#[trigger] less_out@[t]).wf(),
                keep == forall|q: int|
                    0 <= q < o ==> !(#[trigger] less_out@[q]).elems().subset_of(c.elems())
                        && !c.elems().subset_of(less_out@[q].elems()),
            decreases less_out@.len() - o,
        {
            if less_out[o].is_subset(c) || less_out[o].is_superset(c) {
                keep = false;
            }
            o = o + 1;
        }
        let ghost before = r@;
        if keep {
            r.push(c.clone());
        }
        proof {
            assert forall|t: int|
                0 <= t < i + 1 && unnested((#[trigger] all@[t]).elems(), less_out@) implies listed(
                    r@,
                    all@[t].elems(),
                ) by {
                if t < i {
                    let q = choose|q: int| 0 <= q < before.len() && (#[trigger] before[q]).elems() == all@[t].elems();
                    assert(r@[q] == before[q]);
                } else {
                    assert(r@[before.len() as int].elems() == all@[t].elems());
                }
            }
        }
        i = i + 1;
    }
    proof {
        assert forall|c: Set<usize>|
            #![trigger unnested(c, less_out@)]
            c.subset_of(elements.elems()) && unnested(c, less_out@) implies listed(r@, c) by {
            lemma_subset_picked(elems@, c);
            let idx = choose|idx: Seq<int>|
                #![trigger pick(elems@, idx)]
                increasing_in(idx, 0, elems@.len() as int) && set_of(pick(elems@, idx)) == c;
            let t = choose|t: int| 0 <= t < all@.len() && (#[trigger] all@[t]).elems() == set_of(pick(elems@, idx));
        }
    }
    r
}

proof fn lemma_increasing_len(idx: Seq<int>, start: int, n: int)
    requires
        start <= n,
        increasing_in(idx, start, n),
    ensures
        idx.len() <= n - start,
    decreases idx.len(),
{
    if idx.len() > 0 {
        let rest = idx.drop_first();
        assert(increasing_in(rest, idx[0] + 1, n)) by {
            assert forall|t: int| 0 <= t < rest.len() implies idx[0] + 1 <= #[trigger] rest[t] < n by {
                assert(idx[0] < idx[t + 1]);
            }
            assert forall|s: int, t: int| 0 <= s < t < rest.len() implies rest[s] < rest[t] by {
                assert(idx[s + 1] < idx[t + 1]);
            }
        }
        assert(start <= idx[0] < n);
        lemma_increasing_len(rest, idx[0] + 1, n);
    }
}

/// The builders agree on everything but their negative examples.
pub open spec fn same_but_neg(x: ILTaskBuilder, y: ILTaskBuilder) -> bool {
    &&& x.pos_view() == y.pos_view()
    &&& x.positive_body_view() == y.positive_body_view()
    &&& x.general_body_view() == y.general_body_view()
    &&& x.head_view() == y.head_view()
    &&& x.background_view() == y.background_view()
}

/// The negative examples of `x` are those of `y` followed by one singleton
/// per universe literal that no output holds, in increasing order, then
/// spurious negatives: each built from candidates `a ⊆ b`, and together
/// covering every candidate by one whose include is a candidate within it.
pub open spec fn negatives_added(
    x: ILTaskBuilder,
    y: ILTaskBuilder,
    input: SortedSet,
    outs: Seq<SortedSet>,
    universe: Set<usize>,
) -> bool {
    exists|d: Seq<usize>|
        #![trigger negatives_with(x.neg_view(), y.neg_view(), input, outs, universe, d)]
        negatives_with(x.neg_view(), y.neg_view(), input, outs, universe, d)
}

/// `negatives_added`, with `d` the uncovered universe literals in order.
pub open spec fn negatives_with(
    xn: Seq<ILExampleView>,
    yn: Seq<ILExampleView>,
    input: SortedSet,
    outs: Seq<SortedSet>,
    universe: Set<usize>,
    d: Seq<usize>,
) -> bool {
    let n0 = yn.len();
    &&& exact(d, universe.difference(union_all(outs)))
    &&& n0 + d.len() <= xn.len()
    &&& xn.subrange(0, n0 as int) == yn
    &&& forall|t: int|
        0 <= t < d.len() ==> xn[n0 + t] == (seq![d[t]], Seq::<usize>::empty(), input@)
    &&& forall|t: int|
        n0 + d.len() <= t < xn.len() ==> spurious_negative(
            #[trigger] xn[t],
            input,
            outs,
            universe,
        )
    &&& forall|c: Set<usize>|
        #![trigger candidate(c, input.elems(), outs)]
        candidate(c, input.elems(), outs) ==> covered(
            xn,
            (n0 + d.len()) as int,
            c,
            input.elems(),
            outs,
        )
}

/// Some negative example of `nv` from index `from` on includes exactly the
/// input and a candidate that lies within `c`.
pub open spec fn covered(
    nv: Seq<ILExampleView>,
    from: int,
    c: Set<usize>,
    input: Set<usize>,
    outs: Seq<SortedSet>,
) -> bool {
    exists|t: int, a: Set<usize>|
        #![trigger nv[t], candidate(a, input, outs)]
        from <= t < nv.len() && candidate(a, input, outs) && a.subset_of(c) && exact(
            nv[t].0,
            a.union(input),
        )
}

fn ids_of(s: &SortedSet) -> (r: Vec<usize>)
    ensures
        r@ == s@,
{
    slice_to_vec(s.iter())
}

impl Example {
    pub open spec fn wf(&self) -> bool {
        &&& self.input.wf()
        &&& forall|k: int| 0 <= k < self.output@.len() ==> (#[trigger] self.output@[k]).wf()
    }

    /// Pushes the negative examples of this example: one singleton per
    /// universe literal that no output holds, then the spurious negatives.
    ///
    /// The candidates are taken smallest first. Each one, `a`, takes along
    /// the remaining candidates that contain it; these are walked from the
    /// largest down, and the walk stops at the first decrease in size, so
    /// only the largest of them give a negative (or `a` itself, when none
    /// contains it).
    fn compute_neg_example(&self, global: &SortedSet, literals: &SortedSet, iltask: &mut ILTaskBuilder)
        requires
            self.wf(),
            self.output@.len() > 0,
            global.wf(),
            literals.wf(),
            literals.elems() == union_all(self.output@),
        ensures
            same_but_neg(*final(iltask), *old(iltask)),
            negatives_added(*final(iltask), *old(iltask), self.input, self.output@, global.elems()),
    {
        let ghost n0 = iltask.neg_view().len();
        let ghost neg0 = iltask.neg_view();
        let ghost input = self.input.elems();
        let ghost outs = self.output@;
        let ghost universe = global.elems();
        let unc = global.difference(literals);
        let d = unc.iter();
        let mut i: usize = 0;
        while i < d.len()
            invariant
                i <= d@.len(),
                d@ == unc@,
                same_but_neg(*iltask, *old(iltask)),
                iltask.neg_view().len() == n0 + i,
                iltask.neg_view().subrange(0, n0 as int) == neg0,
                neg0 == old(iltask).neg_view(),
                n0 == neg0.len(),
                forall|t: int|
                    0 <= t < i ==> iltask.neg_view()[n0 + t] == (
                        seq![d@[t]],
                        Seq::<usize>::empty(),
                        self.input@,
                    ),
            decreases d@.len() - i,
        {
            let mut incl: Vec<usize> = Vec::new();
            incl.push(d[i]);
            let ghost before = iltask.neg_view();
            iltask.push_neg_example(incl, Vec::new(), ids_of(&self.input));
            assert(iltask.neg_view().subrange(0, n0 as int) =~= before.subrange(0, n0 as int));
            assert(incl@ =~= seq![d@[i as int]]);
            i = i + 1;
        }
        let ghost n1 = iltask.neg_view().len();
        let ghost neg1 = iltask.neg_view();

        let mut less_out: Vec<SortedSet> = Vec::new();
        let mut k: usize = 0;
        while k < self.output.len()
            invariant
                self.wf(),
                k <= self.output@.len(),
                less_out@.len() == k,
                forall|t: int|
                    0 <= t < k ==> (#[trigger] less_out@[t]).wf() && less_out@[t].elems()
                        == self.output@[t].elems().difference(self.input.elems()),
            decreases self.output@.len() - k,
        {
            less_out.push(self.output[k].difference(&self.input));
            k = k + 1;
        }
        let elements = literals.difference(&self.input);
        let mut m = spurious_candidates(&elements, &less_out);
        proof {
            assert forall|t: int| 0 <= t < m@.len() implies candidate(
                (#[trigger] m@[t]).elems(),
                input,
                outs,
            ) by {
                assert forall|q: int| 0 <= q < outs.len() implies !(#[trigger] outs[q].elems()).difference(
                    input,
                ).subset_of(m@[t].elems()) && !m@[t].elems().subset_of(
                    outs[q].elems().difference(input),
                ) by {
                    assert(less_out@[q].elems() == outs[q].elems().difference(input));
                }
            }
            assert forall|c: Set<usize>|
                #![trigger candidate(c, input, outs)]
                candidate(c, input, outs) implies listed(m@, c) by {
                assert(unnested(c, less_out@)) by {
                    assert forall|o: int| 0 <= o < less_out@.len() implies !(#[trigger] less_out@[o]).elems().subset_of(c)
                        && !c.subset_of(less_out@[o].elems()) by {
                        assert(less_out@[o].elems() == outs[o].elems().difference(input));
                    }
                }
            }
        }
        while m.len() > 0
            invariant
                self.wf(),
                global.wf(),
                input == self.input.elems(),
                outs == self.output@,
                universe == global.elems(),
                forall|t: int|
                    0 <= t < m@.len() ==> (#[trigger] m@[t]).wf() && candidate(
                        m@[t].elems(),
                        input,
                        outs,
                    ),
                same_but_neg(*iltask, *old(iltask)),
                n1 <= iltask.neg_view().len(),
                iltask.neg_view().subrange(0, n1 as int) == neg1,
                forall|t: int|
                    n1 <= t < iltask.neg_view().len() ==> spurious_negative(
                        #[trigger] iltask.neg_view()[t],
                        self.input,
                        outs,
                        universe,
                    ),
                forall|c: Set<usize>|
                    #![trigger candidate(c, input, outs)]
                    candidate(c, input, outs) ==> listed(m@, c) || covered(
                        iltask.neg_view(),
                        n1 as int,
                        c,
                        input,
                        outs,
                    ),
            decreases m@.len(),
        {
            let ghost mb = m@;
            let a = m.remove(0);
            assert(m@ == mb.remove(0));
            let mut superset: Vec<SortedSet> = Vec::new();
            let mut rest: Vec<SortedSet> = Vec::new();
            let mut j: usize = 0;
            while j < m.len()
                invariant
                    a.wf(),
                    j <= m@.len(),
                    rest@.len() <= j,
                    forall|t: int|
                        0 <= t < m@.len() ==> (#[trigger] m@[t]).wf() && candidate(
                            m@[t].elems(),
                            input,
                            outs,
                        ),
                    forall|t: int|
                        0 <= t < rest@.len() ==> (#[trigger] rest@[t]).wf() && candidate(
                            rest@[t].elems(),
                            input,
                            outs,
                        ),
                    forall|t: int|
                        0 <= t < superset@.len() ==> (#[trigger] superset@[t]).wf() && candidate(
                            superset@[t].elems(),
                            input,
                            outs,
                        ) && a.elems().subset_of(superset@[t].elems()),
                    forall|t: int|
                        0 <= t < j && !a.elems().subset_of((#[trigger] m@[t]).elems()) ==> listed(
                            rest@,
                            m@[t].elems(),
                        ),
                decreases m@.len() - j,
            {
                let ghost rb = rest@;
                if a.is_subset(&m[j]) {
                    superset.push(m[j].clone());
                } else {
                    rest.push(m[j].clone());
                    assert(rest@[rb.len() as int].elems() == m@[j as int].elems());
                }
                assert forall|t: int|
                    0 <= t < j + 1 && !a.elems().subset_of((#[trigger] m@[t]).elems()) implies listed(
                        rest@,
                        m@[t].elems(),
                    ) by {
                    if t < j {
                        let q = choose|q: int| 0 <= q < rb.len() && (#[trigger] rb[q]).elems() == m@[t].elems();
                        assert(rest@[q] == rb[q]);
                    }
                }
                j = j + 1;
            }
            let ghost mm = m@;
            m = rest;
            if superset.len() == 0 {
                superset.push(a.clone());
            }
            let ghost nb = iltask.neg_view();
            let mut last_len: usize = 0;
            let mut j: usize = superset.len();
            let mut stop = false;
            let mut emitted = false;
            let ghost mut ta: int = 0;
            while j > 0 && !stop
                invariant
                    a.wf(),
                    global.wf(),
                    self.wf(),
                    candidate(a.elems(), input, outs),
                    j <= superset@.len(),
                    superset@.len() > 0,
                    input == self.input.elems(),
                    outs == self.output@,
                    universe == global.elems(),
                    forall|t: int|
                        0 <= t < superset@.len() ==> (#[trigger] superset@[t]).wf() && candidate(
                            superset@[t].elems(),
                            input,
                            outs,
                        ) && a.elems().subset_of(superset@[t].elems()),
                    same_but_neg(*iltask, *old(iltask)),
                    n1 <= nb.len() <= iltask.neg_view().len(),
                    iltask.neg_view().subrange(0, nb.len() as int) == nb,
                    iltask.neg_view().subrange(0, n1 as int) == neg1,
                    forall|t: int|
                        n1 <= t < iltask.neg_view().len() ==> spurious_negative(
                            #[trigger] iltask.neg_view()[t],
                            self.input,
                            outs,
                            universe,
                        ),
                    emitted ==> n1 <= ta < iltask.neg_view().len() && exact(
                        iltask.neg_view()[ta].0,
                        a.elems().union(input),
                    ),
                    !emitted ==> last_len == 0 && j == superset@.len() && !stop,
                decreases j, (if stop { 0int } else { 1int }),
            {
                let b = &superset[j - 1];
                if b.len() < last_len {
                    stop = true;
                } else {
                    last_len = b.len();
                    let incl = a.union(&self.input);
                    let covered_set = self.input.union(b);
                    let excl = global.difference(&covered_set);
                    let ghost before = iltask.neg_view();
                    let ghost entry = (incl@, excl@, self.input@);
                    iltask.push_neg_example(ids_of(&incl), ids_of(&excl), ids_of(&self.input));
                    proof {
                        assert(candidate(b.elems(), input, outs));
                        assert(a.elems().subset_of(b.elems()));
                        assert(exact(entry.0, a.elems().union(input)));
                        assert(exact(entry.1, universe.difference(input.union(b.elems()))));
                        assert(spurious_negative(entry, self.input, outs, universe)) by {
                            reveal(spurious_negative);
                        }
                        assert(iltask.neg_view().subrange(0, n1 as int) =~= before.subrange(
                            0,
                            n1 as int,
                        ));
                        assert(iltask.neg_view().subrange(0, nb.len() as int) =~= before.subrange(
                            0,
                            nb.len() as int,
                        ));
                        assert(iltask.neg_view()[before.len() as int] == entry);
                        if !emitted {
                            ta = before.len() as int;
                        } else {
                            assert(iltask.neg_view()[ta] == before[ta]);
                        }
                    }
                    emitted = true;
                    j = j - 1;
                }
            }
            proof {
                let nv = iltask.neg_view();
                assert forall|c: Set<usize>|
                    #![trigger candidate(c, input, outs)]
                    candidate(c, input, outs) implies listed(m@, c) || covered(
                        nv,
                        n1 as int,
                        c,
                        input,
                        outs,
                    ) by {
                    if covered(nb, n1 as int, c, input, outs) {
                        let (t, x) = choose|t: int, x: Set<usize>|
                            #![trigger nb[t], candidate(x, input, outs)]
                            n1 <= t < nb.len() && candidate(x, input, outs) && x.subset_of(c) && exact(
                                nb[t].0,
                                x.union(input),
                            );
                        assert(nv[t] == nv.subrange(0, nb.len() as int)[t]);
                    } else {
                        let t = choose|t: int| 0 <= t < mb.len() && (#[trigger] mb[t]).elems() == c;
                        if t == 0 || a.elems().subset_of(c) {
                            assert(a.elems().subset_of(c));
                            assert(nv[ta].0 == nv[ta].0);
                        } else {
                            assert(mm[t - 1] == mb[t]);
                            assert(!a.elems().subset_of(mm[t - 1].elems()));
                        }
                    }
                }
            }
        }
        proof {
            assert(exact(unc@, universe.difference(union_all(outs))));
            assert(iltask.neg_view().subrange(0, n0 as int) =~= neg1.subrange(0, n0 as int));
            assert forall|t: int| 0 <= t < unc@.len() implies iltask.neg_view()[n0 + t] == (
                seq![unc@[t]],
                Seq::<usize>::empty(),
                self.input@,
            ) by {
                assert(neg1[n0 + t] == iltask.neg_view().subrange(0, n1 as int)[n0 + t]);
            }
            assert forall|c: Set<usize>|
                #![trigger candidate(c, input, outs)]
                candidate(c, input, outs) implies covered(
                    iltask.neg_view(),
                    (n0 + unc@.len()) as int,
                    c,
                    input,
                    outs,
                ) by {
                assert(!listed(m@, c));
            }
            assert(negatives_with(iltask.neg_view(), old(iltask).neg_view(), self.input, outs, universe, unc@));
            assert(negatives_added(*iltask, *old(iltask), self.input, outs, universe));
        }
    }

    /// Turns this example into training instances and vocabulary.
    ///
    /// With no accepted output, one negative example with nothing included
    /// or excluded under the input. Otherwise one positive example per output
    /// (that output included, the rest of the universe excluded), followed by
    /// the negatives of uncovered literals and of spurious candidates. The
    /// outputs' additions to the input become head and general-body
    /// vocabulary; the input becomes positive-body vocabulary.
    pub fn compute_example(&self, global: &SortedSet, iltask: &mut ILTaskBuilder)
        requires
            self.wf(),
            global.wf(),
        ensures
            final(iltask).pos_view().len() == old(iltask).pos_view().len() + self.output@.len(),
            final(iltask).pos_view().subrange(0, old(iltask).pos_view().len() as int) == old(
                iltask,
            ).pos_view(),
            forall|k: int|
                0 <= k < self.output@.len() ==> {
                    let ex = #[trigger] final(iltask).pos_view()[old(iltask).pos_view().len() + k];
                    &&& ex.0 == self.output@[k]@
                    &&& exact(ex.1, global.elems().difference(self.output@[k].elems()))
                    &&& ex.2 == self.input@
                },
            self.output@.len() == 0 ==> final(iltask).neg_view() == old(iltask).neg_view().push(
                (Seq::<usize>::empty(), Seq::<usize>::empty(), self.input@),
            ),
            self.output@.len() > 0 ==> negatives_added(
                *final(iltask),
                *old(iltask),
                self.input,
                self.output@,
                global.elems(),
            ),
            exists|d: Seq<usize>|
                #![trigger exact(d, union_all(self.output@).difference(self.input.elems()))]
                exact(d, union_all(self.output@).difference(self.input.elems()))
                    && final(iltask).head_view() == old(iltask).head_view() + d
                    && final(iltask).general_body_view() == old(iltask).general_body_view() + d,
            final(iltask).positive_body_view() == old(iltask).positive_body_view() + self.input@,
            final(iltask).background_view() == old(iltask).background_view(),
    {
        let literals = self.output_literals();
        let ghost pos_start = iltask.pos_view();
        if self.output.len() == 0 {
            iltask.push_neg_example(Vec::new(), Vec::new(), ids_of(&self.input));
            assert(iltask.pos_view().subrange(0, pos_start.len() as int) =~= pos_start);
        } else {
            let mut k: usize = 0;
            while k < self.output.len()
                invariant
                    self.wf(),
                    global.wf(),
                    k <= self.output@.len(),
                    iltask.pos_view().len() == pos_start.len() + k,
                    iltask.pos_view().subrange(0, pos_start.len() as int) == pos_start,
                    pos_start == old(iltask).pos_view(),
                    iltask.neg_view() == old(iltask).neg_view(),
                    iltask.positive_body_view() == old(iltask).positive_body_view(),
                    iltask.general_body_view() == old(iltask).general_body_view(),
                    iltask.head_view() == old(iltask).head_view(),
                    iltask.background_view() == old(iltask).background_view(),
                    forall|q: int|
                        0 <= q < k ==> {
                            let ex = #[trigger] iltask.pos_view()[pos_start.len() + q];
                            &&& ex.0 == self.output@[q]@
                            &&& exact(ex.1, global.elems().difference(self.output@[q].elems()))
                            &&& ex.2 == self.input@
                        },
                decreases self.output@.len() - k,
            {
                let s = &self.output[k];
                let excl = global.difference(s);
                let ghost before = iltask.pos_view();
                iltask.push_pos_example(ids_of(s), ids_of(&excl), ids_of(&self.input));
                assert(iltask.pos_view().subrange(0, pos_start.len() as int) =~= before.subrange(
                    0,
                    pos_start.len() as int,
                ));
                assert(iltask.pos_view()[before.len() as int] == (s@, excl@, self.input@));
                k = k + 1;
            }
            self.compute_neg_example(global, &literals, iltask);
        }
        let ghost after_neg = *iltask;
        let ghost mid = *iltask;
        let less_out = literals.difference(&self.input);
        let d = less_out.iter();
        let mut i: usize = 0;
        while i < d.len()
            invariant
                i <= d@.len(),
                d@ == less_out@,
                iltask.pos_view() == mid.pos_view(),
                iltask.neg_view() == mid.neg_view(),
                iltask.positive_body_view() == mid.positive_body_view(),
                iltask.background_view() == mid.background_view(),
                iltask.head_view() == mid.head_view() + d@.subrange(0, i as int),
                iltask.general_body_view() == mid.general_body_view() + d@.subrange(0, i as int),
            decreases d@.len() - i,
        {
            iltask.push_head(d[i]);
            iltask.push_general_body(d[i]);
            assert(d@.subrange(0, i + 1) == d@.subrange(0, i as int).push(d@[i as int]));
            assert(iltask.head_view() =~= mid.head_view() + d@.subrange(0, i + 1));
            assert(iltask.general_body_view() =~= mid.general_body_view() + d@.subrange(0, i + 1));
            i = i + 1;
        }
        assert(d@.subrange(0, i as int) == d@);
        let ghost mid2 = *iltask;
        let inp = self.input.iter();
        let mut i: usize = 0;
        while i < inp.len()
            invariant
                i <= inp@.len(),
                inp@ == self.input@,
                iltask.pos_view() == mid2.pos_view(),
                iltask.neg_view() == mid2.neg_view(),
                iltask.head_view() == mid2.head_view(),
                iltask.general_body_view() == mid2.general_body_view(),
                iltask.background_view() == mid2.background_view(),
                iltask.positive_body_view() == mid2.positive_body_view() + inp@.subrange(0, i as int),
            decreases inp@.len() - i,
        {
            iltask.push_positive_body(inp[i]);
            assert(inp@.subrange(0, i + 1) == inp@.subrange(0, i as int).push(inp@[i as int]));
            assert(iltask.positive_body_view() =~= mid2.positive_body_view() + inp@.subrange(0, i + 1));
            i = i + 1;
        }
        assert(inp@.subrange(0, i as int) == inp@);
        assert(exact(less_out@, union_all(self.output@).difference(self.input.elems())));
        if self.output.len() > 0 {
            proof {
                let d = choose|d: Seq<usize>|
                    #[trigger] negatives_with(
                        after_neg.neg_view(),
                        old(iltask).neg_view(),
                        self.input,
                        self.output@,
                        global.elems(),
                        d,
                    );
                assert(iltask.neg_view() == after_neg.neg_view());
                assert(negatives_with(iltask.neg_view(), old(iltask).neg_view(), self.input, self.output@, global.elems(), d));
            }
        }
    }

    /// The union of all accepted outputs.
    fn output_literals(&self) -> (r: SortedSet)
        requires
            self.wf(),
        ensures
            r.wf(),
            r.elems() == union_all(self.output@),
    {
        let empty: Vec<usize> = Vec::new();
        assert(set_of(empty@) =~= Set::empty());
        let mut acc = SortedSet::new(empty);
        let mut i: usize = 0;
        while i < self.output.len()
            invariant
                self.wf(),
                i <= self.output@.len(),
                acc.wf(),
                acc.elems() == union_all(self.output@.subrange(0, i as int)),
            decreases self.output@.len() - i,
        {
            acc = acc.union(&self.output[i]);
            assert(self.output@.subrange(0, i + 1).drop_last() == self.output@.subrange(0, i as int));
            i = i + 1;
        }
        assert(self.output@.subrange(0, i as int) == self.output@);
        acc
    }
}

} // verus!
