use vstd::prelude::*;

use crate::asp::{compute_models, ids_of_atoms, total_atoms};
use crate::error::IlnlpError;
use crate::ilasp::{ILExampleView, ILTask, ILTaskBuilder};
use crate::literal::{resolved, valid_lit, Lit, LitBuilder, Literal, LiteralView, Rule};
use crate::set::{set_of, strictly_sorted, SortedSet};
use crate::synth::{exact, union_all, Example};

verus! {

/// Background rules, examples, and the registry their literals live in.
#[derive(Debug)]
pub struct Task {
    background: Vec<Rule>,
    examples: Vec<Example>,
    lit_builder: LitBuilder,
}

/// The rules of `rules` whose bodies hold no negated literal, in order.
pub open spec fn definite_rules(rules: Seq<Rule>) -> Seq<Rule>
    decreases rules.len(),
{
    if rules.len() == 0 {
        Seq::empty()
    } else {
        let rest = definite_rules(rules.drop_last());
        if rules.last().is_definite() {
            rest.push(rules.last())
        } else {
            rest
        }
    }
}

/// Whether some output of `e2` is, as a set, equal to `s1`.
pub open spec fn among_outputs(s1: SortedSet, e2: Example) -> bool {
    exists|k: int| 0 <= k < e2.output@.len() && (#[trigger] e2.output@[k])@ == s1@
}

/// Condition (i) between the witness `s1` of one example and the output
/// `s2` of the other: a subset relation with differing cardinality.
pub open spec fn nested(s1: SortedSet, s2: SortedSet) -> bool {
    s1.elems().subset_of(s2.elems()) || (s2.elems().subset_of(s1.elems()) && s1@.len()
        != s2@.len())
}

/// What the witness `s1` of `e1` reveals against `e2`, whose definite
/// rules have the answer sets `models2` under `e2`'s input.
pub open spec fn witness_violation(
    e1: Example,
    e2: Example,
    s1: SortedSet,
    models2: Seq<SortedSet>,
) -> Option<IlnlpError> {
    if among_outputs(s1, e2) || !e2.input.elems().subset_of(s1.elems()) {
        None
    } else if exists|k: int|
        0 <= k < e2.output@.len() && e1.input.elems().subset_of(
            (#[trigger] e2.output@[k]).elems(),
        ) && nested(s1, e2.output@[k]) {
        Some(IlnlpError::IncompatibleOne)
    } else if models2.len() == 0 {
        Some(IlnlpError::NoModel)
    } else if e1.input.elems().subset_of(models2[0].elems()) {
        Some(IlnlpError::IncompatibleTwo)
    } else if exists|k: int|
        0 <= k < models2.len() && e1.input.elems().subset_of((#[trigger] models2[k]).elems()) {
        Some(IlnlpError::IncompatibleThree)
    } else {
        None
    }
}

/// The first violation among the witnesses of `e1` from index `k` on.
pub open spec fn witnesses_from(e1: Example, e2: Example, models2: Seq<SortedSet>, k: int) -> Option<
    IlnlpError,
>
    decreases e1.output@.len() - k,
{
    if k < 0 || k >= e1.output@.len() {
        None
    } else {
        match witness_violation(e1, e2, e1.output@[k], models2) {
            Some(err) => Some(err),
            None => witnesses_from(e1, e2, models2, k + 1),
        }
    }
}

/// The first violation over the pairs `(p, q)`, `p < q`, from `(p, q)` on
/// in lexicographic order.
pub open spec fn pairs_from(exs: Seq<Example>, models: Seq<Seq<SortedSet>>, p: int, q: int) -> Option<
    IlnlpError,
>
    decreases exs.len() - p, exs.len() - q,
{
    if p < 0 || p >= exs.len() {
        None
    } else if q <= p || q >= exs.len() {
        if q <= p {
            pairs_from(exs, models, p, p + 1)
        } else {
            pairs_from(exs, models, p + 1, p + 2)
        }
    } else {
        match witnesses_from(exs[p], exs[q], models[q], 0) {
            Some(err) => Some(err),
            None => pairs_from(exs, models, p, q + 1),
        }
    }
}

/// The universe: ids in `m` of the literals listed in `grounded`.
pub open spec fn universe_of(m: Seq<LiteralView>, grounded: Seq<Literal>) -> Set<usize> {
    Set::new(
        |id: usize|
            valid_lit(m.len(), id) && exists|k: int|
                0 <= k < grounded.len() && (#[trigger] grounded[k])@ == m[id - 1],
    )
}

/// The distinct predicate names among `lits`.
pub open spec fn predicates_of(lits: Seq<LiteralView>) -> Set<Seq<char>> {
    lits.map_values(|v: LiteralView| v.0).to_set()
}

/// Whether `x` is the positive example of output `j` of example `k`.
pub open spec fn positive_of(x: (Seq<usize>, Seq<usize>, Seq<usize>), exs: Seq<Example>, k: int, j: int, universe: Set<usize>) -> bool {
    &&& 0 <= k < exs.len()
    &&& 0 <= j < exs[k].output@.len()
    &&& x.0 == exs[k].output@[j]@
    &&& exact(x.1, universe.difference(exs[k].output@[j].elems()))
    &&& x.2 == exs[k].input@
}

/// Output `j` of example `k` exists.
pub open spec fn has_output(exs: Seq<Example>, k: int, j: int) -> bool {
    0 <= k < exs.len() && 0 <= j < exs[k].output@.len()
}

/// Every output of the first `i` examples has its positive example in `pv`.
pub open spec fn pos_complete(pv: Seq<ILExampleView>, exs: Seq<Example>, i: int, u: Set<usize>) -> bool {
    forall|k: int, j: int|
        #![trigger has_output(exs, k, j)]
        k < i && has_output(exs, k, j) ==> exists|x: ILExampleView|
            #![trigger pv.contains(x)]
            pv.contains(x) && positive_of(x, exs, k, j, u)
}

/// Every entry of `pv` is the positive example of an output of the first
/// `i` examples.
pub open spec fn pos_sound(pv: Seq<ILExampleView>, exs: Seq<Example>, i: int, u: Set<usize>) -> bool {
    forall|x: ILExampleView|
        #![trigger pv.contains(x)]
        pv.contains(x) ==> exists|k: int, j: int|
            #![trigger positive_of(x, exs, k, j, u)]
            k < i && positive_of(x, exs, k, j, u)
}

/// Each of the first `i` examples without outputs has its empty negative in `nv`.
pub open spec fn neg_of_empty(nv: Seq<ILExampleView>, exs: Seq<Example>, i: int) -> bool {
    forall|k: int|
        0 <= k < i && (#[trigger] exs[k]).output@.len() == 0 ==> nv.contains(
            (Seq::<usize>::empty(), Seq::<usize>::empty(), exs[k].input@),
        )
}

proof fn lemma_ilas_step(before: ILTaskBuilder, after: ILTaskBuilder, exs: Seq<Example>, i: int, u: Set<usize>)
    requires
        0 <= i < exs.len(),
        pos_complete(before.pos_view(), exs, i, u),
        pos_sound(before.pos_view(), exs, i, u),
        neg_of_empty(before.neg_view(), exs, i),
        after.pos_view().len() == before.pos_view().len() + exs[i].output@.len(),
        after.pos_view().subrange(0, before.pos_view().len() as int) == before.pos_view(),
        forall|j: int|
            0 <= j < exs[i].output@.len() ==> positive_of(
                #[trigger] after.pos_view()[before.pos_view().len() + j],
                exs,
                i,
                j,
                u,
            ),
        exs[i].output@.len() == 0 ==> after.neg_view() == before.neg_view().push(
            (Seq::<usize>::empty(), Seq::<usize>::empty(), exs[i].input@),
        ),
        exs[i].output@.len() > 0 ==> after.neg_view().subrange(0, before.neg_view().len() as int)
            == before.neg_view(),
        exs[i].output@.len() > 0 ==> before.neg_view().len() <= after.neg_view().len(),
    ensures
        pos_complete(after.pos_view(), exs, i + 1, u),
        pos_sound(after.pos_view(), exs, i + 1, u),
        neg_of_empty(after.neg_view(), exs, i + 1),
{
    let bp = before.pos_view();
    let ap = after.pos_view();
    let pos_start = bp.len();
    assert forall|k: int, j: int|
        #![trigger has_output(exs, k, j)]
        k < i + 1 && has_output(exs, k, j) implies exists|x: ILExampleView|
            #![trigger ap.contains(x)]
            ap.contains(x) && positive_of(x, exs, k, j, u) by {
        if k < i {
            let x = choose|x: ILExampleView| bp.contains(x) && positive_of(x, exs, k, j, u);
            let t = choose|t: int| 0 <= t < bp.len() && bp[t] == x;
            assert(ap[t] == ap.subrange(0, pos_start as int)[t]);
            assert(ap.contains(x));
        } else {
            assert(positive_of(ap[pos_start + j], exs, k, j, u));
            assert(ap.contains(ap[pos_start + j]));
        }
    }
    assert forall|x: ILExampleView|
        #![trigger ap.contains(x)]
        ap.contains(x) implies exists|k: int, j: int|
            #![trigger positive_of(x, exs, k, j, u)]
            k < i + 1 && positive_of(x, exs, k, j, u) by {
        let t = choose|t: int| 0 <= t < ap.len() && ap[t] == x;
        if t < pos_start {
            assert(ap[t] == ap.subrange(0, pos_start as int)[t]);
            assert(bp.contains(x));
            let (k, j) = choose|k: int, j: int| k < i && positive_of(x, exs, k, j, u);
            assert(positive_of(x, exs, k, j, u));
        } else {
            assert(positive_of(ap[pos_start + (t - pos_start)], exs, i, t - pos_start, u));
        }
    }
    let bn = before.neg_view();
    let an = after.neg_view();
    assert forall|k: int|
        0 <= k < i + 1 && (#[trigger] exs[k]).output@.len() == 0 implies an.contains(
            (Seq::<usize>::empty(), Seq::<usize>::empty(), exs[k].input@),
        ) by {
        let x = (Seq::<usize>::empty(), Seq::<usize>::empty(), exs[k].input@);
        if k < i {
            let t = choose|t: int| 0 <= t < bn.len() && bn[t] == x;
            if exs[i].output@.len() == 0 {
                assert(an[t] == x);
            } else {
                assert(an[t] == an.subrange(0, bn.len() as int)[t]);
            }
        } else {
            assert(an[bn.len() as int] == x);
        }
    }
}

/// The head vocabulary over `exs`: what each example's outputs add to its input.
pub open spec fn heads_of(exs: Seq<Example>) -> Set<usize>
    decreases exs.len(),
{
    if exs.len() == 0 {
        Set::empty()
    } else {
        heads_of(exs.drop_last()).union(
            union_all(exs.last().output@).difference(exs.last().input.elems()),
        )
    }
}

/// The positive-body vocabulary over `exs`: the literals of every input.
pub open spec fn inputs_of(exs: Seq<Example>) -> Set<usize>
    decreases exs.len(),
{
    if exs.len() == 0 {
        Set::empty()
    } else {
        inputs_of(exs.drop_last()).union(exs.last().input.elems())
    }
}

proof fn lemma_set_of_concat(a: Seq<usize>, b: Seq<usize>)
    ensures
        set_of(a + b) == set_of(a).union(set_of(b)),
{
    assert forall|y: usize| set_of(a + b).contains(y) == set_of(a).union(set_of(b)).contains(y) by {
        assert(set_of(a + b).contains(y) == (a + b).contains(y));
        assert(set_of(a).contains(y) == a.contains(y));
        assert(set_of(b).contains(y) == b.contains(y));
        if (a + b).contains(y) {
            let t = choose|t: int| 0 <= t < (a + b).len() && (a + b)[t] == y;
            if t < a.len() {
                assert(a[t] == y);
            } else {
                assert(b[t - a.len()] == y);
            }
        }
        if a.contains(y) {
            let t = choose|t: int| 0 <= t < a.len() && a[t] == y;
            assert((a + b)[t] == y);
        }
        if b.contains(y) {
            let t = choose|t: int| 0 <= t < b.len() && b[t] == y;
            assert((a + b)[a.len() + t] == y);
        }
    }
    assert(set_of(a + b) =~= set_of(a).union(set_of(b)));
}

/// The answer sets handed in per example, as sequences.
pub open spec fn models_view(models: Seq<Vec<SortedSet>>) -> Seq<Seq<SortedSet>> {
    models.map_values(|v: Vec<SortedSet>| v@)
}

/// Decides what the witness `s1` of `e1` reveals against `e2`.
fn witness_check(e1: &Example, e2: &Example, s1: &SortedSet, models2: &Vec<SortedSet>) -> (r:
    Option<IlnlpError>)
    requires
        e1.wf(),
        e2.wf(),
        s1.wf(),
        forall|k: int| 0 <= k < models2@.len() ==> (#[trigger] models2@[k]).wf(),
    ensures
        r == witness_violation(*e1, *e2, *s1, models2@),
{
    let mut k: usize = 0;
    while k < e2.output.len()
        invariant
            k <= e2.output@.len(),
            forall|t: int| 0 <= t < k ==> (#[trigger] e2.output@[t])@ != s1@,
        decreases e2.output@.len() - k,
    {
        if e2.output[k].equals(s1) {
            assert(among_outputs(*s1, *e2));
            return None;
        }
        k = k + 1;
    }
    assert(!among_outputs(*s1, *e2));
    if !e2.input.is_subset(s1) {
        return None;
    }
    let mut k: usize = 0;
    while k < e2.output.len()
        invariant
            e1.wf(),
            e2.wf(),
            s1.wf(),
            !among_outputs(*s1, *e2),
            e2.input.elems().subset_of(s1.elems()),
            k <= e2.output@.len(),
            forall|t: int|
                0 <= t < k ==> !(e1.input.elems().subset_of((#[trigger] e2.output@[t]).elems())
                    && nested(*s1, e2.output@[t])),
        decreases e2.output@.len() - k,
    {
        let s2 = &e2.output[k];
        if e1.input.is_subset(s2) && (s1.is_subset(s2) || (s2.is_subset(s1) && s1.len()
            != s2.len())) {
            assert(e1.input.elems().subset_of(e2.output@[k as int].elems()) && nested(
                *s1,
                e2.output@[k as int],
            ));
            return Some(IlnlpError::IncompatibleOne);
        }
        k = k + 1;
    }
    if models2.len() == 0 {
        return Some(IlnlpError::NoModel);
    }
    if e1.input.is_subset(&models2[0]) {
        return Some(IlnlpError::IncompatibleTwo);
    }
    let mut k: usize = 0;
    while k < models2.len()
        invariant
            e1.wf(),
            e2.wf(),
            s1.wf(),
            !among_outputs(*s1, *e2),
            e2.input.elems().subset_of(s1.elems()),
            forall|t: int|
                0 <= t < e2.output@.len() ==> !(e1.input.elems().subset_of(
                    (#[trigger] e2.output@[t]).elems(),
                ) && nested(*s1, e2.output@[t])),
            models2@.len() > 0,
            !e1.input.elems().subset_of(models2@[0].elems()),
            k <= models2@.len(),
            forall|t: int| 0 <= t < models2@.len() ==> (#[trigger] models2@[t]).wf(),
            forall|t: int|
                0 <= t < k ==> !e1.input.elems().subset_of((#[trigger] models2@[t]).elems()),
        decreases models2@.len() - k,
    {
        if e1.input.is_subset(&models2[k]) {
            return Some(IlnlpError::IncompatibleThree);
        }
        k = k + 1;
    }
    None
}

impl Task {
    pub closed spec fn examples_view(&self) -> Seq<Example> {
        self.examples@
    }

    pub closed spec fn background_view(&self) -> Seq<Rule> {
        self.background@
    }

    pub closed spec fn registry(&self) -> LitBuilder {
        self.lit_builder
    }

    pub open spec fn wf(&self) -> bool {
        &&& self.registry().wf()
        &&& forall|k: int| 0 <= k < self.examples_view().len() ==> (#[trigger] self.examples_view()[k]).wf()
    }

    pub fn new() -> (r: Task)
        ensures
            r.wf(),
            r.examples_view().len() == 0,
            r.background_view().len() == 0,
            r.registry().model().len() == 0,
    {
        Task { background: Vec::new(), examples: Vec::new(), lit_builder: LitBuilder::new() }
    }

    /// Interns `literal` in the task's registry.
    pub fn create_literal(&mut self, literal: Literal) -> (r: Lit)
        requires
            old(self).wf(),
            old(self).registry().model().len() < usize::MAX,
        ensures
            final(self).wf(),
            final(self).examples_view() == old(self).examples_view(),
            final(self).background_view() == old(self).background_view(),
            valid_lit(final(self).registry().model().len(), r),
            final(self).registry().model()[r - 1] == literal@,
            old(self).registry().model().contains(literal@) ==> final(self).registry().model()
                == old(self).registry().model(),
            !old(self).registry().model().contains(literal@) ==> final(self).registry().model()
                == old(self).registry().model().push(literal@),
    {
        let r = self.lit_builder.create_literal(literal);
        assert(self.examples_view() == old(self).examples_view());
        r
    }

    /// The literal named `lit` in the task's registry.
    pub fn get_literal(&self, lit: Lit) -> (r: Result<Literal, IlnlpError>)
        ensures
            valid_lit(self.registry().model().len(), lit) ==> (r is Ok && r->Ok_0@
                == self.registry().model()[lit - 1]),
            !valid_lit(self.registry().model().len(), lit) ==> r == Err::<Literal, IlnlpError>(
                IlnlpError::InvalidLit(lit),
            ),
    {
        self.lit_builder.get_literal(lit)
    }

    pub fn lit_builder(&self) -> (r: &LitBuilder)
        ensures
            *r == self.registry(),
    {
        &self.lit_builder
    }

    pub fn examples(&self) -> (r: &Vec<Example>)
        ensures
            r@ == self.examples_view(),
    {
        &self.examples
    }

    pub fn background(&self) -> (r: &Vec<Rule>)
        ensures
            r@ == self.background_view(),
    {
        &self.background
    }

    pub fn push_example(&mut self, example: Example)
        requires
            old(self).wf(),
            example.wf(),
        ensures
            final(self).wf(),
            final(self).examples_view() == old(self).examples_view().push(example),
            final(self).background_view() == old(self).background_view(),
            final(self).registry() == old(self).registry(),
    {
        self.examples.push(example);
        assert forall|k: int| 0 <= k < self.examples_view().len() implies (
        #[trigger] self.examples_view()[k]).wf() by {
            if k < old(self).examples_view().len() {
                assert(self.examples_view()[k] == old(self).examples_view()[k]);
            }
        }
    }

    pub fn push_background(&mut self, rule: Rule)
        requires
            old(self).wf(),
        ensures
            final(self).wf(),
            final(self).background_view() == old(self).background_view().push(rule),
            final(self).examples_view() == old(self).examples_view(),
            final(self).registry() == old(self).registry(),
    {
        self.background.push(rule);
        assert(self.examples_view() == old(self).examples_view());
    }

    /// The background rules without negation in their bodies, in order.
    pub fn get_definite_rules(&self) -> (r: Vec<&Rule>)
        ensures
            r@.map_values(|x: &Rule| *x) == definite_rules(self.background_view()),
    {
        let mut r: Vec<&Rule> = Vec::new();
        let mut i: usize = 0;
        while i < self.background.len()
            invariant
                i <= self.background@.len(),
                r@.map_values(|x: &Rule| *x) == definite_rules(self.background@.subrange(0, i as int)),
            decreases self.background@.len() - i,
        {
            let rule = &self.background[i];
            assert(self.background@.subrange(0, i + 1).drop_last() == self.background@.subrange(
                0,
                i as int,
            ));
            let ghost before = r@.map_values(|x: &Rule| *x);
            if rule.definite() {
                r.push(rule);
                assert(r@.map_values(|x: &Rule| *x) =~= before.push(*rule));
            }
            i = i + 1;
        }
        assert(self.background@.subrange(0, i as int) == self.background@);
        r
    }

    /// Checks every pair of examples, in order, against the three
    /// compatibility conditions and stops at the first violation.
    ///
    /// `models[q]` holds the answer sets of the definite background rules
    /// under the input of example `q`, in the order the solver gave them;
    /// condition (ii) reads the first, condition (iii) all of them.
    pub fn check_compatibility(&self, models: &Vec<Vec<SortedSet>>) -> (r: Result<(), IlnlpError>)
        requires
            self.wf(),
            models@.len() == self.examples_view().len(),
            forall|q: int, k: int|
                0 <= q < models@.len() && 0 <= k < models@[q]@.len() ==> (#[trigger] models@[q]@[k]).wf(),
        ensures
            r == match pairs_from(self.examples_view(), models_view(models@), 0, 1) {
                None => Ok(()),
                Some(err) => Err(err),
            },
    {
        let ghost exs = self.examples_view();
        let ghost ms = models_view(models@);
        let n = self.examples.len();
        if n < 2 {
            assert(pairs_from(exs, ms, 0, 1) == pairs_from(exs, ms, 1, 2));
            return Ok(());
        }
        let mut p: usize = 0;
        while p < n
            invariant
                self.wf(),
                n == exs.len(),
                exs == self.examples_view(),
                ms == models_view(models@),
                models@.len() == n,
                forall|q: int, k: int|
                    0 <= q < models@.len() && 0 <= k < models@[q]@.len() ==> (#[trigger] models@[q]@[k]).wf(),
                p <= n,
                pairs_from(exs, ms, 0, 1) == pairs_from(exs, ms, p as int, p + 1),
            decreases n - p,
        {
            let mut q: usize = p + 1;
            while q < n
                invariant
                    self.wf(),
                    n == exs.len(),
                    exs == self.examples_view(),
                    ms == models_view(models@),
                    models@.len() == n,
                    forall|q: int, k: int|
                        0 <= q < models@.len() && 0 <= k < models@[q]@.len() ==> (#[trigger] models@[q]@[k]).wf(),
                    p < n,
                    p + 1 <= q <= n,
                    pairs_from(exs, ms, 0, 1) == pairs_from(exs, ms, p as int, q as int),
                decreases n - q,
            {
                let e1 = &self.examples[p];
                let e2 = &self.examples[q];
                let m2 = &models[q];
                assert(ms[q as int] == m2@);
                assert(*e1 == exs[p as int]);
                assert(*e2 == exs[q as int]);
                assert(e1.wf() && e2.wf());
                let mut k: usize = 0;
                while k < e1.output.len()
                    invariant
                        e1.wf(),
                        e2.wf(),
                        forall|t: int| 0 <= t < m2@.len() ==> (#[trigger] m2@[t]).wf(),
                        k <= e1.output@.len(),
                        n == exs.len(),
                        exs == self.examples_view(),
                        ms == models_view(models@),
                        p < q < n,
                        *e1 == exs[p as int],
                        *e2 == exs[q as int],
                        ms[q as int] == m2@,
                        pairs_from(exs, ms, 0, 1) == pairs_from(exs, ms, p as int, q as int),
                        witnesses_from(*e1, *e2, m2@, 0) == witnesses_from(*e1, *e2, m2@, k as int),
                    decreases e1.output@.len() - k,
                {
                    assert(e1.output@[k as int].wf());
                    let v = witness_check(e1, e2, &e1.output[k], m2);
                    match v {
                        Some(err) => {
                            assert(witnesses_from(*e1, *e2, m2@, 0) == Some(err));
                            assert(witnesses_from(exs[p as int], exs[q as int], ms[q as int], 0)
                                == Some(err));
                            assert(pairs_from(exs, ms, p as int, q as int) == Some(err));
                            return Err(err);
                        },
                        None => {},
                    }
                    k = k + 1;
                }
                assert(witnesses_from(*e1, *e2, m2@, k as int) == None::<IlnlpError>);
                assert(pairs_from(exs, ms, p as int, q as int) == pairs_from(
                    exs,
                    ms,
                    p as int,
                    q + 1,
                ));
                q = q + 1;
            }
            assert(pairs_from(exs, ms, p as int, q as int) == pairs_from(
                exs,
                ms,
                p + 1,
                p + 2,
            ));
            p = p + 1;
        }
        assert(pairs_from(exs, ms, p as int, p + 1) == None::<IlnlpError>);
        Ok(())
    }

    /// The number of literals in `universe` and the number of distinct
    /// predicate names among them.
    pub fn compute_universe_stats(&self, universe: &SortedSet) -> (r: (usize, usize))
        ensures
            r.0 == resolved(self.registry().model(), universe@).len(),
            r.1 == predicates_of(resolved(self.registry().model(), universe@)).len(),
    {
        let lits = self.lit_builder.get_literals(universe.iter());
        let ghost lv = lits@.map_values(|l: Literal| l@);
        let ghost names = lv.map_values(|v: LiteralView| v.0);
        let mut preds: Vec<String> = Vec::new();
        let mut i: usize = 0;
        while i < lits.len()
            invariant
                i <= lits@.len(),
                lv == lits@.map_values(|l: Literal| l@),
                names == lv.map_values(|v: LiteralView| v.0),
                preds@.map_values(|x: String| x@).no_duplicates(),
                preds@.map_values(|x: String| x@).to_set() == names.subrange(0, i as int).to_set(),
            decreases lits@.len() - i,
        {
            let name = &lits[i].predicate;
            assert(names[i as int] == name@);
            let ghost pv = preds@.map_values(|x: String| x@);
            let mut seen = false;
            let mut k: usize = 0;
            while k < preds.len()
                invariant
                    k <= preds@.len(),
                    pv == preds@.map_values(|x: String| x@),
                    !seen ==> forall|t: int| 0 <= t < k ==> pv[t] != name@,
                    seen ==> pv.contains(name@),
                decreases preds@.len() - k,
            {
                if preds[k] == *name {
                    seen = true;
                    assert(pv[k as int] == name@);
                }
                k = k + 1;
            }
            let ghost pre = names.subrange(0, i as int);
            assert(names.subrange(0, i + 1) == pre.push(name@));
            if !seen {
                preds.push(name.clone());
                assert(preds@.map_values(|x: String| x@) =~= pv.push(name@));
                assert(preds@.map_values(|x: String| x@).to_set() =~= pre.push(name@).to_set()) by {
                    pv.lemma_push_to_set_commute(name@);
                    pre.lemma_push_to_set_commute(name@);
                }
            } else {
                assert(pv.to_set() =~= pre.push(name@).to_set()) by {
                    pre.lemma_push_to_set_commute(name@);
                    assert(pv.to_set().contains(name@));
                }
            }
            i = i + 1;
        }
        proof {
            assert(names.subrange(0, i as int) == names);
            preds@.map_values(|x: String| x@).unique_seq_to_set();
        }
        (lits.len(), preds.len())
    }

    /// Runs the synthesis pass: interns the solver's derived facts into the
    /// universe, turns every example into training instances against it, and
    /// builds the induction task.
    pub fn ilas(&mut self, grounded: &Vec<Literal>) -> (r: ILTask)
        requires
            old(self).wf(),
            old(self).registry().model().len() + grounded@.len() < usize::MAX,
        ensures
            final(self).wf(),
            final(self).examples_view() == old(self).examples_view(),
            final(self).background_view() == old(self).background_view(),
            r.background_view().map_values(|x: Rule| x@) == old(self).background_view().map_values(
                |x: Rule| x@,
            ),
            crate::ilasp::distinct(r.pos_view()),
            crate::ilasp::distinct(r.neg_view()),
            crate::ilasp::sorted_examples(r.pos_view()),
            crate::ilasp::sorted_examples(r.neg_view()),
            strictly_sorted(r.search_space_view().head_view()),
            set_of(r.search_space_view().head_view()) == heads_of(final(self).examples_view()),
            strictly_sorted(r.search_space_view().general_body_view()),
            set_of(r.search_space_view().general_body_view()) == heads_of(final(self).examples_view()),
            strictly_sorted(r.search_space_view().positive_body_view()),
            set_of(r.search_space_view().positive_body_view()) == inputs_of(final(self).examples_view()),
            pos_complete(
                r.pos_view(),
                final(self).examples_view(),
                final(self).examples_view().len() as int,
                universe_of(final(self).registry().model(), grounded@),
            ),
            pos_sound(
                r.pos_view(),
                final(self).examples_view(),
                final(self).examples_view().len() as int,
                universe_of(final(self).registry().model(), grounded@),
            ),
            forall|k: int|
                0 <= k < final(self).examples_view().len() && final(self).examples_view()[k].output@.len()
                    == 0 ==> r.neg_view().contains(
                    (Seq::<usize>::empty(), Seq::<usize>::empty(), final(self).examples_view()[k].input@),
                ),
    {
        let mut builder = ILTaskBuilder::new();
        let mut i: usize = 0;
        while i < self.background.len()
            invariant
                i <= self.background@.len(),
                builder.background_view().len() == i,
                forall|k: int| 0 <= k < i ==> (#[trigger] builder.background_view()[k])@ == self.background@[k]@,
                builder.pos_view().len() == 0,
                builder.neg_view().len() == 0,
                builder.head_view().len() == 0,
                builder.general_body_view().len() == 0,
                builder.positive_body_view().len() == 0,
            decreases self.background@.len() - i,
        {
            builder.push_background(self.background[i].clone());
            i = i + 1;
        }
        assert(builder.background_view().map_values(|x: Rule| x@) =~= self.background@.map_values(
            |x: Rule| x@,
        ));
        let ghost bg = builder.background_view();
        let universe = self.compute_universe(grounded);
        let ghost exs = self.examples@;
        let ghost u = universe.elems();
        let mut i: usize = 0;
        while i < self.examples.len()
            invariant
                self.wf(),
                universe.wf(),
                exs == self.examples@,
                exs == self.examples_view(),
                u == universe.elems(),
                i <= exs.len(),
                builder.background_view() == bg,
                pos_complete(builder.pos_view(), exs, i as int, u),
                pos_sound(builder.pos_view(), exs, i as int, u),
                neg_of_empty(builder.neg_view(), exs, i as int),
                set_of(builder.head_view()) == heads_of(exs.subrange(0, i as int)),
                set_of(builder.general_body_view()) == heads_of(exs.subrange(0, i as int)),
                set_of(builder.positive_body_view()) == inputs_of(exs.subrange(0, i as int)),
            decreases exs.len() - i,
        {
            let ghost before = builder;
            assert(self.examples_view()[i as int].wf());
            let e = &self.examples[i];
            e.compute_example(&universe, &mut builder);
            proof {
                let pos_start = before.pos_view().len();
                assert forall|j: int| 0 <= j < exs[i as int].output@.len() implies positive_of(
                    #[trigger] builder.pos_view()[pos_start + j],
                    exs,
                    i as int,
                    j,
                    u,
                ) by {
                    let ex = builder.pos_view()[pos_start + j];
                    assert(ex.0 == exs[i as int].output@[j]@);
                }
                assert(builder.pos_view().subrange(0, pos_start as int) == before.pos_view());
                if exs[i as int].output@.len() > 0 {
                    let n0 = before.neg_view().len();
                    assert(builder.neg_view().subrange(0, n0 as int) == before.neg_view());
                }
                lemma_ilas_step(before, builder, exs, i as int, u);
                let d = choose|d: Seq<usize>|
                    #![trigger exact(d, union_all(exs[i as int].output@).difference(exs[i as int].input.elems()))]
                    exact(d, union_all(exs[i as int].output@).difference(exs[i as int].input.elems()))
                        && builder.head_view() == before.head_view() + d
                        && builder.general_body_view() == before.general_body_view() + d;
                lemma_set_of_concat(before.head_view(), d);
                lemma_set_of_concat(before.general_body_view(), d);
                lemma_set_of_concat(before.positive_body_view(), exs[i as int].input@);
                assert(exs.subrange(0, i + 1).drop_last() == exs.subrange(0, i as int));
            }
            i = i + 1;
        }
        assert(exs.subrange(0, i as int) == exs);
        let r = builder.build();
        proof {
            let bp = builder.pos_view();
            let rp = r.pos_view();
            assert forall|k: int, j: int|
                #![trigger has_output(exs, k, j)]
                k < exs.len() && has_output(exs, k, j) implies exists|x: ILExampleView|
                    #![trigger rp.contains(x)]
                    rp.contains(x) && positive_of(x, exs, k, j, u) by {
                let x = choose|x: ILExampleView| bp.contains(x) && positive_of(x, exs, k, j, u);
                assert(rp.contains(x));
            }
            assert forall|x: ILExampleView|
                #![trigger rp.contains(x)]
                rp.contains(x) implies exists|k: int, j: int|
                    #![trigger positive_of(x, exs, k, j, u)]
                    k < exs.len() && positive_of(x, exs, k, j, u) by {
                assert(bp.contains(x));
            }
            assert forall|k: int|
                0 <= k < exs.len() && (#[trigger] exs[k]).output@.len() == 0 implies r.neg_view().contains(
                    (Seq::<usize>::empty(), Seq::<usize>::empty(), exs[k].input@),
                ) by {
                assert(builder.neg_view().contains((Seq::<usize>::empty(), Seq::<usize>::empty(), exs[k].input@)));
            }
        }
        r
    }

    /// Interns the atoms of each solver model in the task's registry and
    /// returns the models as sets of ids.
    pub fn models_of(&mut self, models: &Vec<Vec<Literal>>, limit: usize) -> (r: Result<Vec<SortedSet>, IlnlpError>)
        requires
            old(self).wf(),
            old(self).registry().model().len() + total_atoms(models@) < usize::MAX,
        ensures
            final(self).wf(),
            final(self).examples_view() == old(self).examples_view(),
            final(self).background_view() == old(self).background_view(),
            final(self).registry().model().subrange(0, old(self).registry().model().len() as int)
                == old(self).registry().model(),
            (models@.len() == 0 || limit == 0) <==> r == Err::<Vec<SortedSet>, IlnlpError>(
                IlnlpError::NoModel,
            ),
            (models@.len() > 0 && limit > 0) ==> r is Ok,
            forall|k: int, t: int|
                0 <= k < models@.len() && k < limit && 0 <= t < models@[k]@.len() ==> final(self).registry().model().contains(#[trigger] models@[k]@[t]@),
            r is Ok ==> {
                let v = r->Ok_0;
                &&& v@.len() == if models@.len() < limit {
                    models@.len()
                } else {
                    limit as nat
                }
                &&& forall|k: int|
                    0 <= k < v@.len() ==> (#[trigger] v@[k]).wf() && v@[k].elems() == ids_of_atoms(
                        final(self).registry().model(),
                        models@[k]@,
                    )
            },
    {
        let r = compute_models(models, &mut self.lit_builder, limit);
        assert(self.examples_view() == old(self).examples_view());
        r
    }

    /// Interns the facts that the solver derived for all examples and
    /// returns the universe: the ids of exactly those facts.
    pub fn compute_universe(&mut self, grounded: &Vec<Literal>) -> (r: SortedSet)
        requires
            old(self).wf(),
            old(self).registry().model().len() + grounded@.len() < usize::MAX,
        ensures
            final(self).wf(),
            final(self).examples_view() == old(self).examples_view(),
            final(self).background_view() == old(self).background_view(),
            final(self).registry().model().subrange(0, old(self).registry().model().len() as int)
                == old(self).registry().model(),
            forall|k: int|
                0 <= k < grounded@.len() ==> final(self).registry().model().contains(
                    (#[trigger] grounded@[k])@,
                ),
            r.wf(),
            r.elems() == universe_of(final(self).registry().model(), grounded@),
    {
        let ghost m0 = self.lit_builder.model();
        let mut ids: Vec<usize> = Vec::new();
        let mut i: usize = 0;
        while i < grounded.len()
            invariant
                i <= grounded@.len(),
                ids@.len() == i,
                self.wf(),
                self.examples_view() == old(self).examples_view(),
                self.background_view() == old(self).background_view(),
                m0 == old(self).registry().model(),
                m0.len() <= self.lit_builder.model().len() <= m0.len() + i,
                m0.len() + grounded@.len() < usize::MAX,
                self.lit_builder.model().subrange(0, m0.len() as int) == m0,
                forall|t: int|
                    0 <= t < i ==> valid_lit(self.lit_builder.model().len(), #[trigger] ids@[t])
                        && self.lit_builder.model()[ids@[t] - 1] == grounded@[t]@,
            decreases grounded@.len() - i,
        {
            let ghost before = self.lit_builder.model();
            let id = self.lit_builder.create_literal(grounded[i].clone());
            assert(self.lit_builder.model().subrange(0, m0.len() as int) =~= before.subrange(
                0,
                m0.len() as int,
            ));
            assert forall|t: int| 0 <= t < i implies valid_lit(
                self.lit_builder.model().len(),
                #[trigger] ids@[t],
            ) && self.lit_builder.model()[ids@[t] - 1] == grounded@[t]@ by {
                assert(self.lit_builder.model()[ids@[t] - 1] == before[ids@[t] - 1]);
            }
            ids.push(id);
            i = i + 1;
        }
        let ghost idseq = ids@;
        assert forall|k: int| 0 <= k < grounded@.len() implies self.lit_builder.model().contains(
            (#[trigger] grounded@[k])@,
        ) by {
            assert(valid_lit(self.lit_builder.model().len(), idseq[k]));
        }
        let r = SortedSet::new(ids);
        proof {
            let m = self.lit_builder.model();
            assert forall|id: usize|
                r.elems().contains(id) <==> valid_lit(m.len(), id) && exists|k: int|
                    0 <= k < grounded@.len() && (#[trigger] grounded@[k])@ == m[id - 1] by {
                if r.elems().contains(id) {
                    assert(set_of(idseq).contains(id));
                    let t = choose|t: int| 0 <= t < idseq.len() && idseq[t] == id;
                    assert(valid_lit(m.len(), idseq[t]));
                    assert(grounded@[t]@ == m[id - 1]);
                }
                if valid_lit(m.len(), id) && exists|k: int|
                    0 <= k < grounded@.len() && (#[trigger] grounded@[k])@ == m[id - 1] {
                    let k = choose|k: int|
                        0 <= k < grounded@.len() && (#[trigger] grounded@[k])@ == m[id - 1];
                    assert(valid_lit(m.len(), idseq[k]));
                    assert(m[idseq[k] - 1] == m[id - 1]);
                    assert(idseq[k] == id);
                    assert(set_of(idseq).contains(id));
                }
            }
            assert(r.elems() =~= universe_of(m, grounded@));
        }
        r
    }
}

} // verus!
