use vstd::prelude::*;

use crate::literal::{Lit, Rule};
use crate::set::{set_of, strictly_sorted, SortedSet};
use vstd::slice::slice_to_vec;

verus! {

/// The value of a training example: include, exclude and context ids.
pub type ILExampleView = (Seq<usize>, Seq<usize>, Seq<usize>);

/// A training instance: literals that must hold (`incl`), literals that must
/// not hold (`excl`), under the facts of `ctx`.
#[derive(Debug)]
pub struct ILExample {
    incl: Vec<Lit>,
    excl: Vec<Lit>,
    ctx: Vec<Lit>,
}

impl View for ILExample {
    type V = ILExampleView;

    closed spec fn view(&self) -> ILExampleView {
        (self.incl@, self.excl@, self.ctx@)
    }
}

fn same_ids(a: &Vec<Lit>, b: &Vec<Lit>) -> (r: bool)
    ensures
        r == (a@ == b@),
{
    if a.len() != b.len() {
        return false;
    }
    let mut i: usize = 0;
    while i < a.len()
        invariant
            i <= a@.len(),
            a@.len() == b@.len(),
            forall|k: int| 0 <= k < i ==> a@[k] == b@[k],
        decreases a@.len() - i,
    {
        if a[i] != b[i] {
            return false;
        }
        i = i + 1;
    }
    assert(a@ =~= b@);
    true
}

impl ILExample {
    pub fn new(incl: Vec<Lit>, excl: Vec<Lit>, ctx: Vec<Lit>) -> (r: ILExample)
        ensures
            r@ == (incl@, excl@, ctx@),
    {
        ILExample { incl, excl, ctx }
    }

    pub fn incl(&self) -> (r: &Vec<Lit>)
        ensures
            r@ == self@.0,
    {
        &self.incl
    }

    pub fn excl(&self) -> (r: &Vec<Lit>)
        ensures
            r@ == self@.1,
    {
        &self.excl
    }

    pub fn ctx(&self) -> (r: &Vec<Lit>)
        ensures
            r@ == self@.2,
    {
        &self.ctx
    }

    /// A copy with the same three lists.
    pub fn duplicate(&self) -> (r: ILExample)
        ensures
            r@ == self@,
    {
        ILExample {
            incl: slice_to_vec(self.incl.as_slice()),
            excl: slice_to_vec(self.excl.as_slice()),
            ctx: slice_to_vec(self.ctx.as_slice()),
        }
    }

    /// Structural equality of the three lists.
    pub fn same_as(&self, other: &ILExample) -> (r: bool)
        ensures
            r == (self@ == other@),
    {
        same_ids(&self.incl, &other.incl) && same_ids(&self.excl, &other.excl) && same_ids(
            &self.ctx,
            &other.ctx,
        )
    }
}

/// The three vocabularies offered to the learner.
#[derive(Debug)]
pub struct ILSearchSpace {
    positive_body: Vec<Lit>,
    general_body: Vec<Lit>,
    head: Vec<Lit>,
}

impl ILSearchSpace {
    pub closed spec fn positive_body_view(&self) -> Seq<Lit> {
        self.positive_body@
    }

    pub closed spec fn general_body_view(&self) -> Seq<Lit> {
        self.general_body@
    }

    pub closed spec fn head_view(&self) -> Seq<Lit> {
        self.head@
    }

    pub fn new() -> (r: ILSearchSpace)
        ensures
            r.positive_body_view().len() == 0,
            r.general_body_view().len() == 0,
            r.head_view().len() == 0,
    {
        ILSearchSpace { positive_body: Vec::new(), general_body: Vec::new(), head: Vec::new() }
    }

    /// Sorts each vocabulary and drops its duplicates.
    fn rebuild(self) -> (r: ILSearchSpace)
        ensures
            strictly_sorted(r.positive_body_view()),
            set_of(r.positive_body_view()) == set_of(self.positive_body_view()),
            strictly_sorted(r.general_body_view()),
            set_of(r.general_body_view()) == set_of(self.general_body_view()),
            strictly_sorted(r.head_view()),
            set_of(r.head_view()) == set_of(self.head_view()),
    {
        let p = SortedSet::new(self.positive_body);
        let g = SortedSet::new(self.general_body);
        let h = SortedSet::new(self.head);
        ILSearchSpace {
            positive_body: slice_to_vec(p.iter()),
            general_body: slice_to_vec(g.iter()),
            head: slice_to_vec(h.iter()),
        }
    }

    pub fn positive_body(&self) -> (r: &Vec<Lit>)
        ensures
            r@ == self.positive_body_view(),
    {
        &self.positive_body
    }

    pub fn general_body(&self) -> (r: &Vec<Lit>)
        ensures
            r@ == self.general_body_view(),
    {
        &self.general_body
    }

    pub fn head(&self) -> (r: &Vec<Lit>)
        ensures
            r@ == self.head_view(),
    {
        &self.head
    }
}

/// Collects training examples, vocabulary and background rules.
#[derive(Debug)]
pub struct ILTaskBuilder {
    pos_examples: Vec<ILExample>,
    neg_examples: Vec<ILExample>,
    search_space: ILSearchSpace,
    background: Vec<Rule>,
}

/// The finished induction task: examples sorted lexicographically by
/// (include, exclude, context) without repetitions, sorted deduplicated
/// vocabularies, and the background rules.
#[derive(Debug)]
pub struct ILTask {
    pos_examples: Vec<ILExample>,
    neg_examples: Vec<ILExample>,
    search_space: ILSearchSpace,
    background: Vec<Rule>,
}

pub open spec fn views_of(s: Seq<ILExample>) -> Seq<ILExampleView> {
    s.map_values(|e: ILExample| e@)
}

/// A sequence without repeated values.
pub open spec fn distinct<A>(s: Seq<A>) -> bool {
    forall|i: int, j: int| 0 <= i < j < s.len() ==> s[i] != s[j]
}

/// Lexicographic order on id sequences; a proper prefix comes first.
pub open spec fn seq_lt(a: Seq<usize>, b: Seq<usize>) -> bool
    decreases a.len(),
{
    if a.len() == 0 {
        b.len() > 0
    } else if b.len() == 0 {
        false
    } else if a[0] != b[0] {
        a[0] < b[0]
    } else {
        seq_lt(a.drop_first(), b.drop_first())
    }
}

/// Lexicographic order on examples: by include, then exclude, then context.
pub open spec fn example_lt(x: ILExampleView, y: ILExampleView) -> bool {
    seq_lt(x.0, y.0) || (x.0 == y.0 && (seq_lt(x.1, y.1) || (x.1 == y.1 && seq_lt(x.2, y.2))))
}

proof fn lemma_seq_lt_irrefl(a: Seq<usize>)
    ensures
        !seq_lt(a, a),
    decreases a.len(),
{
    if a.len() > 0 {
        lemma_seq_lt_irrefl(a.drop_first());
    }
}

proof fn lemma_seq_lt_trans(a: Seq<usize>, b: Seq<usize>, c: Seq<usize>)
    requires
        seq_lt(a, b),
        seq_lt(b, c),
    ensures
        seq_lt(a, c),
    decreases a.len(),
{
    if a.len() > 0 && b.len() > 0 && c.len() > 0 && a[0] == b[0] && b[0] == c[0] {
        lemma_seq_lt_trans(a.drop_first(), b.drop_first(), c.drop_first());
    }
}

proof fn lemma_seq_lt_total(a: Seq<usize>, b: Seq<usize>)
    requires
        a != b,
    ensures
        seq_lt(a, b) || seq_lt(b, a),
    decreases a.len(),
{
    if a.len() > 0 && b.len() > 0 && a[0] == b[0] {
        if a.drop_first() == b.drop_first() {
            assert(a =~= seq![a[0]] + a.drop_first());
            assert(b =~= seq![b[0]] + b.drop_first());
        }
        lemma_seq_lt_total(a.drop_first(), b.drop_first());
    } else if a.len() == 0 && b.len() == 0 {
        assert(a =~= b);
    }
}

proof fn lemma_example_lt_facts(x: ILExampleView, y: ILExampleView, z: ILExampleView)
    ensures
        !example_lt(x, x),
        x != y ==> example_lt(x, y) || example_lt(y, x),
        example_lt(x, y) && example_lt(y, z) ==> example_lt(x, z),
{
    lemma_seq_lt_irrefl(x.0);
    lemma_seq_lt_irrefl(x.1);
    lemma_seq_lt_irrefl(x.2);
    if x != y {
        if x.0 != y.0 {
            lemma_seq_lt_total(x.0, y.0);
        } else if x.1 != y.1 {
            lemma_seq_lt_total(x.1, y.1);
        } else {
            lemma_seq_lt_total(x.2, y.2);
        }
    }
    if example_lt(x, y) && example_lt(y, z) {
        if seq_lt(x.0, y.0) && seq_lt(y.0, z.0) {
            lemma_seq_lt_trans(x.0, y.0, z.0);
        }
        if x.0 == y.0 && y.0 == z.0 && seq_lt(x.1, y.1) && seq_lt(y.1, z.1) {
            lemma_seq_lt_trans(x.1, y.1, z.1);
        }
        if x.0 == y.0 && y.0 == z.0 && x.1 == y.1 && y.1 == z.1 && seq_lt(x.2, y.2) && seq_lt(y.2, z.2) {
            lemma_seq_lt_trans(x.2, y.2, z.2);
        }
    }
}

fn ids_lt(a: &Vec<Lit>, b: &Vec<Lit>) -> (r: bool)
    ensures
        r == seq_lt(a@, b@),
{
    let mut i: usize = 0;
    assert(a@.subrange(0, a@.len() as int) == a@);
    assert(b@.subrange(0, b@.len() as int) == b@);
    while i < a.len() && i < b.len() && a[i] == b[i]
        invariant
            i <= a@.len(),
            i <= b@.len(),
            seq_lt(a@, b@) == seq_lt(a@.subrange(i as int, a@.len() as int), b@.subrange(i as int, b@.len() as int)),
        decreases a@.len() - i,
    {
        let ghost sa = a@.subrange(i as int, a@.len() as int);
        let ghost sb = b@.subrange(i as int, b@.len() as int);
        assert(sa.drop_first() =~= a@.subrange(i + 1, a@.len() as int));
        assert(sb.drop_first() =~= b@.subrange(i + 1, b@.len() as int));
        i = i + 1;
    }
    if i < a.len() && i < b.len() {
        a[i] < b[i]
    } else {
        i == a.len() && i < b.len()
    }
}

fn example_less(x: &ILExample, y: &ILExample) -> (r: bool)
    ensures
        r == example_lt(x@, y@),
{
    if ids_lt(&x.incl, &y.incl) {
        return true;
    }
    if !same_ids(&x.incl, &y.incl) {
        return false;
    }
    if ids_lt(&x.excl, &y.excl) {
        return true;
    }
    if !same_ids(&x.excl, &y.excl) {
        return false;
    }
    ids_lt(&x.ctx, &y.ctx)
}

/// Sorted in strictly increasing lexicographic order.
pub open spec fn sorted_examples(s: Seq<ILExampleView>) -> bool {
    forall|i: int, j: int| 0 <= i < j < s.len() ==> example_lt(s[i], s[j])
}

/// Sorts the examples and drops repetitions.
fn sort_examples(v: &Vec<ILExample>) -> (r: Vec<ILExample>)
    ensures
        sorted_examples(views_of(r@)),
        forall|x: ILExampleView| views_of(r@).contains(x) <==> views_of(v@).contains(x),
{
    let mut r: Vec<ILExample> = Vec::new();
    let mut i: usize = 0;
    while i < v.len()
        invariant
            i <= v@.len(),
            sorted_examples(views_of(r@)),
            forall|x: ILExampleView|
                views_of(r@).contains(x) <==> views_of(v@.subrange(0, i as int)).contains(x),
        decreases v@.len() - i,
    {
        let e = &v[i];
        let ghost rv = views_of(r@);
        let mut p: usize = 0;
        while p < r.len() && example_less(&r[p], e)
            invariant
                p <= r@.len(),
                rv == views_of(r@),
                forall|t: int| 0 <= t < p ==> example_lt(rv[t], e@),
            decreases r@.len() - p,
        {
            p = p + 1;
        }
        let present = p < r.len() && r[p].same_as(e);
        if !present {
            proof {
                if p < rv.len() {
                    lemma_example_lt_facts(rv[p as int], e@, e@);
                }
            }
            r.insert(p, e.duplicate());
            let ghost nv = views_of(r@);
            assert(nv =~= rv.insert(p as int, e@));
            assert forall|a: int, b: int| 0 <= a < b < nv.len() implies example_lt(nv[a], nv[b]) by {
                if b < p {
                } else if b == p {
                } else if a < p {
                    lemma_example_lt_facts(rv[a], e@, rv[b - 1]);
                    if b - 1 > p {
                        lemma_example_lt_facts(e@, rv[p as int], rv[b - 1]);
                    }
                } else if a == p {
                    if b - 1 > p {
                        lemma_example_lt_facts(e@, rv[p as int], rv[b - 1]);
                    }
                } else {
                }
            }
        }
        let ghost pre = views_of(v@.subrange(0, i as int));
        let ghost post = views_of(v@.subrange(0, i + 1));
        assert(post =~= pre.push(e@));
        assert forall|x: ILExampleView| views_of(r@).contains(x) <==> post.contains(x) by {
            if post.contains(x) && x != e@ {
                let t = choose|t: int| 0 <= t < post.len() && post[t] == x;
                assert(pre[t] == x);
            }
            if pre.contains(x) {
                let t = choose|t: int| 0 <= t < pre.len() && pre[t] == x;
                assert(post[t] == x);
            }
            if x == e@ {
                assert(post[i as int] == x);
                if present {
                    assert(rv[p as int] == x);
                } else {
                    assert(views_of(r@)[p as int] == x);
                }
            }
            if views_of(r@).contains(x) {
                let t = choose|t: int| 0 <= t < views_of(r@).len() && views_of(r@)[t] == x;
                if !present {
                    if t < p {
                        assert(rv[t] == x);
                    } else if t > p {
                        assert(rv[t - 1] == x);
                    }
                }
            }
            if rv.contains(x) {
                let t = choose|t: int| 0 <= t < rv.len() && rv[t] == x;
                if !present {
                    if t < p {
                        assert(views_of(r@)[t] == x);
                    } else {
                        assert(views_of(r@)[t + 1] == x);
                    }
                } else {
                    assert(views_of(r@)[t] == x);
                }
            }
        }
        i = i + 1;
    }
    assert(v@.subrange(0, i as int) == v@);
    r
}

proof fn lemma_sorted_distinct(s: Seq<ILExampleView>)
    requires
        sorted_examples(s),
    ensures
        distinct(s),
{
    assert forall|i: int, j: int| 0 <= i < j < s.len() implies s[i] != s[j] by {
        lemma_example_lt_facts(s[i], s[j], s[j]);
    }
}

impl ILTaskBuilder {
    pub closed spec fn pos_view(&self) -> Seq<ILExampleView> {
        views_of(self.pos_examples@)
    }

    pub closed spec fn neg_view(&self) -> Seq<ILExampleView> {
        views_of(self.neg_examples@)
    }

    pub closed spec fn positive_body_view(&self) -> Seq<Lit> {
        self.search_space.positive_body@
    }

    pub closed spec fn general_body_view(&self) -> Seq<Lit> {
        self.search_space.general_body@
    }

    pub closed spec fn head_view(&self) -> Seq<Lit> {
        self.search_space.head@
    }

    pub closed spec fn background_view(&self) -> Seq<Rule> {
        self.background@
    }

    pub fn new() -> (r: ILTaskBuilder)
        ensures
            r.pos_view().len() == 0,
            r.neg_view().len() == 0,
            r.positive_body_view().len() == 0,
            r.general_body_view().len() == 0,
            r.head_view().len() == 0,
            r.background_view().len() == 0,
    {
        ILTaskBuilder {
            pos_examples: Vec::new(),
            neg_examples: Vec::new(),
            search_space: ILSearchSpace::new(),
            background: Vec::new(),
        }
    }

    pub fn push_pos_example(&mut self, incl: Vec<Lit>, excl: Vec<Lit>, ctx: Vec<Lit>)
        ensures
            final(self).pos_view() == old(self).pos_view().push((incl@, excl@, ctx@)),
            final(self).neg_view() == old(self).neg_view(),
            final(self).positive_body_view() == old(self).positive_body_view(),
            final(self).general_body_view() == old(self).general_body_view(),
            final(self).head_view() == old(self).head_view(),
            final(self).background_view() == old(self).background_view(),
    {
        self.pos_examples.push(ILExample::new(incl, excl, ctx));
        assert(self.pos_view() =~= old(self).pos_view().push((incl@, excl@, ctx@)));
    }

    pub fn push_neg_example(&mut self, incl: Vec<Lit>, excl: Vec<Lit>, ctx: Vec<Lit>)
        ensures
            final(self).neg_view() == old(self).neg_view().push((incl@, excl@, ctx@)),
            final(self).pos_view() == old(self).pos_view(),
            final(self).positive_body_view() == old(self).positive_body_view(),
            final(self).general_body_view() == old(self).general_body_view(),
            final(self).head_view() == old(self).head_view(),
            final(self).background_view() == old(self).background_view(),
    {
        self.neg_examples.push(ILExample::new(incl, excl, ctx));
        assert(self.neg_view() =~= old(self).neg_view().push((incl@, excl@, ctx@)));
    }

    pub fn push_background(&mut self, r: Rule)
        ensures
            final(self).background_view() == old(self).background_view().push(r),
            final(self).pos_view() == old(self).pos_view(),
            final(self).neg_view() == old(self).neg_view(),
            final(self).positive_body_view() == old(self).positive_body_view(),
            final(self).general_body_view() == old(self).general_body_view(),
            final(self).head_view() == old(self).head_view(),
    {
        self.background.push(r);
    }

    pub fn push_positive_body(&mut self, r: Lit)
        ensures
            final(self).positive_body_view() == old(self).positive_body_view().push(r),
            final(self).pos_view() == old(self).pos_view(),
            final(self).neg_view() == old(self).neg_view(),
            final(self).general_body_view() == old(self).general_body_view(),
            final(self).head_view() == old(self).head_view(),
            final(self).background_view() == old(self).background_view(),
    {
        self.search_space.positive_body.push(r);
    }

    pub fn push_general_body(&mut self, r: Lit)
        ensures
            final(self).general_body_view() == old(self).general_body_view().push(r),
            final(self).pos_view() == old(self).pos_view(),
            final(self).neg_view() == old(self).neg_view(),
            final(self).positive_body_view() == old(self).positive_body_view(),
            final(self).head_view() == old(self).head_view(),
            final(self).background_view() == old(self).background_view(),
    {
        self.search_space.general_body.push(r);
    }

    pub fn push_head(&mut self, r: Lit)
        ensures
            final(self).head_view() == old(self).head_view().push(r),
            final(self).pos_view() == old(self).pos_view(),
            final(self).neg_view() == old(self).neg_view(),
            final(self).positive_body_view() == old(self).positive_body_view(),
            final(self).general_body_view() == old(self).general_body_view(),
            final(self).background_view() == old(self).background_view(),
    {
        self.search_space.head.push(r);
    }

    /// Finishes the task: examples and vocabularies are sorted and lose
    /// their repetitions; background rules stay as pushed.
    pub fn build(self) -> (r: ILTask)
        ensures
            sorted_examples(r.pos_view()),
            distinct(r.pos_view()),
            forall|x: ILExampleView| r.pos_view().contains(x) <==> self.pos_view().contains(x),
            sorted_examples(r.neg_view()),
            distinct(r.neg_view()),
            forall|x: ILExampleView| r.neg_view().contains(x) <==> self.neg_view().contains(x),
            strictly_sorted(r.search_space_view().positive_body_view()),
            set_of(r.search_space_view().positive_body_view()) == set_of(self.positive_body_view()),
            strictly_sorted(r.search_space_view().general_body_view()),
            set_of(r.search_space_view().general_body_view()) == set_of(self.general_body_view()),
            strictly_sorted(r.search_space_view().head_view()),
            set_of(r.search_space_view().head_view()) == set_of(self.head_view()),
            r.background_view() == self.background_view(),
    {
        let pos = sort_examples(&self.pos_examples);
        let neg = sort_examples(&self.neg_examples);
        proof {
            lemma_sorted_distinct(views_of(pos@));
            lemma_sorted_distinct(views_of(neg@));
        }
        ILTask {
            pos_examples: pos,
            neg_examples: neg,
            search_space: self.search_space.rebuild(),
            background: self.background,
        }
    }
}

impl ILTask {
    pub closed spec fn pos_view(&self) -> Seq<ILExampleView> {
        views_of(self.pos_examples@)
    }

    pub closed spec fn neg_view(&self) -> Seq<ILExampleView> {
        views_of(self.neg_examples@)
    }

    pub closed spec fn search_space_view(&self) -> &ILSearchSpace {
        &self.search_space
    }

    pub closed spec fn background_view(&self) -> Seq<Rule> {
        self.background@
    }

    pub fn pos_examples(&self) -> (r: &Vec<ILExample>)
        ensures
            views_of(r@) == self.pos_view(),
    {
        &self.pos_examples
    }

    pub fn neg_examples(&self) -> (r: &Vec<ILExample>)
        ensures
            views_of(r@) == self.neg_view(),
    {
        &self.neg_examples
    }

    pub fn search_space(&self) -> (r: &ILSearchSpace)
        ensures
            r == self.search_space_view(),
    {
        &self.search_space
    }

    pub fn background(&self) -> (r: &Vec<Rule>)
        ensures
            r@ == self.background_view(),
    {
        &self.background
    }
}

} // verus!
