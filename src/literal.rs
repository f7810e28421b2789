use vstd::prelude::*;

use crate::error::IlnlpError;

verus! {

/// An identifier of an interned literal; valid identifiers start at 1.
pub type Lit = usize;

/// The mathematical value of a literal: its predicate and its arguments.
pub type LiteralView = (Seq<char>, Seq<Seq<char>>);

/// A predicate name with an ordered argument list.
#[derive(Debug)]
pub struct Literal {
    pub predicate: String,
    pub args: Vec<String>,
}

pub open spec fn args_view(args: Seq<String>) -> Seq<Seq<char>> {
    args.map_values(|a: String| a@)
}

impl View for Literal {
    type V = LiteralView;

    open spec fn view(&self) -> LiteralView {
        (self.predicate@, args_view(self.args@))
    }
}

fn copy_args(args: &Vec<String>) -> (r: Vec<String>)
    ensures
        args_view(r@) == args_view(args@),
{
    let mut r: Vec<String> = Vec::new();
    let mut i: usize = 0;
    while i < args.len()
        invariant
            i <= args@.len(),
            r@.len() == i,
            forall|k: int| 0 <= k < i ==> r@[k]@ == args@[k]@,
        decreases args@.len() - i,
    {
        r.push(args[i].clone());
        i = i + 1;
    }
    assert(args_view(r@) =~= args_view(args@));
    r
}

impl Clone for Literal {
    fn clone(&self) -> (r: Literal)
        ensures
            r@ == self@,
    {
        Literal { predicate: self.predicate.clone(), args: copy_args(&self.args) }
    }
}

impl PartialEq for Literal {
    fn eq(&self, other: &Literal) -> (r: bool) {
        self.same_as(other)
    }
}

impl vstd::std_specs::cmp::PartialEqSpecImpl for Literal {
    open spec fn obeys_eq_spec() -> bool {
        true
    }

    open spec fn eq_spec(&self, other: &Literal) -> bool {
        self@ == other@
    }
}

impl Literal {
    pub fn new(predicate: String, args: Vec<String>) -> (r: Literal)
        ensures
            r.predicate@ == predicate@,
            r.args@ == args@,
    {
        Literal { predicate, args }
    }

    /// Structural equality: same predicate and same arguments.
    pub fn same_as(&self, other: &Literal) -> (r: bool)
        ensures
            r == (self@ == other@),
    {
        if self.predicate != other.predicate || self.args.len() != other.args.len() {
            assert(args_view(self.args@).len() == self.args@.len());
            assert(args_view(other.args@).len() == other.args@.len());
            return false;
        }
        let mut i: usize = 0;
        while i < self.args.len()
            invariant
                i <= self.args@.len(),
                self.args@.len() == other.args@.len(),
                forall|k: int| 0 <= k < i ==> self.args@[k]@ == other.args@[k]@,
            decreases self.args@.len() - i,
        {
            if self.args[i] != other.args[i] {
                assert(args_view(self.args@)[i as int] != args_view(other.args@)[i as int]);
                return false;
            }
            i = i + 1;
        }
        assert(args_view(self.args@) =~= args_view(other.args@));
        true
    }
}

/// A comparison between two operand names.
#[derive(Debug)]
pub enum Comparison {
    NotEqual(String, String),
    Greater(String, String),
    Less(String, String),
}

/// The value of a comparison: its operator (0 for `!=`, 1 for `>`, 2 for
/// `<`) and its two operands.
pub type ComparisonView = (u8, Seq<char>, Seq<char>);

impl View for Comparison {
    type V = ComparisonView;

    open spec fn view(&self) -> ComparisonView {
        match self {
            Comparison::NotEqual(l, r) => (0u8, l@, r@),
            Comparison::Greater(l, r) => (1u8, l@, r@),
            Comparison::Less(l, r) => (2u8, l@, r@),
        }
    }
}

impl Clone for Comparison {
    fn clone(&self) -> (r: Comparison)
        ensures
            r@ == self@,
    {
        match self {
            Comparison::NotEqual(l, r) => Comparison::NotEqual(l.clone(), r.clone()),
            Comparison::Greater(l, r) => Comparison::Greater(l.clone(), r.clone()),
            Comparison::Less(l, r) => Comparison::Less(l.clone(), r.clone()),
        }
    }
}

/// One element of a rule body.
#[derive(Debug)]
pub enum BodyLiteral {
    Literal { literal: Literal, negated: bool },
    Comparison(Comparison),
}

/// The value of a body element: a literal with its negation flag, or a
/// comparison.
pub type BodyLiteralView = (Option<(LiteralView, bool)>, Option<ComparisonView>);

impl View for BodyLiteral {
    type V = BodyLiteralView;

    open spec fn view(&self) -> BodyLiteralView {
        match self {
            BodyLiteral::Literal { literal, negated } => (Some((literal@, *negated)), None),
            BodyLiteral::Comparison(c) => (None, Some(c@)),
        }
    }
}

impl Clone for BodyLiteral {
    fn clone(&self) -> (r: BodyLiteral)
        ensures
            r@ == self@,
    {
        match self {
            BodyLiteral::Literal { literal, negated } => BodyLiteral::Literal {
                literal: literal.clone(),
                negated: *negated,
            },
            BodyLiteral::Comparison(c) => BodyLiteral::Comparison(c.clone()),
        }
    }
}

impl BodyLiteral {
    pub open spec fn is_negated(&self) -> bool {
        match self {
            BodyLiteral::Literal { negated, .. } => *negated,
            BodyLiteral::Comparison(_) => false,
        }
    }
}

/// A rule: an optional head and a body; a fact when the body is empty.
#[derive(Debug)]
pub struct Rule {
    pub head: Option<Literal>,
    pub body: Vec<BodyLiteral>,
}

/// The value of a rule: its head, if any, and its body in order.
pub type RuleView = (Option<LiteralView>, Seq<BodyLiteralView>);

impl View for Rule {
    type V = RuleView;

    open spec fn view(&self) -> RuleView {
        (
            match self.head {
                Some(h) => Some(h@),
                None => None,
            },
            self.body@.map_values(|b: BodyLiteral| b@),
        )
    }
}

impl Clone for Rule {
    fn clone(&self) -> (r: Rule)
        ensures
            r@ == self@,
    {
        let head = match &self.head {
            Some(h) => Some(h.clone()),
            None => None,
        };
        let mut body: Vec<BodyLiteral> = Vec::new();
        let mut i: usize = 0;
        while i < self.body.len()
            invariant
                i <= self.body@.len(),
                body@.len() == i,
                forall|k: int| 0 <= k < i ==> (#[trigger] body@[k])@ == self.body@[k]@,
            decreases self.body@.len() - i,
        {
            body.push(self.body[i].clone());
            i = i + 1;
        }
        let r = Rule { head, body };
        assert(r.body@.map_values(|b: BodyLiteral| b@) =~= self.body@.map_values(
            |b: BodyLiteral| b@,
        ));
        r
    }
}

impl Rule {
    /// A rule whose body holds no negated literal.
    pub open spec fn is_definite(&self) -> bool {
        forall|k: int| 0 <= k < self.body@.len() ==> !(#[trigger] self.body@[k]).is_negated()
    }

    /// Whether the body holds no negated literal.
    pub fn definite(&self) -> (r: bool)
        ensures
            r == self.is_definite(),
    {
        let mut i: usize = 0;
        while i < self.body.len()
            invariant
                i <= self.body@.len(),
                forall|k: int| 0 <= k < i ==> !(#[trigger] self.body@[k]).is_negated(),
            decreases self.body@.len() - i,
        {
            if let BodyLiteral::Literal { negated, .. } = &self.body[i] {
                if *negated {
                    assert(self.body@[i as int].is_negated());
                    return false;
                }
            }
            i = i + 1;
        }
        true
    }
}

/// Whether `id` names an entry of a registry holding `n` literals.
pub open spec fn valid_lit(n: nat, id: usize) -> bool {
    1 <= id <= n
}

/// The literals that `ids` name in `m`, in order, skipping invalid ids.
pub open spec fn resolved(m: Seq<LiteralView>, ids: Seq<usize>) -> Seq<LiteralView>
    decreases ids.len(),
{
    if ids.len() == 0 {
        Seq::empty()
    } else {
        let rest = resolved(m, ids.drop_last());
        let id = ids.last();
        if valid_lit(m.len(), id) {
            rest.push(m[id - 1])
        } else {
            rest
        }
    }
}

/// Interns literals into stable small identifiers.
#[derive(Debug)]
pub struct LitBuilder {
    literals: Vec<Literal>,
}

impl LitBuilder {
    /// The interned literals; the literal at index `k` has identifier `k + 1`.
    pub closed spec fn model(&self) -> Seq<LiteralView> {
        self.literals@.map_values(|l: Literal| l@)
    }

    /// No literal is interned twice.
    pub open spec fn wf(&self) -> bool {
        forall|i: int, j: int|
            0 <= i < j < self.model().len() ==> self.model()[i] != self.model()[j]
    }

    pub fn new() -> (r: LitBuilder)
        ensures
            r.wf(),
            r.model().len() == 0,
    {
        LitBuilder { literals: Vec::new() }
    }

    pub fn len(&self) -> (r: usize)
        ensures
            r == self.model().len(),
    {
        self.literals.len()
    }

    /// Returns the identifier of `literal`, assigning the next one on its
    /// first occurrence.
    pub fn create_literal(&mut self, literal: Literal) -> (r: Lit)
        requires
            old(self).wf(),
            old(self).model().len() < usize::MAX,
        ensures
            final(self).wf(),
            valid_lit(final(self).model().len(), r),
            final(self).model()[r - 1] == literal@,
            old(self).model().contains(literal@) ==> final(self).model() == old(self).model(),
            !old(self).model().contains(literal@) ==> final(self).model() == old(
                self,
            ).model().push(literal@),
    {
        let ghost m = self.model();
        let mut i: usize = 0;
        while i < self.literals.len()
            invariant
                i <= self.literals@.len(),
                m == self.model(),
                self.wf(),
                m.len() == self.literals@.len(),
                forall|k: int| 0 <= k < i ==> m[k] != literal@,
            decreases self.literals@.len() - i,
        {
            if self.literals[i].same_as(&literal) {
                return i + 1;
            }
            i = i + 1;
        }
        assert(!m.contains(literal@));
        self.literals.push(literal);
        assert(self.model() =~= m.push(literal@));
        self.literals.len()
    }

    /// The literal named `lit`, or `InvalidLit` when no literal has that id.
    pub fn get_literal(&self, lit: Lit) -> (r: Result<Literal, IlnlpError>)
        ensures
            valid_lit(self.model().len(), lit) ==> (r is Ok && r->Ok_0@ == self.model()[lit - 1]),
            !valid_lit(self.model().len(), lit) ==> r == Err::<Literal, IlnlpError>(
                IlnlpError::InvalidLit(lit),
            ),
    {
        if lit >= 1 && lit <= self.literals.len() {
            Ok(self.literals[lit - 1].clone())
        } else {
            Err(IlnlpError::InvalidLit(lit))
        }
    }

    /// The literals named by `ids`, in order; ids that name no literal are skipped.
    pub fn get_literals(&self, ids: &[Lit]) -> (r: Vec<Literal>)
        ensures
            r@.map_values(|l: Literal| l@) == resolved(self.model(), ids@),
    {
        let mut r: Vec<Literal> = Vec::new();
        let mut i: usize = 0;
        while i < ids.len()
            invariant
                i <= ids@.len(),
                r@.map_values(|l: Literal| l@) == resolved(self.model(), ids@.subrange(0, i as int)),
            decreases ids@.len() - i,
        {
            let id = ids[i];
            let ghost pre = ids@.subrange(0, i as int);
            assert(ids@.subrange(0, i + 1).drop_last() == pre);
            if id >= 1 && id <= self.literals.len() {
                r.push(self.literals[id - 1].clone());
            }
            i = i + 1;
            assert(r@.map_values(|l: Literal| l@) =~= resolved(self.model(), ids@.subrange(0, i as int)));
        }
        assert(ids@.subrange(0, i as int) == ids@);
        r
    }
}

/// Interning a literal and resolving the identifier gives the literal back,
/// and interning an equal literal again gives the same identifier.
pub proof fn lemma_registry_round_trip(
    b0: LitBuilder,
    b1: LitBuilder,
    b2: LitBuilder,
    l: LiteralView,
    id1: Lit,
    id2: Lit,
)
    requires
        b0.wf(),
        b1.wf(),
        valid_lit(b1.model().len(), id1),
        b1.model()[id1 - 1] == l,
        !b0.model().contains(l) ==> b1.model() == b0.model().push(l),
        b0.model().contains(l) ==> b1.model() == b0.model(),
        b2.wf(),
        valid_lit(b2.model().len(), id2),
        b2.model()[id2 - 1] == l,
        b1.model().contains(l) ==> b2.model() == b1.model(),
    ensures
        b2.model()[id1 - 1] == l,
        id1 == id2,
        b2.model() == b1.model(),
{
    assert(b1.model().contains(l)) by {
        assert(b1.model()[id1 - 1] == l);
    }
}

} // verus!
