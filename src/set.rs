use vstd::prelude::*;

verus! {

/// A strictly increasing sequence: sorted and free of duplicates.
pub open spec fn strictly_sorted(s: Seq<usize>) -> bool {
    forall|i: int, j: int| 0 <= i < j < s.len() ==> s[i] < s[j]
}

/// The elements of a sequence as a mathematical set.
pub open spec fn set_of(s: Seq<usize>) -> Set<usize> {
    Set::new(|x: usize| s.contains(x))
}

/// An ordered, deduplicated set of identifiers.
///
/// The elements are kept in strictly increasing order at all times, so two
/// sets with the same elements have the same representation.
#[derive(Debug)]
pub struct SortedSet {
    inner: Vec<usize>,
}

impl View for SortedSet {
    type V = Seq<usize>;

    closed spec fn view(&self) -> Seq<usize> {
        self.inner@
    }
}

impl PartialEq for SortedSet {
    fn eq(&self, other: &SortedSet) -> (r: bool) {
        self.equals(other)
    }
}

impl vstd::std_specs::cmp::PartialEqSpecImpl for SortedSet {
    open spec fn obeys_eq_spec() -> bool {
        true
    }

    open spec fn eq_spec(&self, other: &SortedSet) -> bool {
        self@ == other@
    }
}

impl Clone for SortedSet {
    fn clone(&self) -> (r: SortedSet)
        ensures
            r@ == self@,
    {
        SortedSet { inner: self.inner.clone() }
    }
}

/// Inserts `x` into a strictly sorted vector at its place, unless present.
fn insert_sorted(v: &mut Vec<usize>, x: usize)
    requires
        strictly_sorted(old(v)@),
    ensures
        strictly_sorted(final(v)@),
        set_of(final(v)@) == set_of(old(v)@).insert(x),
{
    let mut p: usize = 0;
    while p < v.len() && v[p] < x
        invariant
            p <= v@.len(),
            forall|k: int| 0 <= k < p ==> v@[k] < x,
        decreases v@.len() - p,
    {
        p = p + 1;
    }
    if p < v.len() && v[p] == x {
        assert(set_of(v@) =~= set_of(v@).insert(x));
    } else {
        let ghost before = v@;
        v.insert(p, x);
        assert(v@ == before.insert(p as int, x));
        assert forall|i: int, j: int| 0 <= i < j < v@.len() implies v@[i] < v@[j] by {
            if j < p {
            } else if j == p {
            } else if i < p {
                assert(before[j - 1] >= x || before[j - 1] > before[p as int]);
            } else if i == p {
                assert(before[p as int] > x);
                assert(p == j - 1 || before[p as int] < before[j - 1]);
            } else {
            }
        }
        assert forall|y: usize| v@.contains(y) <==> (before.contains(y) || y == x) by {
            if v@.contains(y) {
                let k = choose|k: int| 0 <= k < v@.len() && v@[k] == y;
                if k < p {
                    assert(before[k] == y);
                } else if k > p {
                    assert(before[k - 1] == y);
                }
            }
            if before.contains(y) {
                let k = choose|k: int| 0 <= k < before.len() && before[k] == y;
                if k < p {
                    assert(v@[k] == y);
                } else {
                    assert(v@[k + 1] == y);
                }
            }
            if y == x {
                assert(v@[p as int] == x);
            }
        }
        assert forall|y: usize| set_of(v@).contains(y) == set_of(before).insert(x).contains(y) by {
            assert(set_of(v@).contains(y) == v@.contains(y));
            assert(set_of(before).contains(y) == before.contains(y));
        }
        assert(set_of(v@) =~= set_of(before).insert(x));
    }
}


proof fn lemma_set_of_push(s: Seq<usize>, x: usize)
    ensures
        set_of(s.push(x)) == set_of(s).insert(x),
{
    let t = s.push(x);
    assert forall|y: usize| set_of(t).contains(y) == set_of(s).insert(x).contains(y) by {
        assert(set_of(t).contains(y) == t.contains(y));
        assert(set_of(s).contains(y) == s.contains(y));
        if t.contains(y) && y != x {
            let k = choose|k: int| 0 <= k < t.len() && t[k] == y;
            assert(s[k] == y);
        }
        if s.contains(y) {
            let k = choose|k: int| 0 <= k < s.len() && s[k] == y;
            assert(t[k] == y);
        }
        if y == x {
            assert(t[s.len() as int] == y);
        }
    }
    assert(set_of(t) =~= set_of(s).insert(x));
}

proof fn lemma_prefix_step(s: Seq<usize>, n: int)
    requires
        0 <= n < s.len(),
    ensures
        set_of(s.subrange(0, n + 1)) == set_of(s.subrange(0, n)).insert(s[n]),
{
    assert(s.subrange(0, n + 1) == s.subrange(0, n).push(s[n]));
    lemma_set_of_push(s.subrange(0, n), s[n]);
}

proof fn lemma_prefix_full(s: Seq<usize>)
    ensures
        set_of(s.subrange(0, s.len() as int)) == set_of(s),
{
    assert(s.subrange(0, s.len() as int) == s);
}

/// No element of a prefix whose members all lie below `x` equals `x`.
proof fn lemma_prefix_below(s: Seq<usize>, n: int, x: usize)
    requires
        0 <= n <= s.len(),
        forall|k: int| 0 <= k < n ==> s[k] < x,
    ensures
        !set_of(s.subrange(0, n)).contains(x),
{
    if s.subrange(0, n).contains(x) {
        let k = choose|k: int| 0 <= k < n && s.subrange(0, n)[k] == x;
        assert(s[k] == x);
    }
}

/// Below the element at `j`, membership in a sorted sequence is decided by its prefix.
proof fn lemma_sorted_below(s: Seq<usize>, j: int, x: usize)
    requires
        strictly_sorted(s),
        0 <= j <= s.len(),
        j < s.len() ==> x < s[j],
    ensures
        set_of(s).contains(x) == set_of(s.subrange(0, j)).contains(x),
{
    if s.contains(x) {
        let k = choose|k: int| 0 <= k < s.len() && s[k] == x;
        if k >= j {
            assert(s[j] <= s[k]);
        }
        assert(s.subrange(0, j)[k] == x);
    }
    if s.subrange(0, j).contains(x) {
        let k = choose|k: int| 0 <= k < j && s.subrange(0, j)[k] == x;
        assert(s[k] == x);
    }
}

/// Whether every processed element of each sequence lies below the next
/// unprocessed element of the other.
pub open spec fn frontier(a: Seq<usize>, b: Seq<usize>, i: int, j: int) -> bool {
    &&& forall|k: int| 0 <= k < i ==> (j < b.len() ==> a[k] < b[j])
    &&& forall|k: int| 0 <= k < j ==> (i < a.len() ==> b[k] < a[i])
}

/// Whether every element of `r` lies below the next unprocessed elements.
pub open spec fn below_next(r: Seq<usize>, a: Seq<usize>, b: Seq<usize>, i: int, j: int) -> bool {
    forall|k: int|
        0 <= k < r.len() ==> (i < a.len() ==> r[k] < a[i]) && (j < b.len() ==> r[k] < b[j])
}

/// Two strictly sorted sequences with the same elements are equal.
pub proof fn lemma_sorted_unique(s: Seq<usize>, t: Seq<usize>)
    requires
        strictly_sorted(s),
        strictly_sorted(t),
        set_of(s) == set_of(t),
    ensures
        s == t,
    decreases s.len(),
{
    if s.len() == 0 || t.len() == 0 {
        if t.len() > 0 {
            assert(set_of(t).contains(t[0]));
        }
        if s.len() > 0 {
            assert(set_of(s).contains(s[0]));
        }
        assert(s =~= t);
    } else {
        assert(set_of(s).contains(s[0]));
        assert(set_of(t).contains(t[0]));
        let ks = choose|k: int| 0 <= k < t.len() && t[k] == s[0];
        let kt = choose|k: int| 0 <= k < s.len() && s[k] == t[0];
        assert(t[0] <= t[ks]);
        assert(s[0] <= s[kt]);
        let s2 = s.drop_first();
        let t2 = t.drop_first();
        assert forall|y: usize| set_of(s2).contains(y) == set_of(t2).contains(y) by {
            if s2.contains(y) {
                let k = choose|k: int| 0 <= k < s2.len() && s2[k] == y;
                assert(s[k + 1] == y && s[0] < y);
                assert(set_of(s).contains(y));
                let m = choose|m: int| 0 <= m < t.len() && t[m] == y;
                assert(m != 0);
                assert(t2[m - 1] == y);
            }
            if t2.contains(y) {
                let k = choose|k: int| 0 <= k < t2.len() && t2[k] == y;
                assert(t[k + 1] == y && t[0] < y);
                assert(set_of(t).contains(y));
                let m = choose|m: int| 0 <= m < s.len() && s[m] == y;
                assert(m != 0);
                assert(s2[m - 1] == y);
            }
        }
        assert(set_of(s2) =~= set_of(t2));
        lemma_sorted_unique(s2, t2);
        assert(s[0] == t[0]);
        assert(s.len() == t.len());
        assert forall|k: int| 0 <= k < s.len() implies s[k] == t[k] by {
            if k > 0 {
                assert(s[k] == s2[k - 1]);
                assert(t[k] == t2[k - 1]);
            }
        }
        assert(s =~= t);
    }
}

/// Normalizing a set that is already normalized changes nothing: building a
/// set from the elements of `first` (itself built from `data`) gives `first`.
pub proof fn lemma_renormalize_noop(data: Seq<usize>, first: SortedSet, second: SortedSet)
    requires
        first.wf(),
        first.elems() == set_of(data),
        second.wf(),
        second.elems() == set_of(first@),
    ensures
        second@ == first@,
        second.elems() == set_of(data),
{
    lemma_sorted_unique(second@, first@);
}

impl SortedSet {
    /// The elements as a mathematical set.
    pub open spec fn elems(&self) -> Set<usize> {
        set_of(self@)
    }

    /// The representation invariant: strictly increasing.
    pub open spec fn wf(&self) -> bool {
        strictly_sorted(self@)
    }

    /// Builds the set of the distinct values in `data`, in increasing order.
    pub fn new(data: Vec<usize>) -> (r: SortedSet)
        ensures
            r.wf(),
            r.elems() == set_of(data@),
    {
        let mut inner: Vec<usize> = Vec::new();
        let mut i: usize = 0;
        while i < data.len()
            invariant
                i <= data@.len(),
                strictly_sorted(inner@),
                set_of(inner@) == set_of(data@.subrange(0, i as int)),
            decreases data@.len() - i,
        {
            insert_sorted(&mut inner, data[i]);
            let ghost pre = data@.subrange(0, i as int);
            let ghost post = data@.subrange(0, i + 1);
            assert(post == pre.push(data@[i as int]));
            assert forall|y: usize| set_of(post).contains(y) == set_of(pre).insert(data@[i as int]).contains(y) by {
                assert(set_of(post).contains(y) == post.contains(y));
                assert(set_of(pre).contains(y) == pre.contains(y));
                if post.contains(y) && y != data@[i as int] {
                    let k = choose|k: int| 0 <= k < post.len() && post[k] == y;
                    assert(pre[k] == y);
                }
                if pre.contains(y) {
                    let k = choose|k: int| 0 <= k < pre.len() && pre[k] == y;
                    assert(post[k] == y);
                }
                if y == data@[i as int] {
                    assert(post[i as int] == y);
                }
            }
            assert(set_of(data@.subrange(0, i + 1)) =~= set_of(data@.subrange(0, i as int)).insert(
                data@[i as int],
            ));
            i = i + 1;
        }
        assert(data@.subrange(0, i as int) == data@);
        SortedSet { inner }
    }

    /// The elements in increasing order.
    pub fn iter(&self) -> (r: &[usize])
        ensures
            r@ == self@,
    {
        self.inner.as_slice()
    }

    pub fn is_empty(&self) -> (r: bool)
        ensures
            r == (self@.len() == 0),
    {
        self.inner.len() == 0
    }

    pub fn len(&self) -> (r: usize)
        ensures
            r == self@.len(),
    {
        self.inner.len()
    }

    /// Whether the two sets hold the same elements.
    pub fn equals(&self, other: &SortedSet) -> (r: bool)
        ensures
            r == (self@ == other@),
    {
        if self.inner.len() != other.inner.len() {
            return false;
        }
        let mut i: usize = 0;
        while i < self.inner.len()
            invariant
                i <= self@.len(),
                self@.len() == other@.len(),
                forall|k: int| 0 <= k < i ==> self@[k] == other@[k],
            decreases self@.len() - i,
        {
            if self.inner[i] != other.inner[i] {
                return false;
            }
            i = i + 1;
        }
        assert(self@ =~= other@);
        true
    }

    pub fn contains(&self, term: &usize) -> (r: bool)
        ensures
            r == self.elems().contains(*term),
    {
        let mut i: usize = 0;
        while i < self.inner.len()
            invariant
                i <= self@.len(),
                forall|k: int| 0 <= k < i ==> self@[k] != *term,
            decreases self@.len() - i,
        {
            if self.inner[i] == *term {
                return true;
            }
            i = i + 1;
        }
        false
    }


    /// Union: `self ∪ other`, by one linear merge.
    pub fn union(&self, other: &SortedSet) -> (r: SortedSet)
        requires
            self.wf(),
            other.wf(),
        ensures
            r.wf(),
            r.elems() == self.elems().union(other.elems()),
    {
        let ghost a = self@;
        let ghost b = other@;
        let mut result: Vec<usize> = Vec::new();
        let mut i: usize = 0;
        let mut j: usize = 0;
        while i < self.inner.len() || j < other.inner.len()
            invariant
                i <= a.len(),
                j <= b.len(),
                a == self@,
                b == other@,
                strictly_sorted(a),
                strictly_sorted(b),
                strictly_sorted(result@),
                below_next(result@, a, b, i as int, j as int),
                set_of(result@) == set_of(a.subrange(0, i as int)).union(
                    set_of(b.subrange(0, j as int)),
                ),
            decreases a.len() - i + b.len() - j,
        {
            let take_a = j >= other.inner.len() || (i < self.inner.len() && self.inner[i]
                <= other.inner[j]);
            if take_a {
                let x = self.inner[i];
                let same = j < other.inner.len() && other.inner[j] == x;
                proof {
                    lemma_set_of_push(result@, x);
                    lemma_prefix_step(a, i as int);
                    if same {
                        lemma_prefix_step(b, j as int);
                    }
                }
                result.push(x);
                i = i + 1;
                if same {
                    j = j + 1;
                }
                assert(set_of(result@) =~= set_of(a.subrange(0, i as int)).union(
                    set_of(b.subrange(0, j as int)),
                ));
            } else {
                let y = other.inner[j];
                proof {
                    lemma_set_of_push(result@, y);
                    lemma_prefix_step(b, j as int);
                }
                result.push(y);
                j = j + 1;
                assert(set_of(result@) =~= set_of(a.subrange(0, i as int)).union(
                    set_of(b.subrange(0, j as int)),
                ));
            }
        }
        proof {
            lemma_prefix_full(a);
            lemma_prefix_full(b);
        }
        SortedSet { inner: result }
    }

    /// Intersection: `self ∩ other`, by one linear merge.
    pub fn intersection(&self, other: &SortedSet) -> (r: SortedSet)
        requires
            self.wf(),
            other.wf(),
        ensures
            r.wf(),
            r.elems() == self.elems().intersect(other.elems()),
    {
        let ghost a = self@;
        let ghost b = other@;
        let mut result: Vec<usize> = Vec::new();
        let mut i: usize = 0;
        let mut j: usize = 0;
        while i < self.inner.len() && j < other.inner.len()
            invariant
                i <= a.len(),
                j <= b.len(),
                a == self@,
                b == other@,
                strictly_sorted(a),
                strictly_sorted(b),
                strictly_sorted(result@),
                frontier(a, b, i as int, j as int),
                below_next(result@, a, b, i as int, j as int),
                set_of(result@) == set_of(a.subrange(0, i as int)).intersect(
                    set_of(b.subrange(0, j as int)),
                ),
            decreases a.len() - i + b.len() - j,
        {
            let x = self.inner[i];
            let y = other.inner[j];
            if x < y {
                proof {
                    lemma_prefix_step(a, i as int);
                    lemma_prefix_below(b, j as int, x);
                }
                i = i + 1;
            } else if x == y {
                proof {
                    lemma_set_of_push(result@, x);
                    lemma_prefix_step(a, i as int);
                    lemma_prefix_step(b, j as int);
                    lemma_prefix_below(b, j as int, x);
                    lemma_prefix_below(a, i as int, y);
                }
                result.push(x);
                i = i + 1;
                j = j + 1;
            } else {
                proof {
                    lemma_prefix_step(b, j as int);
                    lemma_prefix_below(a, i as int, y);
                }
                j = j + 1;
            }
            assert(set_of(result@) =~= set_of(a.subrange(0, i as int)).intersect(
                set_of(b.subrange(0, j as int)),
            ));
        }
        proof {
            assert forall|x: usize|
                self.elems().intersect(other.elems()).contains(x) == set_of(result@).contains(
                    x,
                ) by {
                if i == a.len() {
                    lemma_prefix_full(a);
                    if a.contains(x) {
                        let k = choose|k: int| 0 <= k < a.len() && a[k] == x;
                        lemma_sorted_below(b, j as int, x);
                    }
                } else {
                    lemma_prefix_full(b);
                    if b.contains(x) {
                        let k = choose|k: int| 0 <= k < b.len() && b[k] == x;
                        lemma_sorted_below(a, i as int, x);
                    }
                }
            }
            assert(set_of(result@) =~= self.elems().intersect(other.elems()));
        }
        SortedSet { inner: result }
    }

    /// Difference: `self − other`, by one linear merge.
    pub fn difference(&self, other: &SortedSet) -> (r: SortedSet)
        requires
            self.wf(),
            other.wf(),
        ensures
            r.wf(),
            r.elems() == self.elems().difference(other.elems()),
    {
        let ghost a = self@;
        let ghost b = other@;
        let mut result: Vec<usize> = Vec::new();
        let mut i: usize = 0;
        let mut j: usize = 0;
        while i < self.inner.len()
            invariant
                i <= a.len(),
                j <= b.len(),
                a == self@,
                b == other@,
                strictly_sorted(a),
                strictly_sorted(b),
                strictly_sorted(result@),
                frontier(a, b, i as int, j as int),
                below_next(result@, a, b, i as int, j as int),
                set_of(result@) == set_of(a.subrange(0, i as int)).difference(
                    set_of(b.subrange(0, j as int)),
                ),
            decreases a.len() - i + b.len() - j,
        {
            let x = self.inner[i];
            if j >= other.inner.len() || x < other.inner[j] {
                proof {
                    lemma_set_of_push(result@, x);
                    lemma_prefix_step(a, i as int);
                    lemma_prefix_below(b, j as int, x);
                }
                result.push(x);
                i = i + 1;
            } else if x == other.inner[j] {
                proof {
                    lemma_prefix_step(a, i as int);
                    lemma_prefix_step(b, j as int);
                    lemma_prefix_below(a, i as int, x);
                }
                i = i + 1;
                j = j + 1;
            } else {
                let y = other.inner[j];
                proof {
                    lemma_prefix_step(b, j as int);
                    lemma_prefix_below(a, i as int, y);
                }
                j = j + 1;
            }
            assert(set_of(result@) =~= set_of(a.subrange(0, i as int)).difference(
                set_of(b.subrange(0, j as int)),
            ));
        }
        proof {
            lemma_prefix_full(a);
            assert forall|x: usize|
                self.elems().difference(other.elems()).contains(x) == set_of(result@).contains(
                    x,
                ) by {
                if a.contains(x) {
                    let k = choose|k: int| 0 <= k < a.len() && a[k] == x;
                    lemma_sorted_below(b, j as int, x);
                }
            }
            assert(set_of(result@) =~= self.elems().difference(other.elems()));
        }
        SortedSet { inner: result }
    }

    /// Whether every element of `self` is in `other`.
    pub fn is_subset(&self, other: &SortedSet) -> (r: bool)
        requires
            self.wf(),
            other.wf(),
        ensures
            r == self.elems().subset_of(other.elems()),
    {
        let ghost a = self@;
        let ghost b = other@;
        let mut i: usize = 0;
        let mut j: usize = 0;
        while i < self.inner.len() && j < other.inner.len()
            invariant
                i <= a.len(),
                j <= b.len(),
                a == self@,
                b == other@,
                strictly_sorted(a),
                strictly_sorted(b),
                forall|k: int| 0 <= k < j ==> (i < a.len() ==> b[k] < a[i as int]),
                forall|k: int| 0 <= k < i ==> b.contains(#[trigger] a[k]),
            decreases a.len() - i + b.len() - j,
        {
            let x = self.inner[i];
            let y = other.inner[j];
            if x == y {
                assert(b[j as int] == a[i as int]);
                i = i + 1;
                j = j + 1;
            } else if x < y {
                proof {
                    assert(set_of(a).contains(x));
                    lemma_prefix_below(b, j as int, x);
                    lemma_sorted_below(b, j as int, x);
                }
                return false;
            } else {
                j = j + 1;
            }
        }
        if i == self.inner.len() {
            assert forall|x: usize| self.elems().contains(x) implies other.elems().contains(x) by {
                let k = choose|k: int| 0 <= k < a.len() && a[k] == x;
            }
            true
        } else {
            proof {
                let x = a[i as int];
                assert(set_of(a).contains(x));
                lemma_prefix_below(b, j as int, x);
                lemma_sorted_below(b, j as int, x);
            }
            false
        }
    }

    /// Whether every element of `other` is in `self`.
    pub fn is_superset(&self, other: &SortedSet) -> (r: bool)
        requires
            self.wf(),
            other.wf(),
        ensures
            r == other.elems().subset_of(self.elems()),
    {
        other.is_subset(self)
    }

    /// Whether `self ∩ other` is empty.
    pub fn is_disjoint(&self, other: &SortedSet) -> (r: bool)
        requires
            self.wf(),
            other.wf(),
        ensures
            r == self.elems().disjoint(other.elems()),
    {
        let ghost a = self@;
        let ghost b = other@;
        let mut i: usize = 0;
        let mut j: usize = 0;
        while i < self.inner.len() && j < other.inner.len()
            invariant
                i <= a.len(),
                j <= b.len(),
                a == self@,
                b == other@,
                strictly_sorted(a),
                strictly_sorted(b),
                forall|k: int| 0 <= k < j ==> (i < a.len() ==> b[k] < a[i as int]),
                forall|k: int| 0 <= k < i ==> !b.contains(#[trigger] a[k]),
            decreases a.len() - i + b.len() - j,
        {
            let x = self.inner[i];
            let y = other.inner[j];
            if x < y {
                proof {
                    lemma_prefix_below(b, j as int, x);
                    lemma_sorted_below(b, j as int, x);
                    assert(!set_of(b).contains(x));
                }
                i = i + 1;
            } else if x == y {
                assert(set_of(a).contains(x) && set_of(b).contains(x));
                return false;
            } else {
                j = j + 1;
            }
        }
        assert forall|x: usize| self.elems().contains(x) implies !other.elems().contains(x) by {
            let k = choose|k: int| 0 <= k < a.len() && a[k] == x;
            if k >= i {
                assert(a[i as int] <= a[k]);
                lemma_prefix_below(b, j as int, x);
                lemma_sorted_below(b, j as int, x);
            }
        }
        true
    }

    /// Appends `term` without re-sorting; the order and uniqueness of the
    /// elements are restored only when the set is rebuilt with `new`.
    pub fn insert(&mut self, term: usize)
        ensures
            final(self)@ == old(self)@.push(term),
    {
        self.inner.push(term);
    }
}

} // verus!
