//! Markings of positions over a coordinate space, and the coordinate
//! transforms that reinterpret a marking after positions are inserted.

#![verifier::loop_isolation(false)]

use vstd::pervasive::VecAdditionalExecFns;
use vstd::prelude::*;

verus! {

/// Number of `true` entries in a marking.
pub open spec fn count_true(s: Seq<bool>) -> int
    decreases s.len(),
{
    if s.len() == 0 {
        0
    } else {
        count_true(s.drop_last()) + if s.last() {
            1int
        } else {
            0int
        }
    }
}

/// Number of `false` entries in a marking.
pub open spec fn count_false(s: Seq<bool>) -> int {
    s.len() - count_true(s)
}

/// Reinterpret `small` over the larger space that `marks` describes:
/// positions marked in `marks` are newly inserted and take the value `fill`;
/// the remaining positions take the entries of `small` in order.
pub open spec fn expand_through(small: Seq<bool>, marks: Seq<bool>, fill: bool) -> Seq<bool> {
    Seq::new(
        marks.len(),
        |i: int|
            if marks[i] {
                fill
            } else {
                small[count_false(marks.take(i))]
            },
    )
}

/// Pointwise disjunction of two markings of the same length.
pub open spec fn or_marks(a: Seq<bool>, b: Seq<bool>) -> Seq<bool> {
    Seq::new(a.len(), |i: int| a[i] || b[i])
}

/// The entries of `t` at the positions not marked in `marks`, in order.
pub open spec fn keep_unmarked(t: Seq<char>, marks: Seq<bool>) -> Seq<char>
    decreases marks.len(),
{
    if marks.len() == 0 {
        Seq::empty()
    } else if marks.last() {
        keep_unmarked(t.drop_last(), marks.drop_last())
    } else {
        keep_unmarked(t.drop_last(), marks.drop_last()).push(t.last())
    }
}

/// Index of the `k`-th (0-based) unmarked position of `marks`.
pub open spec fn kth_unmarked(marks: Seq<bool>, k: int) -> int
    decreases marks.len(),
{
    if marks.len() == 0 {
        0
    } else if !marks[0] {
        if k <= 0 {
            0
        } else {
            1 + kth_unmarked(marks.skip(1), k - 1)
        }
    } else {
        1 + kth_unmarked(marks.skip(1), k)
    }
}

/// Where the gap `g` of the smaller space lands in the larger space that
/// `marks` describes.  A gap that coincides with a run of marked (inserted)
/// positions is placed before the run when `after` is false and behind it
/// when `after` is true.
pub open spec fn mapped_gap(marks: Seq<bool>, g: int, after: bool) -> int {
    if after {
        if g >= count_false(marks) {
            marks.len() as int
        } else {
            kth_unmarked(marks, g)
        }
    } else {
        if g <= 0 {
            0
        } else if g > count_false(marks) {
            marks.len() as int
        } else {
            kth_unmarked(marks, g - 1) + 1
        }
    }
}

pub proof fn lemma_count_true_bounds(s: Seq<bool>)
    ensures
        0 <= count_true(s) <= s.len(),
    decreases s.len(),
{
    if s.len() > 0 {
        lemma_count_true_bounds(s.drop_last());
    }
}

pub proof fn lemma_count_push(s: Seq<bool>, b: bool)
    ensures
        count_true(s.push(b)) == count_true(s) + if b {
            1int
        } else {
            0int
        },
{
    assert(s.push(b).drop_last() =~= s);
}

pub proof fn lemma_count_take_step(s: Seq<bool>, i: int)
    requires
        0 <= i < s.len(),
    ensures
        count_true(s.take(i + 1)) == count_true(s.take(i)) + if s[i] {
            1int
        } else {
            0int
        },
{
    assert(s.take(i + 1) =~= s.take(i).push(s[i]));
    lemma_count_push(s.take(i), s[i]);
}

pub proof fn lemma_count_take_mono(s: Seq<bool>, i: int, j: int)
    requires
        0 <= i <= j <= s.len(),
    ensures
        count_true(s.take(i)) <= count_true(s.take(j)),
        count_true(s.take(j)) - count_true(s.take(i)) <= j - i,
    decreases j - i,
{
    if i < j {
        lemma_count_take_mono(s, i, j - 1);
        lemma_count_take_step(s, j - 1);
    }
}

pub proof fn lemma_count_take_full(s: Seq<bool>)
    ensures
        count_true(s.take(s.len() as int)) == count_true(s),
{
    assert(s.take(s.len() as int) =~= s);
}

pub proof fn lemma_count_concat(a: Seq<bool>, b: Seq<bool>)
    ensures
        count_true(a + b) == count_true(a) + count_true(b),
    decreases b.len(),
{
    if b.len() == 0 {
        assert(a + b =~= a);
    } else {
        assert((a + b).drop_last() =~= a + b.drop_last());
        lemma_count_concat(a, b.drop_last());
    }
}

pub proof fn lemma_count_const(n: nat, b: bool)
    ensures
        count_true(Seq::new(n, |i: int| b)) == if b {
            n as int
        } else {
            0int
        },
    decreases n,
{
    if n > 0 {
        assert(Seq::new(n, |i: int| b).drop_last() =~= Seq::new((n - 1) as nat, |i: int| b));
        lemma_count_const((n - 1) as nat, b);
    }
}

pub proof fn lemma_count_zero(s: Seq<bool>)
    requires
        forall|i: int| 0 <= i < s.len() ==> !s[i],
    ensures
        count_true(s) == 0,
    decreases s.len(),
{
    if s.len() > 0 {
        lemma_count_zero(s.drop_last());
    }
}

pub proof fn lemma_count_one(b: bool)
    ensures
        count_true(seq![b]) == if b {
            1int
        } else {
            0int
        },
{
    let one = seq![b];
    assert(one.drop_last() =~= Seq::<bool>::empty());
    assert(count_true(Seq::<bool>::empty()) == 0);
    assert(one.last() == b);
}

pub proof fn lemma_count_skip1(s: Seq<bool>)
    requires
        s.len() > 0,
    ensures
        count_true(s) == count_true(s.skip(1)) + if s[0] {
            1int
        } else {
            0int
        },
{
    assert(s =~= seq![s[0]] + s.skip(1));
    lemma_count_concat(seq![s[0]], s.skip(1));
    lemma_count_one(s[0]);
}

pub proof fn lemma_keep_unmarked_len(t: Seq<char>, marks: Seq<bool>)
    requires
        t.len() == marks.len(),
    ensures
        keep_unmarked(t, marks).len() == count_false(marks),
    decreases marks.len(),
{
    if marks.len() > 0 {
        lemma_keep_unmarked_len(t.drop_last(), marks.drop_last());
    }
}

pub proof fn lemma_keep_unmarked_all_false(t: Seq<char>, marks: Seq<bool>)
    requires
        t.len() == marks.len(),
        forall|i: int| 0 <= i < marks.len() ==> !marks[i],
    ensures
        keep_unmarked(t, marks) == t,
    decreases marks.len(),
{
    if marks.len() > 0 {
        lemma_keep_unmarked_all_false(t.drop_last(), marks.drop_last());
        assert(t.drop_last().push(t.last()) =~= t);
    }
}

/// Characterization of `kth_unmarked`: it is an unmarked position with
/// exactly `k` unmarked positions before it.
pub proof fn lemma_kth_unmarked(marks: Seq<bool>, k: int)
    requires
        0 <= k < count_false(marks),
    ensures
        0 <= kth_unmarked(marks, k) < marks.len(),
        !marks[kth_unmarked(marks, k)],
        count_false(marks.take(kth_unmarked(marks, k))) == k,
    decreases marks.len(),
{
    lemma_count_true_bounds(marks);
    lemma_count_skip1(marks);
    let p = kth_unmarked(marks, k);
    if !marks[0] && k <= 0 {
        assert(marks.take(0) =~= Seq::<bool>::empty());
    } else {
        let rest = marks.skip(1);
        let k2 = if marks[0] {
            k
        } else {
            k - 1
        };
        lemma_kth_unmarked(rest, k2);
        let q = kth_unmarked(rest, k2);
        assert(p == 1 + q);
        assert(marks[p] == rest[q]);
        assert(marks.take(p) =~= seq![marks[0]] + rest.take(q));
        lemma_count_concat(seq![marks[0]], rest.take(q));
        lemma_count_one(marks[0]);
    }
}

/// An unmarked position with exactly `k` unmarked positions before it is
/// `kth_unmarked(marks, k)`.
pub proof fn lemma_kth_unique(marks: Seq<bool>, k: int, p: int)
    requires
        0 <= k < count_false(marks),
        0 <= p < marks.len(),
        !marks[p],
        count_false(marks.take(p)) == k,
    ensures
        p == kth_unmarked(marks, k),
{
    lemma_kth_unmarked(marks, k);
    let q = kth_unmarked(marks, k);
    if p < q {
        lemma_count_take_step(marks, p);
        lemma_count_take_mono(marks, p + 1, q);
    } else if q < p {
        lemma_count_take_step(marks, q);
        lemma_count_take_mono(marks, q + 1, p);
    }
}

pub proof fn lemma_kth_mono(marks: Seq<bool>, k1: int, k2: int)
    requires
        0 <= k1 <= k2 < count_false(marks),
    ensures
        kth_unmarked(marks, k1) <= kth_unmarked(marks, k2),
{
    lemma_kth_unmarked(marks, k1);
    lemma_kth_unmarked(marks, k2);
    let p1 = kth_unmarked(marks, k1);
    let p2 = kth_unmarked(marks, k2);
    if p2 < p1 {
        lemma_count_take_mono(marks, p2, p1);
        assert(k2 <= k1);
        lemma_kth_unique(marks, k1, p2);
    }
}

/// Dropping the last position does not move the earlier unmarked positions.
pub proof fn lemma_kth_prefix(marks: Seq<bool>, k: int)
    requires
        marks.len() > 0,
        0 <= k < count_false(marks.drop_last()),
    ensures
        kth_unmarked(marks.drop_last(), k) == kth_unmarked(marks, k),
{
    let m1 = marks.drop_last();
    lemma_kth_unmarked(m1, k);
    let q = kth_unmarked(m1, k);
    assert(m1.take(q) =~= marks.take(q));
    assert(marks[q] == m1[q]);
    lemma_kth_unique(marks, k, q);
}

/// Appending an unmarked position to the large space takes one more entry
/// of the small marking, at the end.
pub proof fn lemma_expand_push_unmarked(small: Seq<bool>, m: Seq<bool>, fill: bool)
    requires
        small.len() == count_false(m) + 1,
    ensures
        expand_through(small, m.push(false), fill) == expand_through(
            small.drop_last(),
            m,
            fill,
        ).push(small.last()),
{
    let lhs = expand_through(small, m.push(false), fill);
    let rhs = expand_through(small.drop_last(), m, fill).push(small.last());
    lemma_count_true_bounds(m);
    assert forall|i: int| 0 <= i < m.len() + 1 implies lhs[i] == rhs[i] by {
        if i < m.len() {
            assert(m.push(false).take(i) =~= m.take(i));
            if !m[i] {
                lemma_count_take_step(m, i);
                lemma_count_take_mono(m, i + 1, m.len() as int);
                lemma_count_take_full(m);
                lemma_count_true_bounds(m.take(i));
            }
        } else {
            assert(m.push(false).take(i) =~= m);
            lemma_count_take_full(m);
        }
    }
    assert(lhs =~= rhs);
}

/// Appending a marked position to the large space appends the fill value.
pub proof fn lemma_expand_push_marked(small: Seq<bool>, m: Seq<bool>, fill: bool)
    requires
        small.len() == count_false(m),
    ensures
        expand_through(small, m.push(true), fill) == expand_through(small, m, fill).push(fill),
{
    let lhs = expand_through(small, m.push(true), fill);
    let rhs = expand_through(small, m, fill).push(fill);
    assert forall|i: int| 0 <= i < m.len() + 1 implies lhs[i] == rhs[i] by {
        if i < m.len() {
            assert(m.push(true).take(i) =~= m.take(i));
        }
    }
    assert(lhs =~= rhs);
}

/// Transforming through inserted positions neither loses nor invents
/// entries: the result's marks are the small marking's marks plus, when
/// `fill` is set, one per inserted position.
pub proof fn lemma_expand_count(small: Seq<bool>, marks: Seq<bool>, fill: bool)
    requires
        small.len() == count_false(marks),
    ensures
        count_true(expand_through(small, marks, fill)) == count_true(small) + if fill {
            count_true(marks)
        } else {
            0int
        },
    decreases marks.len(),
{
    if marks.len() == 0 {
        assert(small =~= Seq::<bool>::empty());
        assert(expand_through(small, marks, fill) =~= Seq::<bool>::empty());
    } else {
        let m1 = marks.drop_last();
        assert(marks =~= m1.push(marks.last()));
        assert(count_true(marks) == count_true(m1) + if marks.last() {
            1int
        } else {
            0int
        });
        lemma_count_true_bounds(m1);
        if marks.last() {
            lemma_expand_count(small, m1, fill);
            lemma_expand_push_marked(small, m1, fill);
            lemma_count_push(expand_through(small, m1, fill), fill);
        } else {
            assert(small.len() == count_false(m1) + 1);
            assert(count_true(small) == count_true(small.drop_last()) + if small.last() {
                1int
            } else {
                0int
            });
            lemma_expand_count(small.drop_last(), m1, fill);
            lemma_expand_push_unmarked(small, m1, fill);
            lemma_count_push(expand_through(small.drop_last(), m1, fill), small.last());
        }
    }
}

pub proof fn lemma_mapped_gap_le(marks: Seq<bool>, g: int, after: bool)
    requires
        0 <= g,
    ensures
        0 <= mapped_gap(marks, g, after) <= marks.len(),
{
    lemma_count_true_bounds(marks);
    if after {
        if g < count_false(marks) {
            lemma_kth_unmarked(marks, g);
        }
    } else {
        if 0 < g && g <= count_false(marks) {
            lemma_kth_unmarked(marks, g - 1);
        }
    }
}

pub proof fn lemma_mapped_gap_mono(marks: Seq<bool>, g1: int, g2: int, after: bool)
    requires
        0 <= g1 <= g2,
    ensures
        mapped_gap(marks, g1, after) <= mapped_gap(marks, g2, after),
{
    lemma_mapped_gap_le(marks, g1, after);
    lemma_mapped_gap_le(marks, g2, after);
    if after {
        if g2 < count_false(marks) {
            lemma_kth_mono(marks, g1, g2);
        }
    } else {
        if 0 < g1 && g2 <= count_false(marks) {
            lemma_kth_mono(marks, g1 - 1, g2 - 1);
        }
    }
}

/// A marking of positions over a coordinate space of a fixed length.
pub struct Subset {
    bits: Vec<bool>,
}

impl View for Subset {
    type V = Seq<bool>;

    closed spec fn view(&self) -> Seq<bool> {
        self.bits@
    }
}

impl Subset {
    /// The empty marking over a space of `len` positions.
    pub fn all_unmarked(len: usize) -> (s: Subset)
        ensures
            s@.len() == len,
            count_true(s@) == 0,
            forall|i: int| 0 <= i < len ==> !s@[i],
    {
        let mut bits: Vec<bool> = Vec::new();
        let mut i: usize = 0;
        while i < len
            invariant
                i <= len,
                bits@.len() == i,
                forall|k: int| 0 <= k < i ==> !bits@[k],
            decreases len - i,
        {
            bits.push(false);
            i = i + 1;
        }
        proof {
            lemma_count_zero(bits@);
        }
        Subset { bits }
    }

    pub(crate) fn from_bits(bits: Vec<bool>) -> (s: Subset)
        ensures
            s@ == bits@,
    {
        Subset { bits }
    }

    pub fn len(&self) -> (n: usize)
        ensures
            n == self@.len(),
    {
        self.bits.len()
    }

    pub fn marked(&self, i: usize) -> (b: bool)
        requires
            i < self@.len(),
        ensures
            b == self@[i as int],
    {
        self.bits[i]
    }

    pub fn count(&self) -> (c: usize)
        ensures
            c == count_true(self@),
    {
        let n = self.bits.len();
        let mut c: usize = 0;
        let mut i: usize = 0;
        while i < n
            invariant
                i <= n,
                n == self@.len(),
                c <= i,
                c == count_true(self@.take(i as int)),
            decreases n - i,
        {
            proof {
                lemma_count_take_step(self@, i as int);
            }
            if self.bits[i] {
                c = c + 1;
            }
            i = i + 1;
        }
        proof {
            lemma_count_take_full(self@);
        }
        c
    }

    pub fn duplicate(&self) -> (s: Subset)
        ensures
            s@ == self@,
    {
        let n = self.bits.len();
        let mut bits: Vec<bool> = Vec::new();
        let mut i: usize = 0;
        while i < n
            invariant
                i <= n,
                n == self@.len(),
                bits@.len() == i,
                forall|k: int| 0 <= k < i ==> bits@[k] == self@[k],
            decreases n - i,
        {
            bits.push(self.bits[i]);
            i = i + 1;
        }
        proof {
            assert(bits@ =~= self@);
        }
        Subset { bits }
    }

    /// Mark every position of `from..to` in addition to what is marked.
    pub fn mark_range(&mut self, from: usize, to: usize)
        requires
            from <= to <= old(self)@.len(),
        ensures
            final(self)@.len() == old(self)@.len(),
            forall|i: int|
                0 <= i < old(self)@.len() ==> final(self)@[i] == (old(self)@[i] || (from <= i
                    < to)),
    {
        let mut i: usize = from;
        while i < to
            invariant
                from <= i <= to,
                self@.len() == old(self)@.len(),
                forall|k: int|
                    0 <= k < old(self)@.len() ==> self@[k] == (old(self)@[k] || (from <= k
                        < i)),
            decreases to - i,
        {
            self.bits.set(i, true);
            i = i + 1;
        }
    }

    /// Pointwise disjunction with a marking of the same length.
    pub fn union_with(&self, other: &Subset) -> (r: Subset)
        requires
            self@.len() == other@.len(),
        ensures
            r@ == or_marks(self@, other@),
    {
        let n = self.bits.len();
        let mut bits: Vec<bool> = Vec::new();
        let mut i: usize = 0;
        while i < n
            invariant
                i <= n,
                n == self@.len(),
                bits@.len() == i,
                forall|k: int| 0 <= k < i ==> bits@[k] == (self@[k] || other@[k]),
            decreases n - i,
        {
            bits.push(self.bits[i] || other.bits[i]);
            i = i + 1;
        }
        proof {
            assert(bits@ =~= or_marks(self@, other@));
        }
        Subset { bits }
    }

    /// Reinterpret this marking over the larger space `marks` describes,
    /// admitting the positions marked in `marks` as unmarked.
    pub fn transform_expand(&self, marks: &Subset) -> (r: Subset)
        requires
            self@.len() == count_false(marks@),
        ensures
            r@ == expand_through(self@, marks@, false),
    {
        self.transform_through(marks, false)
    }

    /// Reinterpret this marking over the larger space `marks` describes,
    /// marking the positions marked in `marks` as well.
    pub fn transform_intersect(&self, marks: &Subset) -> (r: Subset)
        requires
            self@.len() == count_false(marks@),
        ensures
            r@ == expand_through(self@, marks@, true),
    {
        self.transform_through(marks, true)
    }

    fn transform_through(&self, marks: &Subset, fill: bool) -> (r: Subset)
        requires
            self@.len() == count_false(marks@),
        ensures
            r@ == expand_through(self@, marks@, fill),
    {
        let n = marks.bits.len();
        let mut bits: Vec<bool> = Vec::new();
        let mut j: usize = 0;
        let mut i: usize = 0;
        while i < n
            invariant
                i <= n,
                n == marks@.len(),
                j == count_false(marks@.take(i as int)),
                bits@.len() == i,
                forall|k: int|
                    0 <= k < i ==> bits@[k] == (if marks@[k] {
                        fill
                    } else {
                        self@[count_false(marks@.take(k))]
                    }),
            decreases n - i,
        {
            proof {
                lemma_count_take_step(marks@, i as int);
                lemma_count_take_mono(marks@, i as int + 1, marks@.len() as int);
                lemma_count_take_full(marks@);
                lemma_count_true_bounds(marks@.take(i as int));
            }
            if marks.bits[i] {
                bits.push(fill);
            } else {
                bits.push(self.bits[j]);
                j = j + 1;
            }
            i = i + 1;
        }
        proof {
            assert(bits@ =~= expand_through(self@, marks@, fill));
        }
        Subset { bits }
    }

    /// The entries of `t` at this marking's unmarked positions, in order.
    pub fn remove_marked(&self, t: &Vec<char>) -> (r: Vec<char>)
        requires
            t@.len() == self@.len(),
        ensures
            r@ == keep_unmarked(t@, self@),
    {
        let n = self.bits.len();
        let mut out: Vec<char> = Vec::new();
        let mut i: usize = 0;
        while i < n
            invariant
                i <= n,
                n == self@.len(),
                t@.len() == n,
                out@ == keep_unmarked(t@.take(i as int), self@.take(i as int)),
            decreases n - i,
        {
            proof {
                assert(t@.take(i as int + 1).drop_last() =~= t@.take(i as int));
                assert(self@.take(i as int + 1).drop_last() =~= self@.take(i as int));
            }
            if !self.bits[i] {
                out.push(t[i]);
            }
            i = i + 1;
        }
        proof {
            assert(t@.take(t@.len() as int) =~= t@);
            assert(self@.take(self@.len() as int) =~= self@);
        }
        out
    }

    /// The gap of the larger space where the gap `g` of the smaller space
    /// lands; ties against marked runs go behind them exactly when `after`.
    pub fn map_gap(&self, g: usize, after: bool) -> (m: usize)
        requires
            g <= count_false(self@),
        ensures
            m == mapped_gap(self@, g as int, after),
    {
        let n = self.bits.len();
        proof {
            lemma_count_true_bounds(self@);
        }
        if after {
            let mut i: usize = 0;
            let mut seen: usize = 0;
            while i < n
                invariant
                    i <= n,
                    n == self@.len(),
                    seen == count_false(self@.take(i as int)),
                    seen <= g,
                decreases n - i,
            {
                proof {
                    lemma_count_take_step(self@, i as int);
                    lemma_count_take_mono(self@, i as int + 1, self@.len() as int);
                    lemma_count_take_full(self@);
                }
                if !self.bits[i] {
                    if seen == g {
                        proof {
                            lemma_kth_unique(self@, g as int, i as int);
                        }
                        return i;
                    }
                    seen = seen + 1;
                }
                i = i + 1;
            }
            proof {
                lemma_count_take_full(self@);
            }
            n
        } else {
            if g == 0 {
                return 0;
            }
            let mut i: usize = 0;
            let mut seen: usize = 0;
            while i < n
                invariant
                    i <= n,
                    n == self@.len(),
                    seen == count_false(self@.take(i as int)),
                    seen < g,
                decreases n - i,
            {
                proof {
                    lemma_count_take_step(self@, i as int);
                    lemma_count_take_mono(self@, i as int + 1, self@.len() as int);
                    lemma_count_take_full(self@);
                }
                if !self.bits[i] {
                    seen = seen + 1;
                    if seen == g {
                        proof {
                            lemma_kth_unique(self@, g as int - 1, i as int);
                        }
                        return i + 1;
                    }
                }
                i = i + 1;
            }
            proof {
                lemma_count_take_full(self@);
                assert(false);
            }
            n
        }
    }
}

} // verus!
