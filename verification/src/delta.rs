//! Edit deltas over a text: a set of insertions at non-decreasing gaps
//! together with a marking of removed positions, plus the factoring,
//! coordinate-transform and synthesis operations the engine needs.
#![verifier::loop_isolation(false)]

use vstd::prelude::*;

use crate::subset::{
    count_false, count_true, expand_through, keep_unmarked, kth_unmarked, lemma_count_concat,
    lemma_count_const, lemma_count_take_full, lemma_count_take_mono, lemma_count_take_step,
    lemma_count_true_bounds, lemma_count_zero, lemma_expand_push_marked,
    lemma_expand_push_unmarked, lemma_keep_unmarked_len, lemma_kth_prefix, lemma_kth_unique,
    lemma_kth_unmarked, lemma_mapped_gap_le, lemma_mapped_gap_mono, mapped_gap, Subset,
};

verus! {

/// One insertion: a text spliced in at a gap of the base text.
pub struct Insertion {
    pub at: usize,
    pub text: Vec<char>,
}

pub open spec fn gaps_of(items: Seq<Insertion>) -> Seq<int> {
    Seq::new(items.len(), |k: int| items[k].at as int)
}

pub open spec fn texts_of(items: Seq<Insertion>) -> Seq<Seq<char>> {
    Seq::new(items.len(), |k: int| items[k].text@)
}

pub open spec fn sum_lens(texts: Seq<Seq<char>>) -> int
    decreases texts.len(),
{
    if texts.len() == 0 {
        0
    } else {
        sum_lens(texts.drop_last()) + texts.last().len()
    }
}

pub open spec fn gaps_bounded(bound: int, gaps: Seq<int>) -> bool {
    forall|k: int| 0 <= k < gaps.len() ==> 0 <= #[trigger] gaps[k] <= bound
}

pub open spec fn gaps_sorted(gaps: Seq<int>) -> bool {
    forall|k1: int, k2: int|
        0 <= k1 <= k2 < gaps.len() ==> #[trigger] gaps[k1] <= #[trigger] gaps[k2]
}

pub open spec fn items_wf(base_len: int, gaps: Seq<int>) -> bool {
    gaps_bounded(base_len, gaps) && gaps_sorted(gaps)
}

/// Splice the texts into `t`, each at its gap; gaps are in `t`'s own
/// coordinates, and a later insertion at the same gap lands behind an
/// earlier one.
pub open spec fn apply_ins(t: Seq<char>, gaps: Seq<int>, texts: Seq<Seq<char>>) -> Seq<char>
    decreases gaps.len(),
{
    if gaps.len() == 0 || gaps.len() != texts.len() {
        t
    } else {
        let prev = apply_ins(t, gaps.drop_last(), texts.drop_last());
        let p = gaps.last() + sum_lens(texts.drop_last());
        prev.take(p) + texts.last() + prev.skip(p)
    }
}

/// Marks, over the spliced result, of the positions the texts occupy.
pub open spec fn ins_marks(base_len: int, gaps: Seq<int>, texts: Seq<Seq<char>>) -> Seq<bool>
    decreases gaps.len(),
{
    if gaps.len() == 0 || gaps.len() != texts.len() {
        Seq::new(if base_len >= 0 {
            base_len as nat
        } else {
            0nat
        }, |i: int| false)
    } else {
        let prev = ins_marks(base_len, gaps.drop_last(), texts.drop_last());
        let p = gaps.last() + sum_lens(texts.drop_last());
        prev.take(p) + Seq::new(texts.last().len(), |i: int| true) + prev.skip(p)
    }
}

pub proof fn lemma_sum_lens_nonneg(texts: Seq<Seq<char>>)
    ensures
        0 <= sum_lens(texts),
    decreases texts.len(),
{
    if texts.len() > 0 {
        lemma_sum_lens_nonneg(texts.drop_last());
    }
}

pub proof fn lemma_sum_take_step(texts: Seq<Seq<char>>, k: int)
    requires
        0 <= k < texts.len(),
    ensures
        sum_lens(texts.take(k + 1)) == sum_lens(texts.take(k)) + texts[k].len(),
{
    assert(texts.take(k + 1).drop_last() =~= texts.take(k));
}

pub proof fn lemma_apply_ins_len(t: Seq<char>, gaps: Seq<int>, texts: Seq<Seq<char>>)
    requires
        gaps.len() == texts.len(),
        gaps_bounded(t.len() as int, gaps),
    ensures
        apply_ins(t, gaps, texts).len() == t.len() + sum_lens(texts),
    decreases gaps.len(),
{
    if gaps.len() > 0 {
        assert(gaps_bounded(t.len() as int, gaps.drop_last())) by {
            assert(forall|k: int|
                0 <= k < gaps.len() - 1 ==> #[trigger] gaps.drop_last()[k] == gaps[k]);
        }
        lemma_apply_ins_len(t, gaps.drop_last(), texts.drop_last());
        lemma_sum_lens_nonneg(texts.drop_last());
        assert(gaps.last() == gaps[gaps.len() - 1]);
    }
}

pub proof fn lemma_ins_marks_len(base_len: int, gaps: Seq<int>, texts: Seq<Seq<char>>)
    requires
        gaps.len() == texts.len(),
        base_len >= 0,
        gaps_bounded(base_len, gaps),
    ensures
        ins_marks(base_len, gaps, texts).len() == base_len + sum_lens(texts),
    decreases gaps.len(),
{
    if gaps.len() > 0 {
        assert(gaps_bounded(base_len, gaps.drop_last())) by {
            assert(forall|k: int|
                0 <= k < gaps.len() - 1 ==> #[trigger] gaps.drop_last()[k] == gaps[k]);
        }
        lemma_ins_marks_len(base_len, gaps.drop_last(), texts.drop_last());
        lemma_sum_lens_nonneg(texts.drop_last());
        assert(gaps.last() == gaps[gaps.len() - 1]);
    }
}

pub proof fn lemma_ins_marks_count(base_len: int, gaps: Seq<int>, texts: Seq<Seq<char>>)
    requires
        gaps.len() == texts.len(),
        base_len >= 0,
        gaps_bounded(base_len, gaps),
    ensures
        count_true(ins_marks(base_len, gaps, texts)) == sum_lens(texts),
    decreases gaps.len(),
{
    if gaps.len() == 0 {
        lemma_count_const(base_len as nat, false);
    } else {
        assert(gaps_bounded(base_len, gaps.drop_last())) by {
            assert(forall|k: int|
                0 <= k < gaps.len() - 1 ==> #[trigger] gaps.drop_last()[k] == gaps[k]);
        }
        lemma_ins_marks_count(base_len, gaps.drop_last(), texts.drop_last());
        lemma_ins_marks_len(base_len, gaps.drop_last(), texts.drop_last());
        lemma_sum_lens_nonneg(texts.drop_last());
        let prev = ins_marks(base_len, gaps.drop_last(), texts.drop_last());
        let p = gaps.last() + sum_lens(texts.drop_last());
        let trues = Seq::new(texts.last().len(), |i: int| true);
        assert(gaps.last() == gaps[gaps.len() - 1]);
        assert(0 <= p <= prev.len());
        lemma_count_concat(prev.take(p) + trues, prev.skip(p));
        lemma_count_concat(prev.take(p), trues);
        lemma_count_const(texts.last().len(), true);
        lemma_count_concat(prev.take(p), prev.skip(p));
        assert(prev.take(p) + prev.skip(p) =~= prev);
    }
}

pub proof fn lemma_apply_ins_snoc(t: Seq<char>, c: char, gaps: Seq<int>, texts: Seq<Seq<char>>)
    requires
        gaps.len() == texts.len(),
        gaps_bounded(t.len() as int, gaps),
    ensures
        apply_ins(t.push(c), gaps, texts) == apply_ins(t, gaps, texts).push(c),
    decreases gaps.len(),
{
    if gaps.len() == 0 {
    } else {
        assert(gaps_bounded(t.len() as int, gaps.drop_last())) by {
            assert(forall|k: int|
                0 <= k < gaps.len() - 1 ==> #[trigger] gaps.drop_last()[k] == gaps[k]);
        }
        lemma_apply_ins_snoc(t, c, gaps.drop_last(), texts.drop_last());
        lemma_apply_ins_len(t, gaps.drop_last(), texts.drop_last());
        lemma_sum_lens_nonneg(texts.drop_last());
        let prev = apply_ins(t, gaps.drop_last(), texts.drop_last());
        let p = gaps.last() + sum_lens(texts.drop_last());
        assert(gaps.last() == gaps[gaps.len() - 1]);
        assert(0 <= p <= prev.len());
        assert(prev.push(c).take(p) =~= prev.take(p));
        assert(prev.push(c).skip(p) =~= prev.skip(p).push(c));
        assert(prev.take(p) + texts.last() + prev.skip(p).push(c) =~= (prev.take(p) + texts.last()
            + prev.skip(p)).push(c));
    }
}

pub proof fn lemma_ins_marks_snoc(base_len: int, gaps: Seq<int>, texts: Seq<Seq<char>>)
    requires
        gaps.len() == texts.len(),
        base_len >= 0,
        gaps_bounded(base_len, gaps),
    ensures
        ins_marks(base_len + 1, gaps, texts) == ins_marks(base_len, gaps, texts).push(false),
    decreases gaps.len(),
{
    if gaps.len() == 0 {
        assert(Seq::new((base_len + 1) as nat, |i: int| false) =~= Seq::new(
            base_len as nat,
            |i: int| false,
        ).push(false));
    } else {
        assert(gaps_bounded(base_len, gaps.drop_last())) by {
            assert(forall|k: int|
                0 <= k < gaps.len() - 1 ==> #[trigger] gaps.drop_last()[k] == gaps[k]);
        }
        lemma_ins_marks_snoc(base_len, gaps.drop_last(), texts.drop_last());
        lemma_ins_marks_len(base_len, gaps.drop_last(), texts.drop_last());
        lemma_sum_lens_nonneg(texts.drop_last());
        let prev = ins_marks(base_len, gaps.drop_last(), texts.drop_last());
        let p = gaps.last() + sum_lens(texts.drop_last());
        let trues = Seq::new(texts.last().len(), |i: int| true);
        assert(gaps.last() == gaps[gaps.len() - 1]);
        assert(0 <= p <= prev.len());
        assert(prev.push(false).take(p) =~= prev.take(p));
        assert(prev.push(false).skip(p) =~= prev.skip(p).push(false));
        assert(prev.take(p) + trues + prev.skip(p).push(false) =~= (prev.take(p) + trues
            + prev.skip(p)).push(false));
    }
}

fn copy_chars(v: &Vec<char>) -> (r: Vec<char>)
    ensures
        r@ == v@,
{
    let n = v.len();
    let mut out: Vec<char> = Vec::new();
    let mut i: usize = 0;
    while i < n
        invariant
            i <= n,
            out@.len() == i,
            forall|k: int| 0 <= k < i ==> out@[k] == v@[k],
        decreases n - i,
    {
        out.push(v[i]);
        i = i + 1;
    }
    proof {
        assert(out@ =~= v@);
    }
    out
}

/// Splice the items into `t`: shared body of the delta apply operations.
fn apply_items(items: &Vec<Insertion>, t: &Vec<char>) -> (r: Vec<char>)
    requires
        items_wf(t@.len() as int, gaps_of(items@)),
        t@.len() + sum_lens(texts_of(items@)) <= usize::MAX,
    ensures
        r@ == apply_ins(t@, gaps_of(items@), texts_of(items@)),
{
    let ghost allg = gaps_of(items@);
    let ghost allt = texts_of(items@);
    let n = items.len();
    let tn = t.len();
    let mut out: Vec<char> = Vec::new();
    let mut pos: usize = 0;
    let mut k: usize = 0;
    while k < n
        invariant
            k <= n,
            pos <= tn,
            k == 0 ==> pos == 0,
            k > 0 ==> pos as int == allg[k as int - 1],
            forall|k2: int| 0 <= k2 < k ==> #[trigger] allg[k2] <= pos,
            out@ == apply_ins(t@.take(pos as int), allg.take(k as int), allt.take(k as int)),
            out@.len() == pos + sum_lens(allt.take(k as int)),
        decreases n - k,
    {
        proof {
            lemma_sum_lens_nonneg(allt.take(k as int));
            assert(allg[k as int] == items@[k as int].at);
            if k > 0 {
                assert(allg[k as int - 1] <= allg[k as int]);
            }
        }
        let g = items[k].at;
        while pos < g
            invariant
                pos <= g,
                forall|k2: int| 0 <= k2 < k ==> #[trigger] allg[k2] <= pos,
                out@ == apply_ins(t@.take(pos as int), allg.take(k as int), allt.take(k as int)),
                out@.len() == pos + sum_lens(allt.take(k as int)),
            decreases g - pos,
        {
            proof {
                assert(gaps_bounded(pos as int, allg.take(k as int)));
                lemma_apply_ins_snoc(t@.take(pos as int), t@[pos as int], allg.take(k as int),
                    allt.take(k as int));
                assert(t@.take(pos as int + 1) =~= t@.take(pos as int).push(t@[pos as int]));
            }
            out.push(t[pos]);
            pos = pos + 1;
        }
        let txt = &items[k].text;
        let m = txt.len();
        let mut j: usize = 0;
        while j < m
            invariant
                j <= m,
                m == txt@.len(),
                out@ == apply_ins(t@.take(pos as int), allg.take(k as int), allt.take(k as int))
                    + txt@.take(j as int),
            decreases m - j,
        {
            proof {
                assert(txt@.take(j as int + 1) =~= txt@.take(j as int).push(txt@[j as int]));
                assert((apply_ins(t@.take(pos as int), allg.take(k as int), allt.take(k as int))
                    + txt@.take(j as int)).push(txt@[j as int]) =~= apply_ins(
                    t@.take(pos as int),
                    allg.take(k as int),
                    allt.take(k as int),
                ) + txt@.take(j as int + 1));
            }
            out.push(txt[j]);
            j = j + 1;
        }
        proof {
            let gk1 = allg.take(k as int + 1);
            let tk1 = allt.take(k as int + 1);
            assert(gk1.drop_last() =~= allg.take(k as int));
            assert(tk1.drop_last() =~= allt.take(k as int));
            assert(gk1.last() == pos as int);
            assert(tk1.last() == txt@);
            let prev = apply_ins(t@.take(pos as int), allg.take(k as int), allt.take(k as int));
            assert(gaps_bounded(pos as int, allg.take(k as int)));
            lemma_apply_ins_len(t@.take(pos as int), allg.take(k as int), allt.take(k as int));
            let p = pos as int + sum_lens(allt.take(k as int));
            assert(prev.len() == p);
            assert(prev.take(p) =~= prev);
            assert(prev.skip(p) =~= Seq::<char>::empty());
            assert(txt@.take(txt@.len() as int) =~= txt@);
            assert(prev.take(p) + tk1.last() + prev.skip(p) =~= prev + txt@);
            lemma_sum_take_step(allt, k as int);
        }
        k = k + 1;
    }
    while pos < tn
        invariant
            pos <= tn,
            forall|k2: int| 0 <= k2 < n ==> #[trigger] allg[k2] <= pos,
            out@ == apply_ins(t@.take(pos as int), allg.take(n as int), allt.take(n as int)),
        decreases tn - pos,
    {
        proof {
            assert(gaps_bounded(pos as int, allg.take(n as int)));
            lemma_apply_ins_snoc(t@.take(pos as int), t@[pos as int], allg.take(n as int),
                allt.take(n as int));
            assert(t@.take(pos as int + 1) =~= t@.take(pos as int).push(t@[pos as int]));
        }
        out.push(t[pos]);
        pos = pos + 1;
    }
    proof {
        assert(t@.take(tn as int) =~= t@);
        assert(allg.take(n as int) =~= allg);
        assert(allt.take(n as int) =~= allt);
    }
    out
}

/// Marks over the spliced result of the positions the items occupy:
/// shared body of `invert_insert`.
fn marks_of_items(items: &Vec<Insertion>, base_len: usize) -> (r: Subset)
    requires
        items_wf(base_len as int, gaps_of(items@)),
        base_len + sum_lens(texts_of(items@)) <= usize::MAX,
    ensures
        r@ == ins_marks(base_len as int, gaps_of(items@), texts_of(items@)),
{
    let ghost allg = gaps_of(items@);
    let ghost allt = texts_of(items@);
    let n = items.len();
    let mut bits: Vec<bool> = Vec::new();
    let mut pos: usize = 0;
    let mut k: usize = 0;
    while k < n
        invariant
            k <= n,
            pos <= base_len,
            k == 0 ==> pos == 0,
            k > 0 ==> pos as int == allg[k as int - 1],
            forall|k2: int| 0 <= k2 < k ==> #[trigger] allg[k2] <= pos,
            bits@ == ins_marks(pos as int, allg.take(k as int), allt.take(k as int)),
            bits@.len() == pos + sum_lens(allt.take(k as int)),
        decreases n - k,
    {
        proof {
            lemma_sum_lens_nonneg(allt.take(k as int));
            assert(allg[k as int] == items@[k as int].at);
            if k > 0 {
                assert(allg[k as int - 1] <= allg[k as int]);
            }
        }
        let g = items[k].at;
        while pos < g
            invariant
                pos <= g,
                forall|k2: int| 0 <= k2 < k ==> #[trigger] allg[k2] <= pos,
                bits@ == ins_marks(pos as int, allg.take(k as int), allt.take(k as int)),
                bits@.len() == pos + sum_lens(allt.take(k as int)),
            decreases g - pos,
        {
            proof {
                assert(gaps_bounded(pos as int, allg.take(k as int)));
                lemma_ins_marks_snoc(pos as int, allg.take(k as int), allt.take(k as int));
            }
            bits.push(false);
            pos = pos + 1;
        }
        let m = items[k].text.len();
        let mut j: usize = 0;
        while j < m
            invariant
                j <= m,
                m == items@[k as int].text@.len(),
                bits@ == ins_marks(pos as int, allg.take(k as int), allt.take(k as int))
                    + Seq::new(j as nat, |i: int| true),
            decreases m - j,
        {
            proof {
                assert(Seq::new(j as nat + 1, |i: int| true) =~= Seq::new(
                    j as nat,
                    |i: int| true,
                ).push(true));
                assert((ins_marks(pos as int, allg.take(k as int), allt.take(k as int)) + Seq::new(
                    j as nat,
                    |i: int| true,
                )).push(true) =~= ins_marks(pos as int, allg.take(k as int), allt.take(k as int))
                    + Seq::new(j as nat + 1, |i: int| true));
            }
            bits.push(true);
            j = j + 1;
        }
        proof {
            let gk1 = allg.take(k as int + 1);
            let tk1 = allt.take(k as int + 1);
            assert(gk1.drop_last() =~= allg.take(k as int));
            assert(tk1.drop_last() =~= allt.take(k as int));
            assert(gk1.last() == pos as int);
            assert(tk1.last() == items@[k as int].text@);
            let prev = ins_marks(pos as int, allg.take(k as int), allt.take(k as int));
            assert(gaps_bounded(pos as int, allg.take(k as int)));
            lemma_ins_marks_len(pos as int, allg.take(k as int), allt.take(k as int));
            let p = pos as int + sum_lens(allt.take(k as int));
            assert(prev.len() == p);
            assert(prev.take(p) =~= prev);
            assert(prev.skip(p) =~= Seq::<bool>::empty());
            assert(prev.take(p) + Seq::new(tk1.last().len(), |i: int| true) + prev.skip(p) =~= prev
                + Seq::new(m as nat, |i: int| true));
            lemma_sum_take_step(allt, k as int);
        }
        k = k + 1;
    }
    while pos < base_len
        invariant
            pos <= base_len,
            forall|k2: int| 0 <= k2 < n ==> #[trigger] allg[k2] <= pos,
            bits@ == ins_marks(pos as int, allg.take(n as int), allt.take(n as int)),
        decreases base_len - pos,
    {
        proof {
            assert(gaps_bounded(pos as int, allg.take(n as int)));
            lemma_ins_marks_snoc(pos as int, allg.take(n as int), allt.take(n as int));
        }
        bits.push(false);
        pos = pos + 1;
    }
    proof {
        assert(allg.take(n as int) =~= allg);
        assert(allt.take(n as int) =~= allt);
    }
    Subset::from_bits(bits)
}

/// An insertion-only delta: what `Delta::factor` returns besides the
/// removed-position marking.
pub struct InsDelta {
    base_len: usize,
    items: Vec<Insertion>,
}

impl InsDelta {
    pub closed spec fn base_len_spec(&self) -> int {
        self.base_len as int
    }

    pub closed spec fn items_view(&self) -> Seq<Insertion> {
        self.items@
    }

    pub open spec fn wf(&self) -> bool {
        items_wf(self.base_len_spec(), gaps_of(self.items_view()))
    }

    pub open spec fn ins_total(&self) -> int {
        sum_lens(texts_of(self.items_view()))
    }

    /// Reinterpret the delta over the larger space that `marks` describes:
    /// each insertion gap is mapped through the marked (inserted) positions,
    /// ties resolved behind a marked run exactly when `after`.
    pub fn transform_expand(&self, marks: &Subset, after: bool) -> (r: InsDelta)
        requires
            self.wf(),
            self.base_len_spec() == count_false(marks@),
        ensures
            r.wf(),
            r.base_len_spec() == marks@.len(),
            r.items_view().len() == self.items_view().len(),
            texts_of(r.items_view()) == texts_of(self.items_view()),
            forall|k: int|
                0 <= k < self.items_view().len() ==> #[trigger] r.items_view()[k].at as int
                    == mapped_gap(marks@, self.items_view()[k].at as int, after),
    {
        let n = self.items.len();
        let mut out: Vec<Insertion> = Vec::new();
        let mut k: usize = 0;
        while k < n
            invariant
                k <= n,
                out@.len() == k,
                forall|k2: int|
                    0 <= k2 < k ==> #[trigger] out@[k2].at as int == mapped_gap(
                        marks@,
                        self.items_view()[k2].at as int,
                        after,
                    ),
                forall|k2: int|
                    0 <= k2 < k ==> #[trigger] out@[k2].text@ == self.items_view()[k2].text@,
                gaps_bounded(marks@.len() as int, gaps_of(out@).take(k as int)),
                forall|k1: int, k2: int|
                    0 <= k1 <= k2 < k ==> #[trigger] out@[k1].at <= #[trigger] out@[k2].at,
            decreases n - k,
        {
            proof {
                assert(gaps_of(self.items_view())[k as int] == self.items_view()[k as int].at);
            }
            let m = marks.map_gap(self.items[k].at, after);
            let text = copy_chars(&self.items[k].text);
            out.push(Insertion { at: m, text });
            proof {
                lemma_mapped_gap_le(marks@, self.items_view()[k as int].at as int, after);
                assert forall|k1: int| 0 <= k1 < k implies #[trigger] out@[k1].at
                    <= out@[k as int].at by {
                    assert(gaps_of(self.items_view())[k1] == self.items_view()[k1].at);
                    lemma_mapped_gap_mono(
                        marks@,
                        self.items_view()[k1].at as int,
                        self.items_view()[k as int].at as int,
                        after,
                    );
                }
                assert(gaps_bounded(marks@.len() as int, gaps_of(out@).take(k as int + 1))) by {
                    assert(forall|k2: int|
                        0 <= k2 < k + 1 ==> #[trigger] gaps_of(out@).take(k as int + 1)[k2]
                            == out@[k2].at);
                }
            }
            k = k + 1;
        }
        proof {
            assert(texts_of(out@) =~= texts_of(self.items_view()));
            assert(gaps_of(out@).take(n as int) =~= gaps_of(out@));
            assert(forall|k2: int| 0 <= k2 < n ==> #[trigger] gaps_of(out@)[k2] == out@[k2].at);
        }
        InsDelta { base_len: marks.len(), items: out }
    }

    /// The marking, over the text this delta produces, of the positions the
    /// inserted texts occupy.
    pub fn invert_insert(&self) -> (r: Subset)
        requires
            self.wf(),
            self.base_len_spec() + self.ins_total() <= usize::MAX,
        ensures
            r@ == ins_marks(
                self.base_len_spec(),
                gaps_of(self.items_view()),
                texts_of(self.items_view()),
            ),
    {
        marks_of_items(&self.items, self.base_len)
    }

    /// Splice the insertions into `t`.
    pub fn apply(&self, t: &Vec<char>) -> (r: Vec<char>)
        requires
            self.wf(),
            self.base_len_spec() == t@.len(),
            t@.len() + self.ins_total() <= usize::MAX,
        ensures
            r@ == apply_ins(t@, gaps_of(self.items_view()), texts_of(self.items_view())),
    {
        apply_items(&self.items, t)
    }
}

/// The marking of one insertion of `s` at gap `g` of a text of `n`
/// characters: exactly the positions of the inserted run are marked.
proof fn lemma_single_ins_marks(n: int, g: int, s: Seq<char>)
    requires
        0 <= g <= n,
    ensures
        ({
            let m = ins_marks(n, seq![g], seq![s]);
            &&& m.len() == n + s.len()
            &&& forall|i: int| 0 <= i < m.len() ==> m[i] == (g <= i < g + s.len())
        }),
{
    let m = ins_marks(n, seq![g], seq![s]);
    assert(seq![g].drop_last() =~= Seq::<int>::empty());
    assert(seq![s].drop_last() =~= Seq::<Seq<char>>::empty());
    let prev = ins_marks(n, Seq::<int>::empty(), Seq::<Seq<char>>::empty());
    assert(prev =~= Seq::new(n as nat, |i: int| false));
    assert(sum_lens(Seq::<Seq<char>>::empty()) == 0);
    assert(m == prev.take(g) + Seq::new(s.len(), |i: int| true) + prev.skip(g));
}

/// How far into a single-insertion marking the first `k` positions reach:
/// the unmarked ones among them are those before the run plus those after.
proof fn lemma_single_marks_count(n: int, g: int, s: Seq<char>, k: int)
    requires
        0 <= g <= n,
        0 <= k <= n + s.len(),
    ensures
        count_false(ins_marks(n, seq![g], seq![s]).take(k)) == (if k <= g {
            k
        } else if k <= g + s.len() {
            g
        } else {
            k - s.len()
        }),
{
    let m = ins_marks(n, seq![g], seq![s]);
    let ll = s.len() as int;
    lemma_single_ins_marks(n, g, s);
    if k <= g {
        assert(forall|i: int| 0 <= i < k ==> !m.take(k)[i]);
        lemma_count_zero(m.take(k));
    } else if k <= g + ll {
        assert(m.take(k) =~= m.take(g) + Seq::new((k - g) as nat, |i: int| true));
        lemma_count_concat(m.take(g), Seq::new((k - g) as nat, |i: int| true));
        assert(forall|i: int| 0 <= i < g ==> !m.take(g)[i]);
        lemma_count_zero(m.take(g));
        lemma_count_const((k - g) as nat, true);
    } else {
        assert(m.take(k) =~= m.take(g) + Seq::new(ll as nat, |i: int| true) + Seq::new(
            (k - g - ll) as nat,
            |i: int| false,
        ));
        lemma_count_concat(
            m.take(g) + Seq::new(ll as nat, |i: int| true),
            Seq::new((k - g - ll) as nat, |i: int| false),
        );
        lemma_count_concat(m.take(g), Seq::new(ll as nat, |i: int| true));
        assert(forall|i: int| 0 <= i < g ==> !m.take(g)[i]);
        lemma_count_zero(m.take(g));
        lemma_count_const(ll as nat, true);
        lemma_count_const((k - g - ll) as nat, false);
    }
}

/// Where a gap lands after one insertion: before the insertion it stays,
/// behind it shifts by the inserted length, and at the very same gap the
/// tie-break flag decides.
proof fn lemma_gap_through_single(n: int, g1: int, s1: Seq<char>, g2: int, after: bool)
    requires
        0 <= g1 <= n,
        0 <= g2 <= n,
    ensures
        mapped_gap(ins_marks(n, seq![g1], seq![s1]), g2, after) == (if g2 < g1 {
            g2
        } else if g2 > g1 {
            g2 + s1.len()
        } else if after {
            g1 + s1.len()
        } else {
            g1
        }),
{
    let m = ins_marks(n, seq![g1], seq![s1]);
    let ll = s1.len() as int;
    lemma_single_ins_marks(n, g1, s1);
    lemma_single_marks_count(n, g1, s1, n + ll);
    assert(m.take(n + ll) =~= m);
    assert(count_false(m) == n);
    if g2 < g1 {
        if after {
            lemma_single_marks_count(n, g1, s1, g2);
            lemma_kth_unique(m, g2, g2);
        } else if g2 > 0 {
            lemma_single_marks_count(n, g1, s1, g2 - 1);
            lemma_kth_unique(m, g2 - 1, g2 - 1);
        }
    } else if g2 > g1 {
        if after {
            if g2 == n {
                assert(mapped_gap(m, g2, after) == n + ll);
            } else {
                lemma_single_marks_count(n, g1, s1, g2 + ll);
                lemma_kth_unique(m, g2, g2 + ll);
            }
        } else {
            lemma_single_marks_count(n, g1, s1, g2 - 1 + ll);
            lemma_kth_unique(m, g2 - 1, g2 - 1 + ll);
        }
    } else {
        if after {
            if g1 == n {
                assert(mapped_gap(m, g2, after) == n + ll);
            } else {
                lemma_single_marks_count(n, g1, s1, g1 + ll);
                lemma_kth_unique(m, g1, g1 + ll);
            }
        } else if g1 > 0 {
            lemma_single_marks_count(n, g1, s1, g1 - 1);
            lemma_kth_unique(m, g1 - 1, g1 - 1);
        }
    }
}

/// Convergence of concurrent insertions: splicing two insertions in either
/// order, each order rebasing the later one through the earlier one's
/// marking, yields the same text - provided a tie at an equal gap is broken
/// oppositely in the two orders, as two distinct priorities break it.
pub proof fn lemma_insert_commutes(
    t: Seq<char>,
    g1: int,
    s1: Seq<char>,
    g2: int,
    s2: Seq<char>,
    first_behind: bool,
)
    requires
        0 <= g1 <= t.len(),
        0 <= g2 <= t.len(),
    ensures
        ({
            let m1 = ins_marks(t.len() as int, seq![g1], seq![s1]);
            let m2 = ins_marks(t.len() as int, seq![g2], seq![s2]);
            apply_ins(
                apply_ins(t, seq![g1], seq![s1]),
                seq![mapped_gap(m1, g2, first_behind)],
                seq![s2],
            ) == apply_ins(
                apply_ins(t, seq![g2], seq![s2]),
                seq![mapped_gap(m2, g1, !first_behind)],
                seq![s1],
            )
        }),
    decreases (if g1 > g2 {
        1int
    } else {
        0int
    }),
{
    let n = t.len() as int;
    if g1 > g2 {
        lemma_insert_commutes(t, g2, s2, g1, s1, !first_behind);
    } else {
        lemma_gap_through_single(n, g1, s1, g2, first_behind);
        lemma_gap_through_single(n, g2, s2, g1, !first_behind);
        let l1 = s1.len() as int;
        let l2 = s2.len() as int;
        assert(seq![g1].drop_last() =~= Seq::<int>::empty());
        assert(seq![g2].drop_last() =~= Seq::<int>::empty());
        assert(seq![s1].drop_last() =~= Seq::<Seq<char>>::empty());
        assert(seq![s2].drop_last() =~= Seq::<Seq<char>>::empty());
        assert(sum_lens(Seq::<Seq<char>>::empty()) == 0);
        assert(apply_ins(t, Seq::<int>::empty(), Seq::<Seq<char>>::empty()) == t);
        let a1 = apply_ins(t, seq![g1], seq![s1]);
        let b1 = apply_ins(t, seq![g2], seq![s2]);
        assert(a1 == t.take(g1) + s1 + t.skip(g1));
        assert(b1 == t.take(g2) + s2 + t.skip(g2));
        let q1 = mapped_gap(ins_marks(n, seq![g1], seq![s1]), g2, first_behind);
        let q2 = mapped_gap(ins_marks(n, seq![g2], seq![s2]), g1, !first_behind);
        assert(seq![q1].drop_last() =~= Seq::<int>::empty());
        assert(seq![q2].drop_last() =~= Seq::<int>::empty());
        assert(apply_ins(a1, Seq::<int>::empty(), Seq::<Seq<char>>::empty()) == a1);
        assert(apply_ins(b1, Seq::<int>::empty(), Seq::<Seq<char>>::empty()) == b1);
        let lhs = apply_ins(a1, seq![q1], seq![s2]);
        let rhs = apply_ins(b1, seq![q2], seq![s1]);
        assert(lhs == a1.take(q1) + s2 + a1.skip(q1));
        assert(rhs == b1.take(q2) + s1 + b1.skip(q2));
        if g1 < g2 {
            assert(q1 == g2 + l1);
            assert(q2 == g1);
            assert(a1.take(q1) =~= t.take(g1) + s1 + t.subrange(g1, g2));
            assert(a1.skip(q1) =~= t.skip(g2));
            assert(b1.take(q2) =~= t.take(g1));
            assert(b1.skip(q2) =~= t.subrange(g1, g2) + s2 + t.skip(g2));
            assert((t.take(g1) + s1 + t.subrange(g1, g2)) + s2 + t.skip(g2) =~= t.take(g1) + s1 + (
            t.subrange(g1, g2) + s2 + t.skip(g2)));
        } else {
            if first_behind {
                assert(q1 == g1 + l1);
                assert(q2 == g1);
                assert(a1.take(q1) =~= t.take(g1) + s1);
                assert(a1.skip(q1) =~= t.skip(g1));
                assert(b1.take(q2) =~= t.take(g1));
                assert(b1.skip(q2) =~= s2 + t.skip(g1));
                assert((t.take(g1) + s1) + s2 + t.skip(g1) =~= t.take(g1) + s1 + (s2 + t.skip(
                    g1,
                )));
            } else {
                assert(q1 == g1);
                assert(q2 == g1 + l2);
                assert(a1.take(q1) =~= t.take(g1));
                assert(a1.skip(q1) =~= s1 + t.skip(g1));
                assert(b1.take(q2) =~= t.take(g1) + s2);
                assert(b1.skip(q2) =~= t.skip(g1));
                assert(t.take(g1) + s2 + (s1 + t.skip(g1)) =~= (t.take(g1) + s2) + s1 + t.skip(
                    g1,
                ));
            }
        }
    }
}

/// The marking of the positions that `head` shows but `prev` hides, over
/// markings of hidden positions of one shared text: exactly those positions
/// are unmarked here.
pub open spec fn ins_pick(prev: Seq<bool>, head: Seq<bool>) -> Seq<bool> {
    Seq::new(prev.len(), |u: int| !(prev[u] && !head[u]))
}

/// Delta consistency: an edit shaped as `synthesize` shapes it - one
/// removal flag per position `prev` shows, one single-character insertion
/// per position only `head` shows - applied to the text `prev` shows,
/// yields exactly the text `head` shows.
pub proof fn lemma_synthesis_applies(
    u: Seq<char>,
    p: Seq<bool>,
    h: Seq<bool>,
    gaps: Seq<int>,
    texts: Seq<Seq<char>>,
    rem: Seq<bool>,
)
    requires
        p.len() == u.len(),
        h.len() == u.len(),
        rem.len() == count_false(p),
        forall|k: int| 0 <= k < rem.len() ==> rem[k] == h[#[trigger] kth_unmarked(p, k)],
        gaps.len() == texts.len(),
        gaps.len() as int == count_false(ins_pick(p, h)),
        forall|j: int|
            0 <= j < gaps.len() ==> gaps[j] == count_false(
                p.take(#[trigger] kth_unmarked(ins_pick(p, h), j)),
            ) && texts[j] == seq![u[kth_unmarked(ins_pick(p, h), j)]],
    ensures
        apply_delta(keep_unmarked(u, p), gaps, texts, rem) == keep_unmarked(u, h),
    decreases u.len(),
{
    let pick = ins_pick(p, h);
    let t = keep_unmarked(u, p);
    lemma_keep_unmarked_len(u, p);
    lemma_count_true_bounds(p);
    lemma_count_true_bounds(pick);
    if u.len() == 0 {
        assert(rem =~= Seq::<bool>::empty());
        assert(gaps =~= Seq::<int>::empty());
        assert(texts =~= Seq::<Seq<char>>::empty());
        assert(t =~= Seq::<char>::empty());
        assert(ins_marks(0, gaps, texts) =~= Seq::<bool>::empty());
        assert(expand_through(rem, Seq::<bool>::empty(), false) =~= Seq::<bool>::empty());
        assert(keep_unmarked(u, h) =~= Seq::<char>::empty());
    } else {
        let n = u.len() as int;
        let u1 = u.drop_last();
        let p1 = p.drop_last();
        let h1 = h.drop_last();
        let pick1 = ins_pick(p1, h1);
        let t1 = keep_unmarked(u1, p1);
        lemma_keep_unmarked_len(u1, p1);
        lemma_count_true_bounds(p1);
        lemma_count_true_bounds(pick1);
        assert(pick1 =~= pick.drop_last());
        assert(p.take(n - 1) =~= p1);
        assert(pick.take(n - 1) =~= pick1);
        // The earlier removal flags and insertions also describe the
        // shortened markings.
        assert forall|k: int| 0 <= k < count_false(p1) implies rem[k] == h1[#[trigger] kth_unmarked(
            p1,
            k,
        )] by {
            lemma_kth_prefix(p, k);
            lemma_kth_unmarked(p1, k);
        }
        assert forall|j: int| 0 <= j < count_false(pick1) implies gaps[j] == count_false(
            p1.take(#[trigger] kth_unmarked(pick1, j)),
        ) && texts[j] == seq![u1[kth_unmarked(pick1, j)]] by {
            lemma_kth_prefix(pick, j);
            lemma_kth_unmarked(pick1, j);
            let pos = kth_unmarked(pick1, j);
            assert(p1.take(pos) =~= p.take(pos));
        }
        // Every insertion gap fits inside the shorter previous text.
        assert forall|j: int| 0 <= j < gaps.len() implies 0 <= #[trigger] gaps[j] <= count_false(
            p1,
        ) by {
            lemma_kth_unmarked(pick, j);
            let pos = kth_unmarked(pick, j);
            lemma_count_take_mono(p, pos, n - 1);
            lemma_count_true_bounds(p.take(pos));
        }
        if p.last() && h.last() {
            // The last position is hidden on both sides: nothing changes.
            assert(count_false(p) == count_false(p1));
            assert(count_false(pick) == count_false(pick1));
            lemma_synthesis_applies(u1, p1, h1, gaps, texts, rem);
            assert(t == t1);
            assert(keep_unmarked(u, h) == keep_unmarked(u1, h1));
        } else if !p.last() {
            // The previous head shows the last position: it carries a
            // removal flag, and is never an insertion.
            assert(count_false(p) == count_false(p1) + 1);
            assert(count_false(pick) == count_false(pick1));
            let rem1 = rem.drop_last();
            assert(kth_unmarked(p, count_false(p) - 1) == n - 1) by {
                lemma_kth_unique(p, count_false(p) - 1, n - 1);
            }
            assert(rem.last() == h.last());
            assert forall|k: int| 0 <= k < rem1.len() implies rem1[k] == h1[#[trigger] kth_unmarked(
                p1,
                k,
            )] by {
                assert(rem1[k] == rem[k]);
            }
            lemma_synthesis_applies(u1, p1, h1, gaps, texts, rem1);
            assert(t == t1.push(u.last()));
            let a1 = apply_ins(t1, gaps, texts);
            let m1 = ins_marks(t1.len() as int, gaps, texts);
            assert(gaps_bounded(t1.len() as int, gaps));
            lemma_apply_ins_snoc(t1, u.last(), gaps, texts);
            assert(apply_ins(t, gaps, texts) == a1.push(u.last()));
            lemma_ins_marks_snoc(t1.len() as int, gaps, texts);
            assert(ins_marks(t.len() as int, gaps, texts) == m1.push(false));
            lemma_ins_marks_len(t1.len() as int, gaps, texts);
            lemma_ins_marks_count(t1.len() as int, gaps, texts);
            assert(rem.len() == count_false(m1) + 1);
            lemma_expand_push_unmarked(rem, m1, false);
            let e1 = expand_through(rem1, m1, false);
            assert(expand_through(rem, m1.push(false), false) == e1.push(rem.last()));
            assert(a1.push(u.last()).drop_last() =~= a1);
            assert(e1.push(rem.last()).drop_last() =~= e1);
            assert(keep_unmarked(a1.push(u.last()), e1.push(rem.last())) == if rem.last() {
                keep_unmarked(a1, e1)
            } else {
                keep_unmarked(a1, e1).push(u.last())
            });
            assert(keep_unmarked(u, h) == if h.last() {
                keep_unmarked(u1, h1)
            } else {
                keep_unmarked(u1, h1).push(u.last())
            });
        } else {
            // Only the new head shows the last position: it is the final
            // single-character insertion, at the very end of the previous
            // text.
            assert(count_false(p) == count_false(p1));
            assert(count_false(pick) == count_false(pick1) + 1);
            let jl = gaps.len() - 1;
            assert(kth_unmarked(pick, jl) == n - 1) by {
                lemma_kth_unique(pick, jl, n - 1);
            }
            assert(gaps[jl] == count_false(p.take(n - 1)));
            assert(gaps[jl] == t.len());
            assert(texts[jl] == seq![u.last()]);
            let gaps1 = gaps.drop_last();
            let texts1 = texts.drop_last();
            assert forall|j: int| 0 <= j < gaps1.len() implies gaps1[j] == count_false(
                p1.take(#[trigger] kth_unmarked(pick1, j)),
            ) && texts1[j] == seq![u1[kth_unmarked(pick1, j)]] by {
                assert(gaps1[j] == gaps[j]);
                assert(texts1[j] == texts[j]);
            }
            lemma_synthesis_applies(u1, p1, h1, gaps1, texts1, rem);
            assert(t == t1);
            assert(gaps_bounded(t.len() as int, gaps1)) by {
                assert(forall|j: int| 0 <= j < gaps1.len() ==> #[trigger] gaps1[j] == gaps[j]);
            }
            let prev = apply_ins(t, gaps1, texts1);
            lemma_apply_ins_len(t, gaps1, texts1);
            lemma_sum_lens_nonneg(texts1);
            let pp = gaps.last() + sum_lens(texts1);
            assert(prev.len() == pp);
            assert(prev.take(pp) =~= prev);
            assert(prev.skip(pp) =~= Seq::<char>::empty());
            assert(prev.take(pp) + texts.last() + prev.skip(pp) =~= prev.push(u.last()));
            assert(apply_ins(t, gaps, texts) == prev.push(u.last()));
            let m1 = ins_marks(t.len() as int, gaps1, texts1);
            lemma_ins_marks_len(t.len() as int, gaps1, texts1);
            lemma_ins_marks_count(t.len() as int, gaps1, texts1);
            assert(m1.len() == pp);
            assert(m1.take(pp) =~= m1);
            assert(m1.skip(pp) =~= Seq::<bool>::empty());
            assert(m1.take(pp) + Seq::new(texts.last().len(), |i: int| true) + m1.skip(pp)
                =~= m1.push(true));
            assert(ins_marks(t.len() as int, gaps, texts) == m1.push(true));
            assert(rem.len() == count_false(m1));
            lemma_expand_push_marked(rem, m1, false);
            let e1 = expand_through(rem, m1, false);
            assert(expand_through(rem, m1.push(true), false) == e1.push(false));
            assert(prev.push(u.last()).drop_last() =~= prev);
            assert(e1.push(false).drop_last() =~= e1);
            assert(keep_unmarked(prev.push(u.last()), e1.push(false)) == keep_unmarked(
                prev,
                e1,
            ).push(u.last()));
            assert(keep_unmarked(u, h) == keep_unmarked(u1, h1).push(u.last()));
        }
    }
}

/// A caller-facing edit of a text: insertions at non-decreasing gaps and a
/// marking of removed positions, all in the base text's coordinates.
pub struct Delta {
    base_len: usize,
    items: Vec<Insertion>,
    removed: Subset,
}

/// What applying a delta means: splice the insertions in, then drop the
/// removed positions (reinterpreted over the spliced result, so that the
/// delta's own insertions are never dropped).
pub open spec fn apply_delta(
    t: Seq<char>,
    gaps: Seq<int>,
    texts: Seq<Seq<char>>,
    removed: Seq<bool>,
) -> Seq<char> {
    keep_unmarked(
        apply_ins(t, gaps, texts),
        expand_through(removed, ins_marks(t.len() as int, gaps, texts), false),
    )
}

impl Delta {
    pub closed spec fn base_len_spec(&self) -> int {
        self.base_len as int
    }

    pub closed spec fn items_view(&self) -> Seq<Insertion> {
        self.items@
    }

    pub closed spec fn removed_view(&self) -> Seq<bool> {
        self.removed@
    }

    pub open spec fn wf(&self) -> bool {
        items_wf(self.base_len_spec(), gaps_of(self.items_view())) && self.removed_view().len()
            == self.base_len_spec()
    }

    pub open spec fn ins_total(&self) -> int {
        sum_lens(texts_of(self.items_view()))
    }

    /// The empty edit of a text of `base_len` characters.
    pub fn new(base_len: usize) -> (d: Delta)
        ensures
            d.wf(),
            d.base_len_spec() == base_len,
            d.items_view().len() == 0,
            d.removed_view().len() == base_len,
            count_true(d.removed_view()) == 0,
            forall|i: int| 0 <= i < base_len ==> !d.removed_view()[i],
    {
        Delta { base_len, items: Vec::new(), removed: Subset::all_unmarked(base_len) }
    }

    /// Add an insertion of `text` at gap `at`; insertions must be added in
    /// non-decreasing gap order.
    pub fn insert(&mut self, at: usize, text: Vec<char>)
        requires
            old(self).wf(),
            at <= old(self).base_len_spec(),
            old(self).items_view().len() == 0 || old(self).items_view().last().at <= at,
        ensures
            final(self).wf(),
            final(self).base_len_spec() == old(self).base_len_spec(),
            final(self).removed_view() == old(self).removed_view(),
            final(self).items_view() == old(self).items_view().push(
                (Insertion { at, text: text }),
            ),
    {
        self.items.push(Insertion { at, text });
        proof {
            let items0 = old(self).items_view();
            let items1 = self.items_view();
            assert forall|k: int|
                0 <= k < items1.len() implies 0 <= #[trigger] gaps_of(items1)[k]
                <= self.base_len_spec() by {
                assert(gaps_of(items1)[k] == items1[k].at);
                if k < items0.len() {
                    assert(items1[k] == items0[k]);
                    assert(gaps_of(items0)[k] == items0[k].at);
                }
            }
            assert forall|k1: int, k2: int|
                0 <= k1 <= k2 < items1.len() implies #[trigger] gaps_of(items1)[k1]
                <= #[trigger] gaps_of(items1)[k2] by {
                assert(gaps_of(items1)[k1] == items1[k1].at);
                assert(gaps_of(items1)[k2] == items1[k2].at);
                if k2 < items0.len() {
                    assert(gaps_of(items0)[k1] == items0[k1].at);
                    assert(gaps_of(items0)[k2] == items0[k2].at);
                } else if k1 < items0.len() {
                    assert(gaps_of(items0)[k1] == items0[k1].at);
                    assert(gaps_of(items0)[items0.len() - 1] == items0.last().at);
                }
            }
        }
    }

    /// Mark the positions of `from..to` as removed.
    pub fn delete(&mut self, from: usize, to: usize)
        requires
            old(self).wf(),
            from <= to <= old(self).base_len_spec(),
        ensures
            final(self).wf(),
            final(self).base_len_spec() == old(self).base_len_spec(),
            final(self).items_view() == old(self).items_view(),
            final(self).removed_view().len() == old(self).removed_view().len(),
            forall|i: int|
                0 <= i < old(self).removed_view().len() ==> final(self).removed_view()[i] == (old(
                    self,
                ).removed_view()[i] || (from <= i < to)),
    {
        self.removed.mark_range(from, to);
    }

    /// Split the edit into its insertion-only delta and its marking of
    /// removed positions, both still in base-text coordinates.
    pub fn factor(self) -> (r: (InsDelta, Subset))
        requires
            self.wf(),
        ensures
            r.0.wf(),
            r.0.base_len_spec() == self.base_len_spec(),
            r.0.items_view() == self.items_view(),
            r.1@ == self.removed_view(),
    {
        let Delta { base_len, items, removed } = self;
        (InsDelta { base_len, items }, removed)
    }

    /// Apply the whole edit to a text of the delta's base length.
    pub fn apply(&self, t: &Vec<char>) -> (r: Vec<char>)
        requires
            self.wf(),
            self.base_len_spec() == t@.len(),
            t@.len() + self.ins_total() <= usize::MAX,
        ensures
            r@ == apply_delta(
                t@,
                gaps_of(self.items_view()),
                texts_of(self.items_view()),
                self.removed_view(),
            ),
    {
        let spliced = apply_items(&self.items, t);
        let marks = marks_of_items(&self.items, self.base_len);
        proof {
            lemma_ins_marks_len(
                self.base_len_spec(),
                gaps_of(self.items_view()),
                texts_of(self.items_view()),
            );
            lemma_ins_marks_count(
                self.base_len_spec(),
                gaps_of(self.items_view()),
                texts_of(self.items_view()),
            );
            lemma_apply_ins_len(t@, gaps_of(self.items_view()), texts_of(self.items_view()));
        }
        let dropped = self.removed.transform_expand(&marks);
        dropped.remove_marked(&spliced)
    }

    /// Build the edit that turns the text visible under `prev_marks` into
    /// the text visible under `head_marks`; both arguments mark the hidden
    /// positions of the one shared text `union_text`.  Every position that
    /// only `prev_marks` shows becomes a removal; every position that only
    /// `head_marks` shows becomes an insertion of that character.
    pub fn synthesize(union_text: &Vec<char>, prev_marks: &Subset, head_marks: &Subset) -> (d:
        Delta)
        requires
            prev_marks@.len() == union_text@.len(),
            head_marks@.len() == union_text@.len(),
        ensures
            d.wf(),
            d.base_len_spec() == count_false(prev_marks@),
            d.removed_view().len() == count_false(prev_marks@),
            forall|k: int|
                0 <= k < count_false(prev_marks@) ==> #[trigger] d.removed_view()[k]
                    == head_marks@[kth_unmarked(prev_marks@, k)],
            d.items_view().len() == count_false(ins_pick(prev_marks@, head_marks@)),
            forall|j: int|
                0 <= j < d.items_view().len() ==> d.items_view()[j].at as int == count_false(
                    prev_marks@.take(
                        #[trigger] kth_unmarked(ins_pick(prev_marks@, head_marks@), j),
                    ),
                ) && d.items_view()[j].text@ == seq![
                    union_text@[kth_unmarked(ins_pick(prev_marks@, head_marks@), j)],
                ],
            apply_delta(
                keep_unmarked(union_text@, prev_marks@),
                gaps_of(d.items_view()),
                texts_of(d.items_view()),
                d.removed_view(),
            ) == keep_unmarked(union_text@, head_marks@),
    {
        let ghost pm = prev_marks@;
        let ghost hm = head_marks@;
        let ghost pick = ins_pick(pm, hm);
        let n = union_text.len();
        let mut removed_bits: Vec<bool> = Vec::new();
        let mut items: Vec<Insertion> = Vec::new();
        let mut u: usize = 0;
        while u < n
            invariant
                u <= n,
                removed_bits@.len() == count_false(pm.take(u as int)),
                forall|k: int|
                    0 <= k < removed_bits@.len() ==> #[trigger] removed_bits@[k] == hm[kth_unmarked(
                        pm,
                        k,
                    )],
                items@.len() == count_false(pick.take(u as int)),
                forall|j: int|
                    0 <= j < items@.len() ==> items@[j].at as int == count_false(
                        pm.take(#[trigger] kth_unmarked(pick, j)),
                    ) && items@[j].text@ == seq![union_text@[kth_unmarked(pick, j)]],
                forall|j: int| 0 <= j < items@.len() ==> #[trigger] items@[j].at
                    <= removed_bits@.len(),
                forall|j1: int, j2: int|
                    0 <= j1 <= j2 < items@.len() ==> #[trigger] items@[j1].at
                        <= #[trigger] items@[j2].at,
            decreases n - u,
        {
            proof {
                lemma_count_take_step(pm, u as int);
                lemma_count_take_step(pick, u as int);
                lemma_count_take_mono(pm, u as int + 1, pm.len() as int);
                lemma_count_take_full(pm);
                lemma_count_take_mono(pick, u as int + 1, pick.len() as int);
                lemma_count_take_full(pick);
                lemma_count_true_bounds(pm.take(u as int));
                lemma_count_true_bounds(pick.take(u as int));
                assert(pick[u as int] == !(pm[u as int] && !hm[u as int]));
            }
            if !prev_marks.marked(u) {
                proof {
                    lemma_kth_unique(pm, removed_bits@.len() as int, u as int);
                }
                removed_bits.push(head_marks.marked(u));
            } else if !head_marks.marked(u) {
                proof {
                    lemma_kth_unique(pick, items@.len() as int, u as int);
                }
                let mut txt: Vec<char> = Vec::new();
                txt.push(union_text[u]);
                proof {
                    assert(txt@ =~= seq![union_text@[u as int]]);
                }
                items.push(Insertion { at: removed_bits.len(), text: txt });
            }
            u = u + 1;
        }
        proof {
            assert(pm.take(n as int) =~= pm);
            assert(pick.take(n as int) =~= pick);
            lemma_count_true_bounds(pm);
        }
        let base_len = n - prev_marks.count();
        proof {
            assert forall|k: int|
                0 <= k < gaps_of(items@).len() implies 0 <= #[trigger] gaps_of(items@)[k]
                <= base_len as int by {
                assert(gaps_of(items@)[k] == items@[k].at);
            }
            assert forall|k1: int, k2: int|
                0 <= k1 <= k2 < gaps_of(items@).len() implies #[trigger] gaps_of(items@)[k1]
                <= #[trigger] gaps_of(items@)[k2] by {
                assert(gaps_of(items@)[k1] == items@[k1].at);
                assert(gaps_of(items@)[k2] == items@[k2].at);
            }
            assert forall|k: int| 0 <= k < removed_bits@.len() implies removed_bits@[k]
                == hm[#[trigger] kth_unmarked(pm, k)] by {
                assert(removed_bits@[k] == hm[kth_unmarked(pm, k)]);
            }
            assert forall|j: int| 0 <= j < gaps_of(items@).len() implies gaps_of(items@)[j]
                == count_false(pm.take(#[trigger] kth_unmarked(ins_pick(pm, hm), j))) && texts_of(
                items@,
            )[j] == seq![union_text@[kth_unmarked(ins_pick(pm, hm), j)]] by {
                assert(gaps_of(items@)[j] == items@[j].at);
                assert(texts_of(items@)[j] == items@[j].text@);
            }
            lemma_synthesis_applies(
                union_text@,
                pm,
                hm,
                gaps_of(items@),
                texts_of(items@),
                removed_bits@,
            );
        }
        Delta { base_len, items, removed: Subset::from_bits(removed_bits) }
    }
}

} // verus!
