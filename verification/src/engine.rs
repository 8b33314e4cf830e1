//! The revision-log engine: an append-only history of revisions over a
//! monotonically growing union text, with rebasing of stale edits into the
//! shared coordinate frame and group-based selective undo.
#![verifier::loop_isolation(false)]

use vstd::prelude::*;

use crate::delta::{
    apply_delta, apply_ins, gaps_of, ins_marks, ins_pick, lemma_ins_marks_count,
    lemma_ins_marks_len, lemma_sum_lens_nonneg, texts_of, Delta,
};
use crate::subset::{
    count_false, count_true, expand_through, keep_unmarked, kth_unmarked,
    lemma_count_true_bounds, lemma_expand_count, lemma_keep_unmarked_all_false,
    lemma_keep_unmarked_len, mapped_gap, or_marks, Subset,
};

verus! {

/// A set of undo-group identifiers.
pub struct GroupSet {
    items: Vec<usize>,
}

impl View for GroupSet {
    type V = Set<int>;

    closed spec fn view(&self) -> Set<int> {
        Set::new(
            |g: int| exists|k: int| 0 <= k < self.items@.len() && #[trigger] self.items@[k] == g,
        )
    }
}

impl GroupSet {
    pub fn new() -> (s: GroupSet)
        ensures
            s@ == Set::<int>::empty(),
    {
        let s = GroupSet { items: Vec::new() };
        proof {
            assert(s@ =~= Set::<int>::empty());
        }
        s
    }

    pub fn insert(&mut self, g: usize)
        ensures
            final(self)@ == old(self)@.insert(g as int),
    {
        self.items.push(g);
        proof {
            let s0 = old(self)@;
            assert forall|x: int| self@.contains(x) implies s0.insert(g as int).contains(x) by {
                let k = choose|k: int|
                    0 <= k < self.items@.len() && #[trigger] self.items@[k] == x;
                if k < old(self).items@.len() {
                    assert(old(self).items@[k] == x);
                }
            }
            assert forall|x: int| s0.insert(g as int).contains(x) implies self@.contains(x) by {
                if x == g as int {
                    assert(self.items@[self.items@.len() - 1] == x);
                } else {
                    let k = choose|k: int|
                        0 <= k < old(self).items@.len() && #[trigger] old(self).items@[k] == x;
                    assert(self.items@[k] == x);
                }
            }
            assert(self@ =~= s0.insert(g as int));
        }
    }

    pub fn contains(&self, g: usize) -> (r: bool)
        ensures
            r == self@.contains(g as int),
    {
        let n = self.items.len();
        let mut i: usize = 0;
        while i < n
            invariant
                i <= n,
                forall|k: int| 0 <= k < i ==> #[trigger] self.items@[k] != g,
            decreases n - i,
        {
            if self.items[i] == g {
                proof {
                    assert(self.items@[i as int] == g);
                }
                return true;
            }
            i = i + 1;
        }
        proof {
            assert(!self@.contains(g as int));
        }
        false
    }

    pub fn duplicate(&self) -> (s: GroupSet)
        ensures
            s@ == self@,
    {
        let n = self.items.len();
        let mut items: Vec<usize> = Vec::new();
        let mut i: usize = 0;
        while i < n
            invariant
                i <= n,
                items@.len() == i,
                forall|k: int| 0 <= k < i ==> #[trigger] items@[k] == self.items@[k],
            decreases n - i,
        {
            items.push(self.items[i]);
            i = i + 1;
        }
        proof {
            assert(items@ =~= self.items@);
        }
        GroupSet { items }
    }
}

/// What one revision records: an edit rebased into union coordinates, or an
/// undo toggle carrying the set of groups undone from that point on.
pub enum Contents {
    Edit { priority: usize, undo_group: usize, inserts: Subset, deletes: Subset },
    Undo { groups: GroupSet },
}

pub open spec fn edit_inserts(c: Contents) -> Seq<bool> {
    match c {
        Contents::Edit { inserts, .. } => inserts@,
        Contents::Undo { .. } => Seq::empty(),
    }
}

pub open spec fn edit_deletes(c: Contents) -> Seq<bool> {
    match c {
        Contents::Edit { deletes, .. } => deletes@,
        Contents::Undo { .. } => Seq::empty(),
    }
}

pub open spec fn edit_priority(c: Contents) -> int {
    match c {
        Contents::Edit { priority, .. } => priority as int,
        Contents::Undo { .. } => 0,
    }
}

pub open spec fn edit_group(c: Contents) -> int {
    match c {
        Contents::Edit { undo_group, .. } => undo_group as int,
        Contents::Undo { .. } => 0,
    }
}

pub open spec fn undo_groups(c: Contents) -> Set<int> {
    match c {
        Contents::Edit { .. } => Set::empty(),
        Contents::Undo { groups } => groups@,
    }
}

/// One immutable record of the history.
pub struct Revision {
    /// Identifier issued by the engine; strictly increasing in log order.
    pub rev_id: usize,
    /// Marks the union positions hidden in this revision; the complement
    /// selects exactly this revision's visible text.
    pub from_union: Subset,
    /// The union text's length when this revision was created.
    pub union_str_len: usize,
    pub edit: Contents,
}

/// How one revision's contents act on a marking of hidden union positions
/// during a whole-history replay under the undone set `groups`: an edit of
/// an undone group keeps its insertions hidden; any other edit shows its
/// insertions and hides what it deleted; undo records carry no transform.
pub open spec fn step_marks(acc: Seq<bool>, c: Contents, groups: Set<int>) -> Seq<bool> {
    match c {
        Contents::Edit { .. } => if groups.contains(edit_group(c)) {
            expand_through(acc, edit_inserts(c), true)
        } else {
            or_marks(expand_through(acc, edit_inserts(c), false), edit_deletes(c))
        },
        Contents::Undo { .. } => acc,
    }
}

pub open spec fn replay_from(revs: Seq<Revision>, j: int, acc: Seq<bool>, groups: Set<int>) -> Seq<
    bool,
>
    decreases revs.len() - j,
{
    if j < 0 || j >= revs.len() {
        acc
    } else {
        replay_from(revs, j + 1, step_marks(acc, revs[j].edit, groups), groups)
    }
}

/// The hidden-position marking obtained by replaying every edit of the log
/// under the undone set `groups`, starting from the seed revision's marking.
pub open spec fn replay(revs: Seq<Revision>, groups: Set<int>) -> Seq<bool> {
    replay_from(revs, 1, revs[0].from_union@, groups)
}

/// The groups undone as of the end of the log: those of the latest undo
/// revision.
pub open spec fn current_groups(revs: Seq<Revision>) -> Set<int>
    decreases revs.len(),
{
    if revs.len() == 0 {
        Set::empty()
    } else if revs.last().edit is Undo {
        undo_groups(revs.last().edit)
    } else {
        current_groups(revs.drop_last())
    }
}

/// Push a revision's hidden marking forward through one later revision:
/// content the older revision never saw stays hidden.
pub open spec fn push_step(acc: Seq<bool>, c: Contents) -> Seq<bool> {
    match c {
        Contents::Edit { .. } => expand_through(acc, edit_inserts(c), true),
        Contents::Undo { .. } => acc,
    }
}

pub open spec fn pushed_from(revs: Seq<Revision>, j: int, acc: Seq<bool>) -> Seq<bool>
    decreases revs.len() - j,
{
    if j < 0 || j >= revs.len() {
        acc
    } else {
        pushed_from(revs, j + 1, push_step(acc, revs[j].edit))
    }
}

/// Revision `i`'s hidden marking, carried forward into head-union
/// coordinates through every later revision's inserts.
pub open spec fn rev_marks(revs: Seq<Revision>, i: int) -> Seq<bool> {
    pushed_from(revs, i + 1, revs[i].from_union@)
}

/// The chain conditions between one revision and the next: an edit's
/// subsets live in its own union space, which grew by exactly its inserted
/// positions; an undo leaves the union as it was.
pub open spec fn chain_ok(prev: Revision, cur: Revision) -> bool {
    match cur.edit {
        Contents::Edit { .. } => edit_inserts(cur.edit).len() == cur.union_str_len && edit_deletes(
            cur.edit,
        ).len() == cur.union_str_len && cur.union_str_len == prev.union_str_len + count_true(
            edit_inserts(cur.edit),
        ),
        Contents::Undo { .. } => cur.union_str_len == prev.union_str_len,
    }
}

/// The insertion gaps after expanding through the inserts of every edit
/// revision from `j` on; the tie-break at each revision places the
/// submitted edit behind that revision's inserts exactly when the submitted
/// priority is at least that revision's.
pub open spec fn rebased_gaps(revs: Seq<Revision>, j: int, gaps: Seq<int>, prio: int) -> Seq<int>
    decreases revs.len() - j,
{
    if j < 0 || j >= revs.len() {
        gaps
    } else if revs[j].edit is Edit {
        rebased_gaps(
            revs,
            j + 1,
            Seq::new(
                gaps.len(),
                |k: int|
                    mapped_gap(
                        edit_inserts(revs[j].edit),
                        gaps[k],
                        prio >= edit_priority(revs[j].edit),
                    ),
            ),
            prio,
        )
    } else {
        rebased_gaps(revs, j + 1, gaps, prio)
    }
}

/// The removed-position marking after expanding through the inserts of
/// every edit revision from `j` on.
pub open spec fn rebased_dels(revs: Seq<Revision>, j: int, dels: Seq<bool>) -> Seq<bool>
    decreases revs.len() - j,
{
    if j < 0 || j >= revs.len() {
        dels
    } else if revs[j].edit is Edit {
        rebased_dels(revs, j + 1, expand_through(dels, edit_inserts(revs[j].edit), false))
    } else {
        rebased_dels(revs, j + 1, dels)
    }
}

/// The fully rebased shape of one submitted edit, in final union
/// coordinates.
pub ghost struct EditOutcome {
    pub gaps: Seq<int>,
    pub inserts: Seq<bool>,
    pub deletes: Seq<bool>,
    pub from_union: Seq<bool>,
    pub union_text: Seq<char>,
}

/// Appending a revision replays as one more step on top of the old log.
pub proof fn lemma_replay_from_push(
    revs: Seq<Revision>,
    r: Revision,
    j: int,
    acc: Seq<bool>,
    groups: Set<int>,
)
    requires
        0 <= j <= revs.len(),
    ensures
        replay_from(revs.push(r), j, acc, groups) == step_marks(
            replay_from(revs, j, acc, groups),
            r.edit,
            groups,
        ),
    decreases revs.len() - j,
{
    let revs1 = revs.push(r);
    if j == revs.len() {
        assert(revs1[j] == r);
        assert(replay_from(revs1, j + 1, step_marks(acc, r.edit, groups), groups) == step_marks(
            acc,
            r.edit,
            groups,
        ));
    } else {
        assert(revs1[j] == revs[j]);
        lemma_replay_from_push(revs, r, j + 1, step_marks(acc, revs[j].edit, groups), groups);
    }
}

/// The engine: a revision-id counter, the union text holding every
/// character ever inserted, and the append-only revision log.
pub struct Engine {
    rev_id_counter: usize,
    union_str: Vec<char>,
    revs: Vec<Revision>,
}

impl Engine {
    pub closed spec fn revs_view(self) -> Seq<Revision> {
        self.revs@
    }

    pub closed spec fn union_view(self) -> Seq<char> {
        self.union_str@
    }

    pub closed spec fn counter_view(self) -> int {
        self.rev_id_counter as int
    }

    /// The hidden marking of the most recent revision.
    pub open spec fn head_marks(self) -> Seq<bool> {
        self.revs_view().last().from_union@
    }

    /// The currently visible text.
    pub open spec fn head_text(self) -> Seq<char> {
        keep_unmarked(self.union_view(), self.head_marks())
    }

    /// Revision `i`'s visible text.
    pub open spec fn rev_text(self, i: int) -> Seq<char> {
        keep_unmarked(self.union_view(), rev_marks(self.revs_view(), i))
    }

    pub open spec fn has_rev(self, id: usize) -> bool {
        exists|i: int|
            0 <= i < self.revs_view().len() && #[trigger] self.revs_view()[i].rev_id == id
    }

    pub open spec fn rev_index(self, id: usize) -> int {
        choose|i: int|
            0 <= i < self.revs_view().len() && #[trigger] self.revs_view()[i].rev_id == id
    }

    /// Revision `i`'s visible text length.
    pub open spec fn visible_len(self, i: int) -> int {
        self.revs_view()[i].union_str_len - count_true(self.revs_view()[i].from_union@)
    }

    /// The engine's invariant.  Besides the structural chain conditions it
    /// states the replay property: the head revision's hidden marking always
    /// equals the whole-history replay under the currently undone groups.
    pub closed spec fn wf(self) -> bool {
        let revs = self.revs@;
        &&& revs.len() >= 1
        &&& revs[0].edit is Undo
        &&& (forall|i: int|
            0 <= i < revs.len() ==> (#[trigger] revs[i].from_union)@.len() == revs[i].union_str_len)
        &&& (forall|i: int| 0 <= i < revs.len() ==> (#[trigger] revs[i].rev_id) < self.rev_id_counter)
        &&& (forall|i: int, j: int|
            0 <= i < j < revs.len() ==> #[trigger] revs[i].rev_id < #[trigger] revs[j].rev_id)
        &&& (forall|i: int| 1 <= i < revs.len() ==> chain_ok(revs[i - 1], #[trigger] revs[i]))
        &&& self.union_str@.len() == revs.last().union_str_len
        &&& revs.last().from_union@ == replay(revs, current_groups(revs))
    }

    /// A fresh engine holding `initial` as its text, with one seed revision
    /// that records no edit and hides nothing.
    pub fn new(initial: Vec<char>) -> (e: Engine)
        ensures
            e.wf(),
            e.revs_view().len() == 1,
            e.counter_view() == 1,
            e.union_view() == initial@,
            e.head_text() == initial@,
            e.revs_view()[0].rev_id == 0,
            e.revs_view()[0].union_str_len == initial@.len(),
            e.revs_view()[0].from_union@ == Seq::new(initial@.len(), |i: int| false),
            e.revs_view()[0].edit is Undo,
            current_groups(e.revs_view()) == Set::<int>::empty(),
    {
        let n = initial.len();
        let from_union = Subset::all_unmarked(n);
        let seed = Revision {
            rev_id: 0,
            from_union,
            union_str_len: n,
            edit: Contents::Undo { groups: GroupSet::new() },
        };
        let mut revs: Vec<Revision> = Vec::new();
        revs.push(seed);
        let e = Engine { rev_id_counter: 1, union_str: initial, revs };
        proof {
            lemma_keep_unmarked_all_false(e.union_str@, e.revs@[0].from_union@);
            assert(e.revs@[0].from_union@ =~= Seq::new(initial@.len(), |i: int| false));
        }
        e
    }

    pub fn num_revs(&self) -> (n: usize)
        ensures
            n == self.revs_view().len(),
    {
        self.revs.len()
    }

    pub fn union_len(&self) -> (n: usize)
        ensures
            n == self.union_view().len(),
    {
        self.union_str.len()
    }

    /// Scan the log newest to oldest for the revision with this id.
    pub fn find_rev(&self, rev_id: usize) -> (r: Option<usize>)
        requires
            self.wf(),
        ensures
            match r {
                Some(i) => self.has_rev(rev_id) && i < self.revs_view().len()
                    && self.revs_view()[i as int].rev_id == rev_id && i as int == self.rev_index(
                    rev_id,
                ),
                None => !self.has_rev(rev_id),
            },
    {
        let n = self.revs.len();
        let mut i: usize = n;
        while i > 0
            invariant
                i <= n,
                forall|k: int| i <= k < n ==> (#[trigger] self.revs@[k].rev_id) != rev_id,
            decreases i,
        {
            i = i - 1;
            if self.revs[i].rev_id == rev_id {
                proof {
                    assert(self.has_rev(rev_id));
                    let w = self.rev_index(rev_id);
                    assert(0 <= w < self.revs@.len() && self.revs@[w].rev_id == rev_id);
                    if w < i as int {
                        assert(self.revs@[w].rev_id < self.revs@[i as int].rev_id);
                    } else if (i as int) < w {
                        assert(self.revs@[i as int].rev_id < self.revs@[w].rev_id);
                    }
                }
                return Some(i);
            }
        }
        None
    }

    /// The set of groups most recently toggled undone: those of the latest
    /// undo revision (the seed's empty set, if undo was never invoked).
    #[verifier::rlimit(50)]
    pub fn get_current_undo(&self) -> (g: GroupSet)
        requires
            self.wf(),
        ensures
            g@ == current_groups(self.revs_view()),
    {
        let n = self.revs.len();
        let mut i: usize = n;
        proof {
            assert(self.revs@.take(n as int) =~= self.revs@);
        }
        while i > 0
            invariant
                1 <= i <= n,
                current_groups(self.revs@.take(i as int)) == current_groups(self.revs@),
            decreases i,
        {
            i = i - 1;
            let ghost pre = self.revs@.take(i as int + 1);
            proof {
                assert(pre.last() == self.revs@[i as int]);
                assert(pre.drop_last() =~= self.revs@.take(i as int));
            }
            match &self.revs[i].edit {
                Contents::Undo { groups } => {
                    return groups.duplicate();
                },
                Contents::Edit { .. } => {
                    proof {
                        assert(i > 0) by {
                            assert(self.revs@[0].edit is Undo);
                        }
                    }
                },
            }
        }
        proof {
            assert(false);
        }
        GroupSet::new()
    }

    /// Reconstruct revision `rev_index`'s visible text: push its hidden
    /// marking forward through every later revision's inserts (content this
    /// revision never saw stays hidden) and read off the union text.
    pub fn get_rev(&self, rev_index: usize) -> (r: Vec<char>)
        requires
            self.wf(),
            rev_index < self.revs_view().len(),
        ensures
            r@ == self.rev_text(rev_index as int),
            r@.len() == self.visible_len(rev_index as int),
    {
        proof {
            lemma_visible_lengths(*self, rev_index as int);
        }
        let n = self.revs.len();
        let mut cur: Subset = self.revs[rev_index].from_union.duplicate();
        let mut j: usize = rev_index + 1;
        while j < n
            invariant
                rev_index < j <= n,
                cur@.len() == self.revs@[j as int - 1].union_str_len,
                pushed_from(self.revs@, j as int, cur@) == rev_marks(self.revs@, rev_index as int),
            decreases n - j,
        {
            proof {
                assert(chain_ok(self.revs@[j as int - 1], self.revs@[j as int]));
            }
            match &self.revs[j].edit {
                Contents::Edit { inserts, .. } => {
                    proof {
                        lemma_count_true_bounds(inserts@);
                    }
                    cur = cur.transform_intersect(inserts);
                },
                Contents::Undo { .. } => {},
            }
            j = j + 1;
        }
        proof {
            assert(cur@ == rev_marks(self.revs@, rev_index as int));
        }
        cur.remove_marked(&self.union_str)
    }

    /// The visible text of the most recent revision.  It always coincides
    /// with reconstructing the last revision's text.
    pub fn get_head(&self) -> (r: Vec<char>)
        requires
            self.wf(),
        ensures
            r@ == self.head_text(),
            r@ == self.rev_text(self.revs_view().len() - 1),
            r@.len() == self.visible_len(self.revs_view().len() - 1),
    {
        proof {
            lemma_visible_lengths(*self, self.revs@.len() - 1);
        }
        let r = self.get_rev(self.revs.len() - 1);
        r
    }

    /// What submitting an edit against `base_rev` produces: the edit's
    /// insertion gaps and removals are first expanded through the base
    /// revision's hidden marking into union coordinates, then through every
    /// later edit revision's inserts; the insertions are spliced into the
    /// union text; and the new hidden marking extends the head's by one
    /// replay step for the new edit.
    pub open spec fn edit_outcome(
        self,
        base_rev: usize,
        priority: usize,
        undo_group: usize,
        dgaps: Seq<int>,
        dtexts: Seq<Seq<char>>,
        drem: Seq<bool>,
    ) -> EditOutcome {
        let revs = self.revs_view();
        let ix = self.rev_index(base_rev);
        let base = revs[ix];
        let g0 = Seq::new(dgaps.len(), |k: int| mapped_gap(base.from_union@, dgaps[k], true));
        let d0 = expand_through(drem, base.from_union@, false);
        let gf = rebased_gaps(revs, ix + 1, g0, priority as int);
        let df = rebased_dels(revs, ix + 1, d0);
        let ins = ins_marks(self.union_view().len() as int, gf, dtexts);
        let dels = expand_through(df, ins, false);
        let fu = if current_groups(revs).contains(undo_group as int) {
            expand_through(revs.last().from_union@, ins, true)
        } else {
            or_marks(expand_through(revs.last().from_union@, ins, false), dels)
        };
        EditOutcome {
            gaps: gf,
            inserts: ins,
            deletes: dels,
            from_union: fu,
            union_text: apply_ins(self.union_view(), gf, dtexts),
        }
    }

    /// Build the revision and the new union text for one submitted edit;
    /// `edit_rev` appends them.
    #[verifier::rlimit(60)]
    fn mk_new_rev(&self, priority: usize, undo_group: usize, base_rev: usize, delta: Delta) -> (r:
        (Revision, Vec<char>))
        requires
            self.wf(),
            self.has_rev(base_rev),
            delta.wf(),
            delta.base_len_spec() == self.visible_len(self.rev_index(base_rev)),
            self.union_view().len() + delta.ins_total() <= usize::MAX,
        ensures
            ({
                let o = self.edit_outcome(
                    base_rev,
                    priority,
                    undo_group,
                    gaps_of(delta.items_view()),
                    texts_of(delta.items_view()),
                    delta.removed_view(),
                );
                &&& r.0.rev_id as int == self.counter_view()
                &&& r.0.union_str_len == self.union_view().len() + delta.ins_total()
                &&& r.0.edit is Edit
                &&& edit_priority(r.0.edit) == priority as int
                &&& edit_group(r.0.edit) == undo_group as int
                &&& edit_inserts(r.0.edit) == o.inserts
                &&& edit_deletes(r.0.edit) == o.deletes
                &&& edit_inserts(r.0.edit).len() == r.0.union_str_len
                &&& edit_deletes(r.0.edit).len() == r.0.union_str_len
                &&& count_true(edit_inserts(r.0.edit)) == delta.ins_total()
                &&& r.0.from_union@ == o.from_union
                &&& r.0.from_union@.len() == r.0.union_str_len
                &&& r.0.from_union@ == step_marks(
                    self.head_marks(),
                    r.0.edit,
                    current_groups(self.revs_view()),
                )
                &&& r.1@ == o.union_text
                &&& r.1@.len() == r.0.union_str_len
            }),
    {
        let ghost dgaps = gaps_of(delta.items_view());
        let ghost dtexts = texts_of(delta.items_view());
        let ghost drem = delta.removed_view();
        let ix = match self.find_rev(base_rev) {
            Some(i) => i,
            None => {
                proof {
                    assert(false);
                }
                0
            },
        };
        let ghost g0 = Seq::new(
            dgaps.len(),
            |k: int| mapped_gap(self.revs@[ix as int].from_union@, dgaps[k], true),
        );
        let ghost d0 = expand_through(drem, self.revs@[ix as int].from_union@, false);
        proof {
            lemma_count_true_bounds(self.revs@[ix as int].from_union@);
        }
        let (ins_d, removed) = delta.factor();
        let base_fu = &self.revs[ix].from_union;
        let mut union_ins = ins_d.transform_expand(base_fu, true);
        let mut new_dels = removed.transform_expand(base_fu);
        proof {
            assert(gaps_of(union_ins.items_view()) =~= g0) by {
                assert(forall|k: int|
                    0 <= k < union_ins.items_view().len() ==> #[trigger] gaps_of(
                        union_ins.items_view(),
                    )[k] == union_ins.items_view()[k].at);
                assert(forall|k: int|
                    0 <= k < delta.items_view().len() ==> #[trigger] gaps_of(delta.items_view())[k]
                        == delta.items_view()[k].at);
            }
        }
        let n = self.revs.len();
        let mut j: usize = ix + 1;
        while j < n
            invariant
                ix < j <= n,
                union_ins.wf(),
                union_ins.base_len_spec() == self.revs@[j as int - 1].union_str_len,
                new_dels@.len() == self.revs@[j as int - 1].union_str_len,
                texts_of(union_ins.items_view()) == dtexts,
                union_ins.items_view().len() == dgaps.len(),
                rebased_gaps(self.revs@, j as int, gaps_of(union_ins.items_view()), priority as int)
                    == rebased_gaps(self.revs@, ix as int + 1, g0, priority as int),
                rebased_dels(self.revs@, j as int, new_dels@) == rebased_dels(
                    self.revs@,
                    ix as int + 1,
                    d0,
                ),
            decreases n - j,
        {
            proof {
                assert(chain_ok(self.revs@[j as int - 1], self.revs@[j as int]));
            }
            match &self.revs[j].edit {
                Contents::Edit { priority: p, inserts, .. } => {
                    proof {
                        lemma_count_true_bounds(inserts@);
                    }
                    let after = priority >= *p;
                    let ghost old_gaps = gaps_of(union_ins.items_view());
                    let next_ins = union_ins.transform_expand(inserts, after);
                    proof {
                        assert(gaps_of(next_ins.items_view()) =~= Seq::new(
                            old_gaps.len(),
                            |k: int|
                                mapped_gap(
                                    edit_inserts(self.revs@[j as int].edit),
                                    old_gaps[k],
                                    priority as int >= edit_priority(self.revs@[j as int].edit),
                                ),
                        )) by {
                            assert(forall|k: int|
                                0 <= k < next_ins.items_view().len() ==> #[trigger] gaps_of(
                                    next_ins.items_view(),
                                )[k] == next_ins.items_view()[k].at);
                            assert(forall|k: int|
                                0 <= k < union_ins.items_view().len() ==> #[trigger] gaps_of(
                                    union_ins.items_view(),
                                )[k] == union_ins.items_view()[k].at);
                        }
                    }
                    union_ins = next_ins;
                    new_dels = new_dels.transform_expand(inserts);
                },
                Contents::Undo { .. } => {},
            }
            j = j + 1;
        }
        let ghost gf = rebased_gaps(self.revs@, ix as int + 1, g0, priority as int);
        let ghost df = rebased_dels(self.revs@, ix as int + 1, d0);
        proof {
            assert(gaps_of(union_ins.items_view()) == gf);
            assert(new_dels@ == df);
            lemma_ins_marks_len(self.union_str@.len() as int, gf, dtexts);
            lemma_ins_marks_count(self.union_str@.len() as int, gf, dtexts);
            lemma_sum_lens_nonneg(dtexts);
        }
        let new_inserts = union_ins.invert_insert();
        let new_union = union_ins.apply(&self.union_str);
        let new_dels_final = new_dels.transform_expand(&new_inserts);
        let cur_undo = self.get_current_undo();
        let undone = cur_undo.contains(undo_group);
        let last_fu = &self.revs[n - 1].from_union;
        let new_fu = if undone {
            last_fu.transform_intersect(&new_inserts)
        } else {
            let shown = last_fu.transform_expand(&new_inserts);
            shown.union_with(&new_dels_final)
        };
        let rid = self.rev_id_counter;
        let ulen = new_union.len();
        proof {
            let o = self.edit_outcome(base_rev, priority, undo_group, dgaps, dtexts, drem);
            assert(ix as int == self.rev_index(base_rev));
            assert(new_inserts@ == o.inserts);
            assert(new_dels_final@ == o.deletes);
            assert(new_union@ == o.union_text);
            crate::delta::lemma_apply_ins_len(self.union_str@, gf, dtexts);
            assert(new_fu@ == o.from_union);
        }
        (
            Revision {
                rev_id: rid,
                from_union: new_fu,
                union_str_len: ulen,
                edit: Contents::Edit {
                    priority,
                    undo_group,
                    inserts: new_inserts,
                    deletes: new_dels_final,
                },
            },
            new_union,
        )
    }

    /// Submit an edit computed against the (possibly stale) revision
    /// `base_rev`: rebase it into the union coordinate frame, splice its
    /// insertions into the union text, and append a new revision.  When the
    /// edit's undo group is currently undone its insertions stay hidden and
    /// its removals are not applied; otherwise its insertions become
    /// visible and its removals take effect.
    pub fn edit_rev(&mut self, priority: usize, undo_group: usize, base_rev: usize, delta: Delta)
        requires
            old(self).wf(),
            old(self).has_rev(base_rev),
            delta.wf(),
            delta.base_len_spec() == old(self).visible_len(old(self).rev_index(base_rev)),
            old(self).union_view().len() + delta.ins_total() <= usize::MAX,
            old(self).counter_view() < usize::MAX,
        ensures
            final(self).wf(),
            final(self).counter_view() == old(self).counter_view() + 1,
            final(self).revs_view().len() == old(self).revs_view().len() + 1,
            final(self).revs_view().take(old(self).revs_view().len() as int) == old(
                self,
            ).revs_view(),
            final(self).union_view().len() == old(self).union_view().len() + delta.ins_total(),
            final(self).union_view().len() >= old(self).union_view().len(),
            ({
                let o = old(self).edit_outcome(
                    base_rev,
                    priority,
                    undo_group,
                    gaps_of(delta.items_view()),
                    texts_of(delta.items_view()),
                    delta.removed_view(),
                );
                let r = final(self).revs_view().last();
                &&& r.rev_id as int == old(self).counter_view()
                &&& r.union_str_len == old(self).union_view().len() + delta.ins_total()
                &&& r.edit is Edit
                &&& edit_priority(r.edit) == priority as int
                &&& edit_group(r.edit) == undo_group as int
                &&& edit_inserts(r.edit) == o.inserts
                &&& edit_deletes(r.edit) == o.deletes
                &&& r.from_union@ == o.from_union
                &&& final(self).union_view() == o.union_text
                &&& final(self).head_text() == keep_unmarked(o.union_text, o.from_union)
            }),
    {
        let ghost revs0 = self.revs@;
        let ghost groups0 = current_groups(self.revs@);
        proof {
            lemma_sum_lens_nonneg(texts_of(delta.items_view()));
        }
        let (new_rev, new_union) = self.mk_new_rev(priority, undo_group, base_rev, delta);
        self.rev_id_counter = self.rev_id_counter + 1;
        self.revs.push(new_rev);
        self.union_str = new_union;
        proof {
            let revs1 = self.revs@;
            let r = revs1.last();
            assert(revs1.take(revs0.len() as int) =~= revs0);
            assert(revs1.drop_last() =~= revs0);
            assert(current_groups(revs1) == groups0);
            assert forall|i: int, j: int|
                0 <= i < j < revs1.len() implies #[trigger] revs1[i].rev_id
                < #[trigger] revs1[j].rev_id by {
                if j < revs1.len() - 1 {
                    assert(revs1[i] == revs0[i] && revs1[j] == revs0[j]);
                } else {
                    assert(revs1[i] == revs0[i]);
                }
            }
            assert forall|i: int| 1 <= i < revs1.len() implies chain_ok(
                revs1[i - 1],
                #[trigger] revs1[i],
            ) by {
                if i < revs1.len() - 1 {
                    assert(revs1[i] == revs0[i] && revs1[i - 1] == revs0[i - 1]);
                    assert(chain_ok(revs0[i - 1], revs0[i]));
                } else {
                    assert(revs1[i - 1] == revs0[revs0.len() - 1]);
                }
            }
            lemma_replay_from_push(revs0, r, 1, revs0[0].from_union@, groups0);
            assert(revs1[0] == revs0[0]);
            assert(replay(revs1, groups0) == step_marks(replay(revs0, groups0), r.edit, groups0));
        }
    }

    /// Replay the whole history under the target group set and wrap the
    /// resulting marking in a new undo revision.
    fn compute_undo(&self, groups: GroupSet) -> (r: Revision)
        requires
            self.wf(),
        ensures
            r.rev_id as int == self.counter_view(),
            r.union_str_len == self.union_view().len(),
            r.edit is Undo,
            undo_groups(r.edit) == groups@,
            r.from_union@ == replay(self.revs_view(), groups@),
            r.from_union@.len() == self.union_view().len(),
    {
        let n = self.revs.len();
        let mut acc: Subset = self.revs[0].from_union.duplicate();
        let mut j: usize = 1;
        while j < n
            invariant
                1 <= j <= n,
                acc@.len() == self.revs@[j as int - 1].union_str_len,
                replay_from(self.revs@, j as int, acc@, groups@) == replay(self.revs@, groups@),
            decreases n - j,
        {
            proof {
                assert(chain_ok(self.revs@[j as int - 1], self.revs@[j as int]));
            }
            match &self.revs[j].edit {
                Contents::Edit { undo_group, inserts, deletes, .. } => {
                    proof {
                        lemma_count_true_bounds(inserts@);
                    }
                    if groups.contains(*undo_group) {
                        acc = acc.transform_intersect(inserts);
                    } else {
                        let shown = acc.transform_expand(inserts);
                        acc = shown.union_with(deletes);
                    }
                },
                Contents::Undo { .. } => {},
            }
            j = j + 1;
        }
        Revision {
            rev_id: self.rev_id_counter,
            from_union: acc,
            union_str_len: self.union_str.len(),
            edit: Contents::Undo { groups },
        }
    }

    /// Toggle the undone set to exactly `groups`: recompute, by a full
    /// replay of the history, which union positions are visible as if every
    /// edit in those groups had never happened, and append an undo revision
    /// recording the set.  The union text itself is unchanged.
    pub fn undo(&mut self, groups: GroupSet)
        requires
            old(self).wf(),
            old(self).counter_view() < usize::MAX,
        ensures
            final(self).wf(),
            final(self).counter_view() == old(self).counter_view() + 1,
            final(self).revs_view().len() == old(self).revs_view().len() + 1,
            final(self).revs_view().take(old(self).revs_view().len() as int) == old(
                self,
            ).revs_view(),
            final(self).union_view() == old(self).union_view(),
            ({
                let r = final(self).revs_view().last();
                &&& r.rev_id as int == old(self).counter_view()
                &&& r.union_str_len == old(self).union_view().len()
                &&& r.edit is Undo
                &&& undo_groups(r.edit) == groups@
                &&& r.from_union@ == replay(old(self).revs_view(), groups@)
            }),
            current_groups(final(self).revs_view()) == groups@,
            final(self).head_text() == keep_unmarked(
                old(self).union_view(),
                replay(old(self).revs_view(), groups@),
            ),
    {
        let ghost revs0 = self.revs@;
        let new_rev = self.compute_undo(groups);
        self.revs.push(new_rev);
        self.rev_id_counter = self.rev_id_counter + 1;
        proof {
            let revs1 = self.revs@;
            let r = revs1.last();
            assert(revs1.take(revs0.len() as int) =~= revs0);
            assert(revs1.drop_last() =~= revs0);
            assert forall|i: int, j: int|
                0 <= i < j < revs1.len() implies #[trigger] revs1[i].rev_id
                < #[trigger] revs1[j].rev_id by {
                if j < revs1.len() - 1 {
                    assert(revs1[i] == revs0[i] && revs1[j] == revs0[j]);
                } else {
                    assert(revs1[i] == revs0[i]);
                }
            }
            assert forall|i: int| 1 <= i < revs1.len() implies chain_ok(
                revs1[i - 1],
                #[trigger] revs1[i],
            ) by {
                if i < revs1.len() - 1 {
                    assert(revs1[i] == revs0[i] && revs1[i - 1] == revs0[i - 1]);
                    assert(chain_ok(revs0[i - 1], revs0[i]));
                } else {
                    assert(revs1[i - 1] == revs0[revs0.len() - 1]);
                }
            }
            lemma_replay_from_push(revs0, r, 1, revs0[0].from_union@, groups@);
            assert(revs1[0] == revs0[0]);
        }
    }

    /// The edit that transforms the previous head's visible text into the
    /// current head's.  The log must hold at least one revision beyond the
    /// seed.
    pub fn delta_head(&self) -> (d: Delta)
        requires
            self.wf(),
            self.revs_view().len() >= 2,
        ensures
            d.wf(),
            d.base_len_spec() == count_false(
                rev_marks(self.revs_view(), self.revs_view().len() - 2),
            ),
            ({
                let prev = rev_marks(self.revs_view(), self.revs_view().len() - 2);
                let head = self.head_marks();
                &&& d.removed_view().len() == count_false(prev)
                &&& (forall|k: int|
                    0 <= k < count_false(prev) ==> d.removed_view()[k] == head[#[trigger] kth_unmarked(
                        prev,
                        k,
                    )])
                &&& d.items_view().len() == count_false(ins_pick(prev, head))
                &&& (forall|j: int|
                    0 <= j < d.items_view().len() ==> d.items_view()[j].at as int == count_false(
                        prev.take(#[trigger] kth_unmarked(ins_pick(prev, head), j)),
                    ) && d.items_view()[j].text@ == seq![
                        self.union_view()[kth_unmarked(ins_pick(prev, head), j)],
                    ])
            }),
            apply_delta(
                self.rev_text(self.revs_view().len() - 2),
                gaps_of(d.items_view()),
                texts_of(d.items_view()),
                d.removed_view(),
            ) == self.head_text(),
    {
        let n = self.revs.len();
        proof {
            assert(chain_ok(self.revs@[n as int - 2], self.revs@[n as int - 1]));
        }
        let prev_fu = &self.revs[n - 2].from_union;
        let prev_m: Subset = match &self.revs[n - 1].edit {
            Contents::Edit { inserts, .. } => {
                proof {
                    lemma_count_true_bounds(inserts@);
                }
                prev_fu.transform_intersect(inserts)
            },
            Contents::Undo { .. } => prev_fu.duplicate(),
        };
        proof {
            let revs = self.revs@;
            assert(pushed_from(
                revs,
                n as int,
                push_step(revs[n as int - 2].from_union@, revs[n as int - 1].edit),
            ) == push_step(revs[n as int - 2].from_union@, revs[n as int - 1].edit));
            assert(prev_m@ == rev_marks(revs, n as int - 2));
        }
        Delta::synthesize(&self.union_str, &prev_m, &self.revs[n - 1].from_union)
    }
}

/// Pushing a marking forward from revision `j - 1` to the end of the log
/// keeps its unmarked count and lands at the head's union length.
proof fn lemma_pushed_from_counts(e: Engine, j: int, acc: Seq<bool>)
    requires
        e.wf(),
        1 <= j <= e.revs_view().len(),
        acc.len() == e.revs_view()[j - 1].union_str_len,
    ensures
        pushed_from(e.revs_view(), j, acc).len() == e.revs_view().last().union_str_len,
        count_false(pushed_from(e.revs_view(), j, acc)) == count_false(acc),
    decreases e.revs_view().len() - j,
{
    let revs = e.revs_view();
    if j < revs.len() {
        assert(chain_ok(revs[j - 1], revs[j]));
        let next = push_step(acc, revs[j].edit);
        if revs[j].edit is Edit {
            lemma_count_true_bounds(edit_inserts(revs[j].edit));
            lemma_expand_count(acc, edit_inserts(revs[j].edit), true);
        }
        lemma_pushed_from_counts(e, j + 1, next);
    }
}

/// The sizing invariants, exported: every revision's marking covers its
/// union space, the union text is as long as the head records, and a
/// revision's reconstructed text has exactly its visible length - the
/// number of union positions its marking leaves unhidden.
pub proof fn lemma_visible_lengths(e: Engine, i: int)
    requires
        e.wf(),
        0 <= i < e.revs_view().len(),
    ensures
        e.revs_view()[i].from_union@.len() == e.revs_view()[i].union_str_len,
        e.union_view().len() == e.revs_view().last().union_str_len,
        0 <= e.visible_len(i) <= e.revs_view()[i].union_str_len,
        e.rev_text(i).len() == e.visible_len(i),
        e.head_text().len() == e.visible_len(e.revs_view().len() - 1),
{
    let revs = e.revs_view();
    lemma_count_true_bounds(revs[i].from_union@);
    lemma_pushed_from_counts(e, i + 1, revs[i].from_union@);
    lemma_keep_unmarked_len(e.union_view(), rev_marks(revs, i));
    lemma_count_true_bounds(revs[revs.len() - 1].from_union@);
    lemma_pushed_from_counts(e, revs.len() as int, revs[revs.len() - 1].from_union@);
    lemma_keep_unmarked_len(e.union_view(), revs.last().from_union@);
}

/// Monotonic union growth: along the log, the union length never
/// decreases; an edit grows it by its inserted positions, an undo leaves
/// it alone.
pub proof fn lemma_union_monotonic(e: Engine, i: int, j: int)
    requires
        e.wf(),
        0 <= i <= j < e.revs_view().len(),
    ensures
        e.revs_view()[i].union_str_len <= e.revs_view()[j].union_str_len,
    decreases j - i,
{
    if i < j {
        lemma_union_monotonic(e, i, j - 1);
        assert(chain_ok(e.revs_view()[j - 1], e.revs_view()[j]));
        lemma_count_true_bounds(edit_inserts(e.revs_view()[j].edit));
    }
}

/// Reconstruction consistency: reconstructing the most recent revision
/// yields exactly the head text.
pub proof fn lemma_reconstruction_consistency(e: Engine)
    requires
        e.wf(),
    ensures
        e.rev_text(e.revs_view().len() - 1) == e.head_text(),
{
}

/// The replay property: the visible head text always equals a
/// whole-history replay under the currently undone groups.  This is what
/// makes group undo reversible.
pub proof fn lemma_head_is_replay(e: Engine)
    requires
        e.wf(),
    ensures
        e.head_text() == keep_unmarked(
            e.union_view(),
            replay(e.revs_view(), current_groups(e.revs_view())),
        ),
{
}

/// Undo involution: undoing any group set and then undoing the set that
/// was current before restores the text that was visible before the first
/// of the two calls.
pub proof fn lemma_undo_involution(e0: Engine, e1: Engine, e2: Engine)
    requires
        e0.wf(),
        e1.wf(),
        e2.wf(),
        e1.revs_view().len() == e0.revs_view().len() + 1,
        e1.revs_view().take(e0.revs_view().len() as int) == e0.revs_view(),
        e1.revs_view().last().edit is Undo,
        e1.union_view() == e0.union_view(),
        e2.revs_view().len() == e1.revs_view().len() + 1,
        e2.revs_view().take(e1.revs_view().len() as int) == e1.revs_view(),
        e2.revs_view().last().edit is Undo,
        undo_groups(e2.revs_view().last().edit) == current_groups(e0.revs_view()),
        e2.union_view() == e1.union_view(),
    ensures
        e2.head_text() == e0.head_text(),
{
    let c0 = current_groups(e0.revs_view());
    let r1 = e1.revs_view().last();
    let r2 = e2.revs_view().last();
    assert(e1.revs_view() =~= e0.revs_view().push(r1));
    assert(e2.revs_view() =~= e1.revs_view().push(r2));
    assert(current_groups(e2.revs_view()) == c0);
    lemma_replay_from_push(e1.revs_view(), r2, 1, e1.revs_view()[0].from_union@, c0);
    lemma_replay_from_push(e0.revs_view(), r1, 1, e0.revs_view()[0].from_union@, c0);
    assert(e1.revs_view()[0] == e0.revs_view()[0]);
    assert(e2.revs_view()[0] == e0.revs_view()[0]);
    assert(replay(e2.revs_view(), c0) == replay(e0.revs_view(), c0));
}

/// Undo orthogonality: what a group undo shows depends only on the edit
/// history and the target set, never on undo records in between - so
/// toggling `{g1}` and then `{g1, g2}` hides exactly the edits of those
/// groups, as if the first toggle had not happened.
pub proof fn lemma_undo_ignores_prior_undo(e0: Engine, e1: Engine, e2: Engine, target: Set<int>)
    requires
        e0.wf(),
        e1.wf(),
        e2.wf(),
        e1.revs_view().len() == e0.revs_view().len() + 1,
        e1.revs_view().take(e0.revs_view().len() as int) == e0.revs_view(),
        e1.revs_view().last().edit is Undo,
        e1.union_view() == e0.union_view(),
        e2.revs_view().len() == e1.revs_view().len() + 1,
        e2.revs_view().take(e1.revs_view().len() as int) == e1.revs_view(),
        e2.revs_view().last().edit is Undo,
        undo_groups(e2.revs_view().last().edit) == target,
        e2.union_view() == e1.union_view(),
    ensures
        e2.head_text() == keep_unmarked(e0.union_view(), replay(e0.revs_view(), target)),
{
    let r1 = e1.revs_view().last();
    let r2 = e2.revs_view().last();
    assert(e1.revs_view() =~= e0.revs_view().push(r1));
    assert(e2.revs_view() =~= e1.revs_view().push(r2));
    assert(current_groups(e2.revs_view()) == target);
    lemma_replay_from_push(e1.revs_view(), r2, 1, e1.revs_view()[0].from_union@, target);
    lemma_replay_from_push(e0.revs_view(), r1, 1, e0.revs_view()[0].from_union@, target);
    assert(e1.revs_view()[0] == e0.revs_view()[0]);
    assert(e2.revs_view()[0] == e0.revs_view()[0]);
    assert(replay(e2.revs_view(), target) == replay(e0.revs_view(), target));
}

} // verus!
