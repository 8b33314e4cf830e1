use edit_engine::delta::Delta;
use edit_engine::engine::{Engine, GroupSet};

fn chars(s: &str) -> Vec<char> {
    s.chars().collect()
}

fn text(v: &Vec<char>) -> String {
    v.iter().collect()
}

fn groups(ids: &[usize]) -> GroupSet {
    let mut g = GroupSet::new();
    for &id in ids {
        g.insert(id);
    }
    g
}

fn insert_delta(base_len: usize, at: usize, s: &str) -> Delta {
    let mut d = Delta::new(base_len);
    d.insert(at, chars(s));
    d
}

#[test]
fn fresh_engine_shows_initial_text() {
    let e = Engine::new(chars("seed"));
    assert_eq!(text(&e.get_head()), "seed");
    assert_eq!(e.num_revs(), 1);
    assert_eq!(e.union_len(), 4);
}

#[test]
fn insert_into_empty_seed() {
    let mut e = Engine::new(chars(""));
    e.edit_rev(0, 0, 0, insert_delta(0, 0, "abc"));
    assert_eq!(text(&e.get_head()), "abc");
}

#[test]
fn rebase_against_stale_base_higher_priority_goes_after() {
    let mut e = Engine::new(chars(""));
    e.edit_rev(0, 0, 0, insert_delta(0, 0, "abc"));
    // Computed against the seed, not against "abc"; priority 1 >= 0 orders
    // it behind the concurrent insertion at the same gap.
    e.edit_rev(1, 1, 0, insert_delta(0, 0, "XY"));
    assert_eq!(text(&e.get_head()), "abcXY");
}

#[test]
fn rebase_against_stale_base_lower_priority_goes_before() {
    let mut e = Engine::new(chars(""));
    e.edit_rev(5, 0, 0, insert_delta(0, 0, "abc"));
    e.edit_rev(3, 1, 0, insert_delta(0, 0, "XY"));
    assert_eq!(text(&e.get_head()), "XYabc");
}

#[test]
fn convergence_under_permuted_submission() {
    // Two edits sharing the seed as base, submitted in either order with
    // the same priorities, converge to the same head text.
    let mut e1 = Engine::new(chars(""));
    e1.edit_rev(1, 1, 0, insert_delta(0, 0, "A"));
    e1.edit_rev(2, 2, 0, insert_delta(0, 0, "B"));

    let mut e2 = Engine::new(chars(""));
    e2.edit_rev(2, 2, 0, insert_delta(0, 0, "B"));
    e2.edit_rev(1, 1, 0, insert_delta(0, 0, "A"));

    assert_eq!(text(&e1.get_head()), "AB");
    assert_eq!(text(&e2.get_head()), "AB");
}

#[test]
fn convergence_with_deletion_across_three_orders() {
    // Three edits all computed against the seed "base": two insertions at
    // the same gap with distinct priorities, and one deletion.  Any
    // submission order converges to the same head text.
    let build = |order: &[usize]| {
        let mut e = Engine::new(chars("base"));
        for &which in order {
            match which {
                0 => e.edit_rev(1, 1, 0, insert_delta(4, 1, "X")),
                1 => e.edit_rev(2, 2, 0, insert_delta(4, 1, "YZ")),
                _ => {
                    let mut d = Delta::new(4);
                    d.delete(2, 3);
                    e.edit_rev(3, 3, 0, d);
                }
            }
        }
        text(&e.get_head())
    };
    let a = build(&[0, 1, 2]);
    let b = build(&[2, 1, 0]);
    let c = build(&[1, 0, 2]);
    assert_eq!(a, "bXYZae");
    assert_eq!(b, a);
    assert_eq!(c, a);
}

#[test]
fn deletion_takes_effect() {
    let mut e = Engine::new(chars("abcd"));
    let mut d = Delta::new(4);
    d.delete(1, 3);
    e.edit_rev(0, 0, 0, d);
    assert_eq!(text(&e.get_head()), "ad");
    // Deleted characters stay in the union text.
    assert_eq!(e.union_len(), 4);
}

#[test]
fn mixed_insert_and_delete() {
    let mut e = Engine::new(chars("abc"));
    let mut d = Delta::new(3);
    d.insert(1, chars("XY"));
    d.delete(2, 3);
    e.edit_rev(0, 0, 0, d);
    assert_eq!(text(&e.get_head()), "aXYb");
}

#[test]
fn group_undo_scenario() {
    let mut e = Engine::new(chars(""));
    e.edit_rev(0, 1, 0, insert_delta(0, 0, "hello"));
    e.edit_rev(0, 2, 1, insert_delta(5, 5, "world"));
    assert_eq!(text(&e.get_head()), "helloworld");
    e.undo(groups(&[1]));
    assert_eq!(text(&e.get_head()), "world");
    e.undo(groups(&[1, 2]));
    assert_eq!(text(&e.get_head()), "");
    e.undo(groups(&[]));
    assert_eq!(text(&e.get_head()), "helloworld");
}

#[test]
fn undo_involution_restores_prior_text() {
    let mut e = Engine::new(chars("ab"));
    e.edit_rev(0, 1, 0, insert_delta(2, 0, "X"));
    let before = text(&e.get_head());
    assert_eq!(before, "Xab");
    let prior = e.get_current_undo();
    e.undo(groups(&[1]));
    assert_eq!(text(&e.get_head()), "ab");
    e.undo(prior);
    assert_eq!(text(&e.get_head()), before);
}

#[test]
fn undo_depends_only_on_target_set() {
    let mut a = Engine::new(chars(""));
    a.edit_rev(0, 1, 0, insert_delta(0, 0, "hello"));
    a.edit_rev(0, 2, 1, insert_delta(5, 5, "world"));
    a.undo(groups(&[1]));
    a.undo(groups(&[1, 2]));

    let mut b = Engine::new(chars(""));
    b.edit_rev(0, 1, 0, insert_delta(0, 0, "hello"));
    b.edit_rev(0, 2, 1, insert_delta(5, 5, "world"));
    b.undo(groups(&[1, 2]));

    assert_eq!(text(&a.get_head()), text(&b.get_head()));
    assert_eq!(text(&b.get_head()), "");
}

#[test]
fn edit_in_undone_group_stays_hidden() {
    let mut e = Engine::new(chars(""));
    e.edit_rev(0, 1, 0, insert_delta(0, 0, "aa"));
    e.undo(groups(&[1]));
    assert_eq!(text(&e.get_head()), "");
    // A further edit in the undone group is recorded but not shown.
    e.edit_rev(0, 1, 2, insert_delta(0, 0, "bb"));
    assert_eq!(text(&e.get_head()), "");
    // Clearing the undo shows both edits.
    e.undo(groups(&[]));
    assert_eq!(text(&e.get_head()), "aabb");
}

#[test]
fn union_length_never_decreases() {
    let mut e = Engine::new(chars("abc"));
    let mut last = e.union_len();
    let mut d = Delta::new(3);
    d.delete(0, 3);
    e.edit_rev(0, 1, 0, d);
    assert!(e.union_len() >= last);
    last = e.union_len();
    e.edit_rev(0, 2, 1, insert_delta(0, 0, "Z"));
    assert!(e.union_len() >= last);
    last = e.union_len();
    e.undo(groups(&[2]));
    assert!(e.union_len() >= last);
}

#[test]
fn reconstruction_of_last_revision_matches_head() {
    let mut e = Engine::new(chars("abc"));
    assert_eq!(e.get_rev(e.num_revs() - 1), e.get_head());
    e.edit_rev(0, 1, 0, insert_delta(3, 1, "Q"));
    assert_eq!(e.get_rev(e.num_revs() - 1), e.get_head());
    e.undo(groups(&[1]));
    assert_eq!(e.get_rev(e.num_revs() - 1), e.get_head());
}

#[test]
fn historical_reconstruction_hides_later_inserts() {
    let mut e = Engine::new(chars("abc"));
    e.edit_rev(0, 1, 0, insert_delta(3, 1, "XY"));
    assert_eq!(text(&e.get_head()), "aXYbc");
    // The seed revision never saw the later insertion.
    assert_eq!(text(&e.get_rev(0)), "abc");
}

#[test]
fn delta_head_transforms_previous_into_current() {
    let mut e = Engine::new(chars("abc"));
    let mut d = Delta::new(3);
    d.insert(1, chars("XY"));
    d.delete(2, 3);
    e.edit_rev(0, 1, 0, d);
    let prev = e.get_rev(e.num_revs() - 2);
    let dh = e.delta_head();
    assert_eq!(text(&dh.apply(&prev)), text(&e.get_head()));
}

#[test]
fn delta_head_after_undo() {
    let mut e = Engine::new(chars(""));
    e.edit_rev(0, 1, 0, insert_delta(0, 0, "hello"));
    e.undo(groups(&[1]));
    let prev = e.get_rev(e.num_revs() - 2);
    assert_eq!(text(&prev), "hello");
    let dh = e.delta_head();
    assert_eq!(text(&dh.apply(&prev)), "");
}

#[test]
fn find_rev_locates_issued_ids() {
    let mut e = Engine::new(chars(""));
    e.edit_rev(0, 0, 0, insert_delta(0, 0, "a"));
    e.edit_rev(0, 0, 1, insert_delta(1, 1, "b"));
    assert_eq!(e.find_rev(0), Some(0));
    assert_eq!(e.find_rev(1), Some(1));
    assert_eq!(e.find_rev(2), Some(2));
    assert_eq!(e.find_rev(99), None);
}

#[test]
fn current_undo_tracks_latest_toggle() {
    let mut e = Engine::new(chars(""));
    let g = e.get_current_undo();
    assert!(!g.contains(1));
    e.edit_rev(0, 1, 0, insert_delta(0, 0, "x"));
    e.undo(groups(&[1, 7]));
    let g = e.get_current_undo();
    assert!(g.contains(1));
    assert!(g.contains(7));
    assert!(!g.contains(2));
}

#[test]
fn empty_edit_is_accepted() {
    let mut e = Engine::new(chars("abc"));
    e.edit_rev(0, 0, 0, Delta::new(3));
    assert_eq!(text(&e.get_head()), "abc");
    assert_eq!(e.num_revs(), 2);
}

#[test]
fn delta_apply_standalone() {
    let mut d = Delta::new(5);
    d.insert(0, chars("<"));
    d.insert(5, chars(">"));
    d.delete(1, 2);
    let out = d.apply(&chars("abcde"));
    assert_eq!(text(&out), "<acde>");
}

#[test]
fn factor_splits_inserts_and_removals() {
    let mut d = Delta::new(4);
    d.insert(2, chars("zz"));
    d.delete(0, 1);
    let (ins, removed) = d.factor();
    let spliced = ins.apply(&chars("abcd"));
    assert_eq!(text(&spliced), "abzzcd");
    assert_eq!(removed.len(), 4);
    assert!(removed.marked(0));
    assert!(!removed.marked(1));
}
