//! Tests for the tree assembler and the tri-state selection engine.

use codebase_viewer::model::{Check, FileInfo, FileNode};
use codebase_viewer::tree::Tree;

fn info(path: &str, is_dir: bool) -> FileInfo {
    FileInfo {
        path: path.as_bytes().to_vec(),
        is_dir,
        size: 1,
        human_size: String::new(),
        is_binary: false,
        modified: None,
        extension: None,
        loc_stats: None,
    }
}

fn node(path: &str, is_dir: bool) -> FileNode {
    FileNode::new(info(path, is_dir))
}

fn id_of(t: &Tree, path: &str) -> usize {
    t.path_to_id(path.as_bytes()).expect("path should be present")
}

fn children_paths(t: &Tree, path: &str) -> Vec<Vec<u8>> {
    let id = id_of(t, path);
    t.nodes[id]
        .children
        .iter()
        .map(|&c| t.nodes[c].info.path.clone())
        .collect()
}

fn build(order: &[(&str, bool)]) -> Tree {
    let mut t = Tree::new(b"R".to_vec());
    for &(p, d) in order {
        t.add_single_node(node(p, d));
    }
    t
}

fn assert_tri_state_invariant(t: &Tree) {
    for i in 0..t.nodes.len() {
        let n = &t.nodes[i];
        if n.info.is_dir && !n.children.is_empty() {
            assert_eq!(
                n.state,
                t.calculate_parent_check_state(i),
                "tri-state rule broken at node {}",
                i
            );
        }
    }
}

#[test]
fn assembles_top_down() {
    let mut t = build(&[("R", true), ("R/a", false), ("R/b", true), ("R/b/c", false)]);
    t.finish(0);
    assert_eq!(t.root_id, Some(0));
    assert_eq!(children_paths(&t, "R"), vec![b"R/b".to_vec(), b"R/a".to_vec()]);
    assert_eq!(children_paths(&t, "R/b"), vec![b"R/b/c".to_vec()]);
    assert!(t.orphans.is_empty());
}

#[test]
fn buffered_child_joins_parent_exactly_once() {
    // the child arrives before its parent and waits in the orphan buffer
    let mut t = build(&[("R", true), ("R/b/c", false)]);
    assert_eq!(t.orphans.len(), 1);
    t.add_single_node(node("R/b", true));
    let b = id_of(&t, "R/b");
    let c = id_of(&t, "R/b/c");
    let occurrences = t.nodes[b].children.iter().filter(|&&x| x == c).count();
    assert_eq!(occurrences, 1);
    assert!(t.orphans.is_empty());
}

#[test]
fn out_of_order_arrival_builds_identical_tree() {
    // entries arrive in order [R/b/c, R, R/b, R/a]; the result must be
    // identical to building from strict top-down order [R, R/a, R/b, R/b/c]
    let mut shuffled = build(&[("R/b/c", false), ("R", true), ("R/b", true), ("R/a", false)]);
    shuffled.finish(0);
    let mut ordered = build(&[("R", true), ("R/a", false), ("R/b", true), ("R/b/c", false)]);
    ordered.finish(0);
    for p in ["R", "R/a", "R/b", "R/b/c"] {
        assert_eq!(
            children_paths(&shuffled, p),
            children_paths(&ordered, p),
            "children of {} differ",
            p
        );
    }
    assert!(shuffled.orphans.is_empty());
    assert!(ordered.orphans.is_empty());
}

#[test]
fn duplicate_path_is_discarded() {
    let mut t = build(&[("R", true), ("R/a", false)]);
    let added = t.add_single_node(node("R/a", false));
    assert!(!added);
    assert_eq!(t.nodes.len(), 2);
}

#[test]
fn children_sorted_directories_first_case_insensitive() {
    let mut t = build(&[
        ("R", true),
        ("R/zeta.txt", false),
        ("R/Alpha.txt", false),
        ("R/beta", true),
        ("R/Gamma", true),
    ]);
    t.finish(0);
    assert_eq!(
        children_paths(&t, "R"),
        vec![
            b"R/beta".to_vec(),
            b"R/Gamma".to_vec(),
            b"R/Alpha.txt".to_vec(),
            b"R/zeta.txt".to_vec(),
        ]
    );
}

#[test]
fn unresolved_orphans_are_dropped_and_reported() {
    let mut t = build(&[("R", true), ("R/missing/child", false)]);
    let dropped = t.finish(0);
    assert_eq!(dropped.len(), 1);
    assert_eq!(dropped[0].0, b"R/missing".to_vec());
    assert!(t.orphans.is_empty());
    // the node still exists in the arena but hangs off no parent
    let c = id_of(&t, "R/missing/child");
    assert!(t.nodes.iter().all(|n| !n.children.contains(&c)));
}

#[test]
fn auto_expand_marks_all_directories() {
    let mut t = build(&[
        ("R", true),
        ("R/a", false),
        ("R/b", true),
        ("R/b/c", false),
        ("R/b/d", true),
    ]);
    t.finish(10);
    // every directory is force-expanded, however deep; files never are
    assert!(t.nodes[id_of(&t, "R")].is_expanded);
    assert!(t.nodes[id_of(&t, "R/b")].is_expanded);
    assert!(t.nodes[id_of(&t, "R/b/d")].is_expanded);
    assert!(!t.nodes[id_of(&t, "R/a")].is_expanded);
    assert!(!t.nodes[id_of(&t, "R/b/c")].is_expanded);
    // with a limit of zero nothing is auto-expanded
    let mut t2 = build(&[("R", true), ("R/a", false), ("R/b", true)]);
    t2.finish(0);
    assert!(!t2.nodes[id_of(&t2, "R/b")].is_expanded);
}

#[test]
fn children_buffered_before_a_late_root_are_adopted() {
    // the root arrives after its children: they wait in the orphan buffer
    // and are spliced in the moment the root is processed
    let mut t = build(&[("R/a", false), ("R", true)]);
    assert!(t.orphans.is_empty());
    assert_eq!(children_paths(&t, "R"), vec![b"R/a".to_vec()]);
    t.finish(0);
    assert_eq!(children_paths(&t, "R"), vec![b"R/a".to_vec()]);
}

#[test]
fn orphan_parent_adopts_children_while_itself_buffered() {
    // R/b adopts R/b/c even though R/b's own parent has not arrived yet
    let mut t = build(&[("R/b/c", false), ("R/b", true)]);
    assert_eq!(children_paths(&t, "R/b"), vec![b"R/b/c".to_vec()]);
    assert_eq!(t.orphans.len(), 1);
    t.add_single_node(node("R", true));
    assert!(t.orphans.is_empty());
    assert_eq!(children_paths(&t, "R"), vec![b"R/b".to_vec()]);
}

#[test]
fn any_permutation_builds_the_same_tree() {
    let entries: [(&str, bool); 4] = [("R", true), ("R/a", false), ("R/b", true), ("R/b/c", false)];
    let mut reference = build(&entries);
    reference.finish(0);
    let orders: [[usize; 4]; 5] = [
        [1, 0, 2, 3],
        [3, 2, 1, 0],
        [2, 3, 0, 1],
        [3, 0, 2, 1],
        [1, 3, 2, 0],
    ];
    for order in orders {
        let mut t = Tree::new(b"R".to_vec());
        for &ix in &order {
            let (p, d) = entries[ix];
            t.add_single_node(node(p, d));
        }
        t.finish(0);
        assert!(t.orphans.is_empty(), "order {:?} left orphans", order);
        for (p, _) in entries {
            assert_eq!(
                children_paths(&t, p),
                children_paths(&reference, p),
                "children of {} differ for order {:?}",
                p,
                order
            );
        }
    }
}

#[test]
fn sort_is_stable_for_case_folded_equal_names() {
    // two files whose names agree after case folding keep arrival order
    let mut t = build(&[("R", true), ("R/A", false), ("R/a", false)]);
    t.finish(0);
    assert_eq!(children_paths(&t, "R"), vec![b"R/A".to_vec(), b"R/a".to_vec()]);
    let mut t2 = build(&[("R", true), ("R/a", false), ("R/A", false)]);
    t2.finish(0);
    assert_eq!(children_paths(&t2, "R"), vec![b"R/a".to_vec(), b"R/A".to_vec()]);
}

#[test]
fn three_level_selection_scenario() {
    // root R has child file R/a and child directory R/b containing file
    // R/b/c; set a=Checked, c=Unchecked, expect b=Unchecked and R=Partial;
    // then set c=Checked, expect b=Checked and R=Checked
    let mut t = build(&[("R", true), ("R/a", false), ("R/b", true), ("R/b/c", false)]);
    t.finish(0);
    let a = id_of(&t, "R/a");
    let b = id_of(&t, "R/b");
    let c = id_of(&t, "R/b/c");
    let r = id_of(&t, "R");

    t.set_node_state_recursive(a, Check::Checked);
    t.update_parent_states(a);
    t.set_node_state_recursive(c, Check::Unchecked);
    t.update_parent_states(c);
    assert_eq!(t.nodes[b].state, Check::Unchecked);
    assert_eq!(t.nodes[r].state, Check::Partial);
    assert_tri_state_invariant(&t);

    t.set_node_state_recursive(c, Check::Checked);
    t.update_parent_states(c);
    assert_eq!(t.nodes[b].state, Check::Checked);
    assert_eq!(t.nodes[r].state, Check::Checked);
    assert_tri_state_invariant(&t);
}

#[test]
fn toggle_twice_restores_a_leaf() {
    let mut t = build(&[("R", true), ("R/a", false), ("R/b", false)]);
    t.finish(0);
    let a = id_of(&t, "R/a");
    let before = t.nodes[a].state;
    assert_eq!(before, Check::Checked);
    t.toggle_check_state(a);
    assert_eq!(t.nodes[a].state, Check::Unchecked);
    assert_eq!(t.nodes[id_of(&t, "R")].state, Check::Partial);
    t.toggle_check_state(a);
    assert_eq!(t.nodes[a].state, before);
    assert_tri_state_invariant(&t);
}

#[test]
fn toggle_unchecks_partial_directory() {
    let mut t = build(&[("R", true), ("R/b", true), ("R/b/c", false), ("R/b/d", false)]);
    t.finish(0);
    let b = id_of(&t, "R/b");
    let c = id_of(&t, "R/b/c");
    t.set_node_state_recursive(c, Check::Unchecked);
    t.update_parent_states(c);
    assert_eq!(t.nodes[b].state, Check::Partial);
    t.toggle_check_state(b);
    assert_eq!(t.nodes[b].state, Check::Unchecked);
    assert_eq!(t.nodes[c].state, Check::Unchecked);
    assert_eq!(t.nodes[id_of(&t, "R/b/d")].state, Check::Unchecked);
    assert_tri_state_invariant(&t);
}

#[test]
fn bulk_select_and_deselect() {
    let mut t = build(&[("R", true), ("R/a", false), ("R/b", true), ("R/b/c", false)]);
    t.finish(0);
    t.deselect_all_nodes();
    assert!(t.nodes.iter().all(|n| n.state == Check::Unchecked));
    assert_tri_state_invariant(&t);
    t.select_all_nodes();
    assert!(t.nodes.iter().all(|n| n.state == Check::Checked));
    assert_tri_state_invariant(&t);
}

#[test]
fn expand_and_collapse_all() {
    let mut t = build(&[("R", true), ("R/b", true), ("R/b/c", true)]);
    t.finish(0);
    t.expand_all_nodes();
    assert!(t.nodes.iter().filter(|n| n.info.is_dir).all(|n| n.is_expanded));
    t.collapse_all_nodes();
    let r = id_of(&t, "R");
    assert!(t.nodes[r].is_expanded);
    assert!(!t.nodes[id_of(&t, "R/b")].is_expanded);
    assert!(!t.nodes[id_of(&t, "R/b/c")].is_expanded);
}

#[test]
fn toggle_expand_flips_directories_only() {
    let mut t = build(&[("R", true), ("R/a", false), ("R/b", true)]);
    t.finish(0);
    let a = id_of(&t, "R/a");
    let b = id_of(&t, "R/b");
    t.toggle_expand_state(b);
    assert!(t.nodes[b].is_expanded);
    t.toggle_expand_state(b);
    assert!(!t.nodes[b].is_expanded);
    t.toggle_expand_state(a);
    assert!(!t.nodes[a].is_expanded);
}

#[test]
fn scoped_children_selection() {
    let mut t = build(&[("R", true), ("R/a", false), ("R/b", true), ("R/b/c", false)]);
    t.finish(0);
    t.deselect_all_nodes();
    let b = id_of(&t, "R/b");
    t.select_all_children(b);
    // the children take the state, the scoped node derives it from them,
    // and the ancestors are recomputed, so the invariant holds right away
    assert_eq!(t.nodes[id_of(&t, "R/b/c")].state, Check::Checked);
    assert_eq!(t.nodes[id_of(&t, "R/a")].state, Check::Unchecked);
    assert_eq!(t.nodes[b].state, Check::Checked);
    assert_eq!(t.nodes[id_of(&t, "R")].state, Check::Partial);
    assert_tri_state_invariant(&t);
    t.deselect_all_children(b);
    assert_eq!(t.nodes[id_of(&t, "R/b/c")].state, Check::Unchecked);
    assert_eq!(t.nodes[b].state, Check::Unchecked);
    assert_eq!(t.nodes[id_of(&t, "R")].state, Check::Unchecked);
    assert_tri_state_invariant(&t);
}

#[test]
fn selection_keys_under_a_slash_root() {
    // a scan rooted at "/" joins names without doubling the slash, so keys
    // round-trip: "/a" saves as "a" and matches again on reload
    let mut t = Tree::new(b"/".to_vec());
    t.add_single_node(node("/", true));
    t.add_single_node(node("/a", false));
    t.finish(0);
    let a = t.path_to_id(b"/a").unwrap();
    t.set_node_state_recursive(a, Check::Unchecked);
    t.update_parent_states(a);
    let saved = t.collect_selection();
    assert_eq!(saved.len(), 1);
    assert_eq!(saved[0].0, b"a".to_vec());
    let mut t2 = Tree::new(b"/".to_vec());
    t2.add_single_node(node("/", true));
    t2.add_single_node(node("/a", false));
    t2.finish(0);
    let (applied, not_found) = t2.apply_selection(&saved);
    assert_eq!(applied, 1);
    assert_eq!(not_found, 0);
    assert_eq!(t2.nodes[t2.path_to_id(b"/a").unwrap()].state, Check::Unchecked);
}

#[test]
fn recalc_restores_and_is_idempotent() {
    let mut t = build(&[("R", true), ("R/a", false), ("R/b", true), ("R/b/c", false)]);
    t.finish(0);
    // poke inconsistent states directly, as a selection import would
    let b = id_of(&t, "R/b");
    let c = id_of(&t, "R/b/c");
    t.nodes[c].state = Check::Unchecked;
    t.nodes[b].state = Check::Checked;
    let r = id_of(&t, "R");
    t.recalculate_all_parent_states(r);
    assert_eq!(t.nodes[b].state, Check::Unchecked);
    assert_eq!(t.nodes[r].state, Check::Partial);
    assert_tri_state_invariant(&t);
    // a second run changes nothing
    let snapshot: Vec<Check> = t.nodes.iter().map(|n| n.state).collect();
    t.recalculate_all_parent_states(r);
    let after: Vec<Check> = t.nodes.iter().map(|n| n.state).collect();
    assert_eq!(snapshot, after);
}

#[test]
fn invalid_ids_are_no_ops() {
    let mut t = build(&[("R", true), ("R/a", false)]);
    t.finish(0);
    let before: Vec<Check> = t.nodes.iter().map(|n| n.state).collect();
    t.toggle_check_state(999);
    t.set_node_state_recursive(999, Check::Unchecked);
    t.update_parent_states(999);
    t.recalculate_all_parent_states(999);
    let after: Vec<Check> = t.nodes.iter().map(|n| n.state).collect();
    assert_eq!(before, after);
}

#[test]
fn count_files_totals_and_selected() {
    let mut t = build(&[("R", true), ("R/a", false), ("R/b", true), ("R/b/c", false)]);
    t.finish(0);
    assert_eq!(t.count_files(), (2, 2));
    let a = id_of(&t, "R/a");
    t.set_node_state_recursive(a, Check::Unchecked);
    t.update_parent_states(a);
    assert_eq!(t.count_files(), (2, 1));
}

#[test]
fn selection_round_trip_through_saved_pairs() {
    let mut t = build(&[("R", true), ("R/a", false), ("R/b", true), ("R/b/c", false)]);
    t.finish(0);
    let a = id_of(&t, "R/a");
    t.set_node_state_recursive(a, Check::Unchecked);
    t.update_parent_states(a);
    let saved = t.collect_selection();
    assert_eq!(saved.len(), 3);

    // a fresh scan of the same tree, selection restored from the pairs
    let mut t2 = build(&[("R", true), ("R/a", false), ("R/b", true), ("R/b/c", false)]);
    t2.finish(0);
    let (applied, not_found) = t2.apply_selection(&saved);
    assert_eq!(applied, 3);
    assert_eq!(not_found, 0);
    let r2 = t2.root_id.unwrap();
    t2.recalculate_all_parent_states(r2);
    for p in ["R", "R/a", "R/b", "R/b/c"] {
        assert_eq!(
            t.nodes[id_of(&t, p)].state,
            t2.nodes[id_of(&t2, p)].state,
            "state of {} differs after restore",
            p
        );
    }
    assert_tri_state_invariant(&t2);
}

#[test]
fn apply_selection_counts_unmatched_keys() {
    let mut t = build(&[("R", true), ("R/a", false)]);
    t.finish(0);
    let pairs = vec![
        (b"a".to_vec(), Check::Unchecked),
        (b"gone".to_vec(), Check::Checked),
    ];
    let (applied, not_found) = t.apply_selection(&pairs);
    assert_eq!(applied, 1);
    assert_eq!(not_found, 1);
    assert_eq!(t.nodes[id_of(&t, "R/a")].state, Check::Unchecked);
}

#[test]
fn build_path_map_keys_match_collect() {
    let mut t = build(&[("R", true), ("R/a", false), ("R/b", true), ("R/b/c", false)]);
    t.finish(0);
    let map = t.build_path_map();
    let keys: Vec<Vec<u8>> = map.iter().map(|p| p.0.clone()).collect();
    assert!(keys.contains(&b"a".to_vec()));
    assert!(keys.contains(&b"b".to_vec()));
    assert!(keys.contains(&b"b/c".to_vec()));
    assert_eq!(map.len(), 3);
    for (rel, id) in &map {
        let mut full = b"R/".to_vec();
        full.extend_from_slice(rel);
        assert_eq!(t.nodes[*id].info.path, full);
    }
}
