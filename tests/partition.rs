use jut::{
    children_of, partition, select_tips, workspace_state, FileChange, RevisionGraph, RevisionInfo, TipChoice,
};

fn rev(id: &str, parents: &[&str], bookmarks: &[&str], immutable: bool) -> RevisionInfo {
    RevisionInfo {
        change_id: id.to_string(),
        commit_id: format!("c{id}"),
        short_id: id.chars().take(4).collect(),
        description: format!("work on {id}"),
        bookmarks: bookmarks.iter().map(|b| b.to_string()).collect(),
        is_empty: false,
        is_immutable: immutable,
        is_conflicted: false,
        is_working_copy: false,
        parent_change_ids: parents.iter().map(|p| p.to_string()).collect(),
        author: "someone".to_string(),
        timestamp: "2024-01-01".to_string(),
        files: Vec::new(),
    }
}

fn ids(revs: &[RevisionInfo]) -> Vec<String> {
    revs.iter().map(|r| r.change_id.clone()).collect()
}

fn fork_records() -> Vec<RevisionInfo> {
    vec![
        rev("tttt", &["root"], &[], true),
        rev("xxxx", &["tttt"], &[], false),
        rev("aaaa", &["xxxx"], &["feature-a"], false),
        rev("bbbb", &["xxxx"], &["feature-b"], false),
    ]
}

#[test]
fn fork_gives_two_stacks_and_a_shared_base() {
    let g = RevisionGraph::build(fork_records(), "aaaa");
    let s = workspace_state(&g, Vec::new());
    assert_eq!(s.stacks.len(), 2);
    assert_eq!(ids(&s.stacks[0].revisions), vec!["aaaa".to_string()]);
    assert_eq!(ids(&s.stacks[1].revisions), vec!["bbbb".to_string()]);
    assert_eq!(s.stacks[0].bookmarks, vec!["feature-a".to_string()]);
    assert_eq!(s.stacks[1].bookmarks, vec!["feature-b".to_string()]);
    assert_eq!(ids(&s.shared_base), vec!["xxxx".to_string()]);
    assert_eq!(s.trunk.as_ref().map(|t| t.change_id.clone()), Some("tttt".to_string()));
    assert!(s.working_copy.is_none());
    for st in &s.stacks {
        assert!(st.revisions.iter().all(|r| r.change_id != "xxxx"));
    }
}

#[test]
fn every_mutable_revision_has_exactly_one_place() {
    let records = vec![
        rev("tttt", &[], &[], true),
        rev("s111", &["tttt"], &[], false),
        rev("s222", &["s111"], &[], false),
        rev("a111", &["s222"], &[], false),
        rev("a222", &["a111"], &["a"], false),
        rev("b111", &["s222"], &["b"], false),
        rev("wwww", &["tttt"], &[], false),
    ];
    let g = RevisionGraph::build(records.clone(), "wwww");
    let s = workspace_state(&g, Vec::new());
    for r in records.iter().filter(|r| !r.is_immutable) {
        let in_stacks: usize = s
            .stacks
            .iter()
            .map(|st| st.revisions.iter().filter(|x| x.change_id == r.change_id).count())
            .sum();
        let in_shared = s.shared_base.iter().filter(|x| x.change_id == r.change_id).count();
        let detached = s.working_copy.iter().filter(|x| x.change_id == r.change_id).count();
        assert_eq!(in_stacks + in_shared + detached, 1, "{}", r.change_id);
    }
    assert_eq!(ids(&s.shared_base), vec!["s111".to_string(), "s222".to_string()]);
    assert_eq!(s.working_copy.as_ref().map(|w| w.change_id.clone()), Some("wwww".to_string()));
}

#[test]
fn shared_base_lists_parents_first() {
    // ids sort in the opposite order of ancestry
    let records = vec![
        rev("tttt", &[], &[], true),
        rev("zzzz", &["tttt"], &[], false),
        rev("yyyy", &["zzzz"], &[], false),
        rev("mmmm", &["yyyy"], &["m"], false),
        rev("nnnn", &["yyyy"], &["n"], false),
    ];
    let g = RevisionGraph::build(records, "mmmm");
    let s = workspace_state(&g, Vec::new());
    assert_eq!(ids(&s.shared_base), vec!["zzzz".to_string(), "yyyy".to_string()]);
}

#[test]
fn working_copy_in_a_stack_is_not_detached() {
    let g = RevisionGraph::build(fork_records(), "bbbb");
    let s = workspace_state(&g, Vec::new());
    assert!(s.working_copy.is_none());
    assert!(s.stacks[1].revisions[0].is_working_copy);
}

#[test]
fn without_bookmarks_the_working_copy_forms_the_stack() {
    let records = vec![
        rev("tttt", &[], &[], true),
        rev("pppp", &["tttt"], &[], false),
        rev("wwww", &["pppp"], &[], false),
    ];
    let g = RevisionGraph::build(records, "wwww");
    match select_tips(&g) {
        TipChoice::WorkingCopy(w) => assert_eq!(g.revisions[w].change_id, "wwww"),
        _ => panic!("expected the working copy as the tip"),
    }
    let files = vec![FileChange { status: 'M', path: "hello.txt".to_string() }];
    let s = workspace_state(&g, files);
    assert_eq!(s.stacks.len(), 1);
    assert_eq!(ids(&s.stacks[0].revisions), vec!["pppp".to_string(), "wwww".to_string()]);
    assert!(s.stacks[0].bookmarks.is_empty());
    assert!(s.working_copy.is_none());
    assert!(s.shared_base.is_empty());
    let wc = &s.stacks[0].revisions[1];
    assert_eq!(wc.files.len(), 1);
    assert_eq!(wc.files[0].path, "hello.txt");
    assert_eq!(s.uncommitted_files.len(), 1);
}

#[test]
fn immutable_working_copy_gives_no_tip() {
    let records = vec![rev("tttt", &[], &[], true)];
    let g = RevisionGraph::build(records, "tttt");
    assert!(matches!(select_tips(&g), TipChoice::NoTips));
    let s = workspace_state(&g, Vec::new());
    assert!(s.stacks.is_empty());
    // the working copy lies in no stack: it is shown on its own
    assert_eq!(s.working_copy.as_ref().map(|w| w.change_id.clone()), Some("tttt".to_string()));
}

#[test]
fn bookmarked_working_copy_outside_any_chain_is_detached() {
    let records = vec![
        rev("tttt", &[], &[], true),
        rev("aaaa", &["tttt"], &["a"], false),
        rev("wwww", &["tttt"], &[], false),
    ];
    let g = RevisionGraph::build(records, "wwww");
    let s = workspace_state(&g, Vec::new());
    assert_eq!(s.stacks.len(), 1);
    assert_eq!(s.working_copy.as_ref().map(|w| w.change_id.clone()), Some("wwww".to_string()));
}

#[test]
fn merge_follows_primary_parent_only() {
    let records = vec![
        rev("tttt", &[], &[], true),
        rev("pppp", &["tttt"], &[], false),
        rev("qqqq", &["tttt"], &[], false),
        rev("mmmm", &["pppp", "qqqq"], &["merge"], false),
    ];
    let g = RevisionGraph::build(records, "mmmm");
    let s = workspace_state(&g, Vec::new());
    assert_eq!(s.stacks.len(), 1);
    assert_eq!(ids(&s.stacks[0].revisions), vec!["pppp".to_string(), "mmmm".to_string()]);
    assert!(s.shared_base.is_empty());
}

#[test]
fn walk_stops_at_root_before_trunk() {
    let records = vec![
        rev("rrrr", &[], &[], false),
        rev("aaaa", &["rrrr"], &["a"], false),
    ];
    let g = RevisionGraph::build(records, "aaaa");
    let s = workspace_state(&g, Vec::new());
    assert!(s.trunk.is_none());
    assert_eq!(ids(&s.stacks[0].revisions), vec!["rrrr".to_string(), "aaaa".to_string()]);
}

#[test]
fn tip_absorbed_into_shared_base_gives_no_stack() {
    let records = vec![
        rev("tttt", &[], &[], true),
        rev("aaaa", &["tttt"], &["a"], false),
        rev("bbbb", &["aaaa"], &["b"], false),
    ];
    let g = RevisionGraph::build(records, "bbbb");
    let s = workspace_state(&g, Vec::new());
    assert_eq!(s.stacks.len(), 1);
    assert_eq!(ids(&s.stacks[0].revisions), vec!["bbbb".to_string()]);
    assert_eq!(s.stacks[0].bookmarks, vec!["b".to_string()]);
    assert_eq!(ids(&s.shared_base), vec!["aaaa".to_string()]);
}

#[test]
fn two_runs_on_the_same_records_agree() {
    let a = partition(&RevisionGraph::build(fork_records(), "aaaa"));
    let b = partition(&RevisionGraph::build(fork_records(), "aaaa"));
    assert_eq!(a.stacks.len(), b.stacks.len());
    for (x, y) in a.stacks.iter().zip(b.stacks.iter()) {
        assert_eq!(x.tip, y.tip);
        assert_eq!(x.revisions, y.revisions);
    }
    assert_eq!(a.shared_base, b.shared_base);
    assert_eq!(a.working_copy, b.working_copy);
    assert_eq!(a.trunk, b.trunk);
}

#[test]
fn build_sorts_and_keeps_last_record() {
    let mut first = rev("bbbb", &["tttt"], &[], false);
    first.description = "old".to_string();
    let mut second = rev("bbbb", &["tttt"], &[], false);
    second.description = "new".to_string();
    let records = vec![first, rev("tttt", &[], &[], true), rev("aaaa", &["tttt"], &[], false), second];
    let g = RevisionGraph::build(records, "aaaa");
    assert_eq!(ids(&g.revisions), vec!["aaaa".to_string(), "bbbb".to_string(), "tttt".to_string()]);
    assert_eq!(g.revisions[1].description, "new");
    assert!(g.revisions[0].is_working_copy);
    assert!(!g.revisions[1].is_working_copy);
}

#[test]
fn children_are_listed_in_id_order() {
    let records = vec![
        rev("tttt", &[], &[], true),
        rev("pppp", &["tttt"], &[], false),
        rev("qqqq", &["tttt"], &[], false),
        rev("mmmm", &["pppp", "qqqq"], &[], false),
    ];
    let g = RevisionGraph::build(records, "mmmm");
    assert_eq!(children_of(&g, &"tttt".to_string()), vec!["pppp".to_string(), "qqqq".to_string()]);
    assert_eq!(children_of(&g, &"qqqq".to_string()), vec!["mmmm".to_string()]);
    assert!(children_of(&g, &"mmmm".to_string()).is_empty());
}

#[test]
fn stack_revisions_follow_primary_parents() {
    let records = vec![
        rev("tttt", &[], &[], true),
        rev("s111", &["tttt"], &[], false),
        rev("a111", &["s111"], &[], false),
        rev("a222", &["a111", "b111"], &[], false),
        rev("a333", &["a222"], &["a"], false),
        rev("b111", &["s111"], &["b"], false),
    ];
    let g = RevisionGraph::build(records, "a333");
    let s = workspace_state(&g, Vec::new());
    assert_eq!(ids(&s.stacks[0].revisions), vec!["a111".to_string(), "a222".to_string(), "a333".to_string()]);
    for st in &s.stacks {
        for pair in st.revisions.windows(2) {
            assert_eq!(pair[1].parent_change_ids[0], pair[0].change_id);
        }
    }
    assert_eq!(ids(&s.shared_base), vec!["s111".to_string()]);
}
