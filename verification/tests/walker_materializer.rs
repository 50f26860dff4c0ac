use templates::{
    collect_tokens, materialize_plan, needed_names, order_entries, Entry, EntryKind,
    ResolutionMap, TplError, WriteAction,
};

fn dir(path: &[&str]) -> Entry {
    Entry {
        segments: path.iter().map(|s| s.to_string()).collect(),
        kind: EntryKind::Directory,
        content: String::new(),
    }
}

fn file(path: &[&str], content: &str) -> Entry {
    Entry {
        segments: path.iter().map(|s| s.to_string()).collect(),
        kind: EntryKind::File,
        content: content.to_string(),
    }
}

fn segs(e: &Entry) -> Vec<String> {
    e.segments.clone()
}

#[test]
fn order_puts_parents_before_children() {
    let entries = vec![
        file(&["a", "b", "c.txt"], "x"),
        dir(&["a", "b"]),
        dir(&["a"]),
        file(&["top.txt"], "y"),
    ];
    let ordered = order_entries(entries);
    let pos = |p: &[&str]| {
        ordered
            .iter()
            .position(|e| segs(e) == p.iter().map(|s| s.to_string()).collect::<Vec<_>>())
            .unwrap()
    };
    assert!(pos(&["a"]) < pos(&["a", "b"]));
    assert!(pos(&["a", "b"]) < pos(&["a", "b", "c.txt"]));
    assert_eq!(ordered.len(), 4);
}

#[test]
fn order_is_a_permutation() {
    let entries = vec![dir(&["x"]), dir(&["y"]), file(&["x", "f"], "1")];
    let ordered = order_entries(entries);
    assert_eq!(ordered.len(), 3);
    assert!(ordered.iter().any(|e| segs(e) == vec!["x".to_string()]));
    assert!(ordered.iter().any(|e| segs(e) == vec!["y".to_string()]));
    assert!(ordered
        .iter()
        .any(|e| segs(e) == vec!["x".to_string(), "f".to_string()]));
}

#[test]
fn collect_tokens_walks_paths_then_contents() {
    let entries = vec![
        dir(&["\u{a7}%{name}-data"]),
        file(&["hello.txt"], "Hi \u{a7}%{name}! by \u{a7}%{author}"),
    ];
    let tokens = collect_tokens(&entries);
    assert_eq!(
        tokens,
        vec!["name".to_string(), "name".to_string(), "author".to_string()]
    );
}

#[test]
fn needed_names_prompts_each_unresolved_name_once() {
    let mut map = ResolutionMap::new();
    map.insert("done".to_string(), "v".to_string());
    let tokens = vec![
        "a".to_string(),
        "done".to_string(),
        "a".to_string(),
        "b".to_string(),
    ];
    let need = needed_names(&map, &tokens);
    assert_eq!(need, vec!["a".to_string(), "b".to_string()]);
}

#[test]
fn use_scenario_produces_substituted_tree() {
    let entries = order_entries(vec![
        file(&["hello.txt"], "Hi \u{a7}%{name}!"),
        dir(&["\u{a7}%{name}-data"]),
    ]);
    let tokens = collect_tokens(&entries);
    let mut map = ResolutionMap::new();
    for name in needed_names(&map, &tokens) {
        // the interactive channel would answer here; the scenario answers "Ada"
        if !map.contains_name(&name) {
            map.insert(name, "Ada".to_string());
        }
    }
    let plan = materialize_plan(&entries, &map).unwrap();
    assert_eq!(plan.len(), 2);
    let mut saw_file = false;
    let mut saw_dir = false;
    for action in &plan {
        match action {
            WriteAction::WriteFile { segments, content } => {
                assert_eq!(segments, &vec!["hello.txt".to_string()]);
                assert_eq!(content, "Hi Ada!");
                saw_file = true;
            }
            WriteAction::MkDir { segments } => {
                assert_eq!(segments, &vec!["Ada-data".to_string()]);
                saw_dir = true;
            }
        }
    }
    assert!(saw_file && saw_dir);
}

#[test]
fn materializing_without_placeholders_keeps_content_bytes() {
    let entries = vec![file(&["plain.txt"], "unchanged bytes")];
    let map = ResolutionMap::new();
    let first = materialize_plan(&entries, &map).unwrap();
    let second = materialize_plan(&entries, &map).unwrap();
    for plan in [&first, &second] {
        match &plan[0] {
            WriteAction::WriteFile { segments, content } => {
                assert_eq!(segments, &vec!["plain.txt".to_string()]);
                assert_eq!(content, "unchanged bytes");
            }
            _ => panic!("expected a file write"),
        }
    }
}

#[test]
fn absolute_computed_path_is_refused() {
    let entries = vec![dir(&["\u{a7}%{name}"])];
    let mut map = ResolutionMap::new();
    map.insert("name".to_string(), "/etc".to_string());
    assert!(matches!(
        materialize_plan(&entries, &map),
        Err(TplError::UnsafePath)
    ));
}

#[test]
fn empty_computed_first_segment_is_refused() {
    let entries = vec![dir(&["\u{a7}%{name}"])];
    let mut map = ResolutionMap::new();
    map.insert("name".to_string(), String::new());
    assert!(matches!(
        materialize_plan(&entries, &map),
        Err(TplError::UnsafePath)
    ));
}
