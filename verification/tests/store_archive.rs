use templates::{
    build_export, plan_import, select_templates, ArchiveEntry, ImportAction, TemplateTree,
    TemplateStore, TplError,
};

fn strings(v: &[&str]) -> Vec<String> {
    v.iter().map(|s| s.to_string()).collect()
}

fn dir_entry(path: &[&str]) -> ArchiveEntry {
    ArchiveEntry {
        segments: strings(path),
        is_dir: true,
        data: Vec::new(),
    }
}

fn file_entry(path: &[&str], data: &[u8]) -> ArchiveEntry {
    ArchiveEntry {
        segments: strings(path),
        is_dir: false,
        data: data.to_vec(),
    }
}

#[test]
fn store_create_list_remove() {
    let mut store = TemplateStore::new();
    store.create("greet".to_string()).unwrap();
    store.create("other".to_string()).unwrap();
    assert_eq!(store.list(), strings(&["greet", "other"]));
    assert!(matches!(
        store.create("greet".to_string()),
        Err(TplError::AlreadyExists)
    ));
    store.remove(&"greet".to_string()).unwrap();
    assert_eq!(store.list(), strings(&["other"]));
}

#[test]
fn remove_missing_template_reports_not_found_and_changes_nothing() {
    let mut store = TemplateStore::new();
    store.create("keep".to_string()).unwrap();
    let before = store.list();
    assert!(matches!(
        store.remove(&"absent".to_string()),
        Err(TplError::NotFound)
    ));
    assert_eq!(store.list(), before);
}

#[test]
fn select_templates_filters_by_pattern() {
    let names = strings(&["greet", "greet2", "other"]);
    let sel = select_templates(&"^greet".to_string(), &names).unwrap();
    assert_eq!(sel, strings(&["greet", "greet2"]));
    let none = select_templates(&"^zzz".to_string(), &names).unwrap();
    assert!(none.is_empty());
}

#[test]
fn select_templates_rejects_invalid_pattern() {
    let names = strings(&["greet"]);
    assert!(matches!(
        select_templates(&"(".to_string(), &names),
        Err(TplError::InvalidPattern)
    ));
    let no_names: Vec<String> = Vec::new();
    assert!(matches!(
        select_templates(&"(".to_string(), &no_names),
        Err(TplError::InvalidPattern)
    ));
}

#[test]
fn export_of_nothing_is_empty_and_importing_it_plans_nothing() {
    let archive = build_export(&Vec::new());
    assert!(archive.is_empty());
    let plan = plan_import(&archive);
    assert!(plan.is_empty());
}

#[test]
fn export_prefixes_entries_with_template_name() {
    let tree = TemplateTree {
        name: "greet".to_string(),
        entries: vec![
            dir_entry(&["data"]),
            file_entry(&["hello.txt"], b"Hi!"),
        ],
    };
    let archive = build_export(&vec![tree]);
    assert_eq!(archive.len(), 3);
    assert_eq!(archive[0].segments, strings(&["greet"]));
    assert!(archive[0].is_dir);
    assert_eq!(archive[1].segments, strings(&["greet", "data"]));
    assert!(archive[1].is_dir);
    assert_eq!(archive[2].segments, strings(&["greet", "hello.txt"]));
    assert!(!archive[2].is_dir);
    assert_eq!(archive[2].data, b"Hi!".to_vec());
}

#[test]
fn export_import_round_trip_reproduces_the_template() {
    let tree = TemplateTree {
        name: "greet".to_string(),
        entries: vec![
            dir_entry(&["data"]),
            file_entry(&["hello.txt"], b"Hi \xc2\xa7%{name}!"),
        ],
    };
    let archive = build_export(&vec![tree]);
    let plan = plan_import(&archive);
    assert_eq!(plan.len(), 4);
    assert!(matches!(&plan[0], ImportAction::RemoveTemplate { name } if name == "greet"));
    assert!(
        matches!(&plan[1], ImportAction::EnsureDir { segments } if *segments == strings(&["greet"]))
    );
    assert!(
        matches!(&plan[2], ImportAction::EnsureDir { segments } if *segments == strings(&["greet", "data"]))
    );
    match &plan[3] {
        ImportAction::WriteFile { segments, data } => {
            assert_eq!(*segments, strings(&["greet", "hello.txt"]));
            assert_eq!(*data, b"Hi \xc2\xa7%{name}!".to_vec());
        }
        _ => panic!("expected a file write"),
    }
}

#[test]
fn import_replaces_each_named_template_once_before_any_write() {
    let archive = vec![
        dir_entry(&["t"]),
        file_entry(&["t", "new.txt"], b"new"),
        dir_entry(&["t"]),
        dir_entry(&["u"]),
    ];
    let plan = plan_import(&archive);
    let removals: Vec<usize> = plan
        .iter()
        .enumerate()
        .filter(|(_, a)| matches!(a, ImportAction::RemoveTemplate { .. }))
        .map(|(i, _)| i)
        .collect();
    assert_eq!(removals, vec![0, 1]);
    assert!(matches!(&plan[0], ImportAction::RemoveTemplate { name } if name == "t"));
    assert!(matches!(&plan[1], ImportAction::RemoveTemplate { name } if name == "u"));
    assert_eq!(plan.len(), 2 + 4);
}

#[test]
fn import_skips_entries_with_unsafe_paths() {
    let archive = vec![
        file_entry(&["..", "evil.txt"], b"x"),
        file_entry(&["t", "..", "evil.txt"], b"x"),
        file_entry(&["t", "ok.txt"], b"fine"),
    ];
    let plan = plan_import(&archive);
    assert_eq!(plan.len(), 1);
    match &plan[0] {
        ImportAction::WriteFile { segments, data } => {
            assert_eq!(*segments, strings(&["t", "ok.txt"]));
            assert_eq!(*data, b"fine".to_vec());
        }
        _ => panic!("expected a file write"),
    }
}

#[test]
fn error_messages_are_user_displayable() {
    assert!(!TplError::NotFound.message().is_empty());
    assert!(!TplError::ArchiveCorrupt.message().is_empty());
    assert!(!TplError::IoFailure.message().is_empty());
}
