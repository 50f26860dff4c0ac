use templates::{extract_replacements, replace_replacements, ResolutionMap};

fn names(input: &str) -> Vec<String> {
    extract_replacements(input)
}

#[test]
fn scan_distinct_first_occurrence_order() {
    let got = names("Hi \u{a7}%{name}! then \u{a7}%{other} and \u{a7}%{name} again");
    assert_eq!(got, vec!["name".to_string(), "other".to_string()]);
}

#[test]
fn scan_empty_and_plain_text() {
    assert!(names("").is_empty());
    assert!(names("no tokens here").is_empty());
}

#[test]
fn scan_malformed_delimiters_yield_nothing() {
    assert!(names("\u{a7}%{unterminated").is_empty());
    assert!(names("\u{a7}%{}").is_empty());
    assert!(names("%{name}").is_empty());
    assert!(names("\u{a7}{name}").is_empty());
    assert!(names("\u{a7}%{bad name}").is_empty());
}

#[test]
fn scan_name_characters() {
    let got = names("\u{a7}%{a.b_C9}");
    assert_eq!(got, vec!["a.b_C9".to_string()]);
}

#[test]
fn replace_substitutes_every_occurrence() {
    let mut map = ResolutionMap::new();
    map.insert("name".to_string(), "Ada".to_string());
    let out = replace_replacements(
        "Hi \u{a7}%{name} and \u{a7}%{name}!".to_string(),
        &map,
    );
    assert_eq!(out, "Hi Ada and Ada!");
}

#[test]
fn replace_leaves_unresolved_tokens_untouched() {
    let map = ResolutionMap::new();
    let out = replace_replacements("Hi \u{a7}%{name}!".to_string(), &map);
    assert_eq!(out, "Hi \u{a7}%{name}!");
}

#[test]
fn replace_is_single_pass_never_rescans_inserted_values() {
    let mut map = ResolutionMap::new();
    map.insert("a".to_string(), "\u{a7}%{b}".to_string());
    map.insert("b".to_string(), "x".to_string());
    let out = replace_replacements("\u{a7}%{a}\u{a7}%{b}".to_string(), &map);
    assert_eq!(out, "\u{a7}%{b}x");
}

#[test]
fn replace_without_tokens_is_identity() {
    let mut map = ResolutionMap::new();
    map.insert("name".to_string(), "Ada".to_string());
    let out = replace_replacements("plain content".to_string(), &map);
    assert_eq!(out, "plain content");
}

#[test]
fn resolution_map_lookup_and_skip() {
    let mut map = ResolutionMap::new();
    assert!(!map.contains_name(&"k".to_string()));
    map.insert("k".to_string(), "v".to_string());
    assert!(map.contains_name(&"k".to_string()));
    assert_eq!(map.lookup(&"k".to_string()), Some("v".to_string()));
    assert_eq!(map.lookup(&"missing".to_string()), None);
}
