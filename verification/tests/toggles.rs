use word_toggles::config::{Config, Scope};
use word_toggles::cycle::{get_next_word, next_in_scope};
use word_toggles::scopes::{resolve, toggle_word};

fn words(ws: &[&str]) -> Vec<String> {
    ws.iter().map(|w| w.to_string()).collect()
}

fn scope(extends: &[&str], toggles: &[&[&str]]) -> Scope {
    Scope { extends: words(extends), toggles: toggles.iter().map(|g| words(g)).collect() }
}

fn config(entries: &[(&str, Scope)]) -> Config {
    Config {
        entries: entries
            .iter()
            .map(|(name, s)| {
                (
                    name.to_string(),
                    Scope { extends: s.extends.clone(), toggles: s.toggles.clone() },
                )
            })
            .collect(),
    }
}

#[test]
fn next_word_advances() {
    let g = words(&["true", "false"]);
    assert_eq!(get_next_word(&g, &"true".to_string()), Some(&"false".to_string()));
}

#[test]
fn next_word_wraps_around() {
    let g = words(&["true", "false"]);
    assert_eq!(get_next_word(&g, &"false".to_string()), Some(&"true".to_string()));
}

#[test]
fn next_word_middle_position() {
    let g = words(&["left", "middle", "right"]);
    assert_eq!(get_next_word(&g, &"middle".to_string()), Some(&"right".to_string()));
}

#[test]
fn next_word_miss_is_none() {
    let g = words(&["true", "false"]);
    assert_eq!(get_next_word(&g, &"maybe".to_string()), None);
}

#[test]
fn next_word_singleton_self_cycle() {
    let g = words(&["only"]);
    assert_eq!(get_next_word(&g, &"only".to_string()), Some(&"only".to_string()));
}

#[test]
fn next_word_empty_group_is_none() {
    let g: Vec<String> = Vec::new();
    assert_eq!(get_next_word(&g, &"anything".to_string()), None);
}

#[test]
fn next_word_first_occurrence_decides() {
    let g = words(&["a", "b", "a", "c"]);
    assert_eq!(get_next_word(&g, &"a".to_string()), Some(&"b".to_string()));
}

#[test]
fn next_word_is_case_sensitive() {
    let g = words(&["True", "False"]);
    assert_eq!(get_next_word(&g, &"true".to_string()), None);
}

#[test]
fn round_trip_after_full_cycle() {
    let g = words(&["one", "two", "three"]);
    let mut w = "two".to_string();
    for _ in 0..g.len() {
        w = get_next_word(&g, &w).unwrap().clone();
    }
    assert_eq!(w, "two");
}

#[test]
fn scope_first_matching_group_decides() {
    let toggles = vec![words(&["a", "b"]), words(&["a", "c"])];
    assert_eq!(next_in_scope(&toggles, &"a".to_string()), Some(&"b".to_string()));
}

#[test]
fn scope_later_group_reached_on_miss() {
    let toggles = vec![words(&["a", "b"]), words(&["x", "y"])];
    assert_eq!(next_in_scope(&toggles, &"x".to_string()), Some(&"y".to_string()));
}

#[test]
fn scope_total_miss_is_none() {
    let toggles = vec![words(&["a", "b"])];
    assert_eq!(next_in_scope(&toggles, &"z".to_string()), None);
}

#[test]
fn config_lookup_finds_scope() {
    let cfg = config(&[("global", scope(&[], &[&["on", "off"]]))]);
    let s = cfg.lookup(&"global".to_string()).unwrap();
    assert_eq!(s.toggles, vec![words(&["on", "off"])]);
}

#[test]
fn config_lookup_missing_is_none() {
    let cfg = config(&[("global", scope(&[], &[]))]);
    assert!(cfg.lookup(&"python".to_string()).is_none());
}

#[test]
fn context_scope_takes_precedence() {
    let cfg = config(&[
        ("global", scope(&[], &[&["on", "off"]])),
        ("py", scope(&[], &[&["on", "disabled"]])),
    ]);
    let ctx = "py".to_string();
    assert_eq!(resolve(&cfg, Some(&ctx), &"on".to_string()), Some("disabled".to_string()));
    assert_eq!(resolve(&cfg, None, &"on".to_string()), Some("off".to_string()));
}

#[test]
fn no_context_consults_only_global() {
    let cfg = config(&[
        ("global", scope(&[], &[&["on", "off"]])),
        ("py", scope(&[], &[&["True", "False"]])),
    ]);
    assert_eq!(resolve(&cfg, None, &"True".to_string()), None);
    assert_eq!(toggle_word(&cfg, None, &"True".to_string()), "True");
}

#[test]
fn total_miss_passes_word_through() {
    let cfg = config(&[
        ("global", scope(&[], &[&["on", "off"]])),
        ("py", scope(&["global"], &[&["True", "False"]])),
    ]);
    let ctx = "py".to_string();
    assert_eq!(resolve(&cfg, Some(&ctx), &"maybe".to_string()), None);
    assert_eq!(toggle_word(&cfg, Some(&ctx), &"maybe".to_string()), "maybe");
}

#[test]
fn extension_reached_when_scope_misses() {
    let cfg = config(&[
        ("a", scope(&["b", "c"], &[])),
        ("b", scope(&[], &[&["x", "y"]])),
        ("c", scope(&[], &[])),
    ]);
    let ctx = "a".to_string();
    assert_eq!(resolve(&cfg, Some(&ctx), &"x".to_string()), Some("y".to_string()));
}

#[test]
fn later_extension_is_popped_first() {
    let cfg = config(&[
        ("a", scope(&["b", "c"], &[])),
        ("b", scope(&[], &[&["x", "from_b"]])),
        ("c", scope(&[], &[&["x", "from_c"]])),
    ]);
    let ctx = "a".to_string();
    assert_eq!(resolve(&cfg, Some(&ctx), &"x".to_string()), Some("from_c".to_string()));
}

#[test]
fn unknown_context_falls_back_to_global() {
    let cfg = config(&[("global", scope(&[], &[&["on", "off"]]))]);
    let ctx = "nosuch".to_string();
    assert_eq!(resolve(&cfg, Some(&ctx), &"on".to_string()), Some("off".to_string()));
}

#[test]
fn unknown_extension_is_skipped() {
    let cfg = config(&[
        ("global", scope(&[], &[&["on", "off"]])),
        ("py", scope(&["nosuch", "global"], &[])),
    ]);
    let ctx = "py".to_string();
    assert_eq!(resolve(&cfg, Some(&ctx), &"on".to_string()), Some("off".to_string()));
}

#[test]
fn extension_cycle_terminates() {
    let cfg = config(&[
        ("a", scope(&["b"], &[])),
        ("b", scope(&["a"], &[])),
        ("global", scope(&["a"], &[])),
    ]);
    let ctx = "a".to_string();
    assert_eq!(resolve(&cfg, Some(&ctx), &"w".to_string()), None);
    assert_eq!(toggle_word(&cfg, Some(&ctx), &"w".to_string()), "w");
}

#[test]
fn end_to_end_example() {
    let cfg = config(&[
        ("global", scope(&[], &[&["true", "false"]])),
        ("python", scope(&["global"], &[&["True", "False"]])),
    ]);
    let ctx = "python".to_string();
    assert_eq!(toggle_word(&cfg, Some(&ctx), &"True".to_string()), "False");
    assert_eq!(toggle_word(&cfg, Some(&ctx), &"true".to_string()), "false");
}

#[test]
fn hit_stops_before_lower_scopes() {
    let cfg = config(&[
        ("global", scope(&[], &[&["x", "from_global"]])),
        ("py", scope(&["global"], &[&["x", "from_py"]])),
    ]);
    let ctx = "py".to_string();
    assert_eq!(resolve(&cfg, Some(&ctx), &"x".to_string()), Some("from_py".to_string()));
}
