use doc::catalog::Config;
use doc::entry::{Doc, OpenOption};
use doc::error::{DocError, DocErrorKind};
use doc::log::Log;
use doc::resolver::{build_search_url, resolve, subst_template, trim_slice, Resolution};

fn doc_with(url: &str, full: Option<&str>) -> Doc {
    Doc {
        full: full.map(|s| s.to_string()),
        url: url.to_string(),
        rep: None,
        play: None,
        search: None,
    }
}

fn rust_catalog() -> Config {
    let mut c = Config::new_empty();
    c.insert_or_replace(
        "rust".to_string(),
        doc_with("https://rust-lang.org", Some("Rust Lang")),
    );
    c
}

#[test]
fn insert_then_lookup_returns_stored_descriptor() {
    let c = rust_catalog();
    let d = c.lookup_exact("rust").expect("entry must be present");
    assert_eq!(d, &doc_with("https://rust-lang.org", Some("Rust Lang")));
    assert_eq!(c.find("rust"), Some(&doc_with("https://rust-lang.org", Some("Rust Lang"))));
}

#[test]
fn resolve_exact_match() {
    let c = rust_catalog();
    match resolve(&c, "rust") {
        Resolution::Found(k, d) => {
            assert_eq!(k, "rust");
            assert_eq!(d.url, "https://rust-lang.org");
        }
        _ => panic!("expected Found"),
    }
}

#[test]
fn resolve_alias_match() {
    let c = rust_catalog();
    match resolve(&c, "Rust Lang") {
        Resolution::FoundByAlias(k, d) => {
            assert_eq!(k, "rust");
            assert_eq!(d.full.as_deref(), Some("Rust Lang"));
        }
        _ => panic!("expected FoundByAlias"),
    }
}

#[test]
fn resolve_suggestion_by_first_character() {
    let c = rust_catalog();
    match resolve(&c, "r") {
        Resolution::Suggestions(list) => {
            assert_eq!(list.len(), 1);
            assert_eq!(list[0].0, "rust");
            assert_eq!(list[0].1.url, "https://rust-lang.org");
        }
        _ => panic!("expected Suggestions"),
    }
}

#[test]
fn alias_match_is_case_sensitive() {
    let c = rust_catalog();
    match resolve(&c, "rust lang") {
        Resolution::Suggestions(list) => {
            // the lowercase query is no alias hit; it degrades to a
            // suggestion on its first character
            assert_eq!(list.len(), 1);
            assert_eq!(list[0].0, "rust");
        }
        _ => panic!("a lowercased alias must not match"),
    }
}

#[test]
fn resolve_empty_name_suggests_everything() {
    let mut c = rust_catalog();
    c.insert_or_replace("go".to_string(), doc_with("https://go.dev", None));
    match resolve(&c, "") {
        Resolution::Suggestions(list) => {
            assert_eq!(list.len(), 2);
            assert_eq!(list[0].0, "go");
            assert_eq!(list[1].0, "rust");
        }
        _ => panic!("expected Suggestions"),
    }
}

#[test]
fn resolve_no_match_gives_empty_suggestions() {
    let c = rust_catalog();
    match resolve(&c, "zig") {
        Resolution::Suggestions(list) => assert!(list.is_empty()),
        _ => panic!("expected empty Suggestions"),
    }
}

#[test]
fn alias_lookup_prefers_first_key_in_sorted_order() {
    let mut c = Config::new_empty();
    c.insert_or_replace("zzz".to_string(), doc_with("https://z.example", Some("Shared")));
    c.insert_or_replace("aaa".to_string(), doc_with("https://a.example", Some("Shared")));
    let (k, d) = c.lookup_by_alias("Shared").expect("alias must match");
    assert_eq!(k, "aaa");
    assert_eq!(d.url, "https://a.example");
}

#[test]
fn merge_scenario_remote_wins_and_adds() {
    let mut local = Config::new_empty();
    local.insert_or_replace("a".to_string(), doc_with("https://x.example", None));
    let mut remote = Config::new_empty();
    remote.insert_or_replace("a".to_string(), doc_with("https://y.example", None));
    remote.insert_or_replace("b".to_string(), doc_with("https://z.example", None));
    let merged = local.merge(&remote);
    let entries = merged.walk_config();
    assert_eq!(entries.len(), 2);
    assert_eq!(entries[0].0, "a");
    assert_eq!(entries[0].1, doc_with("https://y.example", None));
    assert_eq!(entries[1].0, "b");
    assert_eq!(entries[1].1, doc_with("https://z.example", None));
}

#[test]
fn merge_with_itself_changes_nothing() {
    let mut c = rust_catalog();
    c.insert_or_replace("go".to_string(), doc_with("https://go.dev", None));
    let merged = c.merge(&c);
    assert_eq!(merged.walk_config(), c.walk_config());
}

#[test]
fn merge_keeps_local_only_keys() {
    let mut local = Config::new_empty();
    local.insert_or_replace("only".to_string(), doc_with("https://only.example", None));
    local.insert_or_replace("both".to_string(), doc_with("https://local.example", None));
    let mut remote = Config::new_empty();
    remote.insert_or_replace("both".to_string(), doc_with("https://remote.example", None));
    let merged = local.merge(&remote);
    assert_eq!(
        merged.lookup_exact("only"),
        Some(&doc_with("https://only.example", None))
    );
    assert_eq!(
        merged.lookup_exact("both"),
        Some(&doc_with("https://remote.example", None))
    );
}

#[test]
fn merge_replaces_whole_descriptor_without_blending() {
    let mut local = Config::new_empty();
    let mut rich = doc_with("https://local.example", Some("Local"));
    rich.play = Some("https://play.local.example".to_string());
    local.insert_or_replace("k".to_string(), rich);
    let mut remote = Config::new_empty();
    remote.insert_or_replace("k".to_string(), doc_with("https://remote.example", None));
    let merged = local.merge(&remote);
    let d = merged.lookup_exact("k").unwrap();
    assert_eq!(d.url, "https://remote.example");
    assert_eq!(d.play, None);
    assert_eq!(d.full, None);
}

#[test]
fn walk_config_iterates_in_sorted_key_order() {
    let mut c = Config::new_empty();
    c.insert_or_replace("b".to_string(), doc_with("https://b.example", None));
    c.insert_or_replace("c".to_string(), doc_with("https://c.example", None));
    c.insert_or_replace("a".to_string(), doc_with("https://a.example", None));
    let keys: Vec<String> = c.walk_config().into_iter().map(|p| p.0).collect();
    assert_eq!(keys, vec!["a".to_string(), "b".to_string(), "c".to_string()]);
}

#[test]
fn printed_name_includes_full_name() {
    let d = doc_with("https://rust-lang.org", Some("Rust Lang"));
    assert_eq!(d.get_printed_name("rust"), "rust(Rust Lang)");
    let bare = doc_with("https://rust-lang.org", None);
    assert_eq!(bare.get_printed_name("rust"), "rust");
}

#[test]
fn contains_searches_the_display_label() {
    let d = doc_with("https://rust-lang.org", Some("Rust Lang"));
    assert!(d.contains("rust", "st(Ru"));
    assert!(d.contains("rust", ""));
    assert!(!d.contains("rust", "RUST"));
}

#[test]
fn target_url_prefers_requested_destination() {
    let mut d = doc_with("https://main.example", None);
    d.rep = Some("https://repo.example".to_string());
    d.play = Some("https://play.example".to_string());
    assert_eq!(d.target_url(&OpenOption { rep: true, play: false }), "https://repo.example");
    assert_eq!(d.target_url(&OpenOption { rep: false, play: true }), "https://play.example");
    assert_eq!(d.target_url(&OpenOption { rep: false, play: false }), "https://main.example");
    let bare = doc_with("https://main.example", None);
    assert_eq!(bare.target_url(&OpenOption { rep: true, play: true }), "https://main.example");
}

#[test]
fn view_renders_entry_plain_and_detailed() {
    let mut c = Config::new_empty();
    let mut d = doc_with("https://rust-lang.org", Some("Rust Lang"));
    d.play = Some("https://play.rust-lang.org".to_string());
    c.insert_or_replace("rust".to_string(), d);
    assert_eq!(
        c.view("rust", false),
        Some("rust(Rust Lang): https://rust-lang.org".to_string())
    );
    assert_eq!(
        c.view("rust", true),
        Some(
            "rust(Rust Lang) url: https://rust-lang.org rep: -- play: https://play.rust-lang.org search: --"
                .to_string()
        )
    );
    assert_eq!(c.view("absent", false), None);
}

#[test]
fn search_url_uses_entry_template() {
    let template = "https://docs.rs/{}".to_string();
    let content = "serde".to_string();
    let url = build_search_url(Some(&template), "rust", Some(&content));
    assert_eq!(url, "https://docs.rs/serde");
}

#[test]
fn search_url_falls_back_to_generic_engine() {
    let url = build_search_url(None, "rust", None);
    assert_eq!(url, "https://www.google.com/search?q=rust");
    let content = "lifetimes".to_string();
    let url2 = build_search_url(None, "rust", Some(&content));
    assert_eq!(url2, "https://www.google.com/search?q=rust lifetimes");
}

#[test]
fn trim_strips_surrounding_whitespace_only() {
    assert_eq!(trim_slice("  a b \t\n"), "a b");
    assert_eq!(trim_slice(""), "");
    assert_eq!(trim_slice("   "), "");
    assert_eq!(trim_slice("x"), "x");
}

#[test]
fn substitution_fills_only_the_first_slot() {
    assert_eq!(subst_template("x{}y{}", "Z"), "xZy{}");
    assert_eq!(subst_template("no slot", "Z"), "no slot");
    assert_eq!(subst_template("{}", "Z"), "Z");
}

#[test]
fn log_renders_with_severity_prefix() {
    assert_eq!(Log::Error("boom").to_string(), "error: boom");
    assert_eq!(Log::Warn("careful").to_string(), "warning: careful");
    assert_eq!(Log::Suc("done").to_string(), "success: done");
    assert_eq!(Log::Info("plain").to_string(), "plain");
}

#[test]
fn doc_error_carries_kind_and_description() {
    let e = DocError::new(DocErrorKind::Transport, "connection refused");
    assert_eq!(e.kind, DocErrorKind::Transport);
    assert_eq!(e.des, "connection refused");
    assert_ne!(e.kind, DocErrorKind::Parse);
}
