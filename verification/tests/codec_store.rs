use doc::catalog::Config;
use doc::codec::parse_config;
use doc::entry::Doc;
use doc::error::DocErrorKind;
use doc::store::{default_config, default_path, load_text, plan_init};

fn entry(url: &str, full: Option<&str>) -> Doc {
    Doc {
        full: full.map(|s| s.to_string()),
        url: url.to_string(),
        rep: None,
        play: None,
        search: None,
    }
}

#[test]
fn save_then_load_round_trips() {
    let mut c = Config::new_empty();
    let mut d = entry("https://rust-lang.org", Some("Rust Lang"));
    d.search = Some("https://docs.rs/{}".to_string());
    c.insert_or_replace("rust".to_string(), d);
    c.insert_or_replace("go".to_string(), entry("https://go.dev", None));
    let text = c.save_text();
    let back = parse_config(&text).expect("saved text must parse");
    assert_eq!(back.walk_config(), c.walk_config());
}

#[test]
fn save_then_load_round_trips_special_characters() {
    let mut c = Config::new_empty();
    let mut d = entry("https://example.com/?q=\"quoted\"", Some("line\nbreak"));
    d.rep = Some("back\\slash".to_string());
    c.insert_or_replace("odd\"key".to_string(), d);
    let text = c.save_text();
    let back = parse_config(&text).expect("escaped text must parse");
    assert_eq!(back.walk_config(), c.walk_config());
}

#[test]
fn saving_an_empty_catalog_writes_a_loadable_template() {
    let c = Config::new_empty();
    let text = c.save_text();
    assert!(!text.is_empty());
    let back = parse_config(&text).expect("the template must parse");
    assert_eq!(back.walk_config(), default_config().walk_config());
    assert_eq!(back.walk_config().len(), 1);
    assert_eq!(back.walk_config()[0].0, "rust");
}

#[test]
fn parse_reads_a_literal_config() {
    let text = "[map.\"rust\"]\nurl = \"https://rust-lang.org\"\nfull = \"Rust Lang\"\n";
    let c = parse_config(text).expect("well-formed text must parse");
    let entries = c.walk_config();
    assert_eq!(entries.len(), 1);
    assert_eq!(entries[0].0, "rust");
    assert_eq!(entries[0].1, entry("https://rust-lang.org", Some("Rust Lang")));
}

#[test]
fn parse_accepts_blank_lines_and_any_field_order() {
    let text = "\n[map.\"a\"]\nfull = \"A\"\nurl = \"https://a.example\"\n\n[map.\"b\"]\nurl = \"https://b.example\"\n";
    let c = parse_config(text).expect("must parse");
    let entries = c.walk_config();
    assert_eq!(entries.len(), 2);
    assert_eq!(entries[0].1, entry("https://a.example", Some("A")));
    assert_eq!(entries[1].1, entry("https://b.example", None));
}

#[test]
fn parse_of_empty_text_is_an_empty_catalog() {
    let c = parse_config("").expect("empty text is an empty catalog");
    assert!(c.walk_config().is_empty());
    assert_eq!(c.loc, None);
}

#[test]
fn parse_rejects_garbage() {
    let e = parse_config("not a config").expect_err("must fail");
    assert_eq!(e.kind, DocErrorKind::Parse);
}

#[test]
fn parse_rejects_duplicate_keys() {
    let text = "[map.\"a\"]\nurl = \"x\"\n[map.\"a\"]\nurl = \"y\"\n";
    let e = parse_config(text).expect_err("duplicate keys are malformed");
    assert_eq!(e.kind, DocErrorKind::Parse);
}

#[test]
fn parse_rejects_a_section_without_url() {
    let text = "[map.\"a\"]\nfull = \"A\"\n";
    let e = parse_config(text).expect_err("the url is required");
    assert_eq!(e.kind, DocErrorKind::Parse);
}

#[test]
fn parse_rejects_a_field_before_any_section() {
    let text = "url = \"https://a.example\"\n";
    let e = parse_config(text).expect_err("a field needs a section");
    assert_eq!(e.kind, DocErrorKind::Parse);
}

#[test]
fn parse_rejects_an_unterminated_value() {
    let text = "[map.\"a\"]\nurl = \"open\n";
    let e = parse_config(text).expect_err("the quote must close");
    assert_eq!(e.kind, DocErrorKind::Parse);
}

#[test]
fn parse_keeps_a_leading_loc_note() {
    let text = "loc = \"/tmp/some.toml\"\n[map.\"a\"]\nurl = \"https://a.example\"\n";
    let c = parse_config(text).expect("must parse");
    assert_eq!(c.loc, Some("/tmp/some.toml".to_string()));
    assert_eq!(c.walk_config().len(), 1);
}

#[test]
fn parse_orders_entries_by_key() {
    let text = "[map.\"b\"]\nurl = \"https://b.example\"\n[map.\"a\"]\nurl = \"https://a.example\"\n";
    let c = parse_config(text).expect("must parse");
    let keys: Vec<String> = c.walk_config().into_iter().map(|p| p.0).collect();
    assert_eq!(keys, vec!["a".to_string(), "b".to_string()]);
}

#[test]
fn load_text_records_the_backing_path() {
    let text = "[map.\"a\"]\nurl = \"https://a.example\"\n";
    let c = load_text(text, "/home/user/.doc.toml").expect("must parse");
    assert_eq!(c.loc, Some("/home/user/.doc.toml".to_string()));
}

#[test]
fn default_path_joins_the_home_directory() {
    assert_eq!(default_path(Some("/home/user")).unwrap(), "/home/user/.doc.toml");
    let e = default_path(None).expect_err("no home directory");
    assert_eq!(e.kind, DocErrorKind::NotFound);
}

#[test]
fn init_merge_wins_over_force() {
    let mut local = Config::new_empty();
    local.insert_or_replace("a".to_string(), entry("https://local.example", None));
    let mut remote = Config::new_empty();
    remote.insert_or_replace("b".to_string(), entry("https://remote.example", None));
    let planned = plan_init(Some(&local), Some(&remote), true, true);
    let keys: Vec<String> = planned.walk_config().into_iter().map(|p| p.0).collect();
    assert_eq!(keys, vec!["a".to_string(), "b".to_string()]);
}

#[test]
fn init_force_without_merge_replaces_wholesale() {
    let mut local = Config::new_empty();
    local.insert_or_replace("a".to_string(), entry("https://local.example", None));
    let mut remote = Config::new_empty();
    remote.insert_or_replace("b".to_string(), entry("https://remote.example", None));
    let planned = plan_init(Some(&local), Some(&remote), true, false);
    assert_eq!(planned.walk_config(), remote.walk_config());
}

#[test]
fn init_without_directives_keeps_the_local_catalog() {
    let mut local = Config::new_empty();
    local.insert_or_replace("a".to_string(), entry("https://local.example", None));
    let planned = plan_init(Some(&local), None, false, false);
    assert_eq!(planned.walk_config(), local.walk_config());
}

#[test]
fn init_without_a_local_catalog_starts_from_the_remote_one() {
    let mut remote = Config::new_empty();
    remote.insert_or_replace("b".to_string(), entry("https://remote.example", None));
    let planned = plan_init(None, Some(&remote), false, false);
    assert_eq!(planned.walk_config(), remote.walk_config());
    let fresh = plan_init(None, None, false, false);
    assert!(fresh.walk_config().is_empty());
}
