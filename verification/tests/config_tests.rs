use totalrecall::config::{
    choose_root, config_root_of, fingerprint_verdict, is_usable_zone, parse_toml_value,
    parse_utc_offset, tilde_form, Config, ConfigArgs, FingerprintRead, InitFingerprint, TildeForm,
};

fn some(s: &str) -> Option<String> {
    Some(s.to_string())
}

#[test]
fn the_flag_wins_then_the_environment() {
    let flag = ConfigArgs { cli_root: some("/a") };
    assert_eq!(choose_root(&flag, &some("/b"), &None), Ok(some("/a")));
    let none = ConfigArgs { cli_root: None };
    assert_eq!(choose_root(&none, &some("/b"), &some("/b")), Ok(some("/b")));
    assert_eq!(choose_root(&none, &some("  "), &some("/c")), Ok(some("/c")));
    assert_eq!(choose_root(&none, &None, &None), Ok(None));
    assert!(choose_root(&flag, &some("/b"), &some("/c")).is_err());
    assert!(choose_root(&ConfigArgs { cli_root: some(" ") }, &None, &None).is_err());
}

#[test]
fn toml_values_are_quoted_or_bare() {
    assert_eq!(parse_toml_value(" \"~/mem\" # comment"), some("~/mem"));
    assert_eq!(parse_toml_value(" '/x y' "), some("/x y"));
    assert_eq!(parse_toml_value(" /bare # c"), some("/bare"));
    assert_eq!(parse_toml_value(" \"open"), None);
    assert_eq!(parse_toml_value(" \"\" "), None);
    assert_eq!(parse_toml_value(" # only"), None);
}

#[test]
fn the_config_file_has_one_key() {
    let text = "# config\nother = 1\nmalformed\n root = \"~/dev/mem\"\nroot = \"/later\"\n";
    assert_eq!(config_root_of(text), some("~/dev/mem"));
    assert_eq!(config_root_of("roots = 1\n"), None);
    assert_eq!(config_root_of("root = \"\"\nroot = \"/x\"\n"), None);
}

#[test]
fn tilde_forms() {
    assert!(matches!(tilde_form(" ~ "), TildeForm::Home));
    assert!(matches!(tilde_form("~/dev/x"), TildeForm::UnderHome(ref r) if r == "dev/x"));
    assert!(matches!(tilde_form("~x"), TildeForm::Plain(ref r) if r == "~x"));
    assert!(matches!(tilde_form(" /abs "), TildeForm::Plain(ref r) if r == "/abs"));
}

#[test]
fn utc_offsets_are_signed_minutes() {
    assert_eq!(parse_utc_offset("+0200\n"), Ok(120));
    assert_eq!(parse_utc_offset("-0530"), Ok(-330));
    assert_eq!(parse_utc_offset("+1400"), Ok(840));
    assert!(parse_utc_offset("+1500").is_err());
    assert!(parse_utc_offset("+0260").is_err());
    assert!(parse_utc_offset("0200").is_err());
    assert!(parse_utc_offset("+02:00").is_err());
}

#[test]
fn zone_names_must_be_relative() {
    assert!(is_usable_zone("America/New_York"));
    assert!(!is_usable_zone(""));
    assert!(!is_usable_zone("/etc/localtime"));
    assert!(!is_usable_zone("../x"));
}

fn fp(root: &str, tz: &str, off: i64) -> FingerprintRead {
    FingerprintRead::Found(InitFingerprint {
        root: root.to_string(),
        tz: tz.to_string(),
        tz_offset_minutes: off,
        created_at: "2026-09-13T00:00:00Z".to_string(),
    })
}

#[test]
fn the_fingerprint_keys_the_root_to_its_zone() {
    let root = "/r".to_string();
    let tz = "UTC".to_string();
    assert_eq!(fingerprint_verdict(&FingerprintRead::Missing, &root, &tz, 0, "/r/.state/init.json"), Ok(true));
    assert_eq!(fingerprint_verdict(&fp("/r", "UTC", 0), &root, &tz, 0, "p"), Ok(false));
    assert!(fingerprint_verdict(&fp("/q", "UTC", 0), &root, &tz, 0, "p").is_err());
    let e = fingerprint_verdict(&fp("/r", "UTC", 0), &root, &"Europe/Paris".to_string(), 60, "p")
        .err()
        .unwrap();
    assert!(e.contains("records timezone 'UTC' (UTC offset 0 min, created 2026-09-13T00:00:00Z) but this box now resolves 'Europe/Paris' (UTC offset 60 min)"));
    assert!(fingerprint_verdict(&FingerprintRead::Unreadable, &root, &tz, 0, "p").is_err());
}

#[test]
fn test_default_config_paths() {
    let config = Config::default();

    assert!(config.memory_dir.ends_with(".total-recall"));
    assert!(config.db_path.ends_with(".total-recall/memory.db"));
}

#[test]
fn test_embedding_model() {
    let config = Config::default();
    assert_eq!(config.embedding.model, "Snowflake/snowflake-arctic-embed-l-v2.0");
    assert_eq!(config.embedding.model_path, "/data/models/embed");
    assert_eq!(config.embedding.dimension, 1024);
}

#[test]
fn test_search_limit() {
    let config = Config::default();
    assert_eq!(config.search.default_limit, 10);
    assert_eq!(config.search.max_limit, 100);
}
