use profile_apply::manifest::{parse_manifest, ApplyError, ManifestError, ParsedManifest};
use profile_apply::template::{is_builtin_profile, BuiltinProfile, ProfileTemplate, TemplateValue};

const PACKAGE: &str = "[package]\nname = \"foo\"\nversion = \"0.1.0\"\nedition = \"2021\"\n";

fn fast_compile() -> ProfileTemplate {
    ProfileTemplate {
        inherits: BuiltinProfile::Dev,
        fields: vec![("debug".to_string(), TemplateValue::Integer(0))],
    }
}

fn fast_runtime() -> ProfileTemplate {
    ProfileTemplate {
        inherits: BuiltinProfile::Release,
        fields: vec![
            ("lto".to_string(), TemplateValue::Bool(true)),
            ("codegen-units".to_string(), TemplateValue::Integer(1)),
            ("panic".to_string(), TemplateValue::Text("abort".to_string())),
        ],
    }
}

fn min_size() -> ProfileTemplate {
    ProfileTemplate {
        inherits: BuiltinProfile::Release,
        fields: vec![
            ("debug".to_string(), TemplateValue::Integer(0)),
            ("strip".to_string(), TemplateValue::Bool(true)),
            ("lto".to_string(), TemplateValue::Bool(true)),
            ("opt-level".to_string(), TemplateValue::Text("z".to_string())),
            ("codegen-units".to_string(), TemplateValue::Integer(1)),
            ("panic".to_string(), TemplateValue::Text("abort".to_string())),
        ],
    }
}

fn parse(text: &str) -> ParsedManifest {
    match parse_manifest(text) {
        Ok(m) => m,
        Err(e) => panic!("manifest does not parse: {:?}", e),
    }
}

fn apply(text: &str, name: &str, template: ProfileTemplate) -> String {
    match parse(text).apply_profile(name, template) {
        Ok(m) => m.to_text(),
        Err(e) => panic!("template not applied: {:?}", e),
    }
}

#[test]
fn apply_explicit_manifest_path() {
    let input = format!("\n{}", PACKAGE);
    let out = apply(&input, "dev", fast_compile());
    assert_eq!(out, format!("\n{}\n[profile.dev]\ndebug = 0\n", PACKAGE));
}

#[test]
fn resolve_workspace_root() {
    let input = "\n[workspace]\nmembers = [\"bar\"]\n";
    let out = apply(input, "dev", fast_compile());
    assert_eq!(out, "\n[workspace]\nmembers = [\"bar\"]\n\n[profile.dev]\ndebug = 0\n");
}

#[test]
fn apply_missing_builtin() {
    let out = apply(PACKAGE, "dev", fast_compile());
    assert_eq!(out, format!("{}\n[profile.dev]\ndebug = 0\n", PACKAGE));
}

#[test]
fn apply_existing_builtin() {
    let input = format!("{}\n[profile.dev]\ndebug = 1\n", PACKAGE);
    let out = apply(&input, "dev", fast_compile());
    assert_eq!(out, format!("{}\n[profile.dev]\ndebug = 0\n", PACKAGE));
}

#[test]
fn apply_missing_custom() {
    let out = apply(PACKAGE, "custom1", fast_compile());
    assert_eq!(
        out,
        format!("{}\n[profile.custom1]\ninherits = \"dev\"\ndebug = 0\n", PACKAGE)
    );
}

#[test]
fn apply_existing_custom() {
    let input = format!("{}\n[profile.custom1]\ninherits = \"dev\"\ndebug = 1\n", PACKAGE);
    let out = apply(&input, "custom1", fast_compile());
    assert_eq!(
        out,
        format!("{}\n[profile.custom1]\ninherits = \"dev\"\ndebug = 0\n", PACKAGE)
    );
}

#[test]
fn apply_existing_keep_formatting() {
    let input = format!(
        "\n{}\n[profile.dev]\n\nlto =      \"thin\"\n\ndebug = 1   # Foo\n\ncodegen-units    = 10\n",
        PACKAGE
    );
    let out = apply(&input, "dev", fast_compile());
    assert_eq!(
        out,
        format!(
            "\n{}\n[profile.dev]\n\nlto =      \"thin\"\n\ndebug = 0   # Foo\n\ncodegen-units    = 10\n",
            PACKAGE
        )
    );
}

#[test]
fn apply_fast_runtime_template() {
    let out = apply(PACKAGE, "custom", fast_runtime());
    assert_eq!(
        out,
        format!(
            "{}\n[profile.custom]\ninherits = \"release\"\nlto = true\ncodegen-units = 1\npanic = \"abort\"\n",
            PACKAGE
        )
    );
}

#[test]
fn apply_min_size_template() {
    let out = apply(PACKAGE, "custom", min_size());
    assert_eq!(
        out,
        format!(
            "{}\n[profile.custom]\ninherits = \"release\"\ndebug = 0\nstrip = true\nlto = true\nopt-level = \"z\"\ncodegen-units = 1\npanic = \"abort\"\n",
            PACKAGE
        )
    );
}

#[test]
fn empty_manifest_gets_profile_section() {
    let out = apply("", "dev", fast_compile());
    assert_eq!(out, "[profile.dev]\ndebug = 0\n");
}

#[test]
fn custom_inherits_inserted_before_existing_keys() {
    let input = "[profile.custom1]\nopt-level = 1 # keep\ndebug = 1\n";
    let out = apply(input, "custom1", fast_compile());
    assert_eq!(
        out,
        "[profile.custom1]\ninherits = \"dev\"\nopt-level = 1 # keep\ndebug = 0\n"
    );
}

#[test]
fn custom_inherits_kept_where_present() {
    let input = "[profile.custom1]\ndebug = 1\ninherits   =  \"release\" # mine\n";
    let out = apply(input, "custom1", fast_compile());
    assert_eq!(out, "[profile.custom1]\ndebug = 0\ninherits   =  \"release\" # mine\n");
}

#[test]
fn builtin_release_gets_no_inherits() {
    let out = apply("", "release", fast_runtime());
    assert_eq!(out, "[profile.release]\nlto = true\ncodegen-units = 1\npanic = \"abort\"\n");
}

#[test]
fn untouched_manifest_round_trips() {
    let input = "# top\n[package]\nname    = \"foo\" # n\n\n[profile.dev]\nopt-level = 1\n";
    assert_eq!(parse(input).to_text(), input);
}

#[test]
fn applying_twice_changes_nothing_more() {
    let input = "[package]\nname = \"foo\"\n\n[profile.dev]\n\ndebug = 1   # Foo\nlto = \"thin\"\n";
    let once = apply(input, "custom", min_size());
    let twice = apply(&once, "custom", min_size());
    assert_eq!(once, twice);
    let once_dev = apply(input, "dev", min_size());
    assert_eq!(apply(&once_dev, "dev", min_size()), once_dev);
}

#[test]
fn unrelated_profiles_kept() {
    let input = "[profile.release]\nlto = \"fat\"\n\n[profile.dev]\ndebug = 2\n";
    let out = apply(input, "dev", fast_compile());
    assert_eq!(out, "[profile.release]\nlto = \"fat\"\n\n[profile.dev]\ndebug = 0\n");
}

#[test]
fn profile_not_a_table() {
    let m = parse("profile = 3\n");
    assert!(matches!(m.apply_profile("dev", fast_compile()), Err(ApplyError::ProfileNotTable)));
    let m = parse("[[profile]]\ndev = 1\n");
    assert!(matches!(m.apply_profile("dev", fast_compile()), Err(ApplyError::ProfileNotTable)));
}

#[test]
fn named_profile_not_a_table() {
    let m = parse("[profile]\ndev = 1\n");
    match m.apply_profile("dev", fast_compile()) {
        Err(ApplyError::NamedProfileNotTable(name)) => assert_eq!(name, "dev"),
        _ => panic!("expected an error on profile.dev"),
    }
}

#[test]
fn malformed_manifest_is_refused() {
    assert!(matches!(parse_manifest("[package\nname = 1\n"), Err(ManifestError::Parse(_))));
}

#[test]
fn snapshot_lists_profile_tables() {
    let m = parse("[profile]\nplain = 1\n\n[profile.dev]\ndebug = 1\nlto = true\n\n[profile.custom]\ninherits = \"dev\"\n");
    let profiles = m.profiles();
    assert_eq!(profiles.len(), 2);
    assert_eq!(profiles[0].name(), "dev");
    let keys: Vec<&str> = profiles[0].items().iter().map(|(k, _)| k.as_str()).collect();
    assert_eq!(keys, vec!["debug", "lto"]);
    assert_eq!(profiles[1].name(), "custom");
    assert_eq!(profiles[1].items().len(), 1);
}

#[test]
fn snapshot_empty_without_profile_table() {
    assert_eq!(parse(PACKAGE).profiles().len(), 0);
}

#[test]
fn builtin_names() {
    assert!(is_builtin_profile("dev"));
    assert!(is_builtin_profile("release"));
    assert!(!is_builtin_profile("custom1"));
    assert!(!is_builtin_profile("develop"));
    assert!(!is_builtin_profile(""));
    assert_eq!(BuiltinProfile::Dev.name(), "dev");
    assert_eq!(BuiltinProfile::Release.name(), "release");
}

#[test]
fn snapshot_skips_scalar_children() {
    let m = parse("[profile]\nopt-level = 1\n\n[profile.dev]\ndebug = 1\n\n[profile.release]\nlto = true\n");
    let profiles = m.profiles();
    assert_eq!(profiles.len(), 2);
    assert_eq!(profiles[0].name(), "dev");
    assert_eq!(profiles[1].name(), "release");
    assert_eq!(profiles[0].items().len(), 1);
    assert_eq!(profiles[0].items()[0].0, "debug");
    assert_eq!(profiles[1].items()[0].0, "lto");
}

#[test]
fn snapshot_empty_when_profile_not_a_table() {
    for text in [
        "profile = 1\n",
        "profile = [1, 2]\n",
        "[[profile]]\ndev = 1\n",
        "profile = { dev = { debug = 1 } }\n",
    ] {
        assert_eq!(parse(text).profiles().len(), 0, "{}", text);
    }
}

#[test]
fn unclosed_header_is_refused() {
    assert!(matches!(parse_manifest("[profile.dev\ndebug = 1\n"), Err(ManifestError::Parse(_))));
}

#[test]
fn custom_keeps_key_formatting_of_moved_keys() {
    let input = "[profile.custom1]\n\n# speed\nopt-level   = 3\n\ndebug = 1   # Foo\n";
    let out = apply(input, "custom1", fast_compile());
    assert_eq!(
        out,
        "[profile.custom1]\ninherits = \"dev\"\n\n# speed\nopt-level   = 3\n\ndebug = 0   # Foo\n"
    );
}
