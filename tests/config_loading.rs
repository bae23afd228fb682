use projectstructure::config::{choose_manifest, manifest_extension, parse_config, parse_env, ProjectConfig};

fn check(c: &ProjectConfig, name: &str, version: &str, description: &str) {
    assert_eq!(c.name, name);
    assert_eq!(c.version, version);
    assert_eq!(c.description, description);
}

#[test]
fn default_metadata() {
    let c = ProjectConfig::default();
    check(&c, "Default Project Name", "1.0.0", "Default Project Description");
}

#[test]
fn unrecognized_extension_gives_default() {
    let c = parse_config("name=x", "txt");
    check(&c, "Default Project Name", "1.0.0", "Default Project Description");
}

#[test]
fn json_with_version_only() {
    let c = parse_config("{\"version\":\"2.0.0\"}", "json");
    check(&c, "Default Project Name", "2.0.0", "Default Project Description");
}

#[test]
fn json_all_fields() {
    let c = parse_config("{\"name\":\"tool\",\"version\":\"0.3.1\",\"description\":\"A tool\"}", "json");
    check(&c, "tool", "0.3.1", "A tool");
}

#[test]
fn json_non_string_and_invalid() {
    let c = parse_config("{\"name\":5}", "json");
    check(&c, "Default Project Name", "1.0.0", "Default Project Description");
    let c = parse_config("{not json", "json");
    check(&c, "Default Project Name", "1.0.0", "Default Project Description");
}

#[test]
fn toml_package_table() {
    let text = "[package]\nname = \"demo\"\nversion = \"0.1.0\"\ndescription = \"Demo crate\"\n";
    let c = parse_config(text, "toml");
    check(&c, "demo", "0.1.0", "Demo crate");
}

#[test]
fn toml_missing_fields_and_invalid() {
    let c = parse_config("[package]\nname = \"demo\"\n", "toml");
    check(&c, "demo", "1.0.0", "Default Project Description");
    let c = parse_config("name = \"top\"\n", "toml");
    check(&c, "top", "1.0.0", "Default Project Description");
    let c = parse_config("version = \"5\"\n[package]\nname = \"pkg\"\n", "toml");
    check(&c, "pkg", "1.0.0", "Default Project Description");
    let c = parse_config("name = 3\n", "toml");
    check(&c, "Default Project Name", "1.0.0", "Default Project Description");
    let c = parse_config("[package\nname=", "toml");
    check(&c, "Default Project Name", "1.0.0", "Default Project Description");
}

#[test]
fn env_lines() {
    let c = parse_env("name=app\nversion=3.2.1\nunknown=1\nnoequals\ndescription=a=b");
    check(&c, "app", "3.2.1", "a=b");
    let c = parse_config("version=9\nversion=10\n", "env");
    check(&c, "Default Project Name", "10", "Default Project Description");
}

#[test]
fn env_empty_text() {
    let c = parse_env("");
    check(&c, "Default Project Name", "1.0.0", "Default Project Description");
}

#[test]
fn manifest_extensions() {
    assert_eq!(manifest_extension("Cargo.toml"), Some("toml".to_string()));
    assert_eq!(manifest_extension("package.json"), Some("json".to_string()));
    assert_eq!(manifest_extension("prod.env"), Some("env".to_string()));
    assert_eq!(manifest_extension(".env"), None);
    assert_eq!(manifest_extension("notes.txt"), None);
    assert_eq!(manifest_extension("archive.toml.bak"), None);
    assert_eq!(manifest_extension("README"), None);
}

fn names(v: &[&str]) -> Vec<String> {
    v.iter().map(|s| s.to_string()).collect()
}

#[test]
fn manifest_choice_order() {
    assert_eq!(choose_manifest(&names(&["a.json", "package.json", "Cargo.toml"])), Some(2));
    assert_eq!(choose_manifest(&names(&["a.env", "package.json", "b.toml"])), Some(1));
    assert_eq!(choose_manifest(&names(&["README.md", "x.env", "y.toml"])), Some(1));
}

#[test]
fn no_manifest_means_defaults() {
    assert_eq!(choose_manifest(&names(&["README.md", ".env", "main.rs"])), None);
    assert_eq!(choose_manifest(&Vec::new()), None);
    let c = ProjectConfig::default();
    check(&c, "Default Project Name", "1.0.0", "Default Project Description");
}
