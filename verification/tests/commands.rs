use goto::commands::{
    add_alias, add_namespace, find_namespace_index, find_namespace_or_alias_index, remove_alias,
    remove_namespace, rename_namespace, rename_unchanged, set_namespace_path, EditError,
};
use goto::config::{ConfigFile, NamespaceDef};

fn def(name: &str, path: &str, aliases: Option<Vec<&str>>) -> NamespaceDef {
    NamespaceDef {
        name: name.to_string(),
        path: path.to_string(),
        aliases: aliases.map(|v| v.into_iter().map(|s| s.to_string()).collect()),
    }
}

fn names(cfg: &ConfigFile) -> Vec<String> {
    cfg.namespace.iter().map(|d| d.name.clone()).collect()
}

fn sample() -> ConfigFile {
    ConfigFile {
        namespace: vec![def("gh", "/g", Some(vec!["github"])), def("work", "/w", None)],
    }
}

#[test]
fn find_indices() {
    let cfg = sample();
    assert_eq!(find_namespace_index(&cfg, "WORK"), Some(1));
    assert_eq!(find_namespace_index(&cfg, "github"), None);
    assert_eq!(find_namespace_or_alias_index(&cfg, "GitHub"), Some(0));
    assert_eq!(find_namespace_or_alias_index(&cfg, "nope"), None);
}

#[test]
fn add_sorts_and_reports() {
    let out = add_namespace(sample(), "Alpha", "/a", vec![]).expect("added");
    let cfg = out.config.expect("changed");
    assert_eq!(names(&cfg), vec!["Alpha", "gh", "work"]);
    assert_eq!(cfg.namespace[0].aliases, None);
    assert_eq!(out.message, "added namespace 'Alpha'");
}

#[test]
fn add_existing_name_fails() {
    let err = add_namespace(sample(), "GH", "/x", vec![]).expect_err("exists");
    assert_eq!(err.message(), "namespace already exists: GH");
}

#[test]
fn add_invalid_alias_fails() {
    let err = add_namespace(sample(), "new", "/n", vec!["GitHub".to_string()]).expect_err("dup alias");
    assert!(matches!(err, EditError::Invalid(_)));
    assert_eq!(err.message(), "duplicate alias across namespaces: GitHub");
}

#[test]
fn add_then_remove_restores() {
    let cfg = sample();
    let added = add_namespace(cfg, "mid", "/m", vec!["m".to_string()]).unwrap().config.unwrap();
    assert_eq!(names(&added), vec!["gh", "mid", "work"]);
    let removed = remove_namespace(added, "MID").unwrap();
    assert_eq!(removed.message, "removed namespace 'mid'");
    assert_eq!(names(&removed.config.unwrap()), vec!["gh", "work"]);
}

#[test]
fn remove_by_alias_and_errors() {
    let out = remove_namespace(sample(), "github").unwrap();
    assert_eq!(names(&out.config.unwrap()), vec!["work"]);
    let err = remove_namespace(sample(), "nope").expect_err("unknown");
    assert_eq!(err.message(), "unknown namespace or alias: nope");
    let single = ConfigFile { namespace: vec![def("only", "/o", None)] };
    let err = remove_namespace(single, "only").expect_err("last");
    assert_eq!(err.message(), "cannot remove last namespace; config must contain at least one");
}

#[test]
fn rename_cases() {
    assert_eq!(rename_unchanged("gh", "GH"), Some("namespace already named 'GH'; nothing changed".to_string()));
    assert_eq!(rename_unchanged("gh", "hub"), None);
    let same = rename_namespace(sample(), "gh", "Gh").unwrap();
    assert!(same.config.is_none());
    let out = rename_namespace(sample(), "GH", "zz").unwrap();
    assert_eq!(out.message, "renamed namespace 'gh' -> 'zz'");
    let cfg = out.config.unwrap();
    assert_eq!(names(&cfg), vec!["work", "zz"]);
    assert_eq!(cfg.namespace[1].path, "/g");
    assert_eq!(rename_namespace(sample(), "nope", "x").unwrap_err().message(), "unknown namespace: nope");
    assert_eq!(rename_namespace(sample(), "gh", "WORK").unwrap_err().message(), "namespace already exists: WORK");
}

#[test]
fn set_path_cases() {
    let out = set_namespace_path(sample(), "WORK", "/new").unwrap();
    assert_eq!(out.message, "updated path for 'work'");
    let cfg = out.config.unwrap();
    assert_eq!(cfg.namespace[1].path, "/new");
    assert_eq!(find_namespace_index(&cfg, "work"), Some(1));
    assert_eq!(set_namespace_path(sample(), "x", "/p").unwrap_err().message(), "unknown namespace: x");
}

#[test]
fn alias_add_and_remove() {
    let out = add_alias(sample(), "work", "  office ").unwrap();
    assert_eq!(out.message, "added alias 'office' to 'work'");
    let cfg = out.config.unwrap();
    assert_eq!(cfg.namespace[1].aliases, Some(vec!["office".to_string()]));
    let back = remove_alias(cfg, "work", "office").unwrap();
    assert_eq!(back.message, "removed alias 'office' from 'work'");
    let cfg = back.config.unwrap();
    assert_eq!(cfg.namespace[1].aliases, None);
    assert_eq!(names(&cfg), vec!["gh", "work"]);
}

#[test]
fn alias_add_existing_is_unchanged() {
    let out = add_alias(sample(), "gh", "GITHUB").unwrap();
    assert!(out.config.is_none());
    assert_eq!(out.message, "alias 'GITHUB' already present for 'gh'; nothing changed");
}

#[test]
fn alias_errors() {
    assert_eq!(add_alias(sample(), "gh", "   ").unwrap_err().message(), "alias must not be empty");
    assert_eq!(add_alias(sample(), "x", "a").unwrap_err().message(), "unknown namespace: x");
    assert_eq!(
        add_alias(sample(), "gh", "work").unwrap_err().message(),
        "alias 'work' conflicts with namespace name"
    );
    assert_eq!(remove_alias(sample(), "work", "a").unwrap_err().message(), "namespace 'work' has no aliases");
    assert_eq!(remove_alias(sample(), "gh", "nope").unwrap_err().message(), "alias not found: nope");
    assert_eq!(remove_alias(sample(), "x", "a").unwrap_err().message(), "unknown namespace: x");
}

#[test]
fn alias_to_add_trims() {
    assert_eq!(goto::commands::alias_to_add("  hub ").unwrap(), "hub");
    assert_eq!(goto::commands::alias_to_add(" \t").unwrap_err().message(), "alias must not be empty");
}

#[test]
fn rename_then_find_by_new_name() {
    let cfg = rename_namespace(sample(), "work", "Alpha").unwrap().config.unwrap();
    let i = find_namespace_index(&cfg, "alpha").expect("found");
    assert_eq!(cfg.namespace[i].name, "Alpha");
    assert_eq!(cfg.namespace[i].path, "/w");
    assert_eq!(names(&cfg), vec!["Alpha", "gh"]);
}

#[test]
fn alias_add_then_remove_restores_listed_aliases() {
    let cfg = add_alias(sample(), "gh", "hub").unwrap().config.unwrap();
    assert_eq!(cfg.namespace[0].aliases, Some(vec!["github".to_string(), "hub".to_string()]));
    let back = remove_alias(cfg, "gh", "HUB").unwrap().config.unwrap();
    assert_eq!(back.namespace[0].aliases, Some(vec!["github".to_string()]));
    assert_eq!(back.namespace[1].aliases, None);
}

#[test]
fn edits_ignore_unicode_case() {
    let cfg = ConfigFile { namespace: vec![def("Ärger", "/a", Some(vec!["Über"]))] };
    assert_eq!(find_namespace_index(&cfg, "ärger"), Some(0));
    assert_eq!(find_namespace_or_alias_index(&cfg, "über"), Some(0));
    let out = add_alias(cfg, "ÄRGER", "ÜBER").unwrap();
    assert_eq!(out.message, "alias 'ÜBER' already present for 'Ärger'; nothing changed");
    let cfg = ConfigFile { namespace: vec![def("Ärger", "/a", Some(vec!["Über"]))] };
    let out = remove_alias(cfg, "ärger", "über").unwrap();
    assert_eq!(out.config.unwrap().namespace[0].aliases, None);
}

#[test]
fn rename_then_rename_back_restores() {
    let cfg = ConfigFile {
        namespace: vec![def("work", "/w", None), def("gh", "/g", Some(vec!["github"]))],
    };
    let out = rename_namespace(cfg, "gh", "Zed").unwrap();
    let renamed = out.config.unwrap();
    assert_eq!(names(&renamed), vec!["work", "Zed"]);
    assert_eq!(find_namespace_index(&renamed, "gh"), None);
    let back = rename_namespace(renamed, "zed", "gh").unwrap().config.unwrap();
    assert_eq!(names(&back), vec!["gh", "work"]);
    assert_eq!(back.namespace[0].path, "/g");
    assert_eq!(back.namespace[0].aliases, Some(vec!["github".to_string()]));
    assert_eq!(back.namespace[1].path, "/w");
}
