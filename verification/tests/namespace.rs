use goto::config::NamespaceDef;
use goto::namespace::{finish_resolve, Completion, NamespaceError, NamespaceMap};
use std::path::Path;
use tempfile::tempdir;

fn def(name: &str, path: &str, aliases: Option<Vec<&str>>) -> NamespaceDef {
    NamespaceDef {
        name: name.to_string(),
        path: path.to_string(),
        aliases: aliases.map(|v| v.into_iter().map(|s| s.to_string()).collect()),
    }
}

#[test]
fn resolves_alias_and_project() {
    let dir = tempdir().expect("create tempdir");
    let _alpha = tempfile::Builder::new()
        .prefix("alpha")
        .rand_bytes(0)
        .tempdir_in(dir.path())
        .expect("create child dir");

    let defs = vec![NamespaceDef {
        name: "gh".to_string(),
        path: dir.path().to_string_lossy().into_owned(),
        aliases: Some(vec!["github".to_string()]),
    }];

    let map = NamespaceMap::from_defs(defs).expect("build namespace map");
    let candidate = map.resolve("github/alpha").expect("resolve alias path");
    let exists = Path::new(&candidate).exists();
    let canonical = Path::new(&candidate)
        .canonicalize()
        .ok()
        .map(|p| p.to_string_lossy().into_owned());
    let resolved = finish_resolve(candidate, exists, canonical).expect("resolve alias path");
    assert!(Path::new(&resolved).ends_with("alpha"));
}

#[test]
fn resolve_missing_namespace_errors() {
    let defs = vec![NamespaceDef {
        name: "gh".to_string(),
        path: "/tmp".to_string(),
        aliases: None,
    }];

    let map = NamespaceMap::from_defs(defs).expect("build namespace map");
    let err = map
        .resolve("work")
        .expect_err("missing namespace should fail");
    assert!(err.message().contains("unknown namespace"));
}

#[test]
fn rejects_duplicate_namespaces() {
    let defs = vec![
        NamespaceDef {
            name: "gh".to_string(),
            path: "/tmp".to_string(),
            aliases: None,
        },
        NamespaceDef {
            name: "GH".to_string(),
            path: "/tmp".to_string(),
            aliases: None,
        },
    ];

    let err = NamespaceMap::from_defs(defs).expect_err("duplicate namespaces must fail");
    assert!(err.message().contains("duplicate namespace"));
}

#[test]
fn rejects_empty_config() {
    let err = NamespaceMap::from_defs(vec![]).expect_err("empty config must fail");
    assert!(matches!(err, NamespaceError::EmptyConfig));
    assert_eq!(err.message(), "config must contain at least one [[namespace]] entry");
}

#[test]
fn rejects_blank_name() {
    let err = NamespaceMap::from_defs(vec![def("  ", "/tmp", None)]).expect_err("blank name");
    assert!(matches!(err, NamespaceError::EmptyName));
    assert_eq!(err.message(), "namespace names must not be empty");
}

#[test]
fn duplicate_name_reports_second_spelling() {
    let err = NamespaceMap::from_defs(vec![def("work", "/a", None), def(" WORK ", "/b", None)])
        .expect_err("duplicate");
    assert_eq!(err.message(), "duplicate namespace:  WORK ");
}

#[test]
fn alias_conflicting_with_name_is_rejected() {
    let err = NamespaceMap::from_defs(vec![
        def("gh", "/a", Some(vec!["Work"])),
        def("work", "/b", None),
    ])
    .expect_err("conflict");
    assert_eq!(err.message(), "alias 'Work' conflicts with namespace name");
}

#[test]
fn alias_shared_across_namespaces_is_rejected() {
    let err = NamespaceMap::from_defs(vec![
        def("a", "/a", Some(vec!["x"])),
        def("b", "/b", Some(vec!["X"])),
    ])
    .expect_err("duplicate alias");
    assert_eq!(err.message(), "duplicate alias across namespaces: X");
}

#[test]
fn alias_equal_to_own_name_and_blank_aliases_are_dropped() {
    let map = NamespaceMap::from_defs(vec![def("gh", "/a", Some(vec!["GH", "  ", "hub", "HUB"]))])
        .expect("valid");
    let entry = map.lookup_namespace("gh").expect("found");
    assert_eq!(entry.aliases(), &vec!["hub".to_string()]);
}

#[test]
fn names_are_case_insensitive() {
    let map = NamespaceMap::from_defs(vec![def("Work", "/srv/work", None)]).expect("valid");
    assert_eq!(map.resolve("WORK").expect("found"), "/srv/work");
    assert_eq!(map.resolve("work/app").expect("found"), "/srv/work/app");
    assert_eq!(map.lookup_namespace("wOrK").expect("found").name(), "Work");
}

#[test]
fn aliases_are_case_insensitive() {
    let map = NamespaceMap::from_defs(vec![def("gh", "/srv/gh", Some(vec!["GitHub"]))]).expect("valid");
    assert_eq!(map.resolve("GITHUB/x/y").expect("found"), "/srv/gh/x/y");
    assert_eq!(map.lookup_namespace("github").expect("found").name(), "gh");
}

#[test]
fn aliases_ignore_unicode_case() {
    let map = NamespaceMap::from_defs(vec![def("gh", "/srv/gh", Some(vec!["Über"]))]).expect("valid");
    assert_eq!(map.lookup_namespace("über").expect("found").name(), "gh");
    assert_eq!(map.lookup_namespace("ÜBER").expect("found").name(), "gh");
    assert_eq!(map.resolve("über/x").expect("found"), "/srv/gh/x");
}

#[test]
fn resolve_ignores_ascii_case_in_namespace() {
    let map = NamespaceMap::from_defs(vec![def("Work", "/srv/w", Some(vec!["Projects"]))]).expect("valid");
    assert_eq!(map.resolve("WORK/app").expect("found"), map.resolve("work/app").expect("found"));
    assert_eq!(map.resolve("pROJECTS/app").expect("found"), "/srv/w/app");
    assert!(map.resolve("wrk/app").is_err());
}

#[test]
fn valid_config_with_aliases_is_accepted() {
    let defs = vec![
        def("gh", "/g", Some(vec!["github", "GitHub", "gh", " "])),
        def("work", "/w", Some(vec!["office"])),
    ];
    let map = NamespaceMap::from_defs(defs).expect("valid");
    assert_eq!(map.lookup_namespace("gh").expect("found").aliases(), &vec!["github".to_string()]);
    assert_eq!(map.lookup_namespace("GITHUB").expect("found").name(), "gh");
    assert_eq!(map.lookup_namespace("Office").expect("found").name(), "work");
}

#[test]
fn aliases_differing_only_in_unicode_case_are_merged() {
    let map = NamespaceMap::from_defs(vec![def("gh", "/srv/gh", Some(vec!["Über", "über"]))]).expect("valid");
    assert_eq!(map.lookup_namespace("gh").expect("found").aliases().len(), 1);
}

#[test]
fn resolve_joins_absolute_and_trailing_paths() {
    let map = NamespaceMap::from_defs(vec![def("gh", "/srv/gh/", None)]).expect("valid");
    assert_eq!(map.resolve("gh/abs").expect("found"), "/srv/gh/abs");
    assert_eq!(map.resolve("gh//etc").expect("found"), "/etc");
    assert_eq!(map.resolve("gh").expect("found"), "/srv/gh/");
}

#[test]
fn plain_paths_are_kept() {
    let map = NamespaceMap::from_defs(vec![def("a", "relative/dir", None)]).expect("valid");
    assert_eq!(map.resolve("a").expect("found"), "relative/dir");
}

#[test]
fn finish_resolve_outcomes() {
    let missing = goto::namespace::finish_resolve("/nope".to_string(), false, None).expect_err("missing");
    assert_eq!(missing.message(), "path does not exist: /nope");
    assert_eq!(
        goto::namespace::finish_resolve("/a/./b".to_string(), true, Some("/a/b".to_string())).unwrap(),
        "/a/b"
    );
    assert_eq!(goto::namespace::finish_resolve("/a".to_string(), true, None).unwrap(), "/a");
}

#[test]
fn list_is_in_key_order() {
    let map = NamespaceMap::from_defs(vec![def("zeta", "/z", None), def("Alpha", "/a", None)]).expect("valid");
    let all = map.list(None).expect("list");
    assert_eq!(
        all,
        vec![("Alpha".to_string(), "/a".to_string()), ("zeta".to_string(), "/z".to_string())]
    );
    let one = map.list(Some("ZETA")).expect("list one");
    assert_eq!(one, vec![("zeta".to_string(), "/z".to_string())]);
    let err = map.list(Some("nope")).expect_err("unknown");
    assert_eq!(err.message(), "unknown namespace: nope");
}

#[test]
fn list_lines_formats_children() {
    assert_eq!(goto::namespace::list_lines("gh", &vec![]), vec!["gh".to_string()]);
    assert_eq!(
        goto::namespace::list_lines("gh", &vec!["b".to_string(), "a".to_string()]),
        vec!["gh/a".to_string(), "gh/b".to_string()]
    );
}

#[test]
fn completes_namespaces_sorted_and_unique() {
    let map = NamespaceMap::from_defs(vec![
        def("work", "/w", Some(vec!["projects"])),
        def("gh", "/g", Some(vec!["github"])),
    ])
    .expect("valid");
    assert_eq!(
        map.complete_namespaces(""),
        vec!["gh/".to_string(), "github/".to_string(), "projects/".to_string(), "work/".to_string()]
    );
    assert_eq!(map.complete_namespaces("G"), vec!["gh/".to_string(), "github/".to_string()]);
    assert_eq!(map.complete_namespaces("work"), vec!["work/".to_string()]);
}

#[test]
fn complete_dispatches() {
    let map = NamespaceMap::from_defs(vec![def("gh", "/g", Some(vec!["github"]))]).expect("valid");
    match map.complete("  gi ") {
        Completion::Candidates(v) => assert_eq!(v, vec!["github/".to_string()]),
        other => panic!("unexpected {:?}", other),
    }
    match map.complete("") {
        Completion::Candidates(v) => assert_eq!(v, vec!["gh/".to_string(), "github/".to_string()]),
        other => panic!("unexpected {:?}", other),
    }
    match map.complete("nope/x") {
        Completion::Candidates(v) => assert!(v.is_empty()),
        other => panic!("unexpected {:?}", other),
    }
    match map.complete("GitHub/src/ma") {
        Completion::Directory(q) => {
            assert_eq!(q.base, "/g/src");
            assert_eq!(q.namespace_input, "GitHub");
            assert_eq!(q.dir_part, "src");
            assert_eq!(q.prefix, "ma");
            let out = q.complete_children(&vec!["main".to_string(), "Makefile.d".to_string(), "lib".to_string()]);
            assert_eq!(out, vec!["GitHub/src/Makefile.d".to_string(), "GitHub/src/main".to_string()]);
        }
        other => panic!("unexpected {:?}", other),
    }
    match map.complete("gh/src//") {
        Completion::Directory(q) => {
            assert_eq!(q.dir_part, "src");
            assert_eq!(q.prefix, "");
        }
        other => panic!("unexpected {:?}", other),
    }
    match map.complete("gh/") {
        Completion::Directory(q) => {
            assert_eq!(q.base, "/g");
            let out = q.complete_children(&vec!["b".to_string(), "a".to_string(), "a".to_string()]);
            assert_eq!(out, vec!["gh/a".to_string(), "gh/b".to_string()]);
        }
        other => panic!("unexpected {:?}", other),
    }
}

#[test]
fn full_name_completes_itself() {
    let map = NamespaceMap::from_defs(vec![def("gh", "/g", Some(vec!["github"])), def("ghost", "/h", None)])
        .expect("valid");
    assert!(map.complete_namespaces("github").contains(&"github/".to_string()));
    assert!(map.complete_namespaces("gh").contains(&"gh/".to_string()));
}

#[test]
fn home_relative_roots_are_expanded() {
    let map = NamespaceMap::from_defs(vec![def("home", "~/projects", None)]).expect("valid");
    let root = map.resolve("home").expect("found");
    assert!(!root.starts_with('~'));
    assert!(root.ends_with("/projects"));
}
