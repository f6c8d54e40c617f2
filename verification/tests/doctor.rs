use goto::config::{namespace_roots, ConfigFile, NamespaceDef};
use goto::doctor::{doctor_load_failure, run_doctor};

fn def(name: &str, path: &str, aliases: Option<Vec<&str>>) -> NamespaceDef {
    NamespaceDef {
        name: name.to_string(),
        path: path.to_string(),
        aliases: aliases.map(|v| v.into_iter().map(|s| s.to_string()).collect()),
    }
}

#[test]
fn healthy_setup_passes() {
    let cfg = ConfigFile { namespace: vec![def("gh", "/g", Some(vec!["github"]))] };
    let roots = namespace_roots(&cfg);
    assert_eq!(roots, vec!["/g".to_string()]);
    let report = run_doctor("/c/config.toml", &cfg, &roots, &vec![true], false);
    assert!(report.issues.is_empty());
    assert_eq!(
        report.lines,
        vec![
            "[ok] config path: /c/config.toml",
            "[ok] config parses as TOML",
            "[ok] namespace validation passed",
            "[ok] namespace 'gh' root exists: /g",
            "[ok] shell integration detected",
            "doctor: all checks passed",
        ]
    );
}

#[test]
fn problems_are_reported() {
    let cfg = ConfigFile {
        namespace: vec![def("a", "/a", Some(vec!["x", "y"])), def("b", "/b", Some(vec!["X"]))],
    };
    let roots = namespace_roots(&cfg);
    let report = run_doctor("cfg", &cfg, &roots, &vec![true, false], true);
    assert_eq!(
        report.issues,
        vec![
            "namespace validation failed: duplicate alias across namespaces: X",
            "namespace 'b' root missing or not a directory: /b",
            "duplicate alias found: X",
            "shell integration not detected; run 'goto setup'",
        ]
    );
    assert_eq!(
        report.lines,
        vec!["[ok] config path: cfg", "[ok] config parses as TOML", "[ok] namespace 'a' root exists: /a"]
    );
}

#[test]
fn load_failure_report() {
    let report = doctor_load_failure("cfg", "bad toml");
    assert_eq!(report.lines, vec!["[ok] config path: cfg"]);
    assert_eq!(report.issues, vec!["config parse/load failed: bad toml"]);
}
