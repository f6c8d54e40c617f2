//! The `doctor` diagnostics: which checks pass and which issues are reported,
//! given what was found on disk.
use vstd::prelude::*;
use crate::config::{ConfigFile, DefView};
use crate::namespace::{defs_error, error_message, NamespaceMap};
use crate::sorting::string_views;
use crate::text::{lowercase, to_lower};

verus! {

/// What `doctor` prints: confirmations in order, then the issues, and whether all passed.
#[derive(Debug)]
pub struct DoctorReport {
    pub lines: Vec<String>,
    pub issues: Vec<String>,
}

/// The aliases a definition lists.
pub open spec fn doctor_aliases(d: DefView) -> Seq<Seq<char>> {
    match d.aliases {
        Some(a) => a,
        None => Seq::empty(),
    }
}

/// Issues for aliases whose lowercase form was seen before, and the forms seen after.
pub open spec fn alias_issues(aliases: Seq<Seq<char>>, seen: Set<Seq<char>>) -> (Seq<Seq<char>>, Set<Seq<char>>)
    decreases aliases.len(),
{
    if aliases.len() == 0 {
        (Seq::empty(), seen)
    } else {
        let a = aliases[0];
        let k = lowercase(a);
        if seen.contains(k) {
            let rest = alias_issues(aliases.drop_first(), seen);
            (seq!["duplicate alias found: "@ + a] + rest.0, rest.1)
        } else {
            alias_issues(aliases.drop_first(), seen.insert(k))
        }
    }
}

/// Every alias the definitions list, in order.
pub open spec fn all_listed_aliases(defs: Seq<DefView>) -> Seq<Seq<char>>
    decreases defs.len(),
{
    if defs.len() == 0 {
        Seq::empty()
    } else {
        doctor_aliases(defs[0]) + all_listed_aliases(defs.drop_first())
    }
}

/// No alias of `a` has a lowercase form in `seen`, and no two of them share one.
pub open spec fn lowercase_distinct(a: Seq<Seq<char>>, seen: Set<Seq<char>>) -> bool {
    &&& forall|x: int| 0 <= x < a.len() ==> !seen.contains(lowercase(#[trigger] a[x]))
    &&& forall|x: int, y: int| 0 <= x < y < a.len() ==> lowercase(#[trigger] a[x]) != lowercase(#[trigger] a[y])
}

/// The line or issue about one namespace root.
pub open spec fn root_line(d: DefView, root: Seq<char>) -> Seq<char> {
    "[ok] namespace '"@ + d.name + "' root exists: "@ + root
}

/// The issue about a namespace root that is missing or not a directory.
pub open spec fn root_issue(d: DefView, root: Seq<char>) -> Seq<char> {
    "namespace '"@ + d.name + "' root missing or not a directory: "@ + root
}

/// Confirmations and issues for the namespaces in order, given their expanded roots
/// and whether each root is a directory.
pub open spec fn namespace_checks(
    defs: Seq<DefView>,
    roots: Seq<Seq<char>>,
    ok: Seq<bool>,
    seen: Set<Seq<char>>,
) -> (Seq<Seq<char>>, Seq<Seq<char>>)
    decreases defs.len(),
{
    if defs.len() == 0 {
        (Seq::empty(), Seq::empty())
    } else {
        let d = defs[0];
        let al = alias_issues(doctor_aliases(d), seen);
        let rest = namespace_checks(defs.drop_first(), roots.drop_first(), ok.drop_first(), al.1);
        if ok[0] {
            (seq![root_line(d, roots[0])] + rest.0, al.0 + rest.1)
        } else {
            (rest.0, seq![root_issue(d, roots[0])] + al.0 + rest.1)
        }
    }
}

/// Everything `doctor` reports about a loaded configuration.
pub open spec fn doctor_spec(
    config_path: Seq<char>,
    defs: Seq<DefView>,
    roots: Seq<Seq<char>>,
    ok: Seq<bool>,
    needs_setup: bool,
) -> (Seq<Seq<char>>, Seq<Seq<char>>) {
    let head = seq!["[ok] config path: "@ + config_path, "[ok] config parses as TOML"@];
    let validation: (Seq<Seq<char>>, Seq<Seq<char>>) = match defs_error(defs) {
        None => (seq!["[ok] namespace validation passed"@], Seq::empty()),
        Some(e) => (Seq::empty(), seq!["namespace validation failed: "@ + error_message(e)]),
    };
    let ns = namespace_checks(defs, roots, ok, Set::empty());
    let shell: (Seq<Seq<char>>, Seq<Seq<char>>) = if needs_setup {
        (Seq::empty(), seq!["shell integration not detected; run 'goto setup'"@])
    } else {
        (seq!["[ok] shell integration detected"@], Seq::empty())
    };
    let issues = validation.1 + ns.1 + shell.1;
    let lines = head + validation.0 + ns.0 + shell.0;
    if issues.len() == 0 {
        (lines + seq!["doctor: all checks passed"@], issues)
    } else {
        (lines, issues)
    }
}

/// What `doctor` reports when the configuration could not be loaded.
pub fn doctor_load_failure(config_path: &str, error: &str) -> (r: DoctorReport)
    ensures
        string_views(r.lines@) == seq!["[ok] config path: "@ + config_path@],
        string_views(r.issues@) == seq!["config parse/load failed: "@ + error@],
{
    let mut lines: Vec<String> = Vec::new();
    lines.push(String::from_str("[ok] config path: ").concat(config_path));
    let mut issues: Vec<String> = Vec::new();
    issues.push(String::from_str("config parse/load failed: ").concat(error));
    assert(string_views(lines@) =~= seq!["[ok] config path: "@ + config_path@]);
    assert(string_views(issues@) =~= seq!["config parse/load failed: "@ + error@]);
    DoctorReport { lines, issues }
}

/// Issues for the aliases of one namespace, recording their lowercase forms in `seen`.
fn check_aliases_seen(
    aliases: &Vec<String>,
    seen: &mut Vec<String>,
    issues: &mut Vec<String>,
    Ghost(seen_set): Ghost<Set<Seq<char>>>,
)
    requires
        forall|k: Seq<char>| string_views(old(seen)@).contains(k) <==> seen_set.contains(k),
    ensures
        string_views(final(issues)@) == string_views(old(issues)@) + alias_issues(string_views(aliases@), seen_set).0,
        forall|k: Seq<char>| string_views(final(seen)@).contains(k) <==> alias_issues(string_views(aliases@), seen_set).1.contains(k),
{
    let ghost av = string_views(aliases@);
    let ghost start = string_views(issues@);
    let ghost total = alias_issues(av, seen_set);
    let ghost mut cur: Set<Seq<char>> = seen_set;
    let n = aliases.len();
    let mut i: usize = 0;
    proof {
        assert(av.skip(0) =~= av);
        assert(start + total.0 =~= string_views(issues@) + alias_issues(av.skip(0), cur).0);
    }
    while i < n
        invariant
            av == string_views(aliases@),
            n == av.len(),
            i <= n,
            total == alias_issues(av, seen_set),
            forall|k: Seq<char>| string_views(seen@).contains(k) <==> cur.contains(k),
            start + total.0 == string_views(issues@) + alias_issues(av.skip(i as int), cur).0,
            total.1 == alias_issues(av.skip(i as int), cur).1,
        decreases n - i,
    {
        let ghost rest = av.skip(i as int);
        proof {
            assert(rest[0] == aliases@[i as int]@);
            assert(rest.drop_first() =~= av.skip(i + 1));
        }
        let key = to_lower(aliases[i].as_str());
        if crate::namespace::contains_string(seen, key.as_str()) {
            let issue = String::from_str("duplicate alias found: ").concat(aliases[i].as_str());
            let ghost before = string_views(issues@);
            issues.push(issue);
            proof {
                assert(string_views(issues@) =~= before.push(issue@));
                assert(before + (seq![issue@] + alias_issues(av.skip(i + 1), cur).0) =~= string_views(issues@)
                    + alias_issues(av.skip(i + 1), cur).0);
            }
        } else {
            let ghost before_seen = seen@;
            seen.push(key);
            proof {
                assert(string_views(seen@) =~= string_views(before_seen).push(key@));
                assert forall|k: Seq<char>| string_views(seen@).contains(k) <==> cur.insert(key@).contains(k) by {
                    if string_views(seen@).contains(k) && k != key@ {
                        let t = choose|t: int| 0 <= t < string_views(seen@).len() && string_views(seen@)[t] == k;
                        assert(string_views(before_seen)[t] == k);
                    }
                    if cur.contains(k) {
                        assert(string_views(before_seen).contains(k));
                        let t = choose|t: int| 0 <= t < string_views(before_seen).len() && string_views(before_seen)[t] == k;
                        assert(string_views(seen@)[t] == k);
                    }
                    if k == key@ {
                        assert(string_views(seen@)[string_views(seen@).len() - 1] == k);
                    }
                }
                cur = cur.insert(key@);
            }
        }
        i = i + 1;
    }
    proof {
        assert(av.skip(n as int) =~= Seq::<Seq<char>>::empty());
        assert(string_views(issues@) + Seq::<Seq<char>>::empty() =~= string_views(issues@));
    }
}

/// `run_doctor` once the configuration is loaded: `roots` are the expanded root paths
/// and `root_ok` says which of them are existing directories.
pub fn run_doctor(
    config_path: &str,
    cfg: &ConfigFile,
    roots: &Vec<String>,
    root_ok: &Vec<bool>,
    needs_setup: bool,
) -> (r: DoctorReport)
    requires
        roots@.len() == cfg@.len(),
        root_ok@.len() == cfg@.len(),
    ensures
        (string_views(r.lines@), string_views(r.issues@)) == doctor_spec(
            config_path@,
            cfg@,
            string_views(roots@),
            root_ok@,
            needs_setup,
        ),
{
    let ghost dv = cfg@;
    let ghost rv = string_views(roots@);
    let ghost okv = root_ok@;
    let mut lines: Vec<String> = Vec::new();
    let mut issues: Vec<String> = Vec::new();
    lines.push(String::from_str("[ok] config path: ").concat(config_path));
    lines.push(String::from_str("[ok] config parses as TOML"));
    match NamespaceMap::from_defs(crate::config::copy_defs(&cfg.namespace)) {
        Ok(_) => {
            lines.push(String::from_str("[ok] namespace validation passed"));
        },
        Err(e) => {
            issues.push(String::from_str("namespace validation failed: ").concat(e.message().as_str()));
        },
    }
    let ghost lines0 = string_views(lines@);
    let ghost issues0 = string_views(issues@);
    let ghost total = namespace_checks(dv, rv, okv, Set::empty());
    let ghost mut cur: Set<Seq<char>> = Set::empty();
    let mut seen: Vec<String> = Vec::new();
    let n = cfg.namespace.len();
    let mut i: usize = 0;
    proof {
        assert(dv.skip(0) =~= dv);
        assert(rv.skip(0) =~= rv);
        assert(okv.skip(0) =~= okv);
        assert(string_views(seen@) =~= Seq::<Seq<char>>::empty());
        assert(lines0 + total.0 =~= string_views(lines@) + namespace_checks(dv.skip(0), rv.skip(0), okv.skip(0), cur).0);
        assert(issues0 + total.1 =~= string_views(issues@) + namespace_checks(dv.skip(0), rv.skip(0), okv.skip(0), cur).1);
    }
    while i < n
        invariant
            dv == cfg@,
            rv == string_views(roots@),
            okv == root_ok@,
            n == dv.len(),
            rv.len() == n,
            okv.len() == n,
            i <= n,
            total == namespace_checks(dv, rv, okv, Set::empty()),
            forall|k: Seq<char>| string_views(seen@).contains(k) <==> cur.contains(k),
            lines0 + total.0 == string_views(lines@) + namespace_checks(dv.skip(i as int), rv.skip(i as int), okv.skip(i as int), cur).0,
            issues0 + total.1 == string_views(issues@) + namespace_checks(dv.skip(i as int), rv.skip(i as int), okv.skip(i as int), cur).1,
        decreases n - i,
    {
        let ghost ds = dv.skip(i as int);
        let ghost rs = rv.skip(i as int);
        let ghost os = okv.skip(i as int);
        let d = &cfg.namespace[i];
        proof {
            assert(ds[0] == d@);
            assert(rs[0] == roots@[i as int]@);
            assert(os[0] == root_ok@[i as int]);
            assert(ds.drop_first() =~= dv.skip(i + 1));
            assert(rs.drop_first() =~= rv.skip(i + 1));
            assert(os.drop_first() =~= okv.skip(i + 1));
        }
        let ghost al = alias_issues(doctor_aliases(d@), cur);
        let ghost next = namespace_checks(dv.skip(i + 1), rv.skip(i + 1), okv.skip(i + 1), al.1);
        let ghost lines_before = string_views(lines@);
        let ghost issues_before = string_views(issues@);
        if root_ok[i] {
            let line = String::from_str("[ok] namespace '").concat(d.name.as_str()).concat("' root exists: ").concat(
                roots[i].as_str(),
            );
            lines.push(line);
            proof {
                assert(string_views(lines@) =~= lines_before.push(line@));
                assert(lines_before + (seq![line@] + next.0) =~= string_views(lines@) + next.0);
            }
        } else {
            let issue = String::from_str("namespace '").concat(d.name.as_str()).concat(
                "' root missing or not a directory: ",
            ).concat(roots[i].as_str());
            issues.push(issue);
            proof {
                assert(string_views(issues@) =~= issues_before.push(issue@));
            }
        }
        let ghost issues_mid = string_views(issues@);
        let empty: Vec<String> = Vec::new();
        let aliases = match &d.aliases {
            Some(a) => a,
            None => &empty,
        };
        assert(string_views(aliases@) == doctor_aliases(d@)) by {
            if d.aliases is None {
                assert(string_views(aliases@) =~= Seq::<Seq<char>>::empty());
            }
        }
        check_aliases_seen(aliases, &mut seen, &mut issues, Ghost(cur));
        proof {
            if root_ok@[i as int] {
                assert(issues_before + (al.0 + next.1) =~= string_views(issues@) + next.1);
            } else {
                let issue_v = root_issue(d@, rv[i as int]);
                assert(issues_mid == issues_before.push(issue_v));
                assert(issues_before + (seq![issue_v] + al.0 + next.1) =~= string_views(issues@) + next.1);
                assert(lines_before + next.0 == string_views(lines@) + next.0);
            }
            cur = al.1;
        }
        i = i + 1;
    }
    proof {
        assert(dv.skip(n as int) =~= Seq::<DefView>::empty());
        assert(string_views(lines@) + Seq::<Seq<char>>::empty() =~= string_views(lines@));
        assert(string_views(issues@) + Seq::<Seq<char>>::empty() =~= string_views(issues@));
    }
    if needs_setup {
        issues.push(String::from_str("shell integration not detected; run 'goto setup'"));
    } else {
        lines.push(String::from_str("[ok] shell integration detected"));
    }
    if issues.len() == 0 {
        lines.push(String::from_str("doctor: all checks passed"));
    }
    proof {
        let validation: (Seq<Seq<char>>, Seq<Seq<char>>) = match defs_error(dv) {
            None => (seq!["[ok] namespace validation passed"@], Seq::empty()),
            Some(e) => (Seq::empty(), seq!["namespace validation failed: "@ + error_message(e)]),
        };
        let head = seq!["[ok] config path: "@ + config_path@, "[ok] config parses as TOML"@];
        assert(lines0 =~= head + validation.0);
        assert(issues0 =~= validation.1);
    }
    DoctorReport { lines, issues }
}

} // verus!
