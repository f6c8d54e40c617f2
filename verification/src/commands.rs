//! Configuration edits behind the `add`, `remove`, `rename`, `set-path`,
//! `alias-add` and `alias-remove` commands.  Each takes the loaded configuration
//! and returns the configuration to save (if anything changed) with the message
//! to print, or the error to report.
use vstd::prelude::*;
use crate::config::{def_views, ConfigFile, DefView, NamespaceDef};
use crate::namespace::{
    defs_error, error_message, firsts, lemma_sort_map, map_firsts, ErrorView, NamespaceError,
    NamespaceMap,
};
use crate::sorting::{keyed, sort_by_key, stable_sort_by_key, string_views};
use crate::text::{same_lowercase, eq_ignore_case, lowercase, to_lower, trim, trim_seq};

verus! {

/// Index of the first definition whose name equals `s` up to case.
pub open spec fn find_name(defs: Seq<DefView>, s: Seq<char>) -> Option<int> {
    if exists|i: int| 0 <= i < defs.len() && same_lowercase(defs[i].name, s) {
        Some(
            choose|i: int|
                0 <= i < defs.len() && same_lowercase(defs[i].name, s) && forall|j: int|
                    0 <= j < i ==> !same_lowercase(#[trigger] defs[j].name, s),
        )
    } else {
        None
    }
}

/// Definition `d` lists an alias equal to `s` up to case.
pub open spec fn lists_alias(d: DefView, s: Seq<char>) -> bool {
    match d.aliases {
        Some(a) => exists|j: int| 0 <= j < a.len() && same_lowercase(#[trigger] a[j], s),
        None => false,
    }
}

/// Index of the first definition named `s` up to case, else of the first one
/// listing such an alias.
pub open spec fn find_name_or_alias(defs: Seq<DefView>, s: Seq<char>) -> Option<int> {
    match find_name(defs, s) {
        Some(i) => Some(i),
        None => if exists|i: int| 0 <= i < defs.len() && lists_alias(defs[i], s) {
            Some(
                choose|i: int|
                    0 <= i < defs.len() && lists_alias(defs[i], s) && forall|j: int|
                        0 <= j < i ==> !lists_alias(#[trigger] defs[j], s),
            )
        } else {
            None
        },
    }
}

/// Definitions stably sorted by their lowercase name.
pub open spec fn sort_defs(defs: Seq<DefView>) -> Seq<DefView> {
    firsts(sort_by_key(defs.map_values(|d: DefView| (d, lowercase(d.name)))))
}

/// Why an edit was refused.
#[derive(Debug)]
pub enum EditError {
    NamespaceExists(String),
    UnknownNamespace(String),
    UnknownNamespaceOrAlias(String),
    LastNamespace,
    EmptyAlias,
    NoAliases(String),
    AliasNotFound(String),
    Invalid(NamespaceError),
}

/// The model of an `EditError`.
pub enum EditErrorView {
    NamespaceExists(Seq<char>),
    UnknownNamespace(Seq<char>),
    UnknownNamespaceOrAlias(Seq<char>),
    LastNamespace,
    EmptyAlias,
    NoAliases(Seq<char>),
    AliasNotFound(Seq<char>),
    Invalid(ErrorView),
}

impl View for EditError {
    type V = EditErrorView;

    open spec fn view(&self) -> EditErrorView {
        match self {
            EditError::NamespaceExists(s) => EditErrorView::NamespaceExists(s@),
            EditError::UnknownNamespace(s) => EditErrorView::UnknownNamespace(s@),
            EditError::UnknownNamespaceOrAlias(s) => EditErrorView::UnknownNamespaceOrAlias(s@),
            EditError::LastNamespace => EditErrorView::LastNamespace,
            EditError::EmptyAlias => EditErrorView::EmptyAlias,
            EditError::NoAliases(s) => EditErrorView::NoAliases(s@),
            EditError::AliasNotFound(s) => EditErrorView::AliasNotFound(s@),
            EditError::Invalid(e) => EditErrorView::Invalid(e@),
        }
    }
}

/// The text of an edit error.
pub open spec fn edit_error_message(e: EditErrorView) -> Seq<char> {
    match e {
        EditErrorView::NamespaceExists(n) => "namespace already exists: "@ + n,
        EditErrorView::UnknownNamespace(n) => "unknown namespace: "@ + n,
        EditErrorView::UnknownNamespaceOrAlias(n) => "unknown namespace or alias: "@ + n,
        EditErrorView::LastNamespace => "cannot remove last namespace; config must contain at least one"@,
        EditErrorView::EmptyAlias => "alias must not be empty"@,
        EditErrorView::NoAliases(n) => "namespace '"@ + n + "' has no aliases"@,
        EditErrorView::AliasNotFound(a) => "alias not found: "@ + a,
        EditErrorView::Invalid(e) => error_message(e),
    }
}

impl EditError {
    /// The text of this error.
    pub fn message(&self) -> (r: String)
        ensures
            r@ == edit_error_message(self@),
    {
        match self {
            EditError::NamespaceExists(n) => String::from_str("namespace already exists: ").concat(n.as_str()),
            EditError::UnknownNamespace(n) => String::from_str("unknown namespace: ").concat(n.as_str()),
            EditError::UnknownNamespaceOrAlias(n) => String::from_str("unknown namespace or alias: ").concat(n.as_str()),
            EditError::LastNamespace => String::from_str("cannot remove last namespace; config must contain at least one"),
            EditError::EmptyAlias => String::from_str("alias must not be empty"),
            EditError::NoAliases(n) => String::from_str("namespace '").concat(n.as_str()).concat("' has no aliases"),
            EditError::AliasNotFound(a) => String::from_str("alias not found: ").concat(a.as_str()),
            EditError::Invalid(e) => e.message(),
        }
    }
}

/// The result of a successful edit: the configuration to save, if anything changed,
/// and the message to print.
#[derive(Debug)]
pub struct EditOutcome {
    pub config: Option<ConfigFile>,
    pub message: String,
}

/// `find_namespace_index`: the first definition named `lookup` up to case.
pub fn find_namespace_index(cfg: &ConfigFile, lookup: &str) -> (r: Option<usize>)
    ensures
        match r {
            Some(i) => i < cfg@.len() && find_name(cfg@, lookup@) == Some(i as int),
            None => find_name(cfg@, lookup@) is None,
        },
{
    let ghost dv = cfg@;
    let n = cfg.namespace.len();
    let mut i: usize = 0;
    while i < n
        invariant
            dv == cfg@,
            n == dv.len(),
            i <= n,
            forall|j: int| 0 <= j < i ==> !same_lowercase(#[trigger] dv[j].name, lookup@),
        decreases n - i,
    {
        assert(dv[i as int].name == cfg.namespace@[i as int].name@);
        if eq_ignore_case(cfg.namespace[i].name.as_str(), lookup) {
            proof {
                let w = choose|w: int|
                    0 <= w < dv.len() && same_lowercase(dv[w].name, lookup@) && forall|j: int|
                        0 <= j < w ==> !same_lowercase(#[trigger] dv[j].name, lookup@);
                if w < i {
                } else if w > i {
                    assert(!same_lowercase(dv[i as int].name, lookup@));
                }
            }
            return Some(i);
        }
        i = i + 1;
    }
    None
}

/// Whether some alias of `aliases` equals `s` up to case.
fn has_alias(aliases: &Vec<String>, s: &str) -> (r: bool)
    ensures
        r == exists|j: int| 0 <= j < aliases@.len() && same_lowercase(#[trigger] string_views(aliases@)[j], s@),
{
    let n = aliases.len();
    let mut j: usize = 0;
    while j < n
        invariant
            n == aliases@.len(),
            j <= n,
            forall|t: int| 0 <= t < j ==> !same_lowercase(#[trigger] string_views(aliases@)[t], s@),
        decreases n - j,
    {
        assert(string_views(aliases@)[j as int] == aliases@[j as int]@);
        if eq_ignore_case(aliases[j].as_str(), s) {
            return true;
        }
        j = j + 1;
    }
    false
}

/// `find_namespace_or_alias_index`: by name first, then by alias.
pub fn find_namespace_or_alias_index(cfg: &ConfigFile, lookup: &str) -> (r: Option<usize>)
    ensures
        match r {
            Some(i) => i < cfg@.len() && find_name_or_alias(cfg@, lookup@) == Some(i as int),
            None => find_name_or_alias(cfg@, lookup@) is None,
        },
{
    if let Some(i) = find_namespace_index(cfg, lookup) {
        return Some(i);
    }
    let ghost dv = cfg@;
    let n = cfg.namespace.len();
    let mut i: usize = 0;
    while i < n
        invariant
            dv == cfg@,
            n == dv.len(),
            i <= n,
            find_name(dv, lookup@) is None,
            forall|j: int| 0 <= j < i ==> !lists_alias(#[trigger] dv[j], lookup@),
        decreases n - i,
    {
        assert(dv[i as int] == cfg.namespace@[i as int]@);
        let found = match &cfg.namespace[i].aliases {
            Some(a) => has_alias(a, lookup),
            None => false,
        };
        assert(found == lists_alias(dv[i as int], lookup@));
        if found {
            proof {
                let w = choose|w: int|
                    0 <= w < dv.len() && lists_alias(dv[w], lookup@) && forall|j: int|
                        0 <= j < w ==> !lists_alias(#[trigger] dv[j], lookup@);
                if w < i {
                } else if w > i {
                    assert(!lists_alias(dv[i as int], lookup@));
                }
            }
            return Some(i);
        }
        i = i + 1;
    }
    None
}

/// Definitions stably sorted by their lowercase name (`sort_by_key`).
pub fn sort_namespaces(defs: Vec<NamespaceDef>) -> (r: Vec<NamespaceDef>)
    ensures
        def_views(r@) == sort_defs(def_views(defs@)),
{
    let ghost dv = def_views(defs@);
    let mut rest = defs;
    let mut pairs: Vec<(NamespaceDef, String)> = Vec::new();
    let n = rest.len();
    let mut i: usize = 0;
    while i < n
        invariant
            n == dv.len(),
            i <= n,
            rest@.len() == n - i,
            def_views(rest@) == dv.skip(i as int),
            pairs@.len() == i,
            forall|k: int| 0 <= k < i ==> (#[trigger] pairs@[k]).0@ == dv[k] && pairs@[k].1@ == lowercase(dv[k].name),
        decreases n - i,
    {
        let ghost old_rest = rest@;
        let d = rest.remove(0);
        proof {
            assert(def_views(old_rest)[0] == d@);
            assert(dv.skip(i as int)[0] == dv[i as int]);
            assert forall|k: int| 0 <= k < rest@.len() implies def_views(rest@)[k] == dv.skip(i + 1)[k] by {
                assert(rest@[k] == old_rest[k + 1]);
                assert(def_views(old_rest)[k + 1] == dv.skip(i as int)[k + 1]);
            }
            assert(def_views(rest@) =~= dv.skip(i + 1));
        }
        let lower = to_lower(d.name.as_str());
        pairs.push((d, lower));
        i = i + 1;
    }
    let ghost before = keyed(pairs@);
    let sorted = stable_sort_by_key(pairs);
    let ghost target = sort_by_key(dv.map_values(|d: DefView| (d, lowercase(d.name))));
    proof {
        assert(map_firsts(before, |d: NamespaceDef| d@) =~= dv.map_values(|d: DefView| (d, lowercase(d.name))));
        lemma_sort_map(before, |d: NamespaceDef| d@);
        assert(map_firsts(keyed(sorted@), |d: NamespaceDef| d@) == target);
        assert(map_firsts(keyed(sorted@), |d: NamespaceDef| d@).len() == sorted@.len());
    }
    proof {
        assert forall|k: int| 0 <= k < sorted@.len() implies (#[trigger] sorted@[k]).0@ == target[k].0 by {
            assert(keyed(sorted@)[k].0 == sorted@[k].0);
            assert(map_firsts(keyed(sorted@), |d: NamespaceDef| d@)[k].0 == sorted@[k].0@);
        }
    }
    let mut src = sorted;
    let mut out: Vec<NamespaceDef> = Vec::new();
    let m = src.len();
    let mut j: usize = 0;
    while j < m
        invariant
            m == target.len(),
            src@.len() == m - j,
            forall|k: int| 0 <= k < m - j ==> (#[trigger] src@[k]).0@ == target[k + j].0,
            j <= m,
            def_views(out@) == firsts(target).take(j as int),
        decreases m - j,
    {
        let ghost old_src = src@;
        proof {
            assert(old_src[0].0@ == target[j as int].0);
        }
        let (d, _key) = src.remove(0);
        let ghost before_out = out@;
        out.push(d);
        proof {
            assert forall|k: int| 0 <= k < m - j - 1 implies (#[trigger] src@[k]).0@ == target[k + j + 1].0 by {
                assert(src@[k] == old_src[k + 1]);
            }
            assert(def_views(out@) =~= def_views(before_out).push(d@));
            assert(firsts(target).take(j + 1) =~= firsts(target).take(j as int).push(target[j as int].0));
        }
        j = j + 1;
    }
    proof {
        assert(firsts(target).take(m as int) =~= firsts(target));
    }
    out
}

/// Whether `defs` make a valid namespace map.
fn validate(defs: &Vec<NamespaceDef>) -> (r: Result<(), NamespaceError>)
    ensures
        match r {
            Ok(_) => defs_error(def_views(defs@)) is None,
            Err(e) => defs_error(def_views(defs@)) == Some(e@),
        },
{
    match NamespaceMap::from_defs(crate::config::copy_defs(defs)) {
        Ok(_) => Ok(()),
        Err(e) => Err(e),
    }
}

/// The definition a new namespace gets.
pub open spec fn new_def(name: Seq<char>, path: Seq<char>, aliases: Seq<Seq<char>>) -> DefView {
    DefView { name, path, aliases: if aliases.len() == 0 { None } else { Some(aliases) } }
}

/// The definitions after adding a namespace, sorted by lowercase name.
pub open spec fn added(defs: Seq<DefView>, name: Seq<char>, path: Seq<char>, aliases: Seq<Seq<char>>) -> Seq<DefView> {
    sort_defs(defs.push(new_def(name, path, aliases)))
}

/// `add`: a new namespace, unless one of that name (up to case) exists or the
/// result would not be a valid configuration.
pub fn add_namespace(cfg: ConfigFile, name: &str, path: &str, aliases: Vec<String>) -> (r: Result<EditOutcome, EditError>)
    ensures
        match r {
            Ok(out) => {
                &&& find_name(cfg@, name@) is None
                &&& defs_error(added(cfg@, name@, path@, string_views(aliases@))) is None
                &&& out.config matches Some(c) && c@ == added(cfg@, name@, path@, string_views(aliases@))
                &&& out.message@ == "added namespace '"@ + name@ + "'"@
            },
            Err(e) => match find_name(cfg@, name@) {
                Some(_) => e@ == EditErrorView::NamespaceExists(name@),
                None => defs_error(added(cfg@, name@, path@, string_views(aliases@))) == Some(e@->Invalid_0) && e@ is Invalid,
            },
        },
{
    if find_namespace_index(&cfg, name).is_some() {
        return Err(EditError::NamespaceExists(String::from_str(name)));
    }
    let ghost av = string_views(aliases@);
    let listed = if aliases.len() == 0 {
        None
    } else {
        Some(aliases)
    };
    let def = NamespaceDef { name: String::from_str(name), path: String::from_str(path), aliases: listed };
    assert(def@ == new_def(name@, path@, av));
    let mut defs = cfg.namespace;
    let ghost before = def_views(defs@);
    defs.push(def);
    assert(def_views(defs@) =~= before.push(new_def(name@, path@, av)));
    let sorted = sort_namespaces(defs);
    if let Err(e) = validate(&sorted) {
        return Err(EditError::Invalid(e));
    }
    let message = String::from_str("added namespace '").concat(name).concat("'");
    Ok(EditOutcome { config: Some(ConfigFile { namespace: sorted }), message })
}

/// `remove`: drops the namespace found by name or alias, unless it is the last one or
/// the rest would not be a valid configuration.
pub fn remove_namespace(cfg: ConfigFile, name: &str) -> (r: Result<EditOutcome, EditError>)
    ensures
        match r {
            Ok(out) => {
                &&& find_name_or_alias(cfg@, name@) matches Some(i)
                &&& cfg@.len() > 1
                &&& defs_error(cfg@.remove(i)) is None
                &&& out.config matches Some(c) && c@ == cfg@.remove(i)
                &&& out.message@ == "removed namespace '"@ + cfg@[i].name + "'"@
            },
            Err(e) => match find_name_or_alias(cfg@, name@) {
                None => e@ == EditErrorView::UnknownNamespaceOrAlias(name@),
                Some(i) => if cfg@.len() == 1 {
                    e@ == EditErrorView::LastNamespace
                } else {
                    e@ is Invalid && defs_error(cfg@.remove(i)) == Some(e@->Invalid_0)
                },
            },
        },
{
    let index = match find_namespace_or_alias_index(&cfg, name) {
        Some(i) => i,
        None => {
            return Err(EditError::UnknownNamespaceOrAlias(String::from_str(name)));
        },
    };
    let ghost dv = cfg@;
    let mut defs = cfg.namespace;
    let removed = defs.remove(index);
    proof {
        assert(removed@ == dv[index as int]);
        assert(def_views(defs@) =~= dv.remove(index as int));
    }
    if defs.len() == 0 {
        return Err(EditError::LastNamespace);
    }
    if let Err(e) = validate(&defs) {
        return Err(EditError::Invalid(e));
    }
    let message = String::from_str("removed namespace '").concat(removed.name.as_str()).concat("'");
    Ok(EditOutcome { config: Some(ConfigFile { namespace: defs }), message })
}

/// The definitions after renaming definition `i`, sorted by lowercase name.
pub open spec fn renamed(defs: Seq<DefView>, i: int, new: Seq<char>) -> Seq<DefView> {
    sort_defs(defs.update(i, DefView { name: new, path: defs[i].path, aliases: defs[i].aliases }))
}

/// The message of a rename between names equal up to case.
pub open spec fn unchanged_rename_message(new: Seq<char>) -> Seq<char> {
    "namespace already named '"@ + new + "'; nothing changed"@
}

/// A rename between names equal up to case changes nothing: the message to
/// print then.  The configuration is not needed for that answer.
pub fn rename_unchanged(old: &str, new: &str) -> (r: Option<String>)
    ensures
        match r {
            Some(m) => same_lowercase(old@, new@) && m@ == unchanged_rename_message(new@),
            None => !same_lowercase(old@, new@),
        },
{
    if eq_ignore_case(old, new) {
        Some(String::from_str("namespace already named '").concat(new).concat("'; nothing changed"))
    } else {
        None
    }
}

/// `rename`: gives the namespace named `old` the name `new`, unless the names are equal
/// up to case (nothing changes), `old` is unknown, `new` is taken, or the result
/// would not be a valid configuration.
pub fn rename_namespace(cfg: ConfigFile, old: &str, new: &str) -> (r: Result<EditOutcome, EditError>)
    ensures
        match r {
            Ok(out) => if same_lowercase(old@, new@) {
                out.config is None && out.message@ == unchanged_rename_message(new@)
            } else {
                &&& find_name(cfg@, old@) matches Some(i)
                &&& find_name(cfg@, new@) is None
                &&& defs_error(renamed(cfg@, i, new@)) is None
                &&& out.config matches Some(c) && c@ == renamed(cfg@, i, new@)
                &&& out.message@ == "renamed namespace '"@ + cfg@[i].name + "' -> '"@ + new@ + "'"@
            },
            Err(e) => {
                &&& !same_lowercase(old@, new@)
                &&& match find_name(cfg@, old@) {
                    None => e@ == EditErrorView::UnknownNamespace(old@),
                    Some(i) => if find_name(cfg@, new@) is Some {
                        e@ == EditErrorView::NamespaceExists(new@)
                    } else {
                        e@ is Invalid && defs_error(renamed(cfg@, i, new@)) == Some(e@->Invalid_0)
                    },
                }
            },
        },
{
    if let Some(message) = rename_unchanged(old, new) {
        return Ok(EditOutcome { config: None, message });
    }
    let index = match find_namespace_index(&cfg, old) {
        Some(i) => i,
        None => {
            return Err(EditError::UnknownNamespace(String::from_str(old)));
        },
    };
    if find_namespace_index(&cfg, new).is_some() {
        return Err(EditError::NamespaceExists(String::from_str(new)));
    }
    let ghost dv = cfg@;
    let mut defs = cfg.namespace;
    let d = defs.remove(index);
    let previous = d.name;
    let changed = NamespaceDef { name: String::from_str(new), path: d.path, aliases: d.aliases };
    defs.insert(index, changed);
    proof {
        assert(previous@ == dv[index as int].name);
        assert(def_views(defs@) =~= dv.update(index as int, DefView { name: new@, path: dv[index as int].path, aliases: dv[index as int].aliases }));
    }
    let sorted = sort_namespaces(defs);
    if let Err(e) = validate(&sorted) {
        return Err(EditError::Invalid(e));
    }
    let message = String::from_str("renamed namespace '").concat(previous.as_str()).concat("' -> '").concat(new).concat("'");
    Ok(EditOutcome { config: Some(ConfigFile { namespace: sorted }), message })
}

/// The definitions with definition `i` given root path `p`.
pub open spec fn with_path(defs: Seq<DefView>, i: int, p: Seq<char>) -> Seq<DefView> {
    defs.update(i, DefView { name: defs[i].name, path: p, aliases: defs[i].aliases })
}

/// `set-path`: gives the namespace named `name` the root `path`.
pub fn set_namespace_path(cfg: ConfigFile, name: &str, path: &str) -> (r: Result<EditOutcome, EditError>)
    ensures
        match r {
            Ok(out) => {
                &&& find_name(cfg@, name@) matches Some(i)
                &&& defs_error(with_path(cfg@, i, path@)) is None
                &&& out.config matches Some(c) && c@ == with_path(cfg@, i, path@)
                &&& out.message@ == "updated path for '"@ + cfg@[i].name + "'"@
            },
            Err(e) => match find_name(cfg@, name@) {
                None => e@ == EditErrorView::UnknownNamespace(name@),
                Some(i) => e@ is Invalid && defs_error(with_path(cfg@, i, path@)) == Some(e@->Invalid_0),
            },
        },
{
    let index = match find_namespace_index(&cfg, name) {
        Some(i) => i,
        None => {
            return Err(EditError::UnknownNamespace(String::from_str(name)));
        },
    };
    let ghost dv = cfg@;
    let mut defs = cfg.namespace;
    let d = defs.remove(index);
    let current = d.name;
    let message = String::from_str("updated path for '").concat(current.as_str()).concat("'");
    let changed = NamespaceDef { name: current, path: String::from_str(path), aliases: d.aliases };
    defs.insert(index, changed);
    proof {
        assert(def_views(defs@) =~= with_path(dv, index as int, path@));
    }
    if let Err(e) = validate(&defs) {
        return Err(EditError::Invalid(e));
    }
    Ok(EditOutcome { config: Some(ConfigFile { namespace: defs }), message })
}

/// The aliases a definition lists.
pub open spec fn listed_aliases(d: DefView) -> Seq<Seq<char>> {
    match d.aliases {
        Some(a) => a,
        None => Seq::empty(),
    }
}

/// The definitions with alias `a` appended to definition `i`.
pub open spec fn with_alias(defs: Seq<DefView>, i: int, a: Seq<char>) -> Seq<DefView> {
    defs.update(i, DefView { name: defs[i].name, path: defs[i].path, aliases: Some(listed_aliases(defs[i]).push(a)) })
}

/// Some alias in `a` equals `s` up to case.
pub open spec fn alias_present(a: Seq<Seq<char>>, s: Seq<char>) -> bool {
    exists|j: int| 0 <= j < a.len() && same_lowercase(#[trigger] a[j], s)
}

/// The alias `alias-add` adds: `alias` trimmed, which must not be blank.  The
/// configuration is not needed for that answer.
pub fn alias_to_add(alias: &str) -> (r: Result<String, EditError>)
    ensures
        match r {
            Ok(a) => trim_seq(alias@).len() > 0 && a@ == trim_seq(alias@),
            Err(e) => trim_seq(alias@).len() == 0 && e@ == EditErrorView::EmptyAlias,
        },
{
    let trimmed = trim(alias);
    if trimmed.unicode_len() == 0 {
        Err(EditError::EmptyAlias)
    } else {
        Ok(String::from_str(trimmed))
    }
}

/// `alias-add`: appends the trimmed alias to the namespace named `namespace_name`,
/// unless it is blank, the namespace is unknown, the alias is already there up to
/// case (nothing changes), or the result would not be a valid configuration.
pub fn add_alias(cfg: ConfigFile, namespace_name: &str, alias: &str) -> (r: Result<EditOutcome, EditError>)
    ensures
        ({
            let a = trim_seq(alias@);
            match r {
                Ok(out) => {
                    &&& a.len() > 0
                    &&& find_name(cfg@, namespace_name@) matches Some(i)
                    &&& if alias_present(listed_aliases(cfg@[i]), a) {
                        &&& out.config is None
                        &&& out.message@ == "alias '"@ + a + "' already present for '"@ + cfg@[i].name + "'; nothing changed"@
                    } else {
                        &&& defs_error(with_alias(cfg@, i, a)) is None
                        &&& out.config matches Some(c) && c@ == with_alias(cfg@, i, a)
                        &&& out.message@ == "added alias '"@ + a + "' to '"@ + cfg@[i].name + "'"@
                    }
                },
                Err(e) => if a.len() == 0 {
                    e@ == EditErrorView::EmptyAlias
                } else {
                    match find_name(cfg@, namespace_name@) {
                        None => e@ == EditErrorView::UnknownNamespace(namespace_name@),
                        Some(i) => !alias_present(listed_aliases(cfg@[i]), a) && e@ is Invalid && defs_error(
                            with_alias(cfg@, i, a),
                        ) == Some(e@->Invalid_0),
                    }
                },
            }
        }),
{
    let trimmed = alias_to_add(alias)?;
    let alias = trimmed.as_str();
    let index = match find_namespace_index(&cfg, namespace_name) {
        Some(i) => i,
        None => {
            return Err(EditError::UnknownNamespace(String::from_str(namespace_name)));
        },
    };
    let ghost dv = cfg@;
    let mut defs = cfg.namespace;
    let d = defs.remove(index);
    assert(d@ == dv[index as int]);
    let mut list = match d.aliases {
        Some(a) => a,
        None => Vec::new(),
    };
    assert(string_views(list@) == listed_aliases(dv[index as int])) by {
        if dv[index as int].aliases is None {
            assert(string_views(list@) =~= Seq::<Seq<char>>::empty());
        }
    }
    if has_alias(&list, alias) {
        let message = String::from_str("alias '").concat(alias).concat("' already present for '").concat(
            d.name.as_str(),
        ).concat("'; nothing changed");
        return Ok(EditOutcome { config: None, message });
    }
    let ghost before = string_views(list@);
    list.push(String::from_str(alias));
    assert(string_views(list@) =~= before.push(alias@));
    let message = String::from_str("added alias '").concat(alias).concat("' to '").concat(d.name.as_str()).concat("'");
    let changed = NamespaceDef { name: d.name, path: d.path, aliases: Some(list) };
    defs.insert(index, changed);
    proof {
        assert(def_views(defs@) =~= with_alias(dv, index as int, alias@));
    }
    if let Err(e) = validate(&defs) {
        return Err(EditError::Invalid(e));
    }
    Ok(EditOutcome { config: Some(ConfigFile { namespace: defs }), message })
}

/// The aliases of `a` that are not equal to `s` up to case (`retain`).
pub open spec fn without_alias(a: Seq<Seq<char>>, s: Seq<char>) -> Seq<Seq<char>>
    decreases a.len(),
{
    if a.len() == 0 {
        a
    } else if same_lowercase(a.last(), s) {
        without_alias(a.drop_last(), s)
    } else {
        without_alias(a.drop_last(), s).push(a.last())
    }
}

/// The definitions with the aliases of definition `i` replaced: none left means none listed.
pub open spec fn with_remaining(defs: Seq<DefView>, i: int, rest: Seq<Seq<char>>) -> Seq<DefView> {
    defs.update(
        i,
        DefView { name: defs[i].name, path: defs[i].path, aliases: if rest.len() == 0 { None } else { Some(rest) } },
    )
}

/// `Vec::retain` of the aliases not equal to `s` up to case.
fn retain_other_aliases(v: Vec<String>, s: &str) -> (r: Vec<String>)
    ensures
        string_views(r@) == without_alias(string_views(v@), s@),
{
    let ghost sv = string_views(v@);
    let mut out: Vec<String> = Vec::new();
    let n = v.len();
    let mut i: usize = 0;
    assert(sv.take(0) =~= Seq::<Seq<char>>::empty());
    while i < n
        invariant
            sv == string_views(v@),
            n == sv.len(),
            i <= n,
            string_views(out@) == without_alias(sv.take(i as int), s@),
        decreases n - i,
    {
        proof {
            assert(sv.take(i + 1).drop_last() =~= sv.take(i as int));
            assert(sv.take(i + 1).last() == v@[i as int]@);
        }
        if !eq_ignore_case(v[i].as_str(), s) {
            let ghost before = out@;
            out.push(v[i].clone());
            assert(string_views(out@) =~= string_views(before).push(v@[i as int]@));
        }
        i = i + 1;
    }
    assert(sv.take(n as int) =~= sv);
    out
}

/// `alias-remove`: drops every alias equal to `alias` up to case from the
/// namespace named `namespace_name`.
pub fn remove_alias(cfg: ConfigFile, namespace_name: &str, alias: &str) -> (r: Result<EditOutcome, EditError>)
    ensures
        match r {
            Ok(out) => {
                &&& find_name(cfg@, namespace_name@) matches Some(i)
                &&& cfg@[i].aliases matches Some(list)
                &&& without_alias(list, alias@).len() < list.len()
                &&& defs_error(with_remaining(cfg@, i, without_alias(list, alias@))) is None
                &&& out.config matches Some(c) && c@ == with_remaining(cfg@, i, without_alias(list, alias@))
                &&& out.message@ == "removed alias '"@ + alias@ + "' from '"@ + cfg@[i].name + "'"@
            },
            Err(e) => match find_name(cfg@, namespace_name@) {
                None => e@ == EditErrorView::UnknownNamespace(namespace_name@),
                Some(i) => match cfg@[i].aliases {
                    None => e@ == EditErrorView::NoAliases(cfg@[i].name),
                    Some(list) => if without_alias(list, alias@).len() == list.len() {
                        e@ == EditErrorView::AliasNotFound(alias@)
                    } else {
                        e@ is Invalid && defs_error(with_remaining(cfg@, i, without_alias(list, alias@))) == Some(
                            e@->Invalid_0,
                        )
                    },
                },
            },
        },
{
    let index = match find_namespace_index(&cfg, namespace_name) {
        Some(i) => i,
        None => {
            return Err(EditError::UnknownNamespace(String::from_str(namespace_name)));
        },
    };
    let ghost dv = cfg@;
    let mut defs = cfg.namespace;
    let d = defs.remove(index);
    assert(d@ == dv[index as int]);
    let list = match d.aliases {
        Some(a) => a,
        None => {
            return Err(EditError::NoAliases(d.name));
        },
    };
    let before = list.len();
    let rest = retain_other_aliases(list, alias);
    proof {
        lemma_without_alias_len(string_views(list@), alias@);
    }
    if rest.len() == before {
        return Err(EditError::AliasNotFound(String::from_str(alias)));
    }
    let message = String::from_str("removed alias '").concat(alias).concat("' from '").concat(d.name.as_str()).concat("'");
    let remaining = if rest.len() == 0 {
        None
    } else {
        Some(rest)
    };
    let changed = NamespaceDef { name: d.name, path: d.path, aliases: remaining };
    defs.insert(index, changed);
    proof {
        assert(def_views(defs@) =~= with_remaining(dv, index as int, without_alias(string_views(list@), alias@)));
    }
    if let Err(e) = validate(&defs) {
        return Err(EditError::Invalid(e));
    }
    Ok(EditOutcome { config: Some(ConfigFile { namespace: defs }), message })
}

proof fn lemma_without_alias_len(a: Seq<Seq<char>>, s: Seq<char>)
    ensures
        without_alias(a, s).len() <= a.len(),
    decreases a.len(),
{
    if a.len() > 0 {
        lemma_without_alias_len(a.drop_last(), s);
    }
}

} // verus!
