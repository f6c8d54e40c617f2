//! The configuration model: a list of namespace definitions, where the
//! configuration file lives, and how a namespace root path is expanded.
use vstd::prelude::*;
use crate::sorting::string_views;
use crate::text::{has_suffix, join_path, path_join};

verus! {

/// One `[[namespace]]` entry of the configuration.
#[derive(Debug)]
pub struct NamespaceDef {
    pub name: String,
    pub path: String,
    pub aliases: Option<Vec<String>>,
}

/// The whole configuration file.
#[derive(Debug)]
pub struct ConfigFile {
    pub namespace: Vec<NamespaceDef>,
}

/// The model of a namespace definition.
pub struct DefView {
    pub name: Seq<char>,
    pub path: Seq<char>,
    pub aliases: Option<Seq<Seq<char>>>,
}

impl View for NamespaceDef {
    type V = DefView;

    open spec fn view(&self) -> DefView {
        DefView {
            name: self.name@,
            path: self.path@,
            aliases: match self.aliases {
                Some(a) => Some(string_views(a@)),
                None => None,
            },
        }
    }
}

/// The models of a sequence of definitions.
pub open spec fn def_views(v: Seq<NamespaceDef>) -> Seq<DefView> {
    v.map_values(|d: NamespaceDef| d@)
}

impl View for ConfigFile {
    type V = Seq<DefView>;

    open spec fn view(&self) -> Seq<DefView> {
        def_views(self.namespace@)
    }
}

/// A copy of a list of strings.
pub fn copy_strings(v: &Vec<String>) -> (r: Vec<String>)
    ensures
        string_views(r@) == string_views(v@),
{
    let mut r: Vec<String> = Vec::new();
    let n = v.len();
    let mut i: usize = 0;
    while i < n
        invariant
            n == v@.len(),
            i <= n,
            string_views(r@) == string_views(v@).take(i as int),
        decreases n - i,
    {
        let s = v[i].clone();
        proof {
            assert(string_views(r@.push(s)) =~= string_views(r@).push(s@));
            assert(string_views(v@).take(i + 1) =~= string_views(v@).take(i as int).push(v@[i as int]@));
        }
        r.push(s);
        i = i + 1;
    }
    proof {
        assert(string_views(v@).take(n as int) =~= string_views(v@));
    }
    r
}

impl NamespaceDef {
    /// A copy of this definition.
    pub fn copy(&self) -> (r: NamespaceDef)
        ensures
            r@ == self@,
    {
        let aliases = match &self.aliases {
            Some(a) => Some(copy_strings(a)),
            None => None,
        };
        NamespaceDef { name: self.name.clone(), path: self.path.clone(), aliases }
    }
}

/// A copy of a list of definitions.
pub fn copy_defs(v: &Vec<NamespaceDef>) -> (r: Vec<NamespaceDef>)
    ensures
        def_views(r@) == def_views(v@),
{
    let mut r: Vec<NamespaceDef> = Vec::new();
    let n = v.len();
    let mut i: usize = 0;
    while i < n
        invariant
            n == v@.len(),
            i <= n,
            def_views(r@) == def_views(v@).take(i as int),
        decreases n - i,
    {
        let d = v[i].copy();
        proof {
            assert(def_views(r@.push(d)) =~= def_views(r@).push(d@));
            assert(def_views(v@).take(i + 1) =~= def_views(v@).take(i as int).push(v@[i as int]@));
        }
        r.push(d);
        i = i + 1;
    }
    proof {
        assert(def_views(v@).take(n as int) =~= def_views(v@));
    }
    r
}

impl ConfigFile {
    /// A copy of this configuration.
    pub fn copy(&self) -> (r: ConfigFile)
        ensures
            r@ == self@,
    {
        ConfigFile { namespace: copy_defs(&self.namespace) }
    }
}

/// A path that shell expansion leaves alone: no `$` anywhere and no leading `~`.
pub open spec fn plain_path(p: Seq<char>) -> bool {
    &&& forall|i: int| 0 <= i < p.len() ==> p[i] != '$'
    &&& !(p.len() > 0 && p[0] == '~')
}

/// A path under the home directory: `~` alone or followed by `/`, and no `$` anywhere.
pub open spec fn home_path(p: Seq<char>) -> bool {
    &&& forall|i: int| 0 <= i < p.len() ==> p[i] != '$'
    &&& p.len() > 0 && p[0] == '~'
    &&& (p.len() == 1 || p[1] == '/')
}

/// `root` is `p` with its leading `~` replaced by some non-empty text.
pub open spec fn home_expanded(root: Seq<char>, p: Seq<char>) -> bool {
    exists|h: Seq<char>| h.len() > 0 && root == h + p.skip(1)
}

/// Trusted: `shellexpand::full`, keeping the input when a variable lookup fails.
/// A plain path comes back unchanged.  A path under the home directory comes back
/// with its `~` replaced by the home directory, which `dirs::home_dir` never gives
/// empty on Unix, or unchanged when no home directory is known; either way the `~`
/// is replaced by non-empty text.  Which home directory, and what `$VAR` becomes,
/// depends on the environment and is not stated.
#[verifier::external_body]
pub(crate) fn expand_path(value: &str) -> (r: String)
    ensures
        plain_path(value@) ==> r@ == value@,
        home_path(value@) ==> home_expanded(r@, value@),
{
    match shellexpand::full(value) {
        Ok(expanded) => expanded.into_owned(),
        Err(_) => value.to_string(),
    }
}

/// The expanded root path of every namespace definition, in order.
pub fn namespace_roots(cfg: &ConfigFile) -> (r: Vec<String>)
    ensures
        r@.len() == cfg@.len(),
        forall|i: int| 0 <= i < r@.len() && plain_path(cfg@[i].path) ==> #[trigger] r@[i]@ == cfg@[i].path,
        forall|i: int| 0 <= i < r@.len() && home_path(cfg@[i].path) ==> home_expanded(#[trigger] r@[i]@, cfg@[i].path),
{
    let mut r: Vec<String> = Vec::new();
    let n = cfg.namespace.len();
    let mut i: usize = 0;
    while i < n
        invariant
            n == cfg@.len(),
            i <= n,
            r@.len() == i,
            forall|k: int| 0 <= k < i && plain_path(cfg@[k].path) ==> #[trigger] r@[k]@ == cfg@[k].path,
            forall|k: int| 0 <= k < i && home_path(cfg@[k].path) ==> home_expanded(#[trigger] r@[k]@, cfg@[k].path),
        decreases n - i,
    {
        let p = expand_path(cfg.namespace[i].path.as_str());
        r.push(p);
        i = i + 1;
    }
    r
}

/// Trusted: `directories::ProjectDirs::from` for this application and its
/// `config_dir`, as a string.  Whether a home directory is known, and where, depends
/// on the environment; nothing is stated of the result.
#[verifier::external_body]
fn project_config_dir() -> (r: Option<String>) {
    match directories::ProjectDirs::from("io.github", "itamiforge", "goto") {
        Some(dirs) => Some(dirs.config_dir().to_string_lossy().into_owned()),
        None => None,
    }
}

/// The configuration file inside project configuration directory `dir`, or the
/// fallback file when no directory is known.
pub open spec fn config_path_for(dir: Option<Seq<char>>) -> Seq<char> {
    match dir {
        Some(d) => path_join(d, "config.toml"@),
        None => "goto-config.toml"@,
    }
}

/// The configuration file for a given project configuration directory, if one is known.
pub fn config_file_in(dir: Option<String>) -> (r: String)
    ensures
        r@ == config_path_for(match dir {
            Some(d) => Some(d@),
            None => None,
        }),
{
    match dir {
        Some(d) => join_path(d.as_str(), "config.toml"),
        None => String::from_str("goto-config.toml"),
    }
}

/// The path of the active configuration file: the file for whatever project
/// configuration directory the environment gives, or for none.
pub fn config_file() -> (r: String)
    ensures
        exists|dir: Option<Seq<char>>| r@ == config_path_for(dir),
        has_suffix(r@, "config.toml"@),
{
    let dir = project_config_dir();
    let ghost w: Option<Seq<char>> = match &dir {
        Some(d) => Some(d@),
        None => None,
    };
    let r = config_file_in(dir);
    proof {
        reveal_strlit("config.toml");
        reveal_strlit("goto-config.toml");
        let suffix = "config.toml"@;
        assert(r@.subrange(r@.len() - suffix.len(), r@.len() as int) =~= suffix);
        assert(r@ == config_path_for(w));
    }
    r
}

} // verus!
