//! Namespace validation, lookup, resolution and completion.
use vstd::prelude::*;
use crate::config::{copy_strings, def_views, expand_path, home_expanded, home_path, plain_path, DefView, NamespaceDef};
use crate::sorting::{
    insert_by_key, keyed, sort_by_key, stable_sort_by_key, string_views, strictly_sorted,
    insert_sorted_unique,
};
use crate::text::{
    strip_trailing, has_prefix, find_char, first_index_of, join_path, path_join, same_lowercase,
    eq_ignore_case, lowercase, seq_less, all_ascii, lowers_as_ascii, ascii_fold, str_eq, str_less, to_lower, trim, trim_seq,
    lemma_seq_less_irreflexive, lemma_seq_less_total, lemma_seq_less_transitive,
};

verus! {

/// Why a namespace map could not be built, or a lookup failed.
#[derive(Debug)]
pub enum NamespaceError {
    EmptyConfig,
    EmptyName,
    DuplicateNamespace(String),
    AliasConflict(String),
    DuplicateAlias(String),
    UnknownNamespace(String),
    MissingPath(String),
}

/// The model of a `NamespaceError`.
pub enum ErrorView {
    EmptyConfig,
    EmptyName,
    DuplicateNamespace(Seq<char>),
    AliasConflict(Seq<char>),
    DuplicateAlias(Seq<char>),
    UnknownNamespace(Seq<char>),
    MissingPath(Seq<char>),
}

impl View for NamespaceError {
    type V = ErrorView;

    open spec fn view(&self) -> ErrorView {
        match self {
            NamespaceError::EmptyConfig => ErrorView::EmptyConfig,
            NamespaceError::EmptyName => ErrorView::EmptyName,
            NamespaceError::DuplicateNamespace(s) => ErrorView::DuplicateNamespace(s@),
            NamespaceError::AliasConflict(s) => ErrorView::AliasConflict(s@),
            NamespaceError::DuplicateAlias(s) => ErrorView::DuplicateAlias(s@),
            NamespaceError::UnknownNamespace(s) => ErrorView::UnknownNamespace(s@),
            NamespaceError::MissingPath(s) => ErrorView::MissingPath(s@),
        }
    }
}

/// The lookup key of a namespace name or alias: trimmed, then lowercased.
pub open spec fn canonical(s: Seq<char>) -> Seq<char> {
    lowercase(trim_seq(s))
}

/// Definition `i` is blank, or repeats the key of an earlier definition.
pub open spec fn name_problem(defs: Seq<DefView>, i: int) -> bool {
    ||| canonical(defs[i].name).len() == 0
    ||| exists|j: int| 0 <= j < i && canonical(defs[j].name) == canonical(defs[i].name)
}

/// Some definition has a name problem.
pub open spec fn has_name_problem(defs: Seq<DefView>) -> bool {
    exists|i: int| 0 <= i < defs.len() && name_problem(defs, i)
}

/// The first definition with a name problem.
pub open spec fn first_name_problem(defs: Seq<DefView>) -> int {
    choose|i: int|
        0 <= i < defs.len() && name_problem(defs, i) && forall|j: int| 0 <= j < i ==> !name_problem(defs, j)
}

/// What is wrong with the namespace names, checked in order: none at all, a blank
/// name, or a name that repeats an earlier one up to case and surrounding space.
pub open spec fn names_error(defs: Seq<DefView>) -> Option<ErrorView> {
    if defs.len() == 0 {
        Some(ErrorView::EmptyConfig)
    } else if has_name_problem(defs) {
        let i = first_name_problem(defs);
        if canonical(defs[i].name).len() == 0 {
            Some(ErrorView::EmptyName)
        } else {
            Some(ErrorView::DuplicateNamespace(defs[i].name))
        }
    } else {
        None
    }
}

/// The keys of all namespace names.
pub open spec fn namespace_keys(defs: Seq<DefView>) -> Set<Seq<char>> {
    Set::new(|k: Seq<char>| exists|i: int| 0 <= i < defs.len() && canonical(defs[i].name) == k)
}

/// The aliases a definition lists.
pub open spec fn alias_list(d: DefView) -> Seq<Seq<char>> {
    match d.aliases {
        Some(a) => a,
        None => Seq::empty(),
    }
}

/// The aliases that are not blank (`retain` of non-blank ones).
pub open spec fn keep_nonblank(a: Seq<Seq<char>>) -> Seq<Seq<char>>
    decreases a.len(),
{
    if a.len() == 0 {
        a
    } else if trim_seq(a.last()).len() > 0 {
        keep_nonblank(a.drop_last()).push(a.last())
    } else {
        keep_nonblank(a.drop_last())
    }
}

/// Aliases paired with their lowercase form.
pub open spec fn lower_keyed(a: Seq<Seq<char>>) -> Seq<(Seq<char>, Seq<char>)> {
    a.map_values(|x: Seq<char>| (x, lowercase(x)))
}

/// The first components of pairs.
pub open spec fn firsts<T>(s: Seq<(T, Seq<char>)>) -> Seq<T> {
    s.map_values(|p: (T, Seq<char>)| p.0)
}

/// Aliases stably sorted by their lowercase form.
pub open spec fn sorted_by_lowercase(a: Seq<Seq<char>>) -> Seq<Seq<char>> {
    firsts(sort_by_key(lower_keyed(a)))
}

/// Consecutive aliases that are equal up to case reduced to the first of them
/// (`Vec::dedup_by` with `eq_ignore_case`).
pub open spec fn dedup_lower(a: Seq<Seq<char>>) -> Seq<Seq<char>>
    decreases a.len(),
{
    if a.len() == 0 {
        a
    } else {
        let d = dedup_lower(a.drop_last());
        if d.len() > 0 && same_lowercase(a.last(), d.last()) {
            d
        } else {
            d.push(a.last())
        }
    }
}

/// The aliases of a definition, normalised before they are checked.
pub open spec fn prepared_aliases(d: DefView) -> Seq<Seq<char>> {
    dedup_lower(sorted_by_lowercase(keep_nonblank(alias_list(d))))
}

/// `a` put in front of the aliases an outcome keeps.
pub open spec fn cons_kept(a: Seq<char>, r: Result<(Seq<Seq<char>>, Set<Seq<char>>), ErrorView>) -> Result<
    (Seq<Seq<char>>, Set<Seq<char>>),
    ErrorView,
> {
    match r {
        Ok((kept, s)) => Ok((seq![a] + kept, s)),
        Err(e) => Err(e),
    }
}

/// `kept` put in front of what each following definition keeps.
pub open spec fn cons_defs(kept: Seq<Seq<char>>, r: Result<Seq<Seq<Seq<char>>>, ErrorView>) -> Result<
    Seq<Seq<Seq<char>>>,
    ErrorView,
> {
    match r {
        Ok(rest) => Ok(seq![kept] + rest),
        Err(e) => Err(e),
    }
}

/// Checks prepared aliases in order against the namespace keys and the alias keys
/// seen so far.  An alias whose key is blank or the namespace's own key is dropped.
/// On success: the aliases kept and the alias keys seen afterwards.
pub open spec fn accept_aliases(
    names: Set<Seq<char>>,
    own: Seq<char>,
    ps: Seq<Seq<char>>,
    seen: Set<Seq<char>>,
) -> Result<(Seq<Seq<char>>, Set<Seq<char>>), ErrorView>
    decreases ps.len(),
{
    if ps.len() == 0 {
        Ok((Seq::empty(), seen))
    } else {
        let a = ps[0];
        let k = canonical(a);
        if k.len() == 0 || k == own {
            accept_aliases(names, own, ps.drop_first(), seen)
        } else if names.contains(k) {
            Err(ErrorView::AliasConflict(a))
        } else if seen.contains(k) {
            Err(ErrorView::DuplicateAlias(a))
        } else {
            cons_kept(a, accept_aliases(names, own, ps.drop_first(), seen.insert(k)))
        }
    }
}

/// Checks the aliases of every definition in order; on success, the aliases each
/// definition keeps.
pub open spec fn accept_defs(names: Set<Seq<char>>, defs: Seq<DefView>, seen: Set<Seq<char>>) -> Result<
    Seq<Seq<Seq<char>>>,
    ErrorView,
>
    decreases defs.len(),
{
    if defs.len() == 0 {
        Ok(Seq::empty())
    } else {
        match accept_aliases(names, canonical(defs[0].name), prepared_aliases(defs[0]), seen) {
            Err(e) => Err(e),
            Ok((kept, s)) => cons_defs(kept, accept_defs(names, defs.drop_first(), s)),
        }
    }
}

/// Why `defs` do not make a namespace map, if they do not.
pub open spec fn defs_error(defs: Seq<DefView>) -> Option<ErrorView> {
    match names_error(defs) {
        Some(e) => Some(e),
        None => match accept_defs(namespace_keys(defs), defs, Set::empty()) {
            Err(e) => Some(e),
            Ok(_) => None,
        },
    }
}

/// The aliases every definition keeps, when `defs` are valid.
pub open spec fn kept_aliases(defs: Seq<DefView>) -> Seq<Seq<Seq<char>>> {
    match accept_defs(namespace_keys(defs), defs, Set::empty()) {
        Ok(k) => k,
        Err(_) => Seq::empty(),
    }
}

/// The model of a namespace entry.
pub struct EntryView {
    pub name: Seq<char>,
    pub path: Seq<char>,
    pub aliases: Seq<Seq<char>>,
}

/// The entries that valid `defs` produce with the given root paths, each with its key,
/// in definition order.
pub open spec fn built_entries(defs: Seq<DefView>, roots: Seq<Seq<char>>) -> Seq<(EntryView, Seq<char>)> {
    Seq::new(
        defs.len(),
        |i: int|
            (
                EntryView { name: defs[i].name, path: roots[i], aliases: kept_aliases(defs)[i] },
                canonical(defs[i].name),
            ),
    )
}

/// Keys strictly increase along the slots, so no key occurs twice.
pub open spec fn keys_sorted(m: Seq<(EntryView, Seq<char>)>) -> bool {
    forall|i: int, j: int| 0 <= i < j < m.len() ==> seq_less(#[trigger] m[i].1, #[trigger] m[j].1)
}

/// `m` holds exactly the entries `es`, ordered by key.
pub open spec fn laid_out(m: Seq<(EntryView, Seq<char>)>, es: Seq<(EntryView, Seq<char>)>) -> bool {
    &&& keys_sorted(m)
    &&& forall|x: (EntryView, Seq<char>)| m.contains(x) <==> es.contains(x)
}

/// The lowercase key of a name or alias, as the configuration stores it.
pub fn canonical_key(s: &str) -> (r: String)
    ensures
        r@ == canonical(s@),
        all_ascii(trim_seq(s@)) ==> lowers_as_ascii(trim_seq(s@)),
{
    let t = trim(s);
    let r = to_lower(t);
    proof {
        if all_ascii(t@) {
            assert forall|i: int| 0 <= i < t@.len() implies (#[trigger] lowercase(t@)[i] as int) == ascii_fold(t@[i]) by {
                assert(r@[i] == lowercase(t@)[i]);
            }
        }
    }
    r
}

/// Whether `x` is one of the strings in `v`.
pub fn contains_string(v: &Vec<String>, x: &str) -> (r: bool)
    ensures
        r == string_views(v@).contains(x@),
{
    let n = v.len();
    let mut i: usize = 0;
    while i < n
        invariant
            n == v@.len(),
            i <= n,
            forall|k: int| 0 <= k < i ==> v@[k]@ != x@,
        decreases n - i,
    {
        if str_eq(v[i].as_str(), x) {
            assert(string_views(v@)[i as int] == x@);
            return true;
        }
        i = i + 1;
    }
    proof {
        if string_views(v@).contains(x@) {
            let k = choose|k: int| 0 <= k < string_views(v@).len() && string_views(v@)[k] == x@;
            assert(v@[k]@ == x@);
        }
    }
    false
}

/// The first definition with a problem is definition `i`.
proof fn lemma_first_name_problem(defs: Seq<DefView>, i: int)
    requires
        0 <= i < defs.len(),
        name_problem(defs, i),
        forall|j: int| 0 <= j < i ==> !name_problem(defs, j),
    ensures
        has_name_problem(defs),
        first_name_problem(defs) == i,
{
    let w = first_name_problem(defs);
    if w < i {
        assert(!name_problem(defs, w));
    } else if w > i {
        assert(!name_problem(defs, i));
    }
}

/// Checks the namespace names in order; on success, the set of their keys.
fn check_names(defs: &Vec<NamespaceDef>) -> (r: Result<Vec<String>, NamespaceError>)
    ensures
        match r {
            Ok(names) => {
                &&& names_error(def_views(defs@)) is None
                &&& forall|k: Seq<char>| string_views(names@).contains(k) <==> namespace_keys(def_views(defs@)).contains(k)
            },
            Err(e) => names_error(def_views(defs@)) == Some(e@),
        },
{
    let ghost dv = def_views(defs@);
    if defs.len() == 0 {
        return Err(NamespaceError::EmptyConfig);
    }
    let mut names: Vec<String> = Vec::new();
    let n = defs.len();
    let mut i: usize = 0;
    while i < n
        invariant
            dv == def_views(defs@),
            n == dv.len(),
            n > 0,
            i <= n,
            names@.len() == i,
            forall|j: int| 0 <= j < i ==> !name_problem(dv, j),
            forall|k: Seq<char>| string_views(names@).contains(k) <==> exists|j: int| 0 <= j < i && canonical(dv[j].name) == k,
        decreases n - i,
    {
        let key = canonical_key(defs[i].name.as_str());
        assert(dv[i as int].name == defs@[i as int].name@);
        if key.as_str().unicode_len() == 0 {
            proof {
                lemma_first_name_problem(dv, i as int);
            }
            return Err(NamespaceError::EmptyName);
        }
        if contains_string(&names, key.as_str()) {
            proof {
                let j = choose|j: int| 0 <= j < i && canonical(dv[j].name) == key@;
                assert(name_problem(dv, i as int));
                lemma_first_name_problem(dv, i as int);
            }
            return Err(NamespaceError::DuplicateNamespace(defs[i].name.clone()));
        }
        proof {
            assert(!name_problem(dv, i as int));
        }
        let ghost old_names = names@;
        names.push(key);
        proof {
            assert(string_views(names@) =~= string_views(old_names).push(key@));
            assert forall|k: Seq<char>| string_views(names@).contains(k) <==> exists|j: int| 0 <= j < i + 1 && canonical(dv[j].name) == k by {
                if k == key@ {
                    assert(canonical(dv[i as int].name) == k);
                    assert(string_views(names@)[i as int] == k);
                    assert(string_views(names@).contains(k));
                }
                if string_views(names@).contains(k) && k != key@ {
                    let t = choose|t: int| 0 <= t < string_views(names@).len() && string_views(names@)[t] == k;
                    assert(string_views(old_names)[t] == k);
                    assert(string_views(old_names).contains(k));
                    let j = choose|j: int| 0 <= j < i && canonical(dv[j].name) == k;
                    assert(0 <= j < i + 1 && canonical(dv[j].name) == k);
                }
                if exists|j: int| 0 <= j < i + 1 && canonical(dv[j].name) == k {
                    let j = choose|j: int| 0 <= j < i + 1 && canonical(dv[j].name) == k;
                    if j == i {
                        assert(string_views(names@)[i as int] == k);
                    } else {
                        assert(exists|j: int| 0 <= j < i && canonical(dv[j].name) == k);
                        assert(string_views(old_names).contains(k));
                        let t = choose|t: int| 0 <= t < string_views(old_names).len() && string_views(old_names)[t] == k;
                        assert(string_views(names@)[t] == k);
                    }
                    assert(string_views(names@).contains(k));
                }
            }
        }
        i = i + 1;
    }
    proof {
        if has_name_problem(dv) {
            let w = choose|w: int| 0 <= w < dv.len() && name_problem(dv, w);
            assert(!name_problem(dv, w));
        }
    }
    Ok(names)
}

/// Pairs with a function applied to their first components.
pub open spec fn map_firsts<T, U>(s: Seq<(T, Seq<char>)>, f: spec_fn(T) -> U) -> Seq<(U, Seq<char>)> {
    s.map_values(|p: (T, Seq<char>)| (f(p.0), p.1))
}

proof fn lemma_insert_map<T, U>(s: Seq<(T, Seq<char>)>, x: (T, Seq<char>), f: spec_fn(T) -> U)
    ensures
        map_firsts(insert_by_key(s, x), f) == insert_by_key(map_firsts(s, f), (f(x.0), x.1)),
    decreases s.len(),
{
    let ms = map_firsts(s, f);
    if s.len() == 0 {
        assert(map_firsts(insert_by_key(s, x), f) =~= seq![(f(x.0), x.1)]);
    } else if seq_less(x.1, s[0].1) {
        assert(ms[0].1 == s[0].1);
        assert(map_firsts(seq![x] + s, f) =~= seq![(f(x.0), x.1)] + ms);
    } else {
        assert(ms[0].1 == s[0].1);
        lemma_insert_map(s.drop_first(), x, f);
        assert(map_firsts(s.drop_first(), f) =~= ms.drop_first());
        assert(map_firsts(seq![s[0]] + insert_by_key(s.drop_first(), x), f) =~= seq![ms[0]] + map_firsts(
            insert_by_key(s.drop_first(), x),
            f,
        ));
    }
}

/// Sorting by key does not look at the items, only at their keys.
pub proof fn lemma_sort_map<T, U>(s: Seq<(T, Seq<char>)>, f: spec_fn(T) -> U)
    ensures
        map_firsts(sort_by_key(s), f) == sort_by_key(map_firsts(s, f)),
    decreases s.len(),
{
    if s.len() == 0 {
        assert(map_firsts(s, f) =~= Seq::<(U, Seq<char>)>::empty());
    } else {
        lemma_sort_map(s.drop_last(), f);
        lemma_insert_map(sort_by_key(s.drop_last()), s.last(), f);
        assert(map_firsts(s, f).drop_last() =~= map_firsts(s.drop_last(), f));
    }
}

/// `Vec::retain` of the aliases that are not blank.
fn retain_nonblank(v: &Vec<String>) -> (r: Vec<String>)
    ensures
        string_views(r@) == keep_nonblank(string_views(v@)),
{
    let ghost sv = string_views(v@);
    let mut out: Vec<String> = Vec::new();
    let n = v.len();
    let mut i: usize = 0;
    assert(sv.take(0) =~= Seq::<Seq<char>>::empty());
    while i < n
        invariant
            sv == string_views(v@),
            n == sv.len(),
            i <= n,
            string_views(out@) == keep_nonblank(sv.take(i as int)),
        decreases n - i,
    {
        proof {
            assert(sv.take(i + 1).drop_last() =~= sv.take(i as int));
            assert(sv.take(i + 1).last() == v@[i as int]@);
        }
        if trim(v[i].as_str()).unicode_len() > 0 {
            let ghost before = out@;
            out.push(v[i].clone());
            assert(string_views(out@) =~= string_views(before).push(v@[i as int]@));
        }
        i = i + 1;
    }
    assert(sv.take(n as int) =~= sv);
    out
}

/// `slice::sort_by_key` with the lowercase form as key.
fn sort_by_lowercase(v: &Vec<String>) -> (r: Vec<String>)
    ensures
        string_views(r@) == sorted_by_lowercase(string_views(v@)),
{
    let ghost sv = string_views(v@);
    let mut pairs: Vec<(String, String)> = Vec::new();
    let n = v.len();
    let mut i: usize = 0;
    while i < n
        invariant
            sv == string_views(v@),
            n == sv.len(),
            i <= n,
            pairs@.len() == i,
            forall|k: int| 0 <= k < i ==> (#[trigger] pairs@[k]).0@ == sv[k] && pairs@[k].1@ == lowercase(sv[k]),
        decreases n - i,
    {
        let lower = to_lower(v[i].as_str());
        pairs.push((v[i].clone(), lower));
        i = i + 1;
    }
    let ghost before = keyed(pairs@);
    let sorted = stable_sort_by_key(pairs);
    proof {
        assert(map_firsts(before, |s: String| s@) =~= lower_keyed(sv));
        lemma_sort_map(before, |s: String| s@);
    }
    let mut out: Vec<String> = Vec::new();
    let m = sorted.len();
    let ghost target = sort_by_key(lower_keyed(sv));
    proof {
        assert(map_firsts(keyed(sorted@), |s: String| s@) == target);
        assert(target.len() == m) by {
            assert(map_firsts(keyed(sorted@), |s: String| s@).len() == m);
        }
    }
    let mut j: usize = 0;
    while j < m
        invariant
            m == sorted@.len(),
            target.len() == m,
            map_firsts(keyed(sorted@), |s: String| s@) == target,
            j <= m,
            string_views(out@) == firsts(target).take(j as int),
        decreases m - j,
    {
        proof {
            assert(keyed(sorted@)[j as int].0 == sorted@[j as int].0);
            assert(map_firsts(keyed(sorted@), |s: String| s@)[j as int].0 == sorted@[j as int].0@);
            assert(firsts(target).take(j + 1) =~= firsts(target).take(j as int).push(sorted@[j as int].0@));
        }
        let ghost before_out = out@;
        out.push(sorted[j].0.clone());
        assert(string_views(out@) =~= string_views(before_out).push(sorted@[j as int].0@));
        j = j + 1;
    }
    assert(firsts(target).take(m as int) =~= firsts(target));
    out
}

/// `Vec::dedup_by` with `eq_ignore_case`.
fn dedup_case(v: &Vec<String>) -> (r: Vec<String>)
    ensures
        string_views(r@) == dedup_lower(string_views(v@)),
{
    let ghost sv = string_views(v@);
    let mut out: Vec<String> = Vec::new();
    let n = v.len();
    let mut i: usize = 0;
    assert(sv.take(0) =~= Seq::<Seq<char>>::empty());
    while i < n
        invariant
            sv == string_views(v@),
            n == sv.len(),
            i <= n,
            string_views(out@) == dedup_lower(sv.take(i as int)),
        decreases n - i,
    {
        proof {
            assert(sv.take(i + 1).drop_last() =~= sv.take(i as int));
            assert(sv.take(i + 1).last() == v@[i as int]@);
        }
        let k = out.len();
        let same = k > 0 && eq_ignore_case(v[i].as_str(), out[k - 1].as_str());
        if !same {
            let ghost before = out@;
            out.push(v[i].clone());
            assert(string_views(out@) =~= string_views(before).push(v@[i as int]@));
        } else {
            assert(string_views(out@).last() == out@[k - 1]@);
        }
        i = i + 1;
    }
    assert(sv.take(n as int) =~= sv);
    out
}

/// The aliases of a definition, normalised before they are checked.
fn prepare_aliases(d: &NamespaceDef) -> (r: Vec<String>)
    ensures
        string_views(r@) == prepared_aliases(d@),
{
    let listed = match &d.aliases {
        Some(a) => copy_strings(a),
        None => Vec::new(),
    };
    assert(string_views(listed@) == alias_list(d@)) by {
        if d.aliases is None {
            assert(string_views(listed@) =~= Seq::<Seq<char>>::empty());
        }
    }
    let kept = retain_nonblank(&listed);
    let sorted = sort_by_lowercase(&kept);
    dedup_case(&sorted)
}

/// An outcome with the aliases `pre` put in front.
pub open spec fn prefix_kept(pre: Seq<Seq<char>>, r: Result<(Seq<Seq<char>>, Set<Seq<char>>), ErrorView>) -> Result<
    (Seq<Seq<char>>, Set<Seq<char>>),
    ErrorView,
> {
    match r {
        Ok((kept, s)) => Ok((pre + kept, s)),
        Err(e) => Err(e),
    }
}

/// An outcome with the per-definition aliases `pre` put in front.
pub open spec fn prefix_defs(pre: Seq<Seq<Seq<char>>>, r: Result<Seq<Seq<Seq<char>>>, ErrorView>) -> Result<
    Seq<Seq<Seq<char>>>,
    ErrorView,
> {
    match r {
        Ok(rest) => Ok(pre + rest),
        Err(e) => Err(e),
    }
}

proof fn lemma_prefix_kept_step(pre: Seq<Seq<char>>, a: Seq<char>, r: Result<(Seq<Seq<char>>, Set<Seq<char>>), ErrorView>)
    ensures
        prefix_kept(pre, cons_kept(a, r)) == prefix_kept(pre.push(a), r),
{
    match r {
        Ok((kept, s)) => {
            assert(pre + (seq![a] + kept) =~= pre.push(a) + kept);
        },
        Err(e) => {},
    }
}

proof fn lemma_prefix_defs_step(pre: Seq<Seq<Seq<char>>>, k: Seq<Seq<char>>, r: Result<Seq<Seq<Seq<char>>>, ErrorView>)
    ensures
        prefix_defs(pre, cons_defs(k, r)) == prefix_defs(pre.push(k), r),
{
    match r {
        Ok(rest) => {
            assert(pre + (seq![k] + rest) =~= pre.push(k) + rest);
        },
        Err(e) => {},
    }
}

/// Checks the prepared aliases of one namespace, adding the keys it accepts to `global`.
fn accept_aliases_exec(
    names: &Vec<String>,
    own: &str,
    ps: &Vec<String>,
    global: &mut Vec<String>,
    Ghost(name_set): Ghost<Set<Seq<char>>>,
    Ghost(seen): Ghost<Set<Seq<char>>>,
) -> (r: Result<Vec<String>, NamespaceError>)
    requires
        forall|k: Seq<char>| string_views(names@).contains(k) <==> name_set.contains(k),
        forall|k: Seq<char>| string_views(old(global)@).contains(k) <==> seen.contains(k),
    ensures
        match r {
            Ok(kept) => {
                &&& accept_aliases(name_set, own@, string_views(ps@), seen) is Ok
                &&& accept_aliases(name_set, own@, string_views(ps@), seen)->Ok_0.0 == string_views(kept@)
                &&& forall|k: Seq<char>| string_views(final(global)@).contains(k)
                    <==> accept_aliases(name_set, own@, string_views(ps@), seen)->Ok_0.1.contains(k)
            },
            Err(e) => accept_aliases(name_set, own@, string_views(ps@), seen) == Err::<(Seq<Seq<char>>, Set<Seq<char>>), ErrorView>(e@),
        },
{
    let ghost sv = string_views(ps@);
    let ghost total = accept_aliases(name_set, own@, sv, seen);
    let ghost mut cur: Set<Seq<char>> = seen;
    let mut kept: Vec<String> = Vec::new();
    let m = ps.len();
    let mut p: usize = 0;
    proof {
        assert(sv.skip(0) =~= sv);
        assert(prefix_kept(Seq::empty(), total) == total) by {
            match total {
                Ok((k, s)) => {
                    assert(Seq::<Seq<char>>::empty() + k =~= k);
                },
                Err(e) => {},
            }
        }
        assert(string_views(kept@) =~= Seq::<Seq<char>>::empty());
    }
    while p < m
        invariant
            sv == string_views(ps@),
            m == sv.len(),
            p <= m,
            total == accept_aliases(name_set, own@, sv, seen),
            forall|k: Seq<char>| string_views(names@).contains(k) <==> name_set.contains(k),
            forall|k: Seq<char>| string_views(global@).contains(k) <==> cur.contains(k),
            total == prefix_kept(string_views(kept@), accept_aliases(name_set, own@, sv.skip(p as int), cur)),
        decreases m - p,
    {
        let ghost t = sv.skip(p as int);
        proof {
            assert(t[0] == ps@[p as int]@);
            assert(t.drop_first() =~= sv.skip(p + 1));
        }
        let key = canonical_key(ps[p].as_str());
        if key.as_str().unicode_len() == 0 || str_eq(key.as_str(), own) {
            p = p + 1;
            continue;
        }
        if contains_string(names, key.as_str()) {
            return Err(NamespaceError::AliasConflict(ps[p].clone()));
        }
        if contains_string(global, key.as_str()) {
            return Err(NamespaceError::DuplicateAlias(ps[p].clone()));
        }
        proof {
            lemma_prefix_kept_step(string_views(kept@), t[0], accept_aliases(name_set, own@, t.drop_first(), cur.insert(key@)));
        }
        let ghost before_global = global@;
        let ghost before_kept = kept@;
        global.push(key);
        kept.push(ps[p].clone());
        proof {
            assert(string_views(kept@) =~= string_views(before_kept).push(t[0]));
            assert(string_views(global@) =~= string_views(before_global).push(key@));
            assert forall|k: Seq<char>| string_views(global@).contains(k) <==> cur.insert(key@).contains(k) by {
                if string_views(global@).contains(k) && k != key@ {
                    let i = choose|i: int| 0 <= i < string_views(global@).len() && string_views(global@)[i] == k;
                    assert(string_views(before_global)[i] == k);
                }
                if cur.contains(k) {
                    assert(string_views(before_global).contains(k));
                    let i = choose|i: int| 0 <= i < string_views(before_global).len() && string_views(before_global)[i] == k;
                    assert(string_views(global@)[i] == k);
                }
                if k == key@ {
                    assert(string_views(global@)[string_views(global@).len() - 1] == k);
                }
            }
            cur = cur.insert(key@);
        }
        p = p + 1;
    }
    proof {
        assert(sv.skip(m as int) =~= Seq::<Seq<char>>::empty());
        assert(string_views(kept@) + Seq::<Seq<char>>::empty() =~= string_views(kept@));
        assert(accept_aliases(name_set, own@, sv.skip(m as int), cur) == Ok::<(Seq<Seq<char>>, Set<Seq<char>>), ErrorView>((Seq::empty(), cur)));
        assert(total == Ok::<(Seq<Seq<char>>, Set<Seq<char>>), ErrorView>((string_views(kept@), cur)));
    }
    Ok(kept)
}

/// The views of per-definition alias lists.
pub open spec fn nested_views(v: Seq<Vec<String>>) -> Seq<Seq<Seq<char>>> {
    v.map_values(|a: Vec<String>| string_views(a@))
}

/// Checks the aliases of every definition in order; on success, what each keeps.
fn check_aliases(
    defs: &Vec<NamespaceDef>,
    names: &Vec<String>,
    Ghost(name_set): Ghost<Set<Seq<char>>>,
) -> (r: Result<Vec<Vec<String>>, NamespaceError>)
    requires
        forall|k: Seq<char>| string_views(names@).contains(k) <==> name_set.contains(k),
    ensures
        match r {
            Ok(kept) => accept_defs(name_set, def_views(defs@), Set::empty()) == Ok::<Seq<Seq<Seq<char>>>, ErrorView>(nested_views(kept@)),
            Err(e) => accept_defs(name_set, def_views(defs@), Set::empty()) == Err::<Seq<Seq<Seq<char>>>, ErrorView>(e@),
        },
{
    let ghost dv = def_views(defs@);
    let ghost total = accept_defs(name_set, dv, Set::empty());
    let ghost mut cur: Set<Seq<char>> = Set::empty();
    let mut global: Vec<String> = Vec::new();
    let mut kept_all: Vec<Vec<String>> = Vec::new();
    let n = defs.len();
    let mut i: usize = 0;
    proof {
        assert(dv.skip(0) =~= dv);
        assert(prefix_defs(Seq::empty(), total) == total) by {
            match total {
                Ok(k) => {
                    assert(Seq::<Seq<Seq<char>>>::empty() + k =~= k);
                },
                Err(e) => {},
            }
        }
        assert(nested_views(kept_all@) =~= Seq::<Seq<Seq<char>>>::empty());
        assert forall|k: Seq<char>| string_views(global@).contains(k) <==> cur.contains(k) by {
            assert(string_views(global@) =~= Seq::<Seq<char>>::empty());
        }
    }
    while i < n
        invariant
            dv == def_views(defs@),
            n == dv.len(),
            i <= n,
            total == accept_defs(name_set, dv, Set::empty()),
            forall|k: Seq<char>| string_views(names@).contains(k) <==> name_set.contains(k),
            forall|k: Seq<char>| string_views(global@).contains(k) <==> cur.contains(k),
            total == prefix_defs(nested_views(kept_all@), accept_defs(name_set, dv.skip(i as int), cur)),
        decreases n - i,
    {
        let ghost t = dv.skip(i as int);
        proof {
            assert(t[0] == defs@[i as int]@);
            assert(t.drop_first() =~= dv.skip(i + 1));
        }
        let ps = prepare_aliases(&defs[i]);
        let own = canonical_key(defs[i].name.as_str());
        let res = accept_aliases_exec(names, own.as_str(), &ps, &mut global, Ghost(name_set), Ghost(cur));
        match res {
            Err(e) => {
                return Err(e);
            },
            Ok(kept) => {
                let ghost step = accept_aliases(name_set, own@, string_views(ps@), cur);
                proof {
                    lemma_prefix_defs_step(nested_views(kept_all@), string_views(kept@), accept_defs(name_set, t.drop_first(), step->Ok_0.1));
                }
                let ghost before = kept_all@;
                kept_all.push(kept);
                proof {
                    assert(nested_views(kept_all@) =~= nested_views(before).push(string_views(kept@)));
                    cur = step->Ok_0.1;
                }
            },
        }
        i = i + 1;
    }
    proof {
        assert(dv.skip(n as int) =~= Seq::<DefView>::empty());
        assert(nested_views(kept_all@) + Seq::<Seq<Seq<char>>>::empty() =~= nested_views(kept_all@));
    }
    Ok(kept_all)
}

/// A namespace: its configured name, expanded root path and accepted aliases.
#[derive(Debug)]
pub struct NamespaceEntry {
    name: String,
    path: String,
    aliases: Vec<String>,
}

impl View for NamespaceEntry {
    type V = EntryView;

    closed spec fn view(&self) -> EntryView {
        EntryView { name: self.name@, path: self.path@, aliases: string_views(self.aliases@) }
    }
}

impl NamespaceEntry {
    /// The configured name.
    pub fn name(&self) -> (r: &str)
        ensures
            r@ == self@.name,
    {
        self.name.as_str()
    }

    /// The expanded root path.
    pub fn path(&self) -> (r: &str)
        ensures
            r@ == self@.path,
    {
        self.path.as_str()
    }

    /// The accepted aliases.
    pub fn aliases(&self) -> (r: &Vec<String>)
        ensures
            string_views(r@) == self@.aliases,
    {
        &self.aliases
    }
}

/// The models of entries paired with their keys.
pub open spec fn slot_views(v: Seq<(NamespaceEntry, String)>) -> Seq<(EntryView, Seq<char>)> {
    v.map_values(|p: (NamespaceEntry, String)| (p.0@, p.1@))
}

/// Adds an entry under a key that is not yet present, keeping keys in order.
fn insert_slot(v: &mut Vec<(NamespaceEntry, String)>, e: NamespaceEntry, key: String)
    requires
        keys_sorted(slot_views(old(v)@)),
        forall|j: int| 0 <= j < old(v)@.len() ==> (#[trigger] slot_views(old(v)@)[j]).1 != key@,
    ensures
        keys_sorted(slot_views(final(v)@)),
        forall|x: (EntryView, Seq<char>)| slot_views(final(v)@).contains(x) <==> (slot_views(old(v)@).contains(x) || x == (e@, key@)),
{
    let ghost s = slot_views(v@);
    let ghost x = (e@, key@);
    let m = v.len();
    let mut j: usize = 0;
    while j < m && str_less(v[j].1.as_str(), key.as_str())
        invariant
            m == v@.len(),
            s == slot_views(v@),
            j <= m,
            forall|t: int| 0 <= t < j ==> seq_less(#[trigger] s[t].1, key@),
        decreases m - j,
    {
        j = j + 1;
    }
    proof {
        if j < m {
            assert(s[j as int].1 != key@);
            lemma_seq_less_total(s[j as int].1, key@);
        }
    }
    v.insert(j, (e, key));
    proof {
        let r = slot_views(v@);
        assert(r =~= s.take(j as int) + seq![x] + s.skip(j as int));
        assert forall|a: int, b: int| 0 <= a < b < r.len() implies seq_less(#[trigger] r[a].1, #[trigger] r[b].1) by {
            if b < j {
                assert(r[a] == s[a] && r[b] == s[b]);
            } else if b == j {
                assert(r[a] == s[a]);
            } else if a == j {
                assert(r[b] == s[b - 1]);
                if b - 1 > j {
                    lemma_seq_less_transitive(x.1, s[j as int].1, s[b - 1].1);
                }
            } else if a < j {
                assert(r[a] == s[a] && r[b] == s[b - 1]);
            } else {
                assert(r[a] == s[a - 1] && r[b] == s[b - 1]);
            }
        }
        assert forall|y: (EntryView, Seq<char>)| r.contains(y) <==> (s.contains(y) || y == x) by {
            if r.contains(y) {
                let k = choose|k: int| 0 <= k < r.len() && r[k] == y;
                if k < j {
                    assert(s[k] == y);
                } else if k > j {
                    assert(s[k - 1] == y);
                }
            }
            if s.contains(y) {
                let k = choose|k: int| 0 <= k < s.len() && s[k] == y;
                if k < j {
                    assert(r[k] == y);
                } else {
                    assert(r[k + 1] == y);
                }
            }
            if y == x {
                assert(r[j as int] == y);
            }
        }
    }
}

/// Namespaces by key, in key order.
#[derive(Debug)]
pub struct NamespaceMap {
    primary: Vec<(NamespaceEntry, String)>,
}

impl View for NamespaceMap {
    type V = Seq<(EntryView, Seq<char>)>;

    closed spec fn view(&self) -> Seq<(EntryView, Seq<char>)> {
        slot_views(self.primary@)
    }
}

impl NamespaceMap {
    #[verifier::type_invariant]
    closed spec fn keys_in_order(self) -> bool {
        keys_sorted(slot_views(self.primary@))
    }

    /// The map that valid `defs` make, with `roots` as their expanded root paths.
    pub fn from_expanded(defs: Vec<NamespaceDef>, roots: &Vec<String>) -> (r: Result<Self, NamespaceError>)
        requires
            roots@.len() == defs@.len(),
        ensures
            match r {
                Ok(m) => {
                    &&& defs_error(def_views(defs@)) is None
                    &&& laid_out(m@, built_entries(def_views(defs@), string_views(roots@)))
                    &&& forall|k: int| 0 <= k < defs@.len() && all_ascii(trim_seq(#[trigger] def_views(defs@)[k].name)) ==> lowers_as_ascii(
                        trim_seq(def_views(defs@)[k].name),
                    )
                },
                Err(e) => defs_error(def_views(defs@)) == Some(e@),
            },
    {
        let ghost dv = def_views(defs@);
        let names = match check_names(&defs) {
            Ok(names) => names,
            Err(e) => {
                return Err(e);
            },
        };
        let kept = match check_aliases(&defs, &names, Ghost(namespace_keys(dv))) {
            Ok(kept) => kept,
            Err(e) => {
                return Err(e);
            },
        };
        let ghost built = built_entries(dv, string_views(roots@));
        proof {
            assert(kept_aliases(dv) == nested_views(kept@));
            assert(nested_views(kept@).len() == dv.len()) by {
                lemma_accept_defs_len(namespace_keys(dv), dv, Set::empty());
            }
            assert(!has_name_problem(dv));
        }
        let mut primary: Vec<(NamespaceEntry, String)> = Vec::new();
        let n = defs.len();
        let mut i: usize = 0;
        while i < n
            invariant
                dv == def_views(defs@),
                n == dv.len(),
                i <= n,
                roots@.len() == n,
                kept@.len() == n,
                built == built_entries(dv, string_views(roots@)),
                kept_aliases(dv) == nested_views(kept@),
                !has_name_problem(dv),
                keys_sorted(slot_views(primary@)),
                forall|x: (EntryView, Seq<char>)| slot_views(primary@).contains(x) <==> built.take(i as int).contains(x),
                forall|k: int| 0 <= k < i && all_ascii(trim_seq(#[trigger] dv[k].name)) ==> lowers_as_ascii(trim_seq(dv[k].name)),
            decreases n - i,
        {
            let entry = NamespaceEntry {
                name: defs[i].name.clone(),
                path: roots[i].clone(),
                aliases: copy_strings(&kept[i]),
            };
            let key = canonical_key(defs[i].name.as_str());
            proof {
                assert(dv[i as int].name == defs@[i as int].name@);
                assert(nested_views(kept@)[i as int] == string_views(kept@[i as int]@));
                assert(built[i as int] == (entry@, key@));
                assert forall|j: int| 0 <= j < primary@.len() implies (#[trigger] slot_views(primary@)[j]).1 != key@ by {
                    let y = slot_views(primary@)[j];
                    assert(slot_views(primary@).contains(y));
                    assert(built.take(i as int).contains(y));
                    let k = choose|k: int| 0 <= k < i && built.take(i as int)[k] == y;
                    assert(built[k].1 == canonical(dv[k].name));
                    assert(!name_problem(dv, i as int));
                }
            }
            let ghost before = slot_views(primary@);
            insert_slot(&mut primary, entry, key);
            proof {
                assert forall|x: (EntryView, Seq<char>)| slot_views(primary@).contains(x) <==> built.take(i + 1).contains(x) by {
                    let b1 = built.take(i + 1);
                    if b1.contains(x) {
                        let k = choose|k: int| 0 <= k < b1.len() && b1[k] == x;
                        if k < i {
                            assert(built.take(i as int)[k] == x);
                        }
                    }
                    if built.take(i as int).contains(x) {
                        let k = choose|k: int| 0 <= k < i && built.take(i as int)[k] == x;
                        assert(b1[k] == x);
                    }
                    if x == built[i as int] {
                        assert(b1[i as int] == x);
                    }
                }
            }
            i = i + 1;
        }
        proof {
            assert(built.take(n as int) =~= built);
        }
        Ok(NamespaceMap { primary })
    }
}

/// On success every definition keeps an alias list.
proof fn lemma_accept_defs_len(names: Set<Seq<char>>, defs: Seq<DefView>, seen: Set<Seq<char>>)
    ensures
        accept_defs(names, defs, seen) is Ok ==> accept_defs(names, defs, seen)->Ok_0.len() == defs.len(),
    decreases defs.len(),
{
    if defs.len() > 0 {
        match accept_aliases(names, canonical(defs[0].name), prepared_aliases(defs[0]), seen) {
            Err(e) => {},
            Ok((kept, s)) => {
                lemma_accept_defs_len(names, defs.drop_first(), s);
            },
        }
    }
}

/// Some slot has key `k`.
pub open spec fn has_key(m: Seq<(EntryView, Seq<char>)>, k: Seq<char>) -> bool {
    exists|i: int| 0 <= i < m.len() && m[i].1 == k
}

/// The slot with key `k`.
pub open spec fn key_position(m: Seq<(EntryView, Seq<char>)>, k: Seq<char>) -> int {
    choose|i: int| 0 <= i < m.len() && m[i].1 == k
}

/// Some alias of `e` equals `s` up to case.
pub open spec fn alias_matches(e: EntryView, s: Seq<char>) -> bool {
    exists|j: int| 0 <= j < e.aliases.len() && same_lowercase(#[trigger] e.aliases[j], s)
}

/// Some entry has an alias equal to `s` up to case.
pub open spec fn has_alias_match(m: Seq<(EntryView, Seq<char>)>, s: Seq<char>) -> bool {
    exists|i: int| 0 <= i < m.len() && alias_matches(m[i].0, s)
}

/// The first entry, in key order, with an alias equal to `s` up to case.
pub open spec fn first_alias_match(m: Seq<(EntryView, Seq<char>)>, s: Seq<char>) -> int {
    choose|i: int|
        0 <= i < m.len() && alias_matches(m[i].0, s) && forall|j: int| 0 <= j < i ==> !alias_matches(m[j].0, s)
}

/// The entry a lookup of `s` finds: the one whose key is the lowercase `s`, else the
/// first one with an alias equal to `s` up to case.
pub open spec fn lookup_position(m: Seq<(EntryView, Seq<char>)>, s: Seq<char>) -> Option<int> {
    if has_key(m, lowercase(s)) {
        Some(key_position(m, lowercase(s)))
    } else if has_alias_match(m, s) {
        Some(first_alias_match(m, s))
    } else {
        None
    }
}

/// The namespace part of a target: what precedes its first `/`.
pub open spec fn target_namespace(t: Seq<char>) -> Seq<char> {
    match first_index_of(t, '/') {
        Some(i) => t.take(i),
        None => t,
    }
}

/// The path part of a target: what follows its first `/`, if it has one.
pub open spec fn target_rest(t: Seq<char>) -> Option<Seq<char>> {
    match first_index_of(t, '/') {
        Some(i) => Some(t.skip(i + 1)),
        None => None,
    }
}

/// The path a target names under a namespace root.
pub open spec fn candidate_path(root: Seq<char>, rest: Option<Seq<char>>) -> Seq<char> {
    match rest {
        Some(r) => path_join(root, r),
        None => root,
    }
}

proof fn lemma_key_unique(m: Seq<(EntryView, Seq<char>)>, i: int, j: int)
    requires
        keys_sorted(m),
        0 <= i < m.len(),
        0 <= j < m.len(),
        m[i].1 == m[j].1,
    ensures
        i == j,
{
    if i < j {
        lemma_seq_less_irreflexive(m[i].1);
    } else if j < i {
        lemma_seq_less_irreflexive(m[i].1);
    }
}

/// The model of a result that is a string or a namespace error.
pub open spec fn result_view(r: Result<String, NamespaceError>) -> Result<Seq<char>, ErrorView> {
    match r {
        Ok(p) => Ok(p@),
        Err(e) => Err(e@),
    }
}

/// What `resolve` gives for `target`: the path it names under the namespace found, or
/// the error for a namespace not found.
pub open spec fn resolve_outcome(m: Seq<(EntryView, Seq<char>)>, target: Seq<char>) -> Result<Seq<char>, ErrorView> {
    match lookup_position(m, target_namespace(target)) {
        Some(i) => Ok(candidate_path(m[i].0.path, target_rest(target))),
        None => Err(ErrorView::UnknownNamespace(target_namespace(target))),
    }
}

/// What checking a candidate path on disk gives: the missing-path error, or the path,
/// replaced by its canonical form when that is known.
pub open spec fn finish_outcome(candidate: Seq<char>, exists: bool, canonical_form: Option<Seq<char>>) -> Result<
    Seq<char>,
    ErrorView,
> {
    if !exists {
        Err(ErrorView::MissingPath(candidate))
    } else {
        match canonical_form {
            Some(c) => Ok(c),
            None => Ok(candidate),
        }
    }
}

/// The error for a lookup that found nothing.
fn unknown_namespace(lookup: &str) -> (e: NamespaceError)
    ensures
        e@ == ErrorView::UnknownNamespace(lookup@),
{
    NamespaceError::UnknownNamespace(String::from_str(lookup))
}

impl NamespaceMap {
    /// The map that `defs` make, with root paths shell-expanded.
    pub fn from_defs(defs: Vec<NamespaceDef>) -> (r: Result<Self, NamespaceError>)
        ensures
            match r {
                Ok(m) => {
                    &&& defs_error(def_views(defs@)) is None
                    &&& forall|k: int| 0 <= k < defs@.len() && all_ascii(trim_seq(#[trigger] def_views(defs@)[k].name)) ==> lowers_as_ascii(
                        trim_seq(def_views(defs@)[k].name),
                    )
                    &&& exists|roots: Seq<Seq<char>>| {
                        &&& roots.len() == defs@.len()
                        &&& forall|i: int| 0 <= i < roots.len() && plain_path(def_views(defs@)[i].path) ==> #[trigger] roots[i] == def_views(defs@)[i].path
                        &&& forall|i: int| 0 <= i < roots.len() && home_path(def_views(defs@)[i].path) ==> home_expanded(#[trigger] roots[i], def_views(defs@)[i].path)
                        &&& laid_out(m@, built_entries(def_views(defs@), roots))
                    }
                },
                Err(e) => defs_error(def_views(defs@)) == Some(e@),
            },
    {
        let ghost dv = def_views(defs@);
        let mut roots: Vec<String> = Vec::new();
        let n = defs.len();
        let mut i: usize = 0;
        while i < n
            invariant
                dv == def_views(defs@),
                n == dv.len(),
                i <= n,
                roots@.len() == i,
                forall|k: int| 0 <= k < i && plain_path(dv[k].path) ==> #[trigger] roots@[k]@ == dv[k].path,
                forall|k: int| 0 <= k < i && home_path(dv[k].path) ==> home_expanded(#[trigger] roots@[k]@, dv[k].path),
            decreases n - i,
        {
            assert(dv[i as int].path == defs@[i as int].path@);
            roots.push(expand_path(defs[i].path.as_str()));
            i = i + 1;
        }
        let r = Self::from_expanded(defs, &roots);
        proof {
            let rv = string_views(roots@);
            assert forall|k: int| 0 <= k < rv.len() && plain_path(dv[k].path) implies #[trigger] rv[k] == dv[k].path by {
                assert(rv[k] == roots@[k]@);
            }
            assert forall|k: int| 0 <= k < rv.len() && home_path(dv[k].path) implies home_expanded(#[trigger] rv[k], dv[k].path) by {
                assert(rv[k] == roots@[k]@);
            }
        }
        r
    }

    /// The namespaces of a parsed configuration.
    pub fn load(cfg: crate::config::ConfigFile) -> (r: Result<Self, NamespaceError>)
        ensures
            match r {
                Ok(m) => defs_error(cfg@) is None && (forall|k: int| 0 <= k < cfg@.len() && all_ascii(trim_seq(#[trigger] cfg@[k].name)) ==> lowers_as_ascii(
                    trim_seq(cfg@[k].name),
                )) && exists|roots: Seq<Seq<char>>| {
                    &&& roots.len() == cfg@.len()
                    &&& forall|i: int| 0 <= i < roots.len() && plain_path(cfg@[i].path) ==> #[trigger] roots[i] == cfg@[i].path
                    &&& forall|i: int| 0 <= i < roots.len() && home_path(cfg@[i].path) ==> home_expanded(#[trigger] roots[i], cfg@[i].path)
                    &&& laid_out(m@, built_entries(cfg@, roots))
                },
                Err(e) => defs_error(cfg@) == Some(e@),
            },
    {
        Self::from_defs(cfg.namespace)
    }

    /// The entry a lookup finds: by key first, then by alias.
    pub fn lookup_namespace(&self, lookup: &str) -> (r: Result<&NamespaceEntry, NamespaceError>)
        ensures
            match r {
                Ok(e) => lookup_position(self@, lookup@) matches Some(i) && e@ == self@[i].0,
                Err(err) => lookup_position(self@, lookup@) is None && err@ == ErrorView::UnknownNamespace(lookup@),
            },
            all_ascii(lookup@) ==> lowers_as_ascii(lookup@),
    {
        proof {
            use_type_invariant(self);
        }
        let ghost m = self@;
        let normalized = to_lower(lookup);
        proof {
            if all_ascii(lookup@) {
                assert forall|i: int| 0 <= i < lookup@.len() implies (#[trigger] lowercase(lookup@)[i] as int) == ascii_fold(lookup@[i]) by {
                    assert(normalized@[i] == lowercase(lookup@)[i]);
                }
            }
        }
        let n = self.primary.len();
        let mut i: usize = 0;
        while i < n
            invariant
                m == self@,
                m == slot_views(self.primary@),
                n == m.len(),
                i <= n,
                keys_sorted(m),
                normalized@ == lowercase(lookup@),
                all_ascii(lookup@) ==> lowers_as_ascii(lookup@),
                forall|k: int| 0 <= k < i ==> m[k].1 != normalized@,
            decreases n - i,
        {
            if str_eq(self.primary[i].1.as_str(), normalized.as_str()) {
                proof {
                    assert(m[i as int].1 == lowercase(lookup@));
                    assert(has_key(m, lowercase(lookup@)));
                    let w = key_position(m, lowercase(lookup@));
                    lemma_key_unique(m, i as int, w);
                }
                return Ok(&self.primary[i].0);
            }
            i = i + 1;
        }
        assert(!has_key(m, lowercase(lookup@)));
        let mut i: usize = 0;
        while i < n
            invariant
                m == self@,
                m == slot_views(self.primary@),
                n == m.len(),
                i <= n,
                !has_key(m, lowercase(lookup@)),
                forall|k: int| 0 <= k < i ==> !alias_matches(m[k].0, lookup@),
                all_ascii(lookup@) ==> lowers_as_ascii(lookup@),
            decreases n - i,
        {
            let entry = &self.primary[i].0;
            let ghost e = m[i as int].0;
            assert(e == entry@);
            let aliases = &entry.aliases;
            let na = aliases.len();
            let mut j: usize = 0;
            while j < na
                invariant
                    m == self@,
                    0 <= i < n,
                    n == m.len(),
                    e == m[i as int].0,
                    !has_key(m, lowercase(lookup@)),
                    forall|k: int| 0 <= k < i ==> !alias_matches(m[k].0, lookup@),
                    e == entry@,
                    na == e.aliases.len(),
                    na == aliases@.len(),
                    e.aliases == string_views(aliases@),
                    j <= na,
                    all_ascii(lookup@) ==> lowers_as_ascii(lookup@),
                    forall|t: int| 0 <= t < j ==> !same_lowercase(#[trigger] e.aliases[t], lookup@),
                decreases na - j,
            {
                if eq_ignore_case(aliases[j].as_str(), lookup) {
                    proof {
                        assert(e.aliases[j as int] == aliases@[j as int]@);
                        assert(alias_matches(e, lookup@));
                        assert(has_alias_match(m, lookup@));
                        let w = first_alias_match(m, lookup@);
                        if w < i {
                            assert(!alias_matches(m[w].0, lookup@));
                        } else if w > i {
                            assert(!alias_matches(m[i as int].0, lookup@));
                        }
                    }
                    return Ok(entry);
                }
                assert(e.aliases[j as int] == aliases@[j as int]@);
                j = j + 1;
            }
            i = i + 1;
        }
        proof {
            if has_alias_match(m, lookup@) {
                let w = choose|w: int| 0 <= w < m.len() && alias_matches(m[w].0, lookup@);
                assert(!alias_matches(m[w].0, lookup@));
            }
        }
        Err(unknown_namespace(lookup))
    }

    /// The path a target `<namespace>[/<path>]` names, before it is checked on disk.
    pub fn resolve(&self, target: &str) -> (r: Result<String, NamespaceError>)
        ensures
            match r {
                Ok(p) => lookup_position(self@, target_namespace(target@)) matches Some(i) && p@ == candidate_path(
                    self@[i].0.path,
                    target_rest(target@),
                ),
                Err(e) => lookup_position(self@, target_namespace(target@)) is None && e@ == ErrorView::UnknownNamespace(
                    target_namespace(target@),
                ),
            },
            all_ascii(target_namespace(target@)) ==> lowers_as_ascii(target_namespace(target@)),
            result_view(r) == resolve_outcome(self@, target@),
    {
        let n = target.unicode_len();
        match find_char(target, '/') {
            Some(i) => {
                let namespace = target.substring_char(0, i);
                let rest = target.substring_char(i + 1, n);
                proof {
                    assert(namespace@ =~= target@.take(i as int));
                    assert(rest@ =~= target@.skip(i + 1));
                }
                let entry = self.lookup_namespace(namespace)?;
                Ok(join_path(entry.path.as_str(), rest))
            },
            None => {
                let entry = self.lookup_namespace(target)?;
                Ok(entry.path.clone())
            },
        }
    }
}

/// The outcome of resolving, once the candidate path has been checked on disk: missing
/// paths are an error, and an existing one is replaced by its canonical form when
/// that is known.
pub fn finish_resolve(candidate: String, exists: bool, canonical_form: Option<String>) -> (r: Result<String, NamespaceError>)
    ensures
        match r {
            Ok(p) => exists && p@ == match canonical_form {
                Some(c) => c@,
                None => candidate@,
            },
            Err(e) => !exists && e@ == ErrorView::MissingPath(candidate@),
        },
        result_view(r) == finish_outcome(
            candidate@,
            exists,
            match canonical_form {
                Some(c) => Some(c@),
                None => None,
            },
        ),
{
    if !exists {
        return Err(NamespaceError::MissingPath(candidate));
    }
    match canonical_form {
        Some(c) => Ok(c),
        None => Ok(candidate),
    }
}

/// The text of an error, as the command line reports it.
pub open spec fn error_message(e: ErrorView) -> Seq<char> {
    match e {
        ErrorView::EmptyConfig => "config must contain at least one [[namespace]] entry"@,
        ErrorView::EmptyName => "namespace names must not be empty"@,
        ErrorView::DuplicateNamespace(n) => "duplicate namespace: "@ + n,
        ErrorView::AliasConflict(a) => "alias '"@ + a + "' conflicts with namespace name"@,
        ErrorView::DuplicateAlias(a) => "duplicate alias across namespaces: "@ + a,
        ErrorView::UnknownNamespace(n) => "unknown namespace: "@ + n,
        ErrorView::MissingPath(p) => "path does not exist: "@ + p,
    }
}

impl NamespaceError {
    /// The text of this error.
    pub fn message(&self) -> (r: String)
        ensures
            r@ == error_message(self@),
    {
        match self {
            NamespaceError::EmptyConfig => String::from_str("config must contain at least one [[namespace]] entry"),
            NamespaceError::EmptyName => String::from_str("namespace names must not be empty"),
            NamespaceError::DuplicateNamespace(n) => String::from_str("duplicate namespace: ").concat(n.as_str()),
            NamespaceError::AliasConflict(a) => String::from_str("alias '").concat(a.as_str()).concat(
                "' conflicts with namespace name",
            ),
            NamespaceError::DuplicateAlias(a) => String::from_str("duplicate alias across namespaces: ").concat(a.as_str()),
            NamespaceError::UnknownNamespace(n) => String::from_str("unknown namespace: ").concat(n.as_str()),
            NamespaceError::MissingPath(p) => String::from_str("path does not exist: ").concat(p.as_str()),
        }
    }
}

/// The views of pairs of strings.
pub open spec fn pair_views(v: Seq<(String, String)>) -> Seq<(Seq<char>, Seq<char>)> {
    v.map_values(|p: (String, String)| (p.0@, p.1@))
}

/// The name and root path of every entry, in key order.
pub open spec fn all_roots(m: Seq<(EntryView, Seq<char>)>) -> Seq<(Seq<char>, Seq<char>)> {
    m.map_values(|p: (EntryView, Seq<char>)| (p.0.name, p.0.path))
}

/// The names a namespace can be completed as: its name, then its aliases.
pub open spec fn entry_candidates(e: EntryView) -> Seq<Seq<char>> {
    seq![e.name] + e.aliases
}

/// The completion candidates of all entries, in key order.
pub open spec fn all_candidates(m: Seq<(EntryView, Seq<char>)>) -> Seq<Seq<char>>
    decreases m.len(),
{
    if m.len() == 0 {
        Seq::empty()
    } else {
        all_candidates(m.drop_last()) + entry_candidates(m.last().0)
    }
}

/// A candidate is offered for a (lowercase) needle: the needle is empty, or starts the
/// candidate's lowercase form.
pub open spec fn offered(needle: Seq<char>, c: Seq<char>) -> bool {
    needle.len() == 0 || has_prefix(lowercase(c), needle)
}

/// `x` completes a namespace for `prefix`: it is an offered candidate followed by `/`.
pub open spec fn namespace_completion(m: Seq<(EntryView, Seq<char>)>, prefix: Seq<char>, x: Seq<char>) -> bool {
    exists|c: Seq<char>| all_candidates(m).contains(c) && offered(lowercase(prefix), c) && x == c + "/"@
}

/// The children of a namespace directory, sorted.
pub open spec fn sorted_names(children: Seq<Seq<char>>) -> Seq<Seq<char>> {
    firsts(sort_by_key(children.map_values(|c: Seq<char>| (c, c))))
}

/// The lines `list` prints for one namespace: the namespace alone when it has no
/// child directories, else one `namespace/child` line per child, sorted.
pub open spec fn list_lines_spec(namespace: Seq<char>, children: Seq<Seq<char>>) -> Seq<Seq<char>> {
    if children.len() == 0 {
        seq![namespace]
    } else {
        sorted_names(children).map_values(|c: Seq<char>| namespace + "/"@ + c)
    }
}

/// The lines printed for a namespace directory with the given child directories.
pub fn list_lines(namespace: &str, children: &Vec<String>) -> (r: Vec<String>)
    ensures
        string_views(r@) == list_lines_spec(namespace@, string_views(children@)),
{
    let ghost cv = string_views(children@);
    if children.len() == 0 {
        let mut r: Vec<String> = Vec::new();
        r.push(String::from_str(namespace));
        assert(string_views(r@) =~= seq![namespace@]);
        return r;
    }
    let mut pairs: Vec<(String, String)> = Vec::new();
    let n = children.len();
    let mut i: usize = 0;
    while i < n
        invariant
            cv == string_views(children@),
            n == cv.len(),
            i <= n,
            pairs@.len() == i,
            forall|k: int| 0 <= k < i ==> (#[trigger] pairs@[k]).0@ == cv[k] && pairs@[k].1@ == cv[k],
        decreases n - i,
    {
        pairs.push((children[i].clone(), children[i].clone()));
        i = i + 1;
    }
    let ghost before = keyed(pairs@);
    let sorted = stable_sort_by_key(pairs);
    let ghost target = sort_by_key(cv.map_values(|c: Seq<char>| (c, c)));
    proof {
        assert(map_firsts(before, |s: String| s@) =~= cv.map_values(|c: Seq<char>| (c, c)));
        lemma_sort_map(before, |s: String| s@);
        assert(map_firsts(keyed(sorted@), |s: String| s@) == target);
        assert(map_firsts(keyed(sorted@), |s: String| s@).len() == sorted@.len());
    }
    proof {
        reveal_strlit("/");
    }
    let mut out: Vec<String> = Vec::new();
    let m = sorted.len();
    let mut j: usize = 0;
    while j < m
        invariant
            m == sorted@.len(),
            target.len() == m,
            map_firsts(keyed(sorted@), |s: String| s@) == target,
            j <= m,
            string_views(out@) == firsts(target).map_values(|c: Seq<char>| namespace@ + "/"@ + c).take(j as int),
        decreases m - j,
    {
        proof {
            assert(keyed(sorted@)[j as int].0 == sorted@[j as int].0);
            assert(map_firsts(keyed(sorted@), |s: String| s@)[j as int].0 == sorted@[j as int].0@);
        }
        let line = String::from_str(namespace).concat("/").concat(sorted[j].0.as_str());
        let ghost before_out = out@;
        out.push(line);
        proof {
            let lines = firsts(target).map_values(|c: Seq<char>| namespace@ + "/"@ + c);
            assert(lines[j as int] == line@);
            assert(string_views(out@) =~= string_views(before_out).push(line@));
            assert(lines.take(j + 1) =~= lines.take(j as int).push(lines[j as int]));
        }
        j = j + 1;
    }
    proof {
        let lines = firsts(target).map_values(|c: Seq<char>| namespace@ + "/"@ + c);
        assert(lines.take(m as int) =~= lines);
    }
    out
}

impl NamespaceMap {
    /// The name and root of one namespace, or of every namespace in key order.
    pub fn list(&self, namespace: Option<&str>) -> (r: Result<Vec<(String, String)>, NamespaceError>)
        ensures
            match r {
                Ok(v) => match namespace {
                    Some(ns) => lookup_position(self@, ns@) matches Some(i) && pair_views(v@) == seq![
                        (self@[i].0.name, self@[i].0.path),
                    ],
                    None => pair_views(v@) == all_roots(self@),
                },
                Err(e) => namespace matches Some(ns) && lookup_position(self@, ns@) is None && e@
                    == ErrorView::UnknownNamespace(ns@),
            },
    {
        let ghost m = self@;
        let mut out: Vec<(String, String)> = Vec::new();
        match namespace {
            Some(ns) => {
                let entry = self.lookup_namespace(ns)?;
                out.push((entry.name.clone(), entry.path.clone()));
                assert(pair_views(out@) =~= seq![(entry@.name, entry@.path)]);
                Ok(out)
            },
            None => {
                let n = self.primary.len();
                let mut i: usize = 0;
                while i < n
                    invariant
                        m == self@,
                        m == slot_views(self.primary@),
                        n == m.len(),
                        i <= n,
                        pair_views(out@) == all_roots(m).take(i as int),
                    decreases n - i,
                {
                    let entry = &self.primary[i].0;
                    let ghost before = out@;
                    out.push((entry.name.clone(), entry.path.clone()));
                    proof {
                        assert(m[i as int].0 == entry@);
                        assert(pair_views(out@) =~= pair_views(before).push((entry@.name, entry@.path)));
                        assert(all_roots(m).take(i + 1) =~= all_roots(m).take(i as int).push(all_roots(m)[i as int]));
                    }
                    i = i + 1;
                }
                assert(all_roots(m).take(n as int) =~= all_roots(m));
                Ok(out)
            },
        }
    }

    /// The completion candidates of all entries, in key order.
    fn candidates(&self) -> (r: Vec<String>)
        ensures
            string_views(r@) == all_candidates(self@),
    {
        let ghost m = self@;
        let mut out: Vec<String> = Vec::new();
        let n = self.primary.len();
        let mut i: usize = 0;
        assert(m.take(0) =~= Seq::<(EntryView, Seq<char>)>::empty());
        while i < n
            invariant
                m == self@,
                m == slot_views(self.primary@),
                n == m.len(),
                i <= n,
                string_views(out@) == all_candidates(m.take(i as int)),
            decreases n - i,
        {
            let entry = &self.primary[i].0;
            let ghost e = entry@;
            proof {
                assert(m[i as int].0 == e);
                assert(m.take(i + 1).drop_last() =~= m.take(i as int));
                assert(m.take(i + 1).last() == m[i as int]);
            }
            let ghost start = string_views(out@);
            out.push(entry.name.clone());
            let na = entry.aliases.len();
            let mut j: usize = 0;
            assert(string_views(out@) =~= start + entry_candidates(e).take(1));
            while j < na
                invariant
                    e == entry@,
                    na == e.aliases.len(),
                    na == entry.aliases@.len(),
                    j <= na,
                    string_views(out@) == start + entry_candidates(e).take(j + 1),
                decreases na - j,
            {
                let ghost before = out@;
                out.push(entry.aliases[j].clone());
                proof {
                    assert(e.aliases[j as int] == entry.aliases@[j as int]@);
                    assert(entry_candidates(e)[j + 1] == e.aliases[j as int]);
                    assert(string_views(out@) =~= string_views(before).push(e.aliases[j as int]));
                    assert(entry_candidates(e).take(j + 2) =~= entry_candidates(e).take(j + 1).push(e.aliases[j as int]));
                }
                j = j + 1;
            }
            assert(entry_candidates(e).take(na + 1) =~= entry_candidates(e));
            i = i + 1;
        }
        assert(m.take(n as int) =~= m);
        out
    }

    /// Namespace names and aliases that complete `prefix`, each followed by `/`,
    /// sorted and without repeats.
    pub fn complete_namespaces(&self, prefix: &str) -> (r: Vec<String>)
        ensures
            strictly_sorted(string_views(r@)),
            forall|x: Seq<char>| string_views(r@).contains(x) <==> namespace_completion(self@, prefix@, x),
            prefix@.len() == 0 ==> forall|c: Seq<char>| #[trigger] all_candidates(self@).contains(c) ==> string_views(r@).contains(c + "/"@),
    {
        let ghost m = self@;
        let needle = to_lower(prefix);
        proof {
            if prefix@.len() == 0 {
                assert(all_ascii(prefix@));
            }
        }
        let all = self.candidates();
        let ghost cs = string_views(all@);
        let mut out: Vec<String> = Vec::new();
        let n = all.len();
        let mut k: usize = 0;
        proof {
            reveal_strlit("/");
        }
        assert(string_views(out@) =~= Seq::<Seq<char>>::empty());
        while k < n
            invariant
                cs == string_views(all@),
                cs == all_candidates(m),
                n == cs.len(),
                k <= n,
                needle@ == lowercase(prefix@),
                strictly_sorted(string_views(out@)),
                forall|x: Seq<char>| string_views(out@).contains(x) <==> exists|t: int| 0 <= t < k && offered(needle@, cs[t]) && x == #[trigger] cs[t] + "/"@,
            decreases n - k,
        {
            let c = &all[k];
            assert(cs[k as int] == c@);
            let lowered = to_lower(c.as_str());
            let take = needle.as_str().unicode_len() == 0 || crate::text::starts_with(lowered.as_str(), needle.as_str());
            let ghost before = string_views(out@);
            if take {
                let item = c.clone().concat("/");
                insert_sorted_unique(&mut out, item);
            }
            proof {
                assert forall|x: Seq<char>| string_views(out@).contains(x) <==> exists|t: int| 0 <= t < k + 1 && offered(needle@, cs[t]) && x == #[trigger] cs[t] + "/"@ by {
                    if exists|t: int| 0 <= t < k + 1 && offered(needle@, cs[t]) && x == #[trigger] cs[t] + "/"@ {
                        let t = choose|t: int| 0 <= t < k + 1 && offered(needle@, cs[t]) && x == #[trigger] cs[t] + "/"@;
                        if t < k {
                            assert(exists|t: int| 0 <= t < k && offered(needle@, cs[t]) && x == #[trigger] cs[t] + "/"@);
                        }
                    }
                    if before.contains(x) {
                        let t = choose|t: int| 0 <= t < k && offered(needle@, cs[t]) && x == #[trigger] cs[t] + "/"@;
                        assert(0 <= t < k + 1 && offered(needle@, cs[t]) && x == cs[t] + "/"@);
                    }
                }
            }
            k = k + 1;
        }
        proof {
            assert forall|x: Seq<char>| string_views(out@).contains(x) <==> namespace_completion(m, prefix@, x) by {
                if namespace_completion(m, prefix@, x) {
                    let c = choose|c: Seq<char>| all_candidates(m).contains(c) && offered(lowercase(prefix@), c) && x == c + "/"@;
                    let t = choose|t: int| 0 <= t < cs.len() && cs[t] == c;
                    assert(0 <= t < n && offered(needle@, cs[t]) && x == cs[t] + "/"@);
                }
                if string_views(out@).contains(x) {
                    let t = choose|t: int| 0 <= t < n && offered(needle@, cs[t]) && x == #[trigger] cs[t] + "/"@;
                    assert(all_candidates(m).contains(cs[t]));
                }
            }
            assert forall|c: Seq<char>| prefix@.len() == 0 && #[trigger] all_candidates(m).contains(c) implies string_views(out@).contains(c + "/"@) by {
                assert(offered(lowercase(prefix@), c));
                assert(namespace_completion(m, prefix@, c + "/"@));
            }
        }
        out
    }
}

/// Index of the last `c` in `s`, if any.
pub open spec fn last_index_of(s: Seq<char>, c: char) -> Option<int> {
    if exists|i: int| 0 <= i < s.len() && s[i] == c {
        Some(choose|i: int| 0 <= i < s.len() && s[i] == c && forall|j: int| i < j < s.len() ==> s[j] != c)
    } else {
        None
    }
}

/// The directory part and the name prefix of the path typed after a namespace: a
/// trailing `/` means the whole path is the directory; otherwise the last `/` splits
/// directory from prefix.
pub open spec fn rest_parts(rest: Seq<char>) -> (Seq<char>, Seq<char>) {
    if rest.len() == 0 {
        (Seq::empty(), Seq::empty())
    } else if rest.last() == '/' {
        (strip_trailing(rest, '/'), Seq::empty())
    } else {
        match last_index_of(rest, '/') {
            Some(i) => (rest.take(i), rest.skip(i + 1)),
            None => (Seq::empty(), rest),
        }
    }
}

/// The directory whose children complete a path under a namespace root.
pub open spec fn query_base(root: Seq<char>, dir_part: Seq<char>) -> Seq<char> {
    if dir_part.len() == 0 {
        root
    } else {
        path_join(root, dir_part)
    }
}

/// What path completion under one namespace needs from the file system: the
/// directory to list, and how to turn its children into candidates.
#[derive(Debug)]
pub struct DirectoryQuery {
    pub base: String,
    pub namespace_input: String,
    pub dir_part: String,
    pub prefix: String,
}

/// The model of a `DirectoryQuery`.
pub struct QueryView {
    pub base: Seq<char>,
    pub namespace_input: Seq<char>,
    pub dir_part: Seq<char>,
    pub prefix: Seq<char>,
}

impl View for DirectoryQuery {
    type V = QueryView;

    open spec fn view(&self) -> QueryView {
        QueryView {
            base: self.base@,
            namespace_input: self.namespace_input@,
            dir_part: self.dir_part@,
            prefix: self.prefix@,
        }
    }
}

/// The query for completing `rest` under the namespace typed as `namespace_input`.
pub open spec fn query_spec(e: EntryView, namespace_input: Seq<char>, rest: Seq<char>) -> QueryView {
    QueryView {
        base: query_base(e.path, rest_parts(rest).0),
        namespace_input,
        dir_part: rest_parts(rest).0,
        prefix: rest_parts(rest).1,
    }
}

/// The candidate a child directory `name` gives.
pub open spec fn child_candidate(q: QueryView, name: Seq<char>) -> Seq<char> {
    if q.dir_part.len() == 0 {
        q.namespace_input + "/"@ + name
    } else {
        q.namespace_input + "/"@ + q.dir_part + "/"@ + name
    }
}

/// `x` completes the query from one of the child directories.
pub open spec fn child_completion(q: QueryView, children: Seq<Seq<char>>, x: Seq<char>) -> bool {
    exists|t: int| 0 <= t < children.len() && offered(lowercase(q.prefix), children[t]) && x == child_candidate(q, #[trigger] children[t])
}

impl DirectoryQuery {
    /// The candidates that the child directories of `base` give, sorted and without repeats.
    pub fn complete_children(&self, children: &Vec<String>) -> (r: Vec<String>)
        ensures
            strictly_sorted(string_views(r@)),
            forall|x: Seq<char>| string_views(r@).contains(x) <==> child_completion(self@, string_views(children@), x),
            self@.prefix.len() == 0 ==> forall|t: int| 0 <= t < children@.len() ==> string_views(r@).contains(
                child_candidate(self@, #[trigger] children@[t]@),
            ),
    {
        let ghost q = self@;
        let ghost cs = string_views(children@);
        let needle = to_lower(self.prefix.as_str());
        proof {
            if q.prefix.len() == 0 {
                assert(all_ascii(q.prefix));
            }
        }
        let mut out: Vec<String> = Vec::new();
        let n = children.len();
        let mut k: usize = 0;
        proof {
            reveal_strlit("/");
        }
        assert(string_views(out@) =~= Seq::<Seq<char>>::empty());
        while k < n
            invariant
                q == self@,
                cs == string_views(children@),
                n == cs.len(),
                k <= n,
                needle@ == lowercase(q.prefix),
                strictly_sorted(string_views(out@)),
                forall|x: Seq<char>| string_views(out@).contains(x) <==> exists|t: int| 0 <= t < k && offered(needle@, cs[t]) && x == child_candidate(q, #[trigger] cs[t]),
            decreases n - k,
        {
            let c = &children[k];
            assert(cs[k as int] == c@);
            let lowered = to_lower(c.as_str());
            let take = needle.as_str().unicode_len() == 0 || crate::text::starts_with(lowered.as_str(), needle.as_str());
            let ghost before = string_views(out@);
            if take {
                let mut item = String::from_str(self.namespace_input.as_str()).concat("/");
                if self.dir_part.as_str().unicode_len() > 0 {
                    item = item.concat(self.dir_part.as_str()).concat("/");
                }
                let item = item.concat(c.as_str());
                assert(item@ == child_candidate(q, cs[k as int]));
                insert_sorted_unique(&mut out, item);
            }
            proof {
                assert forall|x: Seq<char>| string_views(out@).contains(x) <==> exists|t: int| 0 <= t < k + 1 && offered(needle@, cs[t]) && x == child_candidate(q, #[trigger] cs[t]) by {
                    if exists|t: int| 0 <= t < k + 1 && offered(needle@, cs[t]) && x == child_candidate(q, #[trigger] cs[t]) {
                        let t = choose|t: int| 0 <= t < k + 1 && offered(needle@, cs[t]) && x == child_candidate(q, #[trigger] cs[t]);
                        if t < k {
                            assert(exists|t: int| 0 <= t < k && offered(needle@, cs[t]) && x == child_candidate(q, #[trigger] cs[t]));
                        }
                    }
                    if before.contains(x) {
                        let t = choose|t: int| 0 <= t < k && offered(needle@, cs[t]) && x == child_candidate(q, #[trigger] cs[t]);
                        assert(0 <= t < k + 1 && offered(needle@, cs[t]) && x == child_candidate(q, cs[t]));
                    }
                }
            }
            k = k + 1;
        }
        proof {
            assert forall|t: int| q.prefix.len() == 0 && 0 <= t < children@.len() implies string_views(out@).contains(
                child_candidate(q, #[trigger] children@[t]@),
            ) by {
                assert(cs[t] == children@[t]@);
                assert(offered(needle@, cs[t]));
            }
        }
        out
    }
}

/// What completing a partial target yields: candidates directly, or a directory to list.
#[derive(Debug)]
pub enum Completion {
    Candidates(Vec<String>),
    Directory(DirectoryQuery),
}

impl NamespaceMap {
    /// The directory query for completing `rest` under `entry`, typed as `namespace_input`.
    pub fn complete_namespace_path(&self, entry: &NamespaceEntry, namespace_input: &str, rest: &str) -> (r: DirectoryQuery)
        ensures
            r@ == query_spec(entry@, namespace_input@, rest@),
    {
        let n = rest.unicode_len();
        let (dir_part, prefix) = if n == 0 {
            (String::new(), String::new())
        } else if rest.get_char(n - 1) == '/' {
            (String::from_str(crate::text::trim_end_char(rest, '/')), String::new())
        } else {
            match crate::text::rfind_char(rest, '/') {
                Some(i) => {
                    proof {
                        assert(exists|k: int| 0 <= k < rest@.len() && rest@[k] == '/') by {
                            assert(rest@[i as int] == '/');
                        }
                        let w = choose|k: int| 0 <= k < rest@.len() && rest@[k] == '/' && forall|j: int| k < j < rest@.len() ==> rest@[j] != '/';
                        if w < i {
                            assert(rest@[i as int] != '/');
                        } else if w > i {
                            assert(rest@[w] != '/');
                        }
                        assert(last_index_of(rest@, '/') == Some(i as int));
                    }
                    let d = String::from_str(rest.substring_char(0, i));
                    let p = String::from_str(rest.substring_char(i + 1, n));
                    assert(d@ =~= rest@.take(i as int));
                    assert(p@ =~= rest@.skip(i + 1));
                    (d, p)
                },
                None => {
                    assert(!exists|k: int| 0 <= k < rest@.len() && rest@[k] == '/');
                    (String::new(), String::from_str(rest))
                },
            }
        };
        let base = if dir_part.as_str().unicode_len() == 0 {
            entry.path.clone()
        } else {
            join_path(entry.path.as_str(), dir_part.as_str())
        };
        DirectoryQuery { base, namespace_input: String::from_str(namespace_input), dir_part, prefix }
    }

    /// Completion of a partial target: namespace names and aliases until a `/` is
    /// typed, then a directory listing under the namespace it names.
    pub fn complete(&self, partial: &str) -> (r: Completion)
        ensures
            ({
                let t = trim_seq(partial@);
                if t.len() == 0 {
                    r matches Completion::Candidates(v) && strictly_sorted(string_views(v@)) && (forall|x: Seq<char>|
                        string_views(v@).contains(x) <==> namespace_completion(self@, ""@, x)) && forall|c: Seq<char>|
                        #[trigger] all_candidates(self@).contains(c) ==> string_views(v@).contains(c + "/"@)
                } else {
                    match first_index_of(t, '/') {
                        Some(i) => match lookup_position(self@, t.take(i)) {
                            Some(p) => r matches Completion::Directory(q) && q@ == query_spec(self@[p].0, t.take(i), t.skip(i + 1)),
                            None => r matches Completion::Candidates(v) && v@.len() == 0,
                        },
                        None => r matches Completion::Candidates(v) && strictly_sorted(string_views(v@)) && forall|x: Seq<char>|
                            string_views(v@).contains(x) <==> namespace_completion(self@, t, x),
                    }
                }
            }),
    {
        let trimmed = trim(partial);
        let n = trimmed.unicode_len();
        if n == 0 {
            proof {
                reveal_strlit("");
            }
            return Completion::Candidates(self.complete_namespaces(""));
        }
        match find_char(trimmed, '/') {
            Some(i) => {
                let namespace = trimmed.substring_char(0, i);
                let rest = trimmed.substring_char(i + 1, n);
                assert(namespace@ =~= trimmed@.take(i as int));
                assert(rest@ =~= trimmed@.skip(i + 1));
                match self.lookup_namespace(namespace) {
                    Ok(entry) => Completion::Directory(self.complete_namespace_path(entry, namespace, rest)),
                    Err(_) => Completion::Candidates(Vec::new()),
                }
            },
            None => Completion::Candidates(self.complete_namespaces(trimmed)),
        }
    }
}

} // verus!
