//! Properties that relate the operations of the library to one another.
use vstd::prelude::*;
use crate::commands::{
    added, alias_present, find_name, find_name_or_alias, listed_aliases, new_def, renamed,
    sort_defs, with_alias, with_path, with_remaining, without_alias,
};
use crate::config::{home_expanded, home_path, DefView};
use crate::namespace::{
    all_candidates, built_entries, canonical, defs_error, entry_candidates, firsts, has_key,
    has_name_problem, key_position, laid_out, lookup_position, name_problem, names_error,
    namespace_completion, offered, EntryView,
};
use crate::shell::{
    body_line, has_integration, integration_lines, integration_spec, kept_lines,
    lemma_body_lines, lemma_kept_inside_block, lemma_kept_prefix, lemma_lines_after_concat,
    lemma_lines_of_joined, lemma_markers, lemma_trim_end_prefix, lines_after, lines_of,
    plain_line, setup_append, setup_separator, strip_cr, zsh_body_lines, ZSH_MARKER_END,
    ZSH_MARKER_START,
};
use crate::sorting::{
    insert_by_key, lemma_insert_by_key_split, lemma_sort_by_key_sorted, sort_by_key, sorted_by_key,
};
use crate::text::{path_join, strip_trailing, same_lowercase, has_prefix, lowercase, occurs_at, seq_less, trim_end_seq, trim_seq};
use crate::text::{ascii_case_eq, lowers_as_ascii, lemma_ascii_case_same_lowercase};
use crate::namespace::{last_index_of, child_candidate, child_completion, finish_outcome, query_base, query_spec, resolve_outcome, rest_parts, ErrorView};
use crate::namespace::{candidate_path, list_lines_spec, sorted_names, target_namespace, target_rest};
use crate::doctor::{alias_issues, all_listed_aliases, doctor_aliases, doctor_spec, lowercase_distinct, namespace_checks};
use crate::validity::{lemma_listed_represented, checked_alias, lemma_accept_defs_complete, lemma_accept_defs_ok, lemma_kept_listed, lemma_prepared_strict};
use crate::namespace::prepared_aliases;
use crate::namespace::{alias_list, alias_matches, first_alias_match, has_alias_match, keys_sorted, kept_aliases, namespace_keys};

verus! {

/// A namespace is found by any spelling of its name that lowercases to its key: names
/// are case-insensitive at lookup time, and the entry found has the root path given.
pub proof fn law_names_found_case_insensitively(defs: Seq<DefView>, roots: Seq<Seq<char>>, m: Seq<(EntryView, Seq<char>)>, i: int)
    requires
        defs_error(defs) is None,
        roots.len() == defs.len(),
        laid_out(m, built_entries(defs, roots)),
        0 <= i < defs.len(),
    ensures
        forall|s: Seq<char>| #[trigger] lowercase(s) == canonical(defs[i].name) ==> {
            &&& lookup_position(m, s) matches Some(p)
            &&& 0 <= p < m.len()
            &&& m[p].0.name == defs[i].name
            &&& m[p].0.path == roots[i]
        },
{
    let built = built_entries(defs, roots);
    assert(built.contains(built[i]));
    assert(m.contains(built[i]));
    let q = choose|q: int| 0 <= q < m.len() && m[q] == built[i];
    assert forall|s: Seq<char>| #[trigger] lowercase(s) == canonical(defs[i].name) implies {
        &&& lookup_position(m, s) matches Some(p)
        &&& 0 <= p < m.len()
        &&& m[p].0.name == defs[i].name
        &&& m[p].0.path == roots[i]
    } by {
        assert(m[q].1 == lowercase(s));
        assert(has_key(m, lowercase(s)));
        let w = key_position(m, lowercase(s));
        if w != q {
            if w < q {
                crate::text::lemma_seq_less_irreflexive(m[q].1);
            } else {
                crate::text::lemma_seq_less_irreflexive(m[q].1);
            }
        }
    }
}

/// A valid configuration, stated directly: it has a namespace; name keys are not
/// blank and differ from one another; every alias a namespace keeps is one it lists,
/// with a key that is not blank, not its own name's key and no namespace's key; and
/// no two kept aliases, in one namespace or in two, share a key.
pub proof fn law_valid_definitions(defs: Seq<DefView>)
    requires
        defs_error(defs) is None,
    ensures
        defs.len() > 0,
        forall|i: int| 0 <= i < defs.len() ==> canonical(#[trigger] defs[i].name).len() > 0,
        forall|i: int, j: int| 0 <= i < j < defs.len() ==> canonical(#[trigger] defs[i].name) != canonical(#[trigger] defs[j].name),
        kept_aliases(defs).len() == defs.len(),
        forall|i: int, x: int| 0 <= i < defs.len() && 0 <= x < kept_aliases(defs)[i].len() ==> {
            &&& alias_list(defs[i]).contains(#[trigger] kept_aliases(defs)[i][x])
            &&& canonical(kept_aliases(defs)[i][x]).len() > 0
            &&& canonical(kept_aliases(defs)[i][x]) != canonical(defs[i].name)
            &&& forall|j: int| 0 <= j < defs.len() ==> canonical(kept_aliases(defs)[i][x]) != canonical(#[trigger] defs[j].name)
        },
        forall|i: int, x: int, j: int, y: int|
            0 <= i < defs.len() && 0 <= j < defs.len() && 0 <= x < kept_aliases(defs)[i].len() && 0 <= y < kept_aliases(defs)[j].len()
                && (i != j || x != y) ==> canonical(#[trigger] kept_aliases(defs)[i][x]) != canonical(#[trigger] kept_aliases(defs)[j][y]),
{
    let names = namespace_keys(defs);
    lemma_accept_defs_ok(names, defs, Set::empty());
    let ks = kept_aliases(defs);
    assert forall|i: int| 0 <= i < defs.len() implies canonical(#[trigger] defs[i].name).len() > 0 by {
        if canonical(defs[i].name).len() == 0 {
            assert(name_problem(defs, i));
        }
    }
    assert forall|i: int, j: int| 0 <= i < j < defs.len() implies canonical(#[trigger] defs[i].name) != canonical(#[trigger] defs[j].name) by {
        if canonical(defs[i].name) == canonical(defs[j].name) {
            assert(name_problem(defs, j));
        }
    }
    assert forall|i: int, x: int| 0 <= i < defs.len() && 0 <= x < ks[i].len() implies {
        &&& alias_list(defs[i]).contains(#[trigger] ks[i][x])
        &&& canonical(ks[i][x]).len() > 0
        &&& canonical(ks[i][x]) != canonical(defs[i].name)
        &&& forall|j: int| 0 <= j < defs.len() ==> canonical(ks[i][x]) != canonical(#[trigger] defs[j].name)
    } by {
        assert(ks[i].contains(ks[i][x]));
        lemma_kept_listed(defs, i, ks[i][x]);
        assert forall|j: int| 0 <= j < defs.len() implies canonical(ks[i][x]) != canonical(#[trigger] defs[j].name) by {
            if canonical(ks[i][x]) == canonical(defs[j].name) {
                assert(names.contains(canonical(defs[j].name)));
            }
        }
    }
}

/// The converse of `law_valid_definitions`, for aliases without surrounding white
/// space: a configuration is valid when it has a namespace, its name keys are not
/// blank and differ, and every listed alias whose key is neither blank nor its own
/// namespace's key has a key that is no namespace's key and that no such alias of
/// another namespace shares.
pub proof fn law_definitions_valid_when(defs: Seq<DefView>)
    requires
        defs.len() > 0,
        forall|i: int| 0 <= i < defs.len() ==> canonical(#[trigger] defs[i].name).len() > 0,
        forall|i: int, j: int| 0 <= i < j < defs.len() ==> canonical(#[trigger] defs[i].name) != canonical(#[trigger] defs[j].name),
        forall|j: int, b: Seq<char>| 0 <= j < defs.len() && #[trigger] alias_list(defs[j]).contains(b) ==> trim_seq(b) == b,
        forall|i: int, a: Seq<char>| 0 <= i < defs.len() && #[trigger] alias_list(defs[i]).contains(a) && checked_alias(defs[i], a) ==> forall|j: int|
            0 <= j < defs.len() ==> canonical(a) != canonical(#[trigger] defs[j].name),
        forall|i: int, j: int, a: Seq<char>, b: Seq<char>|
            0 <= i < defs.len() && 0 <= j < defs.len() && i != j && #[trigger] alias_list(defs[i]).contains(a)
                && #[trigger] alias_list(defs[j]).contains(b) && checked_alias(defs[i], a) && checked_alias(defs[j], b)
                ==> canonical(a) != canonical(b),
    ensures
        defs_error(defs) is None,
{
    let names = namespace_keys(defs);
    assert forall|i: int| 0 <= i < defs.len() implies !name_problem(defs, i) by {
        if exists|j: int| 0 <= j < i && canonical(defs[j].name) == canonical(defs[i].name) {
            let j = choose|j: int| 0 <= j < i && canonical(defs[j].name) == canonical(defs[i].name);
        }
    }
    assert(!has_name_problem(defs));
    assert(names_error(defs) is None);
    assert forall|t: int, x: int, y: int| 0 <= t < defs.len() && 0 <= x < y < prepared_aliases(defs[t]).len() implies canonical(
        #[trigger] prepared_aliases(defs[t])[x],
    ) != canonical(#[trigger] prepared_aliases(defs[t])[y]) by {
        lemma_prepared_strict(defs[t]);
        let a = prepared_aliases(defs[t])[x];
        let b = prepared_aliases(defs[t])[y];
        assert(alias_list(defs[t]).contains(a) && alias_list(defs[t]).contains(b));
        assert(seq_less(lowercase(a), lowercase(b)));
        if canonical(a) == canonical(b) {
            crate::text::lemma_seq_less_irreflexive(lowercase(a));
        }
    }
    assert forall|t: int, x: int| 0 <= t < defs.len() && 0 <= x < prepared_aliases(defs[t]).len() && checked_alias(
        defs[t],
        #[trigger] prepared_aliases(defs[t])[x],
    ) implies !names.contains(canonical(prepared_aliases(defs[t])[x])) && !Set::<Seq<char>>::empty().contains(
        canonical(prepared_aliases(defs[t])[x]),
    ) by {
        lemma_prepared_strict(defs[t]);
        let a = prepared_aliases(defs[t])[x];
        assert(alias_list(defs[t]).contains(a));
        if names.contains(canonical(a)) {
            let j = choose|j: int| 0 <= j < defs.len() && canonical(defs[j].name) == canonical(a);
        }
    }
    assert forall|t: int, u: int, x: int, y: int|
        0 <= t < defs.len() && 0 <= u < defs.len() && t != u && 0 <= x < prepared_aliases(defs[t]).len() && 0 <= y
            < prepared_aliases(defs[u]).len() && checked_alias(defs[t], #[trigger] prepared_aliases(defs[t])[x])
            && checked_alias(defs[u], #[trigger] prepared_aliases(defs[u])[y]) implies canonical(prepared_aliases(defs[t])[x])
            != canonical(prepared_aliases(defs[u])[y]) by {
        lemma_prepared_strict(defs[t]);
        lemma_prepared_strict(defs[u]);
        assert(alias_list(defs[t]).contains(prepared_aliases(defs[t])[x]));
        assert(alias_list(defs[u]).contains(prepared_aliases(defs[u])[y]));
    }
    lemma_accept_defs_complete(names, defs, Set::empty());
}

/// A namespace is also found by any spelling of one of the aliases it keeps that
/// lowercases like the alias, when aliases carry no surrounding white space; the
/// entry found has the namespace's name and the root path given.
pub proof fn law_aliases_found_case_insensitively(
    defs: Seq<DefView>,
    roots: Seq<Seq<char>>,
    m: Seq<(EntryView, Seq<char>)>,
    i: int,
    a: Seq<char>,
)
    requires
        defs_error(defs) is None,
        roots.len() == defs.len(),
        laid_out(m, built_entries(defs, roots)),
        0 <= i < defs.len(),
        kept_aliases(defs)[i].contains(a),
        forall|j: int, b: Seq<char>| 0 <= j < defs.len() && #[trigger] alias_list(defs[j]).contains(b) ==> trim_seq(b) == b,
    ensures
        forall|s: Seq<char>| #[trigger] lowercase(s) == lowercase(a) ==> {
            &&& lookup_position(m, s) matches Some(p)
            &&& 0 <= p < m.len()
            &&& m[p].0.name == defs[i].name
            &&& m[p].0.path == roots[i]
        },
{
    let names = namespace_keys(defs);
    let built = built_entries(defs, roots);
    let ks = kept_aliases(defs);
    law_valid_definitions(defs);
    lemma_kept_listed(defs, i, a);
    assert(trim_seq(a) == a);
    assert(canonical(a) == lowercase(a));
    let x = choose|x: int| 0 <= x < ks[i].len() && ks[i][x] == a;
    assert(built.contains(built[i]));
    assert(m.contains(built[i]));
    let q = choose|q: int| 0 <= q < m.len() && m[q] == built[i];
    assert forall|s: Seq<char>| #[trigger] lowercase(s) == lowercase(a) implies {
        &&& lookup_position(m, s) matches Some(p)
        &&& 0 <= p < m.len()
        &&& m[p].0.name == defs[i].name
        &&& m[p].0.path == roots[i]
    } by {
        // no namespace key is the alias's key
        if has_key(m, lowercase(s)) {
            let w = choose|w: int| 0 <= w < m.len() && m[w].1 == lowercase(s);
            assert(m.contains(m[w]));
            let k = choose|k: int| 0 <= k < built.len() && built[k] == m[w];
            assert(canonical(ks[i][x]) != canonical(defs[k].name));
        }
        assert(m[q].0.aliases == ks[i]);
        assert(same_lowercase(m[q].0.aliases[x], s));
        assert(alias_matches(m[q].0, s));
        assert(has_alias_match(m, s));
        let f = first_alias_match(m, s);
        // the only entry with a matching alias is the namespace's own
        assert forall|p: int| 0 <= p < m.len() && alias_matches(m[p].0, s) implies p == q by {
            let y = choose|y: int| 0 <= y < m[p].0.aliases.len() && same_lowercase(#[trigger] m[p].0.aliases[y], s);
            assert(m.contains(m[p]));
            let k = choose|k: int| 0 <= k < built.len() && built[k] == m[p];
            assert(m[p].0.aliases == ks[k]);
            let b = ks[k][y];
            assert(ks[k].contains(b));
            lemma_kept_listed(defs, k, b);
            assert(alias_list(defs[k]).contains(b));
            assert(trim_seq(b) == b);
            assert(canonical(b) == canonical(ks[i][x]));
            assert(k == i && y == x);
            if p != q {
                assert(m[p].1 == m[q].1);
                if p < q {
                    crate::text::lemma_seq_less_irreflexive(m[q].1);
                } else {
                    crate::text::lemma_seq_less_irreflexive(m[q].1);
                }
            }
        }
        assert(f == q);
    }
}

/// A lookup sees the typed name only through its lowercase form: two spellings that
/// lowercase alike find the same namespace, or both find none.
pub proof fn law_lookup_ignores_case(m: Seq<(EntryView, Seq<char>)>, s1: Seq<char>, s2: Seq<char>)
    requires
        lowercase(s1) == lowercase(s2),
    ensures
        lookup_position(m, s1) == lookup_position(m, s2),
{
    assert forall|p: int| 0 <= p < m.len() implies alias_matches(m[p].0, s1) == alias_matches(m[p].0, s2) by {
        if alias_matches(m[p].0, s1) {
            let y = choose|y: int| 0 <= y < m[p].0.aliases.len() && same_lowercase(#[trigger] m[p].0.aliases[y], s1);
            assert(same_lowercase(m[p].0.aliases[y], s2));
        }
        if alias_matches(m[p].0, s2) {
            let y = choose|y: int| 0 <= y < m[p].0.aliases.len() && same_lowercase(#[trigger] m[p].0.aliases[y], s2);
            assert(same_lowercase(m[p].0.aliases[y], s1));
        }
    }
    if !has_key(m, lowercase(s1)) && has_alias_match(m, s1) {
        let w = choose|w: int| 0 <= w < m.len() && alias_matches(m[w].0, s1);
        assert(alias_matches(m[w].0, s2));
        lemma_least_alias_match(m, s1, w);
        let f1 = first_alias_match(m, s1);
        let f2 = first_alias_match(m, s2);
        if f1 < f2 {
            assert(alias_matches(m[f1].0, s2));
        } else if f2 < f1 {
            assert(alias_matches(m[f2].0, s1));
        }
    }
    if !has_key(m, lowercase(s1)) && has_alias_match(m, s2) {
        let w = choose|w: int| 0 <= w < m.len() && alias_matches(m[w].0, s2);
        assert(alias_matches(m[w].0, s1));
    }
}

/// If some entry has an alias matching `s`, a first such entry exists.
proof fn lemma_least_alias_match(m: Seq<(EntryView, Seq<char>)>, s: Seq<char>, w: int)
    requires
        0 <= w < m.len(),
        alias_matches(m[w].0, s),
    ensures
        exists|x: int| 0 <= x < m.len() && alias_matches(m[x].0, s) && forall|j: int| 0 <= j < x ==> !alias_matches(#[trigger] m[j].0, s),
    decreases w,
{
    if exists|j: int| 0 <= j < w && alias_matches(m[j].0, s) {
        let j = choose|j: int| 0 <= j < w && alias_matches(m[j].0, s);
        lemma_least_alias_match(m, s, j);
    } else {
        assert(forall|j: int| 0 <= j < w ==> !alias_matches(#[trigger] m[j].0, s));
    }
}

/// Targets whose namespace parts differ only in ASCII letter case, and whose paths
/// agree, resolve alike: they find the same namespace and name the same path, or
/// both find none.  (ASCII text lowercases the ASCII way, as `to_lower` states and
/// `resolve` passes on.)
pub proof fn law_resolve_ignores_ascii_case(m: Seq<(EntryView, Seq<char>)>, t1: Seq<char>, t2: Seq<char>)
    requires
        ascii_case_eq(target_namespace(t1), target_namespace(t2)),
        lowers_as_ascii(target_namespace(t1)),
        lowers_as_ascii(target_namespace(t2)),
        target_rest(t1) == target_rest(t2),
    ensures
        lookup_position(m, target_namespace(t1)) == lookup_position(m, target_namespace(t2)),
        lookup_position(m, target_namespace(t1)) matches Some(i) ==> candidate_path(m[i].0.path, target_rest(t1))
            == candidate_path(m[i].0.path, target_rest(t2)),
{
    lemma_ascii_case_same_lowercase(target_namespace(t1), target_namespace(t2));
    law_lookup_ignores_case(m, target_namespace(t1), target_namespace(t2));
}

proof fn lemma_firsts_insert<T>(t: Seq<(T, Seq<char>)>, x: (T, Seq<char>))
    ensures
        firsts(insert_by_key(t, x)).to_multiset() == firsts(t).to_multiset().insert(x.0),
    decreases t.len(),
{
    broadcast use vstd::seq_lib::group_to_multiset_ensures, vstd::multiset::group_multiset_axioms;
    if t.len() == 0 {
        assert(firsts(insert_by_key(t, x)) =~= seq![x.0]);
        assert(firsts(t) =~= Seq::<T>::empty());
        assert(seq![x.0] =~= Seq::<T>::empty().push(x.0));
    } else if seq_less(x.1, t[0].1) {
        assert(firsts(insert_by_key(t, x)) =~= firsts(t).insert(0, x.0));
    } else {
        let r = insert_by_key(t.drop_first(), x);
        lemma_firsts_insert(t.drop_first(), x);
        assert(firsts(insert_by_key(t, x)) =~= firsts(r).insert(0, t[0].0));
        assert(firsts(t) =~= firsts(t.drop_first()).insert(0, t[0].0));
        assert(firsts(insert_by_key(t, x)).to_multiset() =~= firsts(t).to_multiset().insert(x.0));
    }
}

proof fn lemma_firsts_sort<T>(s: Seq<(T, Seq<char>)>)
    ensures
        firsts(sort_by_key(s)).to_multiset() == firsts(s).to_multiset(),
    decreases s.len(),
{
    broadcast use vstd::seq_lib::group_to_multiset_ensures;
    if s.len() > 0 {
        lemma_firsts_sort(s.drop_last());
        lemma_firsts_insert(sort_by_key(s.drop_last()), s.last());
        assert(firsts(s) =~= firsts(s.drop_last()).push(s.last().0));
    }
}

/// Putting the same text in front keeps the order of strings.
proof fn lemma_seq_less_prefix(p: Seq<char>, a: Seq<char>, b: Seq<char>)
    ensures
        seq_less(p + a, p + b) == seq_less(a, b),
    decreases p.len(),
{
    if p.len() == 0 {
        assert(p + a =~= a);
        assert(p + b =~= b);
    } else {
        lemma_seq_less_prefix(p.drop_first(), a, b);
        assert((p + a).drop_first() =~= p.drop_first() + a);
        assert((p + b).drop_first() =~= p.drop_first() + b);
    }
}

/// The lines listed for a namespace with child directories name each child once
/// per occurrence, after the namespace and a `/`, in ascending order.
pub proof fn law_list_lines_ascending(namespace: Seq<char>, children: Seq<Seq<char>>)
    requires
        children.len() > 0,
    ensures
        sorted_names(children).to_multiset() == children.to_multiset(),
        list_lines_spec(namespace, children) == sorted_names(children).map_values(|c: Seq<char>| namespace + "/"@ + c),
        forall|i: int, j: int| 0 <= i < j < children.len() ==> !seq_less(
            #[trigger] list_lines_spec(namespace, children)[j],
            #[trigger] list_lines_spec(namespace, children)[i],
        ),
{
    broadcast use vstd::seq_lib::group_to_multiset_ensures;
    let pairs = children.map_values(|c: Seq<char>| (c, c));
    let sorted = sort_by_key(pairs);
    lemma_sort_by_key_sorted(pairs);
    lemma_firsts_sort(pairs);
    assert(firsts(pairs) =~= children);
    let names = sorted_names(children);
    let lines = list_lines_spec(namespace, children);
    assert forall|i: int| 0 <= i < sorted.len() implies (#[trigger] sorted[i]).0 == sorted[i].1 by {
        assert(sorted.contains(sorted[i]));
        vstd::seq_lib::to_multiset_contains(sorted, sorted[i]);
        vstd::seq_lib::to_multiset_contains(pairs, sorted[i]);
        let u = choose|u: int| 0 <= u < pairs.len() && pairs[u] == sorted[i];
    }
    assert forall|i: int, j: int| 0 <= i < j < children.len() implies !seq_less(
        #[trigger] lines[j],
        #[trigger] lines[i],
    ) by {
        assert(sorted[i].0 == sorted[i].1 && sorted[j].0 == sorted[j].1);
        assert(!seq_less(sorted[j].1, sorted[i].1));
        assert(lines[i] == (namespace + "/"@) + names[i]);
        assert(lines[j] == (namespace + "/"@) + names[j]);
        lemma_seq_less_prefix(namespace + "/"@, names[j], names[i]);
    }
}

/// Two definitions whose names agree up to case and surrounding space are refused.
pub proof fn law_duplicate_names_rejected(defs: Seq<DefView>)
    ensures
        (exists|i: int, j: int| 0 <= i < j < defs.len() && canonical(defs[i].name) == canonical(defs[j].name)) ==> defs_error(
            defs,
        ) is Some,
{
    if exists|i: int, j: int| 0 <= i < j < defs.len() && canonical(defs[i].name) == canonical(defs[j].name) {
        let (i, j) = choose|i: int, j: int| 0 <= i < j < defs.len() && canonical(defs[i].name) == canonical(defs[j].name);
        assert(name_problem(defs, j));
        assert(has_name_problem(defs));
        assert(names_error(defs) is Some);
    }
}

/// A configuration without namespaces is refused.
pub proof fn law_empty_config_rejected(defs: Seq<DefView>)
    requires
        defs.len() == 0,
    ensures
        defs_error(defs) == Some(crate::namespace::ErrorView::EmptyConfig),
{
}

proof fn lemma_all_candidates_contains(m: Seq<(EntryView, Seq<char>)>, p: int, c: Seq<char>)
    requires
        0 <= p < m.len(),
        entry_candidates(m[p].0).contains(c),
    ensures
        all_candidates(m).contains(c),
    decreases m.len(),
{
    let k = choose|k: int| 0 <= k < entry_candidates(m[p].0).len() && entry_candidates(m[p].0)[k] == c;
    if p == m.len() - 1 {
        let pre = all_candidates(m.drop_last());
        assert((pre + entry_candidates(m.last().0))[pre.len() + k] == c);
    } else {
        assert(m.drop_last()[p] == m[p]);
        lemma_all_candidates_contains(m.drop_last(), p, c);
        let pre = all_candidates(m.drop_last());
        let t = choose|t: int| 0 <= t < pre.len() && pre[t] == c;
        assert((pre + entry_candidates(m.last().0))[t] == c);
    }
}

/// Typing a namespace name or alias in full offers it for completion, followed by `/`.
pub proof fn law_full_name_completes(m: Seq<(EntryView, Seq<char>)>, p: int, c: Seq<char>)
    requires
        0 <= p < m.len(),
        entry_candidates(m[p].0).contains(c),
    ensures
        namespace_completion(m, c, c + "/"@),
{
    lemma_all_candidates_contains(m, p, c);
    assert(lowercase(c).subrange(0, lowercase(c).len() as int) =~= lowercase(c));
    assert(has_prefix(lowercase(c), lowercase(c)));
    assert(offered(lowercase(c), c));
}

/// Setting up twice appends once: after the text setup appends, the file has the
/// integration, so a second setup appends nothing and no setup hint is due.
pub proof fn law_setup_idempotent(existing: Seq<char>)
    ensures
        setup_append(existing) matches Some(t) ==> has_integration(existing + t) && setup_append(existing + t) is None,
{
    if let Some(t) = setup_append(existing) {
        lemma_setup_installs(existing);
    }
}

/// The text setup appends holds the start marker.
proof fn lemma_setup_installs(existing: Seq<char>)
    requires
        setup_append(existing) is Some,
    ensures
        has_integration(existing + setup_append(existing)->Some_0),
{
    let t = setup_append(existing)->Some_0;
    let sep = setup_separator(existing);
    let j = integration_spec();
    let start = ZSH_MARKER_START@;
    crate::shell::lemma_join_starts_with_first(integration_lines());
    assert(integration_lines()[0] == start);
    let k: int = (existing.len() + sep.len()) as int;
    let whole = existing + t;
    assert(whole =~= (existing + sep) + (j + "\n"@));
    assert(whole.subrange(k, k + start.len()) =~= j.subrange(0, start.len() as int));
    assert(occurs_at(whole, start, k));
}

/// Uninstalling after setup gives back the lines that were there, followed by the
/// separator setup put before the block: the block and nothing else is removed.
pub proof fn law_uninstall_after_setup(existing: Seq<char>)
    requires
        !has_integration(existing),
    ensures
        setup_append(existing) matches Some(t) && {
            &&& has_integration(existing + t)
            &&& kept_lines(lines_of(existing + t), false) == lines_of(existing + setup_separator(existing))
        },
{
    reveal_strlit("\n");
    let t = setup_append(existing)->Some_0;
    lemma_setup_installs(existing);
    let sep = setup_separator(existing);
    let p = existing + sep;
    let j = integration_spec();
    let il = integration_lines();
    assert(existing + t =~= p + (j + "\n"@));
    lemma_markers();
    lemma_body_lines();
    assert forall|k: int| 0 <= k < il.len() implies plain_line(#[trigger] il[k]) by {
        if 0 < k < il.len() - 1 {
            assert(il[k] == zsh_body_lines()[k - 1]);
            assert(body_line(zsh_body_lines()[k - 1]));
        }
    }
    lemma_lines_of_joined(il);
    // the block's own lines all go
    assert(il.drop_first() =~= zsh_body_lines() + seq![ZSH_MARKER_END@]);
    lemma_kept_inside_block(zsh_body_lines());
    assert(kept_lines(il, false) =~= Seq::<Seq<char>>::empty());
    // sep is made of newlines only
    assert(forall|i: int| 0 <= i < sep.len() ==> sep[i] == '\n');
    if p.len() == 0 {
        assert(p + (j + "\n"@) =~= j + "\n"@);
        assert(lines_of(p) =~= Seq::<Seq<char>>::empty());
    } else {
        assert(existing.len() > 0);
        assert(p.last() == '\n');
        lemma_lines_after_concat(p, j + "\n"@, Seq::empty());
        let lp = lines_of(p);
        assert forall|k: int| 0 <= k < lp.len() implies trim_end_seq(#[trigger] lp[k]) != ZSH_MARKER_START@ by {
            if trim_end_seq(lp[k]) == ZSH_MARKER_START@ {
                let x = lp[k];
                assert(Seq::<char>::empty() + p =~= p);
                let i = lemma_line_occurs(p, Seq::empty(), k);
                lemma_trim_end_prefix(x);
                let st = ZSH_MARKER_START@;
                assert(occurs_at(p, st, i)) by {
                    assert(p.subrange(i, i + st.len()) =~= x.subrange(0, st.len() as int));
                }
                if i + st.len() <= existing.len() {
                    assert(existing.subrange(i, i + st.len()) =~= p.subrange(i, i + st.len()));
                    assert(occurs_at(existing, st, i));
                } else {
                    let m: int = if i >= existing.len() { 0 } else { existing.len() - i };
                    assert(p[i + m] == sep[i + m - existing.len()]);
                    assert(st[m] == p.subrange(i, i + st.len())[m]);
                }
            }
        }
        lemma_kept_prefix(lp, il);
        assert(lp + Seq::<Seq<char>>::empty() =~= lp);
    }
}

/// Where line `k` of `lines_after(s, cur)` occurs in `cur + s`.
proof fn lemma_line_occurs(s: Seq<char>, cur: Seq<char>, k: int) -> (i: int)
    requires
        0 <= k < lines_after(s, cur).len(),
    ensures
        occurs_at(cur + s, lines_after(s, cur)[k], i),
    decreases s.len(),
{
    let r = lines_after(s, cur);
    if s.len() == 0 {
        assert(cur.len() > 0 && r == seq![cur]);
        assert((cur + s).subrange(0, cur.len() as int) =~= cur);
        0
    } else if s[0] == '\n' {
        let rest = lines_after(s.drop_first(), Seq::empty());
        assert(r == seq![strip_cr(cur)] + rest);
        if k == 0 {
            let x = strip_cr(cur);
            assert((cur + s).subrange(0, x.len() as int) =~= x);
            0
        } else {
            let x = rest[k - 1];
            let i = lemma_line_occurs(s.drop_first(), Seq::empty(), k - 1);
            assert(Seq::<char>::empty() + s.drop_first() =~= s.drop_first());
            let off: int = (cur.len() + 1) as int;
            assert((cur + s).subrange(i + off, i + off + x.len()) =~= s.drop_first().subrange(i, i + x.len()));
            i + off
        }
    } else {
        assert(r == lines_after(s.drop_first(), cur.push(s[0])));
        assert(cur.push(s[0]) + s.drop_first() =~= cur + s);
        lemma_line_occurs(s.drop_first(), cur.push(s[0]), k)
    }
}

proof fn lemma_same_lowercase_refl(s: Seq<char>)
    ensures
        same_lowercase(s, s),
{
}

/// `find_name` looks only at the names.
proof fn lemma_find_name_same_names(a: Seq<DefView>, b: Seq<DefView>, s: Seq<char>)
    requires
        a.len() == b.len(),
        forall|i: int| 0 <= i < a.len() ==> a[i].name == b[i].name,
    ensures
        find_name(a, s) == find_name(b, s),
{
    if exists|i: int| 0 <= i < a.len() && same_lowercase(a[i].name, s) {
        let i = choose|i: int| 0 <= i < a.len() && same_lowercase(a[i].name, s);
        assert(0 <= i < b.len() && same_lowercase(b[i].name, s));
        let x = choose|x: int|
            0 <= x < a.len() && same_lowercase(a[x].name, s) && forall|j: int| 0 <= j < x ==> !same_lowercase(#[trigger] a[j].name, s);
        let y = choose|y: int|
            0 <= y < b.len() && same_lowercase(b[y].name, s) && forall|j: int| 0 <= j < y ==> !same_lowercase(#[trigger] b[j].name, s);
        lemma_least_exists(a, s, i);
        lemma_least_exists(b, s, i);
        if x < y {
            assert(!same_lowercase(b[x].name, s));
        } else if y < x {
            assert(!same_lowercase(a[y].name, s));
        }
    } else {
        if exists|i: int| 0 <= i < b.len() && same_lowercase(b[i].name, s) {
            let i = choose|i: int| 0 <= i < b.len() && same_lowercase(b[i].name, s);
            assert(same_lowercase(a[i].name, s));
        }
    }
}

/// If some definition is named `s` up to case, there is a first one.
proof fn lemma_least_exists(a: Seq<DefView>, s: Seq<char>, i: int)
    requires
        0 <= i < a.len(),
        same_lowercase(a[i].name, s),
    ensures
        exists|x: int| 0 <= x < a.len() && same_lowercase(a[x].name, s) && forall|j: int| 0 <= j < x ==> !same_lowercase(#[trigger] a[j].name, s),
    decreases i,
{
    if exists|j: int| 0 <= j < i && same_lowercase(a[j].name, s) {
        let j = choose|j: int| 0 <= j < i && same_lowercase(a[j].name, s);
        lemma_least_exists(a, s, j);
    } else {
        assert(forall|j: int| 0 <= j < i ==> !same_lowercase(#[trigger] a[j].name, s));
    }
}

/// After `set-path`, the namespace is found at the same place, with the new root.
pub proof fn law_set_path_then_find(defs: Seq<DefView>, name: Seq<char>, p: Seq<char>)
    requires
        find_name(defs, name) is Some,
    ensures
        ({
            let i = find_name(defs, name)->Some_0;
            &&& find_name(with_path(defs, i, p), name) == Some(i)
            &&& with_path(defs, i, p)[i].path == p
        }),
{
    let i = find_name(defs, name)->Some_0;
    lemma_least_exists(defs, name, choose|k: int| 0 <= k < defs.len() && same_lowercase(defs[k].name, name));
    lemma_find_name_same_names(defs, with_path(defs, i, p), name);
}

/// `without_alias` leaves a list alone that has no alias equal to `s` up to case.
proof fn lemma_without_absent(a: Seq<Seq<char>>, s: Seq<char>)
    requires
        !alias_present(a, s),
    ensures
        without_alias(a, s) == a,
    decreases a.len(),
{
    if a.len() > 0 {
        assert(!alias_present(a.drop_last(), s)) by {
            if alias_present(a.drop_last(), s) {
                let j = choose|j: int| 0 <= j < a.drop_last().len() && same_lowercase(#[trigger] a.drop_last()[j], s);
                assert(a[j] == a.drop_last()[j]);
            }
        }
        lemma_without_absent(a.drop_last(), s);
        assert(!same_lowercase(a[a.len() - 1], s));
        assert(a.drop_last().push(a.last()) =~= a);
    }
}

/// Adding an alias and then removing it again gives back the configuration, when the
/// namespace listed some aliases or none at all (not an empty list).
pub proof fn law_alias_add_then_remove(defs: Seq<DefView>, name: Seq<char>, a: Seq<char>)
    requires
        find_name(defs, name) is Some,
        !alias_present(listed_aliases(defs[find_name(defs, name)->Some_0]), a),
        defs[find_name(defs, name)->Some_0].aliases != Some(Seq::<Seq<char>>::empty()),
    ensures
        ({
            let i = find_name(defs, name)->Some_0;
            let once = with_alias(defs, i, a);
            &&& find_name(once, name) == Some(i)
            &&& once[i].aliases matches Some(list)
            &&& without_alias(list, a).len() < list.len()
            &&& with_remaining(once, i, without_alias(list, a)) == defs
        }),
{
    let i = find_name(defs, name)->Some_0;
    lemma_least_exists(defs, name, choose|k: int| 0 <= k < defs.len() && same_lowercase(defs[k].name, name));
    let once = with_alias(defs, i, a);
    lemma_find_name_same_names(defs, once, name);
    let old_list = listed_aliases(defs[i]);
    let list = old_list.push(a);
    assert(once[i].aliases == Some(list));
    lemma_same_lowercase_refl(a);
    assert(list.drop_last() =~= old_list);
    lemma_without_absent(old_list, a);
    assert(without_alias(list, a) == old_list);
    let back = with_remaining(once, i, old_list);
    assert(back[i] == defs[i]) by {
        if old_list.len() == 0 {
            if let Some(x) = defs[i].aliases {
                assert(x =~= Seq::<Seq<char>>::empty());
            }
        }
    }
    assert(back =~= defs);
}

/// The definitions in `sort_defs` come from the input.
proof fn lemma_sort_defs_from(defs: Seq<DefView>, t: int)
    requires
        0 <= t < sort_defs(defs).len(),
    ensures
        defs.contains(sort_defs(defs)[t]),
{
    broadcast use vstd::seq_lib::group_to_multiset_ensures;
    let k = defs.map_values(|d: DefView| (d, lowercase(d.name)));
    let srt = sort_by_key(k);
    lemma_sort_by_key_sorted(k);
    assert(srt.contains(srt[t]));
    assert(srt.to_multiset().count(srt[t]) > 0);
    assert(k.contains(srt[t]));
    let u = choose|u: int| 0 <= u < k.len() && k[u] == srt[t];
    assert(defs[u] == sort_defs(defs)[t]);
}

/// The renamed namespace is found by its new name, with its root and aliases.
pub proof fn law_rename_then_find(defs: Seq<DefView>, old: Seq<char>, new: Seq<char>)
    requires
        find_name(defs, old) is Some,
        find_name(defs, new) is None,
    ensures
        ({
            let i = find_name(defs, old)->Some_0;
            let after = renamed(defs, i, new);
            &&& find_name(after, new) matches Some(p)
            &&& after[p] == (DefView { name: new, path: defs[i].path, aliases: defs[i].aliases })
        }),
{
    broadcast use vstd::seq_lib::group_to_multiset_ensures;
    let i = find_name(defs, old)->Some_0;
    lemma_least_exists(defs, old, choose|k: int| 0 <= k < defs.len() && same_lowercase(defs[k].name, old));
    let d2 = DefView { name: new, path: defs[i].path, aliases: defs[i].aliases };
    let upd = defs.update(i, d2);
    let after = sort_defs(upd);
    let k = upd.map_values(|d: DefView| (d, lowercase(d.name)));
    lemma_sort_by_key_sorted(k);
    assert(k.contains(k[i]));
    assert(k.to_multiset().count(k[i]) > 0);
    let srt = sort_by_key(k);
    assert(srt.contains(k[i]));
    let p = choose|p: int| 0 <= p < srt.len() && srt[p] == k[i];
    assert(after[p] == d2);
    lemma_same_lowercase_refl(new);
    lemma_least_exists(after, new, p);
    let w = find_name(after, new)->Some_0;
    assert(0 <= w < after.len() && same_lowercase(after[w].name, new));
    lemma_sort_defs_from(upd, w);
    let u = choose|u: int| 0 <= u < upd.len() && upd[u] == after[w];
    if u != i {
        assert(upd[u] == defs[u]);
        assert(same_lowercase(defs[u].name, new));
        assert(exists|v: int| 0 <= v < defs.len() && same_lowercase(defs[v].name, new));
    }
}

/// Where `insert_by_key` puts `x`: before the first key greater than its own.
proof fn lemma_insert_position<T>(s: Seq<(T, Seq<char>)>, x: (T, Seq<char>)) -> (j: int)
    ensures
        0 <= j <= s.len(),
        forall|t: int| 0 <= t < j ==> !seq_less(x.1, #[trigger] s[t].1),
        j < s.len() ==> seq_less(x.1, s[j].1),
    decreases s.len(),
{
    if s.len() == 0 {
        0
    } else if seq_less(x.1, s[0].1) {
        0
    } else {
        let r = lemma_insert_position(s.drop_first(), x);
        assert forall|t: int| 0 <= t < r + 1 implies !seq_less(x.1, #[trigger] s[t].1) by {
            if t > 0 {
                assert(s[t] == s.drop_first()[t - 1]);
            }
        }
        if r + 1 < s.len() {
            assert(s[r + 1] == s.drop_first()[r]);
        }
        r + 1
    }
}

/// Adding a namespace and then removing it by name gives back the other namespaces,
/// sorted by lowercase name.
pub proof fn law_add_then_remove(defs: Seq<DefView>, name: Seq<char>, path: Seq<char>, aliases: Seq<Seq<char>>)
    requires
        find_name(defs, name) is None,
    ensures
        ({
            let after = added(defs, name, path, aliases);
            &&& find_name_or_alias(after, name) matches Some(j)
            &&& after.remove(j) == sort_defs(defs)
            &&& names_sorted(defs) ==> after.remove(j) == defs
        }),
{
    if names_sorted(defs) {
        lemma_sort_defs_of_sorted(defs);
    }
    let x = new_def(name, path, aliases);
    let kx = (x, lowercase(name));
    let k = defs.map_values(|d: DefView| (d, lowercase(d.name)));
    let k2 = defs.push(x).map_values(|d: DefView| (d, lowercase(d.name)));
    assert(k2.drop_last() =~= k);
    assert(k2.last() == kx);
    let srt = sort_by_key(k);
    assert(sort_by_key(k2) == insert_by_key(srt, kx));
    let j = lemma_insert_position(srt, kx);
    lemma_insert_by_key_split(srt, kx, j);
    let f = firsts(srt);
    let after = added(defs, name, path, aliases);
    assert(after =~= f.take(j) + seq![x] + f.skip(j));
    assert(after[j] == x);
    lemma_same_lowercase_refl(name);
    assert forall|t: int| 0 <= t < j implies !same_lowercase(#[trigger] after[t].name, name) by {
        assert(after[t] == f[t]);
        lemma_sort_defs_from(defs, t);
        if same_lowercase(after[t].name, name) {
            let u = choose|u: int| 0 <= u < defs.len() && defs[u] == f[t];
            assert(exists|v: int| 0 <= v < defs.len() && same_lowercase(defs[v].name, name));
        }
    }
    assert(exists|v: int| 0 <= v < after.len() && same_lowercase(after[v].name, name));
    let w = find_name(after, name)->Some_0;
    lemma_least_exists(after, name, j);
    if w < j {
        assert(!same_lowercase(after[w].name, name));
    } else if w > j {
        assert(!same_lowercase(after[j].name, name));
    }
    assert(after.remove(j) =~= f);
}


/// The alias check reports nothing exactly when the aliases' lowercase forms are new
/// and distinct; the forms seen afterwards are the old ones and theirs.
proof fn lemma_alias_issues(a: Seq<Seq<char>>, seen: Set<Seq<char>>)
    ensures
        alias_issues(a, seen).0.len() == 0 <==> lowercase_distinct(a, seen),
        forall|k: Seq<char>| #[trigger] alias_issues(a, seen).1.contains(k) <==> (seen.contains(k) || exists|x: int| 0 <= x < a.len() && lowercase(a[x]) == k),
    decreases a.len(),
{
    if a.len() == 0 {
        return;
    }
    let k = lowercase(a[0]);
    let rest = a.drop_first();
    if seen.contains(k) {
        lemma_alias_issues(rest, seen);
        assert(!lowercase_distinct(a, seen));
        assert forall|q: Seq<char>| #[trigger] alias_issues(a, seen).1.contains(q) <==> (seen.contains(q) || exists|x: int| 0 <= x < a.len() && lowercase(a[x]) == q) by {
            if exists|x: int| 0 <= x < rest.len() && lowercase(rest[x]) == q {
                let x = choose|x: int| 0 <= x < rest.len() && lowercase(rest[x]) == q;
                assert(a[x + 1] == rest[x]);
            }
            if exists|x: int| 0 <= x < a.len() && lowercase(a[x]) == q {
                let x = choose|x: int| 0 <= x < a.len() && lowercase(a[x]) == q;
                if x > 0 {
                    assert(rest[x - 1] == a[x]);
                }
            }
        }
    } else {
        let s2 = seen.insert(k);
        lemma_alias_issues(rest, s2);
        assert(lowercase_distinct(a, seen) <==> lowercase_distinct(rest, s2)) by {
            if lowercase_distinct(a, seen) {
                assert forall|x: int| 0 <= x < rest.len() implies !s2.contains(lowercase(#[trigger] rest[x])) by {
                    assert(rest[x] == a[x + 1]);
                }
                assert forall|x: int, y: int| 0 <= x < y < rest.len() implies lowercase(#[trigger] rest[x]) != lowercase(#[trigger] rest[y]) by {
                    assert(rest[x] == a[x + 1] && rest[y] == a[y + 1]);
                }
            }
            if lowercase_distinct(rest, s2) {
                assert forall|x: int| 0 <= x < a.len() implies !seen.contains(lowercase(#[trigger] a[x])) by {
                    if x > 0 {
                        assert(rest[x - 1] == a[x]);
                    }
                }
                assert forall|x: int, y: int| 0 <= x < y < a.len() implies lowercase(#[trigger] a[x]) != lowercase(#[trigger] a[y]) by {
                    assert(rest[y - 1] == a[y]);
                    if x > 0 {
                        assert(rest[x - 1] == a[x]);
                    } else {
                        assert(!s2.contains(lowercase(rest[y - 1])));
                    }
                }
            }
        }
        assert forall|q: Seq<char>| #[trigger] alias_issues(a, seen).1.contains(q) <==> (seen.contains(q) || exists|x: int| 0 <= x < a.len() && lowercase(a[x]) == q) by {
            if exists|x: int| 0 <= x < rest.len() && lowercase(rest[x]) == q {
                let x = choose|x: int| 0 <= x < rest.len() && lowercase(rest[x]) == q;
                assert(a[x + 1] == rest[x]);
            }
            if exists|x: int| 0 <= x < a.len() && lowercase(a[x]) == q {
                let x = choose|x: int| 0 <= x < a.len() && lowercase(a[x]) == q;
                if x > 0 {
                    assert(rest[x - 1] == a[x]);
                }
            }
            if q == k {
                assert(lowercase(a[0]) == q);
            }
        }
    }
}

/// Distinct lowercase forms across `a + b` split into `a`, then `b` against what `a` added.
proof fn lemma_lowercase_distinct_concat(a: Seq<Seq<char>>, b: Seq<Seq<char>>, seen: Set<Seq<char>>, seen2: Set<Seq<char>>)
    requires
        forall|k: Seq<char>| #[trigger] seen2.contains(k) <==> (seen.contains(k) || exists|x: int| 0 <= x < a.len() && lowercase(a[x]) == k),
    ensures
        lowercase_distinct(a + b, seen) <==> (lowercase_distinct(a, seen) && lowercase_distinct(b, seen2)),
{
    let c = a + b;
    if lowercase_distinct(c, seen) {
        assert forall|x: int| 0 <= x < a.len() implies !seen.contains(lowercase(#[trigger] a[x])) by {
            assert(c[x] == a[x]);
        }
        assert forall|x: int, y: int| 0 <= x < y < a.len() implies lowercase(#[trigger] a[x]) != lowercase(#[trigger] a[y]) by {
            assert(c[x] == a[x] && c[y] == a[y]);
        }
        assert forall|y: int| 0 <= y < b.len() implies !seen2.contains(lowercase(#[trigger] b[y])) by {
            assert(c[a.len() + y] == b[y]);
            if exists|x: int| 0 <= x < a.len() && lowercase(a[x]) == lowercase(b[y]) {
                let x = choose|x: int| 0 <= x < a.len() && lowercase(a[x]) == lowercase(b[y]);
                assert(c[x] == a[x]);
            }
        }
        assert forall|x: int, y: int| 0 <= x < y < b.len() implies lowercase(#[trigger] b[x]) != lowercase(#[trigger] b[y]) by {
            assert(c[a.len() + x] == b[x] && c[a.len() + y] == b[y]);
        }
    }
    if lowercase_distinct(a, seen) && lowercase_distinct(b, seen2) {
        assert forall|x: int| 0 <= x < c.len() implies !seen.contains(lowercase(#[trigger] c[x])) by {
            if x >= a.len() {
                assert(c[x] == b[x - a.len()]);
                assert(!seen2.contains(lowercase(b[x - a.len()])));
            }
        }
        assert forall|x: int, y: int| 0 <= x < y < c.len() implies lowercase(#[trigger] c[x]) != lowercase(#[trigger] c[y]) by {
            if y < a.len() {
                assert(c[x] == a[x] && c[y] == a[y]);
            } else if x < a.len() {
                assert(c[x] == a[x] && c[y] == b[y - a.len()]);
                assert(!seen2.contains(lowercase(b[y - a.len()])));
                assert(seen2.contains(lowercase(a[x])));
            } else {
                assert(c[x] == b[x - a.len()] && c[y] == b[y - a.len()]);
            }
        }
    }
}

/// The namespace checks report nothing exactly when every root is a directory and
/// the listed aliases have new and distinct lowercase forms.
proof fn lemma_namespace_checks_clean(defs: Seq<DefView>, roots: Seq<Seq<char>>, ok: Seq<bool>, seen: Set<Seq<char>>)
    requires
        roots.len() == defs.len(),
        ok.len() == defs.len(),
    ensures
        namespace_checks(defs, roots, ok, seen).1.len() == 0 <==> ((forall|i: int| 0 <= i < ok.len() ==> #[trigger] ok[i])
            && lowercase_distinct(all_listed_aliases(defs), seen)),
    decreases defs.len(),
{
    if defs.len() == 0 {
        return;
    }
    let d = defs[0];
    let al = alias_issues(doctor_aliases(d), seen);
    lemma_alias_issues(doctor_aliases(d), seen);
    lemma_namespace_checks_clean(defs.drop_first(), roots.drop_first(), ok.drop_first(), al.1);
    lemma_lowercase_distinct_concat(doctor_aliases(d), all_listed_aliases(defs.drop_first()), seen, al.1);
    if forall|i: int| 0 <= i < ok.len() ==> #[trigger] ok[i] {
        assert forall|i: int| 0 <= i < ok.drop_first().len() implies #[trigger] ok.drop_first()[i] by {
            assert(ok.drop_first()[i] == ok[i + 1]);
        }
    }
    if ok[0] && forall|i: int| 0 <= i < ok.drop_first().len() ==> #[trigger] ok.drop_first()[i] {
        assert forall|i: int| 0 <= i < ok.len() implies #[trigger] ok[i] by {
            if i > 0 {
                assert(ok.drop_first()[i - 1] == ok[i]);
            }
        }
    }
}

/// `doctor` reports no issue exactly when the configuration is valid, every namespace
/// root is an existing directory, no listed alias repeats up to lowercase, and the
/// shell integration is present.
pub proof fn law_doctor_clean(config_path: Seq<char>, defs: Seq<DefView>, roots: Seq<Seq<char>>, ok: Seq<bool>, needs_setup: bool)
    requires
        roots.len() == defs.len(),
        ok.len() == defs.len(),
    ensures
        doctor_spec(config_path, defs, roots, ok, needs_setup).1.len() == 0 <==> {
            &&& defs_error(defs) is None
            &&& forall|i: int| 0 <= i < ok.len() ==> #[trigger] ok[i]
            &&& lowercase_distinct(all_listed_aliases(defs), Set::empty())
            &&& !needs_setup
        },
{
    lemma_namespace_checks_clean(defs, roots, ok, Set::empty());
}


/// Keys of `s` differ at any two positions.
pub open spec fn distinct_keys<T>(s: Seq<(T, Seq<char>)>) -> bool {
    forall|a: int, b: int| 0 <= a < b < s.len() ==> (#[trigger] s[a]).1 != (#[trigger] s[b]).1
}

/// Sorting items with distinct keys gives them in strictly increasing key order.
proof fn lemma_sort_distinct<T>(k: Seq<(T, Seq<char>)>)
    requires
        distinct_keys(k),
    ensures
        sort_by_key(k).len() == k.len(),
        forall|a: int, b: int| 0 <= a < b < k.len() ==> seq_less((#[trigger] sort_by_key(k)[a]).1, (#[trigger] sort_by_key(k)[b]).1),
        forall|x: (T, Seq<char>)| sort_by_key(k).contains(x) <==> k.contains(x),
{
    broadcast use vstd::seq_lib::group_to_multiset_ensures;
    let s = sort_by_key(k);
    lemma_sort_by_key_sorted(k);
    assert(k.no_duplicates()) by {
        assert forall|a: int, b: int| 0 <= a < k.len() && 0 <= b < k.len() && a != b implies k[a] != k[b] by {
            if a < b {
                assert(k[a].1 != k[b].1);
            } else {
                assert(k[b].1 != k[a].1);
            }
        }
    }
    k.lemma_multiset_has_no_duplicates();
    assert forall|x: (T, Seq<char>)| s.to_multiset().contains(x) implies s.to_multiset().count(x) == 1 by {
        assert(k.to_multiset().contains(x));
    }
    s.lemma_multiset_has_no_duplicates_conv();
    assert forall|x: (T, Seq<char>)| s.contains(x) <==> k.contains(x) by {
        vstd::seq_lib::to_multiset_contains(s, x);
        vstd::seq_lib::to_multiset_contains(k, x);
    }
    assert forall|a: int, b: int| 0 <= a < b < k.len() implies seq_less((#[trigger] s[a]).1, (#[trigger] s[b]).1) by {
        assert(!seq_less(s[b].1, s[a].1));
        if s[a].1 == s[b].1 {
            assert(s[a] != s[b]);
            assert(s.contains(s[a]) && s.contains(s[b]));
            let u = choose|u: int| 0 <= u < k.len() && k[u] == s[a];
            let v = choose|v: int| 0 <= v < k.len() && k[v] == s[b];
            if u < v {
                assert(k[u].1 != k[v].1);
            } else {
                assert(k[v].1 != k[u].1);
            }
        } else {
            crate::text::lemma_seq_less_total(s[a].1, s[b].1);
        }
    }
}

/// Two strictly key-ordered sequences of the same length with the same elements are equal.
proof fn lemma_strict_same_elements<T>(s: Seq<(T, Seq<char>)>, t: Seq<(T, Seq<char>)>)
    requires
        s.len() == t.len(),
        forall|a: int, b: int| 0 <= a < b < s.len() ==> seq_less((#[trigger] s[a]).1, (#[trigger] s[b]).1),
        forall|a: int, b: int| 0 <= a < b < t.len() ==> seq_less((#[trigger] t[a]).1, (#[trigger] t[b]).1),
        forall|x: (T, Seq<char>)| s.contains(x) <==> t.contains(x),
    ensures
        s == t,
    decreases s.len(),
{
    if s.len() == 0 {
        assert(s =~= t);
        return;
    }
    assert(s.contains(s[0]));
    let q = choose|q: int| 0 <= q < t.len() && t[q] == s[0];
    assert(t.contains(t[0]));
    let r = choose|r: int| 0 <= r < s.len() && s[r] == t[0];
    if q > 0 {
        assert(seq_less(t[0].1, t[q].1));
        if r > 0 {
            assert(seq_less(s[0].1, s[r].1));
            crate::text::lemma_seq_less_asymmetric(s[0].1, s[r].1);
        } else {
            crate::text::lemma_seq_less_irreflexive(s[0].1);
        }
    }
    assert(t[0] == s[0]);
    let s1 = s.drop_first();
    let t1 = t.drop_first();
    assert forall|x: (T, Seq<char>)| s1.contains(x) <==> t1.contains(x) by {
        if s1.contains(x) {
            let a = choose|a: int| 0 <= a < s1.len() && s1[a] == x;
            assert(s[a + 1] == x);
            assert(seq_less(s[0].1, s[a + 1].1));
            assert(t.contains(x));
            let b = choose|b: int| 0 <= b < t.len() && t[b] == x;
            if b == 0 {
                crate::text::lemma_seq_less_irreflexive(s[0].1);
            }
            assert(t1[b - 1] == x);
        }
        if t1.contains(x) {
            let a = choose|a: int| 0 <= a < t1.len() && t1[a] == x;
            assert(t[a + 1] == x);
            assert(seq_less(t[0].1, t[a + 1].1));
            assert(s.contains(x));
            let b = choose|b: int| 0 <= b < s.len() && s[b] == x;
            if b == 0 {
                crate::text::lemma_seq_less_irreflexive(t[0].1);
            }
            assert(s1[b - 1] == x);
        }
    }
    assert forall|a: int, b: int| 0 <= a < b < s1.len() implies seq_less((#[trigger] s1[a]).1, (#[trigger] s1[b]).1) by {
        assert(s1[a] == s[a + 1] && s1[b] == s[b + 1]);
    }
    assert forall|a: int, b: int| 0 <= a < b < t1.len() implies seq_less((#[trigger] t1[a]).1, (#[trigger] t1[b]).1) by {
        assert(t1[a] == t[a + 1] && t1[b] == t[b + 1]);
    }
    lemma_strict_same_elements(s1, t1);
    assert forall|k: int| 0 <= k < s.len() implies s[k] == t[k] by {
        if k > 0 {
            assert(s[k] == s1[k - 1]);
            assert(t[k] == t1[k - 1]);
        }
    }
    assert(s =~= t);
}

/// Definitions paired with their lowercase names, as `sort_defs` orders them.
pub open spec fn lower_named(defs: Seq<DefView>) -> Seq<(DefView, Seq<char>)> {
    defs.map_values(|d: DefView| (d, lowercase(d.name)))
}

/// Definitions in order of their lowercase names.
pub open spec fn names_sorted(defs: Seq<DefView>) -> bool {
    sorted_by_key(lower_named(defs))
}

/// Sorting what is already sorted changes nothing.
proof fn lemma_sort_of_sorted<T>(s: Seq<(T, Seq<char>)>)
    requires
        sorted_by_key(s),
    ensures
        sort_by_key(s) == s,
    decreases s.len(),
{
    if s.len() > 0 {
        let t = s.drop_last();
        assert(sorted_by_key(t)) by {
            assert forall|i: int, j: int| 0 <= i < j < t.len() implies !seq_less(#[trigger] t[j].1, #[trigger] t[i].1) by {
                assert(t[i] == s[i] && t[j] == s[j]);
            }
        }
        lemma_sort_of_sorted(t);
        assert forall|k: int| 0 <= k < t.len() implies !seq_less(s.last().1, #[trigger] t[k].1) by {
            assert(t[k] == s[k]);
        }
        lemma_insert_by_key_split(t, s.last(), t.len() as int);
        assert(t.take(t.len() as int) + seq![s.last()] + t.skip(t.len() as int) =~= s);
    }
}

/// The stable sort by lowercase name leaves definitions that are in that order as they are.
proof fn lemma_sort_defs_of_sorted(defs: Seq<DefView>)
    requires
        names_sorted(defs),
    ensures
        sort_defs(defs) == defs,
{
    lemma_sort_of_sorted(lower_named(defs));
    assert(firsts(lower_named(defs)) =~= defs);
}

/// Every edit leaves the definitions in order of their lowercase names: the stable sort
/// by lowercase name gives an ordered result, and sorting that again changes nothing.
pub proof fn law_sort_defs_sorted(defs: Seq<DefView>)
    ensures
        names_sorted(sort_defs(defs)),
        sort_defs(sort_defs(defs)) == sort_defs(defs),
{
    let k = lower_named(defs);
    let srt = sort_by_key(k);
    lemma_sort_by_key_sorted(k);
    let f = sort_defs(defs);
    assert(f == firsts(srt));
    assert forall|w: int| 0 <= w < srt.len() implies (#[trigger] srt[w]).1 == lowercase(srt[w].0.name) by {
        assert(srt.contains(srt[w]));
        vstd::seq_lib::to_multiset_contains(srt, srt[w]);
        vstd::seq_lib::to_multiset_contains(k, srt[w]);
        let u = choose|u: int| 0 <= u < k.len() && k[u] == srt[w];
    }
    assert(lower_named(f) =~= srt) by {
        assert forall|w: int| 0 <= w < srt.len() implies lower_named(f)[w] == srt[w] by {
            assert(f[w] == srt[w].0);
        }
    }
    lemma_sort_defs_of_sorted(f);
}

proof fn lemma_find_name_some(defs: Seq<DefView>, s: Seq<char>)
    requires
        find_name(defs, s) is Some,
    ensures
        0 <= find_name(defs, s)->Some_0 < defs.len(),
        same_lowercase(defs[find_name(defs, s)->Some_0].name, s),
{
    let w = choose|i: int| 0 <= i < defs.len() && same_lowercase(defs[i].name, s);
    lemma_least_exists(defs, s, w);
}

/// Sorting definitions with distinct lowercase names: each sorted item carries its
/// definition's lowercase name, and the sorted definitions are its first parts.
proof fn lemma_sorted_named(x: Seq<DefView>)
    requires
        distinct_keys(lower_named(x)),
    ensures
        sort_by_key(lower_named(x)).len() == x.len(),
        sort_defs(x).len() == x.len(),
        forall|a: int, b: int| 0 <= a < b < x.len() ==> seq_less(
            (#[trigger] sort_by_key(lower_named(x))[a]).1,
            (#[trigger] sort_by_key(lower_named(x))[b]).1,
        ),
        forall|e: (DefView, Seq<char>)| sort_by_key(lower_named(x)).contains(e) <==> lower_named(x).contains(e),
        forall|w: int| 0 <= w < x.len() ==> (#[trigger] sort_by_key(lower_named(x))[w]).1 == lowercase(sort_by_key(lower_named(x))[w].0.name),
        forall|w: int| 0 <= w < x.len() ==> #[trigger] sort_defs(x)[w] == sort_by_key(lower_named(x))[w].0,
{
    let k = lower_named(x);
    lemma_sort_distinct(k);
    let srt = sort_by_key(k);
    assert forall|w: int| 0 <= w < x.len() implies (#[trigger] srt[w]).1 == lowercase(srt[w].0.name) by {
        assert(srt.contains(srt[w]));
        assert(k.contains(srt[w]));
        let u = choose|u: int| 0 <= u < k.len() && k[u] == srt[w];
        assert(k.len() == x.len());
        assert(k[u] == (x[u], lowercase(x[u].name)));
    }
    assert(sort_defs(x) == firsts(srt));
}

/// Renaming the namespace at `p` of the renamed configuration back to its old name
/// gives the configuration sorted by lowercase name.
#[verifier::spinoff_prover]
#[verifier::rlimit(50)]
proof fn lemma_rename_back_restores(defs: Seq<DefView>, i: int, new: Seq<char>, p: int)
    requires
        0 <= i < defs.len(),
        forall|a: int, b: int| 0 <= a < b < defs.len() ==> lowercase(#[trigger] defs[a].name) != lowercase(#[trigger] defs[b].name),
        forall|j: int| 0 <= j < defs.len() ==> lowercase(#[trigger] defs[j].name) != lowercase(new),
        0 <= p < defs.len(),
        sort_defs(defs.update(i, DefView { name: new, path: defs[i].path, aliases: defs[i].aliases }))[p]
            == (DefView { name: new, path: defs[i].path, aliases: defs[i].aliases }),
    ensures
        renamed(sort_defs(defs.update(i, DefView { name: new, path: defs[i].path, aliases: defs[i].aliases })), p, defs[i].name)
            == sort_defs(defs),
{
    broadcast use vstd::seq_lib::group_to_multiset_ensures;
    let old = defs[i].name;
    let d2 = DefView { name: new, path: defs[i].path, aliases: defs[i].aliases };
    let upd = defs.update(i, d2);
    let after = sort_defs(upd);
    let k0 = lower_named(defs);
    let ku = lower_named(upd);
    assert(distinct_keys(k0));
    assert(distinct_keys(ku)) by {
        assert forall|a: int, b: int| 0 <= a < b < ku.len() implies (#[trigger] ku[a]).1 != (#[trigger] ku[b]).1 by {
            if a != i && b != i {
                assert(lowercase(defs[a].name) != lowercase(defs[b].name));
            }
        }
    }
    lemma_sorted_named(upd);
    let srt = sort_by_key(ku);
    assert(srt[p].0 == d2);
    // every other sorted item is an item of `defs` other than the renamed one
    assert forall|w: int| 0 <= w < srt.len() && w != p implies exists|u: int| 0 <= u < defs.len() && u != i && #[trigger] srt[w] == k0[u] by {
        assert(srt.contains(srt[w]));
        assert(ku.contains(srt[w]));
        let u = choose|u: int| 0 <= u < ku.len() && ku[u] == srt[w];
        assert(upd[u] == if u == i { d2 } else { defs[u] });
        assert(ku[u] == (upd[u], lowercase(upd[u].name)));
        assert(k0[u] == (defs[u], lowercase(defs[u].name)));
        if u == i {
            assert(srt[w].1 == srt[p].1);
            if w < p {
                crate::text::lemma_seq_less_irreflexive(srt[p].1);
            } else {
                crate::text::lemma_seq_less_irreflexive(srt[p].1);
            }
        }
        assert(ku[u] == k0[u]);
    }
    let kd = k0[i];
    let k1 = srt.update(p, kd);
    let x1 = after.update(p, DefView { name: old, path: after[p].path, aliases: after[p].aliases });
    assert(DefView { name: old, path: after[p].path, aliases: after[p].aliases } == defs[i]);
    assert(lower_named(x1) =~= k1) by {
        assert forall|w: int| 0 <= w < k1.len() implies lower_named(x1)[w] == k1[w] by {
            if w != p {
                assert(after[w] == srt[w].0);
            }
        }
    }
    assert(distinct_keys(k1)) by {
        assert forall|a: int, b: int| 0 <= a < b < k1.len() implies (#[trigger] k1[a]).1 != (#[trigger] k1[b]).1 by {
            if a != p && b != p {
                assert(seq_less(srt[a].1, srt[b].1));
                if srt[a].1 == srt[b].1 {
                    crate::text::lemma_seq_less_irreflexive(srt[a].1);
                }
            } else if a == p {
                assert(exists|u: int| 0 <= u < defs.len() && u != i && srt[b] == k0[u]);
                let u = choose|u: int| 0 <= u < defs.len() && u != i && srt[b] == k0[u];
                if u < i {
                    assert(lowercase(defs[u].name) != lowercase(defs[i].name));
                } else {
                    assert(lowercase(defs[i].name) != lowercase(defs[u].name));
                }
            } else {
                assert(exists|u: int| 0 <= u < defs.len() && u != i && srt[a] == k0[u]);
                let u = choose|u: int| 0 <= u < defs.len() && u != i && srt[a] == k0[u];
                if u < i {
                    assert(lowercase(defs[u].name) != lowercase(defs[i].name));
                } else {
                    assert(lowercase(defs[i].name) != lowercase(defs[u].name));
                }
            }
        }
    }
    assert forall|x: (DefView, Seq<char>)| k1.contains(x) <==> k0.contains(x) by {
        if k1.contains(x) {
            let w = choose|w: int| 0 <= w < k1.len() && k1[w] == x;
            if w == p {
                assert(k0[i] == x);
            } else {
                assert(exists|u: int| 0 <= u < defs.len() && u != i && srt[w] == k0[u]);
            }
        }
        if k0.contains(x) {
            let u = choose|u: int| 0 <= u < k0.len() && k0[u] == x;
            if u == i {
                assert(k1[p] == x);
            } else {
                assert(ku[u] == x);
                assert(ku.contains(x));
                assert(srt.contains(x));
                let w = choose|w: int| 0 <= w < srt.len() && srt[w] == x;
                if w == p {
                    assert(lowercase(defs[u].name) == lowercase(new));
                }
                assert(k1[w] == x);
            }
        }
    }
    lemma_sort_distinct(k1);
    lemma_sort_distinct(k0);
    assert forall|x: (DefView, Seq<char>)| sort_by_key(k1).contains(x) <==> sort_by_key(k0).contains(x) by {
        assert(sort_by_key(k1).contains(x) <==> k1.contains(x));
        assert(sort_by_key(k0).contains(x) <==> k0.contains(x));
    }
    lemma_strict_same_elements(sort_by_key(k1), sort_by_key(k0));
    assert(renamed(after, p, old) == firsts(sort_by_key(lower_named(x1))));
}

/// No namespace of the renamed configuration keeps the old name, up to case.
#[verifier::spinoff_prover]
#[verifier::rlimit(50)]
proof fn lemma_rename_back_old_gone(defs: Seq<DefView>, i: int, new: Seq<char>, p: int)
    requires
        0 <= i < defs.len(),
        forall|a: int, b: int| 0 <= a < b < defs.len() ==> lowercase(#[trigger] defs[a].name) != lowercase(#[trigger] defs[b].name),
        forall|j: int| 0 <= j < defs.len() ==> lowercase(#[trigger] defs[j].name) != lowercase(new),
        0 <= p < defs.len(),
        sort_defs(defs.update(i, DefView { name: new, path: defs[i].path, aliases: defs[i].aliases }))[p]
            == (DefView { name: new, path: defs[i].path, aliases: defs[i].aliases }),
    ensures
        forall|w: int| 0 <= w < defs.len() ==> !same_lowercase(
            #[trigger] sort_defs(defs.update(i, DefView { name: new, path: defs[i].path, aliases: defs[i].aliases }))[w].name,
            defs[i].name,
        ),
{
    broadcast use vstd::seq_lib::group_to_multiset_ensures;
    let old = defs[i].name;
    let d2 = DefView { name: new, path: defs[i].path, aliases: defs[i].aliases };
    let upd = defs.update(i, d2);
    let after = sort_defs(upd);
    let k0 = lower_named(defs);
    let ku = lower_named(upd);
    assert(distinct_keys(k0));
    assert(distinct_keys(ku)) by {
        assert forall|a: int, b: int| 0 <= a < b < ku.len() implies (#[trigger] ku[a]).1 != (#[trigger] ku[b]).1 by {
            if a != i && b != i {
                assert(lowercase(defs[a].name) != lowercase(defs[b].name));
            }
        }
    }
    lemma_sorted_named(upd);
    let srt = sort_by_key(ku);
    assert(srt[p].0 == d2);
    // every other sorted item is an item of `defs` other than the renamed one
    assert forall|w: int| 0 <= w < srt.len() && w != p implies exists|u: int| 0 <= u < defs.len() && u != i && #[trigger] srt[w] == k0[u] by {
        assert(srt.contains(srt[w]));
        assert(ku.contains(srt[w]));
        let u = choose|u: int| 0 <= u < ku.len() && ku[u] == srt[w];
        assert(upd[u] == if u == i { d2 } else { defs[u] });
        assert(ku[u] == (upd[u], lowercase(upd[u].name)));
        assert(k0[u] == (defs[u], lowercase(defs[u].name)));
        if u == i {
            assert(srt[w].1 == srt[p].1);
            if w < p {
                crate::text::lemma_seq_less_irreflexive(srt[p].1);
            } else {
                crate::text::lemma_seq_less_irreflexive(srt[p].1);
            }
        }
        assert(ku[u] == k0[u]);
    }
    // the old name is gone after the rename
    assert forall|w: int| 0 <= w < after.len() implies !same_lowercase(#[trigger] after[w].name, old) by {
        if w == p {
            assert(lowercase(defs[i].name) != lowercase(new));
        } else {
            assert(exists|u: int| 0 <= u < defs.len() && u != i && srt[w] == k0[u]);
            let u = choose|u: int| 0 <= u < defs.len() && u != i && srt[w] == k0[u];
            assert(after[w] == defs[u]);
            if u < i {
                assert(lowercase(defs[u].name) != lowercase(defs[i].name));
            } else {
                assert(lowercase(defs[i].name) != lowercase(defs[u].name));
            }
        }
    }}

/// With distinct lowercase names, a namespace's own name finds it.
proof fn lemma_rename_old_found(defs: Seq<DefView>, i: int)
    requires
        0 <= i < defs.len(),
        forall|a: int, b: int| 0 <= a < b < defs.len() ==> lowercase(#[trigger] defs[a].name) != lowercase(#[trigger] defs[b].name),
    ensures
        find_name(defs, defs[i].name) == Some(i),
{
    let old = defs[i].name;
    lemma_same_lowercase_refl(old);
    lemma_least_exists(defs, old, i);
    let f = find_name(defs, old)->Some_0;
    if f != i {
        if f < i {
            assert(lowercase(defs[f].name) != lowercase(defs[i].name));
        } else {
            assert(lowercase(defs[i].name) != lowercase(defs[f].name));
        }
    }
}

/// Renaming a namespace and renaming it back to the name it had gives back the
/// configuration sorted by lowercase name, when the lowercase names differ from one
/// another: the new name is found, the old one no longer is, and renaming the found
/// namespace to the old name restores the rest.
#[verifier::spinoff_prover]
#[verifier::rlimit(100)]
pub proof fn law_rename_back(defs: Seq<DefView>, i: int, new: Seq<char>)
    requires
        0 <= i < defs.len(),
        find_name(defs, new) is None,
        forall|a: int, b: int| 0 <= a < b < defs.len() ==> lowercase(#[trigger] defs[a].name) != lowercase(#[trigger] defs[b].name),
    ensures
        ({
            let old = defs[i].name;
            let after = renamed(defs, i, new);
            &&& find_name(defs, old) == Some(i)
            &&& find_name(after, new) matches Some(p)
            &&& find_name(after, old) is None
            &&& renamed(after, p, old) == sort_defs(defs)
            &&& names_sorted(defs) ==> renamed(after, p, old) == defs
        }),
{
    let old = defs[i].name;
    lemma_rename_old_found(defs, i);
    law_rename_then_find(defs, old, new);
    let d2 = DefView { name: new, path: defs[i].path, aliases: defs[i].aliases };
    let upd = defs.update(i, d2);
    let after = sort_defs(upd);
    lemma_find_name_some(after, new);
    let p = find_name(after, new)->Some_0;
    assert forall|j: int| 0 <= j < defs.len() implies lowercase(#[trigger] defs[j].name) != lowercase(new) by {
        if lowercase(defs[j].name) == lowercase(new) {
            assert(same_lowercase(defs[j].name, new));
        }
    }
    let ku = lower_named(upd);
    assert(distinct_keys(ku)) by {
        assert forall|a: int, b: int| 0 <= a < b < ku.len() implies (#[trigger] ku[a]).1 != (#[trigger] ku[b]).1 by {
            if a != i && b != i {
                assert(lowercase(defs[a].name) != lowercase(defs[b].name));
            }
        }
    }
    lemma_sorted_named(upd);
    lemma_rename_back_restores(defs, i, new, p);
    lemma_rename_back_old_gone(defs, i, new, p);
    assert(find_name(after, old) is None);
    assert(names_sorted(defs) ==> sort_defs(defs) == defs) by {
        if names_sorted(defs) {
            lemma_sort_defs_of_sorted(defs);
        }
    }
}


/// What resolving a target gives once its candidate path has been checked on disk:
/// the unknown-namespace error; else, for the path the target names under the
/// namespace found, the missing-path error when it does not exist, or the path
/// (its canonical form when that is known).
pub open spec fn resolution(
    m: Seq<(EntryView, Seq<char>)>,
    target: Seq<char>,
    exists: bool,
    canonical_form: Option<Seq<char>>,
) -> Result<Seq<char>, ErrorView> {
    match lookup_position(m, target_namespace(target)) {
        None => Err(ErrorView::UnknownNamespace(target_namespace(target))),
        Some(i) => {
            let c = candidate_path(m[i].0.path, target_rest(target));
            if !exists {
                Err(ErrorView::MissingPath(c))
            } else {
                match canonical_form {
                    Some(f) => Ok(f),
                    None => Ok(c),
                }
            }
        },
    }
}

/// `resolve` followed by `finish_resolve` on the candidate path, with `exists` and
/// `canonical_form` what the disk says of that path, gives `resolution`.
pub proof fn law_resolve_then_check(
    m: Seq<(EntryView, Seq<char>)>,
    target: Seq<char>,
    exists: bool,
    canonical_form: Option<Seq<char>>,
)
    ensures
        match resolve_outcome(m, target) {
            Ok(c) => finish_outcome(c, exists, canonical_form) == resolution(m, target, exists, canonical_form),
            Err(_) => resolve_outcome(m, target) == resolution(m, target, exists, canonical_form),
        },
{
}

/// The candidate for child directory `c` under directory part `d` of namespace `ns`.
pub open spec fn path_candidate(ns: Seq<char>, d: Seq<char>, c: Seq<char>) -> Seq<char> {
    if d.len() == 0 {
        ns + "/"@ + c
    } else {
        ns + "/"@ + d + "/"@ + c
    }
}

/// Path completion under a namespace, from the query `complete_namespace_path` builds
/// to the candidates `complete_children` gives: a candidate is the namespace exactly as
/// typed, `/`, the typed directory part and `/` when there is one, and a child
/// directory of the query's base that the typed prefix is offered for; every candidate
/// starts with the namespace as typed and `/`.
pub proof fn law_path_completions(e: EntryView, ns: Seq<char>, rest: Seq<char>, children: Seq<Seq<char>>, x: Seq<char>)
    ensures
        query_spec(e, ns, rest).namespace_input == ns,
        query_spec(e, ns, rest).base == query_base(e.path, rest_parts(rest).0),
        rest_parts(rest).0.len() == 0 ==> query_spec(e, ns, rest).base == e.path,
        rest_parts(rest).0.len() > 0 ==> query_spec(e, ns, rest).base == path_join(e.path, rest_parts(rest).0),
        child_completion(query_spec(e, ns, rest), children, x) <==> exists|t: int|
            0 <= t < children.len() && offered(lowercase(rest_parts(rest).1), children[t]) && x
                == #[trigger] path_candidate(ns, rest_parts(rest).0, children[t]),
        child_completion(query_spec(e, ns, rest), children, x) ==> has_prefix(x, ns + "/"@),
{
    let q = query_spec(e, ns, rest);
    let d = rest_parts(rest).0;
    assert forall|c: Seq<char>| child_candidate(q, c) == #[trigger] path_candidate(ns, d, c) by {}
    if child_completion(q, children, x) {
        let t = choose|t: int| 0 <= t < children.len() && offered(lowercase(q.prefix), children[t]) && x == child_candidate(q, #[trigger] children[t]);
        let p = ns + "/"@;
        assert(x == path_candidate(ns, d, children[t]));
        if d.len() == 0 {
            assert(x == p + children[t]);
        } else {
            assert(x =~= p + (d + "/"@ + children[t]));
        }
        assert(x.subrange(0, p.len() as int) =~= p);
    }
    if exists|t: int| 0 <= t < children.len() && offered(lowercase(rest_parts(rest).1), children[t]) && x == #[trigger] path_candidate(ns, d, children[t]) {
        let t = choose|t: int| 0 <= t < children.len() && offered(lowercase(rest_parts(rest).1), children[t]) && x == #[trigger] path_candidate(ns, d, children[t]);
        assert(x == child_candidate(q, children[t]));
    }
}

/// Which configurations are valid, over the aliases each namespace lists (not empty and
/// without surrounding white space): exactly those that have a namespace, whose name
/// keys are not blank and differ, and in which every listed alias whose key is neither
/// blank nor its own namespace's key has a key that is no namespace's key and that no
/// such alias of another namespace shares.
pub proof fn law_valid_iff_listed(defs: Seq<DefView>)
    requires
        forall|j: int, b: Seq<char>| 0 <= j < defs.len() && #[trigger] alias_list(defs[j]).contains(b) ==> trim_seq(b) == b && b.len() > 0,
    ensures
        defs_error(defs) is None <==> {
            &&& defs.len() > 0
            &&& forall|i: int| 0 <= i < defs.len() ==> canonical(#[trigger] defs[i].name).len() > 0
            &&& forall|i: int, j: int| 0 <= i < j < defs.len() ==> canonical(#[trigger] defs[i].name) != canonical(#[trigger] defs[j].name)
            &&& forall|i: int, a: Seq<char>| 0 <= i < defs.len() && #[trigger] alias_list(defs[i]).contains(a) && checked_alias(defs[i], a) ==> forall|j: int|
                0 <= j < defs.len() ==> canonical(a) != canonical(#[trigger] defs[j].name)
            &&& forall|i: int, j: int, a: Seq<char>, b: Seq<char>|
                0 <= i < defs.len() && 0 <= j < defs.len() && i != j && #[trigger] alias_list(defs[i]).contains(a)
                    && #[trigger] alias_list(defs[j]).contains(b) && checked_alias(defs[i], a) && checked_alias(defs[j], b)
                    ==> canonical(a) != canonical(b)
        },
{
    if defs_error(defs) is None {
        law_valid_definitions(defs);
        let ks = kept_aliases(defs);
        assert forall|i: int, a: Seq<char>| 0 <= i < defs.len() && #[trigger] alias_list(defs[i]).contains(a) && checked_alias(defs[i], a) implies forall|j: int|
            0 <= j < defs.len() ==> canonical(a) != canonical(#[trigger] defs[j].name) by {
            lemma_listed_represented(defs, i, a);
            let y = choose|y: Seq<char>| #[trigger] ks[i].contains(y) && lowercase(y) == lowercase(a) && canonical(y) == canonical(a);
            let x = choose|x: int| 0 <= x < ks[i].len() && ks[i][x] == y;
            assert(forall|j: int| 0 <= j < defs.len() ==> canonical(ks[i][x]) != canonical(#[trigger] defs[j].name));
        }
        assert forall|i: int, j: int, a: Seq<char>, b: Seq<char>|
            0 <= i < defs.len() && 0 <= j < defs.len() && i != j && #[trigger] alias_list(defs[i]).contains(a)
                && #[trigger] alias_list(defs[j]).contains(b) && checked_alias(defs[i], a) && checked_alias(defs[j], b)
                implies canonical(a) != canonical(b) by {
            lemma_listed_represented(defs, i, a);
            lemma_listed_represented(defs, j, b);
            let y = choose|y: Seq<char>| #[trigger] ks[i].contains(y) && lowercase(y) == lowercase(a) && canonical(y) == canonical(a);
            let z = choose|z: Seq<char>| #[trigger] ks[j].contains(z) && lowercase(z) == lowercase(b) && canonical(z) == canonical(b);
            let x = choose|x: int| 0 <= x < ks[i].len() && ks[i][x] == y;
            let w = choose|w: int| 0 <= w < ks[j].len() && ks[j][w] == z;
            assert(canonical(ks[i][x]) != canonical(ks[j][w]));
        }
    } else {
        if defs.len() > 0
            && (forall|i: int| 0 <= i < defs.len() ==> canonical(#[trigger] defs[i].name).len() > 0)
            && (forall|i: int, j: int| 0 <= i < j < defs.len() ==> canonical(#[trigger] defs[i].name) != canonical(#[trigger] defs[j].name))
            && (forall|i: int, a: Seq<char>| 0 <= i < defs.len() && #[trigger] alias_list(defs[i]).contains(a) && checked_alias(defs[i], a) ==> forall|j: int|
                0 <= j < defs.len() ==> canonical(a) != canonical(#[trigger] defs[j].name))
            && (forall|i: int, j: int, a: Seq<char>, b: Seq<char>|
                0 <= i < defs.len() && 0 <= j < defs.len() && i != j && #[trigger] alias_list(defs[i]).contains(a)
                    && #[trigger] alias_list(defs[j]).contains(b) && checked_alias(defs[i], a) && checked_alias(defs[j], b)
                    ==> canonical(a) != canonical(b)) {
            law_definitions_valid_when(defs);
        }
    }
}

/// Every alias a namespace lists (not empty, without surrounding white space, like all
/// listed aliases) whose key is not blank finds the namespace, by any spelling that
/// lowercases like it, with the root path given.
pub proof fn law_listed_aliases_found(
    defs: Seq<DefView>,
    roots: Seq<Seq<char>>,
    m: Seq<(EntryView, Seq<char>)>,
    i: int,
    a: Seq<char>,
)
    requires
        defs_error(defs) is None,
        roots.len() == defs.len(),
        laid_out(m, built_entries(defs, roots)),
        0 <= i < defs.len(),
        alias_list(defs[i]).contains(a),
        canonical(a).len() > 0,
        forall|j: int, b: Seq<char>| 0 <= j < defs.len() && #[trigger] alias_list(defs[j]).contains(b) ==> trim_seq(b) == b && b.len() > 0,
    ensures
        forall|s: Seq<char>| #[trigger] lowercase(s) == lowercase(a) ==> {
            &&& lookup_position(m, s) matches Some(p)
            &&& 0 <= p < m.len()
            &&& m[p].0.name == defs[i].name
            &&& m[p].0.path == roots[i]
        },
{
    assert(trim_seq(a) == a);
    if checked_alias(defs[i], a) {
        lemma_listed_represented(defs, i, a);
        let y = choose|y: Seq<char>| #[trigger] kept_aliases(defs)[i].contains(y) && lowercase(y) == lowercase(a) && canonical(y) == canonical(a);
        law_aliases_found_case_insensitively(defs, roots, m, i, y);
    } else {
        assert(canonical(a) == canonical(defs[i].name));
        law_names_found_case_insensitively(defs, roots, m, i);
    }
}


/// A namespace whose path is under the home directory (`~` alone or followed by `/`,
/// with no `$`) is found by its name at a root that is that path with its `~`
/// replaced by non-empty text (the home directory, or `~` itself when none is known):
/// never the path with the `~` merely dropped.
pub proof fn law_home_root_found(defs: Seq<DefView>, roots: Seq<Seq<char>>, m: Seq<(EntryView, Seq<char>)>, i: int)
    requires
        defs_error(defs) is None,
        roots.len() == defs.len(),
        laid_out(m, built_entries(defs, roots)),
        forall|k: int| 0 <= k < roots.len() && home_path(defs[k].path) ==> home_expanded(#[trigger] roots[k], defs[k].path),
        0 <= i < defs.len(),
        home_path(defs[i].path),
    ensures
        forall|s: Seq<char>| #[trigger] lowercase(s) == canonical(defs[i].name) ==> {
            &&& lookup_position(m, s) matches Some(p)
            &&& 0 <= p < m.len()
            &&& exists|h: Seq<char>| h.len() > 0 && m[p].0.path == h + defs[i].path.skip(1)
            &&& m[p].0.path != defs[i].path.skip(1)
        },
{
    law_names_found_case_insensitively(defs, roots, m, i);
    assert(home_expanded(roots[i], defs[i].path));
    let h = choose|h: Seq<char>| h.len() > 0 && roots[i] == h + defs[i].path.skip(1);
    assert(roots[i].len() > defs[i].path.skip(1).len());
}

/// The text typed after a namespace splits without loss into the directory part and
/// the name prefix: nothing typed gives neither; text ending in `/` is all directory
/// (followed only by `/`s) with no prefix; otherwise the prefix is what follows the
/// last `/` (all of it when there is none) and the directory part what precedes it.
pub proof fn law_rest_parts_lossless(rest: Seq<char>)
    ensures
        rest.len() == 0 ==> rest_parts(rest).0.len() == 0 && rest_parts(rest).1.len() == 0,
        rest.len() > 0 && rest.last() == '/' ==> {
            &&& rest_parts(rest).1.len() == 0
            &&& has_prefix(rest, rest_parts(rest).0)
            &&& forall|k: int| rest_parts(rest).0.len() <= k < rest.len() ==> rest[k] == '/'
        },
        rest.len() > 0 && rest.last() != '/' ==> {
            &&& forall|k: int| 0 <= k < rest_parts(rest).1.len() ==> rest_parts(rest).1[k] != '/'
            &&& rest_parts(rest).1.len() > 0
            &&& if exists|k: int| 0 <= k < rest.len() && rest[k] == '/' {
                rest == rest_parts(rest).0 + "/"@ + rest_parts(rest).1
            } else {
                rest_parts(rest).0.len() == 0 && rest_parts(rest).1 == rest
            }
        },
{
    if rest.len() > 0 && rest.last() == '/' {
        lemma_strip_trailing_parts(rest);
    } else if rest.len() > 0 {
        lemma_split_at_last_slash(rest);
    }
}

/// A character that occurs has a last occurrence.
proof fn lemma_last_exists(s: Seq<char>, c: char, j: int)
    requires
        0 <= j < s.len(),
        s[j] == c,
    ensures
        exists|i: int| 0 <= i < s.len() && s[i] == c && forall|t: int| i < t < s.len() ==> s[t] != c,
    decreases s.len() - j,
{
    if exists|t: int| j < t < s.len() && s[t] == c {
        let t = choose|t: int| j < t < s.len() && s[t] == c;
        lemma_last_exists(s, c, t);
    } else {
        assert(forall|t: int| j < t < s.len() ==> s[t] != c);
    }
}

/// The split of text with a `/` and not ending in `/`.
proof fn lemma_split_with_slash(rest: Seq<char>)
    requires
        rest.len() > 0,
        rest.last() != '/',
        exists|k: int| 0 <= k < rest.len() && rest[k] == '/',
    ensures
        forall|k: int| 0 <= k < rest_parts(rest).1.len() ==> rest_parts(rest).1[k] != '/',
        rest_parts(rest).1.len() > 0,
        rest == rest_parts(rest).0 + "/"@ + rest_parts(rest).1,
{
    reveal_strlit("/");
    let k = choose|k: int| 0 <= k < rest.len() && rest[k] == '/';
    lemma_last_exists(rest, '/', k);
    let i = choose|j: int| 0 <= j < rest.len() && rest[j] == '/' && forall|t: int| j < t < rest.len() ==> rest[t] != '/';
    assert(last_index_of(rest, '/') == Some(i));
    assert(rest_parts(rest).0 == rest.take(i));
    assert(rest_parts(rest).1 == rest.skip(i + 1));
    assert(i != rest.len() - 1);
    assert(rest.take(i) + "/"@ + rest.skip(i + 1) =~= rest);
    let pf = rest.skip(i + 1);
    assert forall|k: int| 0 <= k < pf.len() implies #[trigger] pf[k] != '/' by {
        assert(pf[k] == rest[i + 1 + k]);
    }
}

/// Text not ending in `/` splits at its last `/` into directory part and prefix.
proof fn lemma_split_at_last_slash(rest: Seq<char>)
    requires
        rest.len() > 0,
        rest.last() != '/',
    ensures
        forall|k: int| 0 <= k < rest_parts(rest).1.len() ==> rest_parts(rest).1[k] != '/',
        rest_parts(rest).1.len() > 0,
        if exists|k: int| 0 <= k < rest.len() && rest[k] == '/' {
            rest == rest_parts(rest).0 + "/"@ + rest_parts(rest).1
        } else {
            rest_parts(rest).0.len() == 0 && rest_parts(rest).1 == rest
        },
{
    if exists|k: int| 0 <= k < rest.len() && rest[k] == '/' {
        lemma_split_with_slash(rest);
    } else {
        assert(last_index_of(rest, '/') is None);
    }
}

/// Removing trailing `/`s keeps a prefix followed only by `/`s.
proof fn lemma_strip_trailing_parts(s: Seq<char>)
    ensures
        has_prefix(s, strip_trailing(s, '/')),
        forall|k: int| strip_trailing(s, '/').len() <= k < s.len() ==> s[k] == '/',
    decreases s.len(),
{
    if s.len() > 0 && s.last() == '/' {
        lemma_strip_trailing_parts(s.drop_last());
        let t = strip_trailing(s.drop_last(), '/');
        assert(s.subrange(0, t.len() as int) =~= s.drop_last().subrange(0, t.len() as int));
        assert forall|k: int| t.len() <= k < s.len() implies s[k] == '/' by {
            if k < s.len() - 1 {
                assert(s[k] == s.drop_last()[k]);
            }
        }
    } else {
        assert(s.subrange(0, s.len() as int) =~= s);
    }
}

/// After `add`, the namespace found by the new name is the one added, with the name,
/// path and aliases given (no alias list when none were given), and one namespace
/// more than before.
pub proof fn law_add_then_find(defs: Seq<DefView>, name: Seq<char>, path: Seq<char>, aliases: Seq<Seq<char>>)
    requires
        find_name(defs, name) is None,
    ensures
        ({
            let after = added(defs, name, path, aliases);
            &&& after.len() == defs.len() + 1
            &&& find_name(after, name) matches Some(j)
            &&& after[j].name == name
            &&& after[j].path == path
            &&& after[j].aliases == if aliases.len() == 0 { None::<Seq<Seq<char>>> } else { Some(aliases) }
        }),
{
    broadcast use vstd::seq_lib::group_to_multiset_ensures;
    let after = added(defs, name, path, aliases);
    let x = new_def(name, path, aliases);
    let k = lower_named(defs.push(x));
    lemma_sort_by_key_sorted(k);
    let srt = sort_by_key(k);
    assert(after.len() == defs.len() + 1);
    assert(k[defs.len() as int] == (x, lowercase(name)));
    assert(k.contains(k[defs.len() as int]));
    vstd::seq_lib::to_multiset_contains(k, k[defs.len() as int]);
    vstd::seq_lib::to_multiset_contains(srt, k[defs.len() as int]);
    let t = choose|t: int| 0 <= t < srt.len() && srt[t] == k[defs.len() as int];
    assert(after == firsts(srt));
    assert(after[t] == x);
    lemma_same_lowercase_refl(name);
    lemma_least_exists(after, name, t);
    lemma_find_name_some(after, name);
    let j = find_name(after, name)->Some_0;
    lemma_sort_defs_from(defs.push(x), j);
    let u = choose|u: int| 0 <= u < defs.push(x).len() && defs.push(x)[u] == after[j];
    if u < defs.len() {
        assert(defs[u] == after[j]);
        assert(same_lowercase(defs[u].name, name));
        assert(exists|v: int| 0 <= v < defs.len() && same_lowercase(defs[v].name, name));
    }
    assert(after[j] == x);
}

/// `set-path` changes the path of the one namespace and nothing else: its name and
/// aliases stay, and every other namespace is as it was.
pub proof fn law_set_path_changes_only_path(defs: Seq<DefView>, i: int, p: Seq<char>)
    requires
        0 <= i < defs.len(),
    ensures
        with_path(defs, i, p).len() == defs.len(),
        with_path(defs, i, p)[i].path == p,
        with_path(defs, i, p)[i].name == defs[i].name,
        with_path(defs, i, p)[i].aliases == defs[i].aliases,
        forall|j: int| 0 <= j < defs.len() && j != i ==> #[trigger] with_path(defs, i, p)[j] == defs[j],
{
}

/// `alias-remove` keeps exactly the listed aliases that are not the removed one up to
/// case, in their order.
pub proof fn law_remove_alias_filters(a: Seq<Seq<char>>, s: Seq<char>)
    ensures
        without_alias(a, s) == a.filter(|x: Seq<char>| !same_lowercase(x, s)),
    decreases a.len(),
{
    reveal(Seq::filter);
    if a.len() > 0 {
        law_remove_alias_filters(a.drop_last(), s);
    }
}

} // verus!
