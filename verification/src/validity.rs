//! What a successful validation of namespace definitions guarantees, stated directly
//! over the keys of names and aliases.
use vstd::prelude::*;
use crate::config::DefView;
use crate::namespace::{
    accept_aliases, accept_defs, alias_list, canonical, dedup_lower, defs_error, keep_nonblank,
    kept_aliases, lower_keyed, names_error, namespace_keys, prepared_aliases, sorted_by_lowercase,
    firsts, name_problem, has_name_problem,
};
use crate::sorting::{lemma_sort_by_key_sorted, sort_by_key};
use crate::text::{trim_seq, lemma_seq_less_total, lemma_seq_less_transitive, lowercase, same_lowercase, seq_less};

verus! {

/// The aliases that pass the check keep keys that are not blank, not their own
/// namespace's key, not a namespace key and not seen before, and distinct from one
/// another; afterwards the seen keys are the old ones and theirs.
pub proof fn lemma_accept_aliases_ok(names: Set<Seq<char>>, own: Seq<char>, ps: Seq<Seq<char>>, seen: Set<Seq<char>>)
    requires
        accept_aliases(names, own, ps, seen) is Ok,
    ensures
        ({
            let (kept, s2) = accept_aliases(names, own, ps, seen)->Ok_0;
            &&& forall|x: int| 0 <= x < kept.len() ==> {
                &&& !names.contains(canonical(#[trigger] kept[x]))
                &&& !seen.contains(canonical(kept[x]))
                &&& canonical(kept[x]).len() > 0
                &&& canonical(kept[x]) != own
                &&& ps.contains(kept[x])
            }
            &&& forall|x: int, y: int| 0 <= x < y < kept.len() ==> canonical(#[trigger] kept[x]) != canonical(#[trigger] kept[y])
            &&& forall|k: Seq<char>| #[trigger] s2.contains(k) <==> (seen.contains(k) || exists|x: int| 0 <= x < kept.len() && canonical(kept[x]) == k)
            &&& forall|x: int| 0 <= x < ps.len() && canonical(#[trigger] ps[x]).len() > 0 && canonical(ps[x]) != own ==> kept.contains(ps[x])
        }),
    decreases ps.len(),
{
    if ps.len() == 0 {
        return;
    }
    let a = ps[0];
    let k = canonical(a);
    let rest = ps.drop_first();
    if k.len() == 0 || k == own {
        lemma_accept_aliases_ok(names, own, rest, seen);
        let (kept, s2) = accept_aliases(names, own, ps, seen)->Ok_0;
        assert forall|x: int| 0 <= x < ps.len() && canonical(#[trigger] ps[x]).len() > 0 && canonical(ps[x]) != own implies kept.contains(ps[x]) by {
            assert(x > 0);
            assert(rest[x - 1] == ps[x]);
        }
        assert forall|x: int| 0 <= x < kept.len() implies ps.contains(#[trigger] kept[x]) by {
            let t = choose|t: int| 0 <= t < rest.len() && rest[t] == kept[x];
            assert(ps[t + 1] == kept[x]);
        }
    } else {
        lemma_accept_aliases_ok(names, own, rest, seen.insert(k));
        let (kr, sr) = accept_aliases(names, own, rest, seen.insert(k))->Ok_0;
        let (kept, s2) = accept_aliases(names, own, ps, seen)->Ok_0;
        assert(kept == seq![a] + kr);
        assert(s2 == sr);
        assert forall|x: int| 0 <= x < ps.len() && canonical(#[trigger] ps[x]).len() > 0 && canonical(ps[x]) != own implies kept.contains(ps[x]) by {
            if x == 0 {
                assert(kept[0] == ps[0]);
            } else {
                assert(rest[x - 1] == ps[x]);
                assert(kr.contains(ps[x]));
                let t = choose|t: int| 0 <= t < kr.len() && kr[t] == ps[x];
                assert(kept[t + 1] == ps[x]);
            }
        }
        assert forall|x: int| 0 <= x < kept.len() implies {
            &&& !names.contains(canonical(#[trigger] kept[x]))
            &&& !seen.contains(canonical(kept[x]))
            &&& canonical(kept[x]).len() > 0
            &&& canonical(kept[x]) != own
            &&& ps.contains(kept[x])
        } by {
            if x == 0 {
                assert(ps[0] == kept[x]);
            } else {
                assert(kept[x] == kr[x - 1]);
                let t = choose|t: int| 0 <= t < rest.len() && rest[t] == kr[x - 1];
                assert(ps[t + 1] == kept[x]);
            }
        }
        assert forall|x: int, y: int| 0 <= x < y < kept.len() implies canonical(#[trigger] kept[x]) != canonical(#[trigger] kept[y]) by {
            assert(kept[y] == kr[y - 1]);
            if x > 0 {
                assert(kept[x] == kr[x - 1]);
            } else {
                assert(!seen.insert(k).contains(canonical(kr[y - 1])));
            }
        }
        assert forall|q: Seq<char>| #[trigger] s2.contains(q) <==> (seen.contains(q) || exists|x: int| 0 <= x < kept.len() && canonical(kept[x]) == q) by {
            if exists|x: int| 0 <= x < kept.len() && canonical(kept[x]) == q {
                let x = choose|x: int| 0 <= x < kept.len() && canonical(kept[x]) == q;
                if x > 0 {
                    assert(kept[x] == kr[x - 1]);
                }
            }
            if exists|x: int| 0 <= x < kr.len() && canonical(kr[x]) == q {
                let x = choose|x: int| 0 <= x < kr.len() && canonical(kr[x]) == q;
                assert(kept[x + 1] == kr[x]);
                assert(0 <= x + 1 < kept.len() && canonical(kept[x + 1]) == q);
            }
            if q == k {
                assert(canonical(kept[0]) == q);
            }
        }
    }
}

/// The checks of all definitions succeed: every definition keeps aliases drawn from
/// its prepared list whose keys are not blank, not its own key, not a namespace key
/// and not seen before, and no key is kept twice anywhere.
pub proof fn lemma_accept_defs_ok(names: Set<Seq<char>>, defs: Seq<DefView>, seen: Set<Seq<char>>)
    requires
        accept_defs(names, defs, seen) is Ok,
    ensures
        ({
            let ks = accept_defs(names, defs, seen)->Ok_0;
            &&& ks.len() == defs.len()
            &&& forall|i: int, x: int| 0 <= i < ks.len() && 0 <= x < ks[i].len() ==> {
                &&& !names.contains(canonical(#[trigger] ks[i][x]))
                &&& !seen.contains(canonical(ks[i][x]))
                &&& canonical(ks[i][x]).len() > 0
                &&& canonical(ks[i][x]) != canonical(defs[i].name)
                &&& prepared_aliases(defs[i]).contains(ks[i][x])
            }
            &&& forall|i: int, x: int, j: int, y: int|
                0 <= i < ks.len() && 0 <= j < ks.len() && 0 <= x < ks[i].len() && 0 <= y < ks[j].len() && (i != j || x != y)
                    ==> canonical(#[trigger] ks[i][x]) != canonical(#[trigger] ks[j][y])
            &&& forall|i: int, x: int| 0 <= i < ks.len() && 0 <= x < prepared_aliases(defs[i]).len() && checked_alias(
                defs[i],
                #[trigger] prepared_aliases(defs[i])[x],
            ) ==> ks[i].contains(prepared_aliases(defs[i])[x])
        }),
    decreases defs.len(),
{
    if defs.len() == 0 {
        return;
    }
    let d = defs[0];
    lemma_accept_aliases_ok(names, canonical(d.name), prepared_aliases(d), seen);
    let (kept, s) = accept_aliases(names, canonical(d.name), prepared_aliases(d), seen)->Ok_0;
    let tail = defs.drop_first();
    lemma_accept_defs_ok(names, tail, s);
    let kr = accept_defs(names, tail, s)->Ok_0;
    let ks = accept_defs(names, defs, seen)->Ok_0;
    assert(ks == seq![kept] + kr);
    assert forall|i: int, x: int| 0 <= i < ks.len() && 0 <= x < prepared_aliases(defs[i]).len() && checked_alias(
        defs[i],
        #[trigger] prepared_aliases(defs[i])[x],
    ) implies ks[i].contains(prepared_aliases(defs[i])[x]) by {
        if i == 0 {
            assert(ks[0] == kept);
            assert(prepared_aliases(d)[x] == prepared_aliases(defs[i])[x]);
        } else {
            assert(ks[i] == kr[i - 1]);
            assert(tail[i - 1] == defs[i]);
            assert(checked_alias(tail[i - 1], prepared_aliases(tail[i - 1])[x]));
        }
    }
    assert forall|i: int, x: int| 0 <= i < ks.len() && 0 <= x < ks[i].len() implies {
        &&& !names.contains(canonical(#[trigger] ks[i][x]))
        &&& !seen.contains(canonical(ks[i][x]))
        &&& canonical(ks[i][x]).len() > 0
        &&& canonical(ks[i][x]) != canonical(defs[i].name)
        &&& prepared_aliases(defs[i]).contains(ks[i][x])
    } by {
        if i == 0 {
            assert(ks[0] == kept);
            assert(kept[x] == ks[i][x]);
        } else {
            assert(ks[i] == kr[i - 1]);
            assert(tail[i - 1] == defs[i]);
            assert(kr[i - 1][x] == ks[i][x]);
            assert(!s.contains(canonical(kr[i - 1][x])));
        }
    }
    assert forall|i: int, x: int, j: int, y: int|
        0 <= i < ks.len() && 0 <= j < ks.len() && 0 <= x < ks[i].len() && 0 <= y < ks[j].len() && (i != j || x != y)
        implies canonical(#[trigger] ks[i][x]) != canonical(#[trigger] ks[j][y]) by {
        if i == 0 && j == 0 {
            assert(ks[0] == kept);
            if x < y {
                assert(canonical(kept[x]) != canonical(kept[y]));
            } else {
                assert(canonical(kept[y]) != canonical(kept[x]));
            }
        } else if i == 0 {
            assert(ks[0] == kept);
            assert(ks[j] == kr[j - 1]);
            assert(kr[j - 1][y] == ks[j][y]);
            assert(!s.contains(canonical(kr[j - 1][y])));
            assert(s.contains(canonical(kept[x])));
        } else if j == 0 {
            assert(ks[0] == kept);
            assert(ks[i] == kr[i - 1]);
            assert(kr[i - 1][x] == ks[i][x]);
            assert(!s.contains(canonical(kr[i - 1][x])));
            assert(s.contains(canonical(kept[y])));
        } else {
            assert(ks[i] == kr[i - 1]);
            assert(ks[j] == kr[j - 1]);
            assert(kr[i - 1][x] == ks[i][x]);
            assert(kr[j - 1][y] == ks[j][y]);
        }
    }
}

proof fn lemma_keep_nonblank_sub(a: Seq<Seq<char>>, x: Seq<char>)
    requires
        keep_nonblank(a).contains(x),
    ensures
        a.contains(x),
    decreases a.len(),
{
    let r = keep_nonblank(a.drop_last());
    if r.contains(x) {
        lemma_keep_nonblank_sub(a.drop_last(), x);
        let t = choose|t: int| 0 <= t < a.drop_last().len() && a.drop_last()[t] == x;
        assert(a[t] == x);
    } else {
        let t = choose|t: int| 0 <= t < keep_nonblank(a).len() && keep_nonblank(a)[t] == x;
        if keep_nonblank(a) != r {
            assert(keep_nonblank(a) == r.push(a.last()));
            if t < r.len() {
                assert(r[t] == x);
            }
            assert(a[a.len() - 1] == x);
        }
    }
}

proof fn lemma_dedup_lower_sub(a: Seq<Seq<char>>, x: Seq<char>)
    requires
        dedup_lower(a).contains(x),
    ensures
        a.contains(x),
    decreases a.len(),
{
    let d = dedup_lower(a.drop_last());
    if d.contains(x) {
        lemma_dedup_lower_sub(a.drop_last(), x);
        let t = choose|t: int| 0 <= t < a.drop_last().len() && a.drop_last()[t] == x;
        assert(a[t] == x);
    } else {
        let t = choose|t: int| 0 <= t < dedup_lower(a).len() && dedup_lower(a)[t] == x;
        if dedup_lower(a) != d {
            assert(dedup_lower(a) == d.push(a.last()));
            if t < d.len() {
                assert(d[t] == x);
            }
            assert(a[a.len() - 1] == x);
        }
    }
}

proof fn lemma_sorted_by_lowercase_sub(a: Seq<Seq<char>>, x: Seq<char>)
    requires
        sorted_by_lowercase(a).contains(x),
    ensures
        a.contains(x),
{
    let kd = lower_keyed(a);
    let s = sort_by_key(kd);
    lemma_sort_by_key_sorted(kd);
    let t = choose|t: int| 0 <= t < firsts(s).len() && firsts(s)[t] == x;
    let p = s[t];
    assert(s.contains(p));
    vstd::seq_lib::to_multiset_contains(s, p);
    vstd::seq_lib::to_multiset_contains(kd, p);
    let u = choose|u: int| 0 <= u < kd.len() && kd[u] == p;
    assert(a[u] == x);
}

/// Every alias a definition keeps is one it lists.
pub proof fn lemma_kept_listed(defs: Seq<DefView>, i: int, x: Seq<char>)
    requires
        defs_error(defs) is None,
        0 <= i < defs.len(),
        kept_aliases(defs)[i].contains(x),
    ensures
        alias_list(defs[i]).contains(x),
        prepared_aliases(defs[i]).contains(x),
{
    lemma_accept_defs_ok(namespace_keys(defs), defs, Set::empty());
    let ks = kept_aliases(defs);
    let t = choose|t: int| 0 <= t < ks[i].len() && ks[i][t] == x;
    assert(prepared_aliases(defs[i]).contains(ks[i][t]));
    let d = defs[i];
    lemma_dedup_lower_sub(sorted_by_lowercase(keep_nonblank(alias_list(d))), x);
    lemma_sorted_by_lowercase_sub(keep_nonblank(alias_list(d)), x);
    lemma_keep_nonblank_sub(alias_list(d), x);
}


/// Alias `a` of definition `d` is one the check looks at: its key is neither blank nor
/// the namespace's own key.
pub open spec fn checked_alias(d: DefView, a: Seq<char>) -> bool {
    canonical(a).len() > 0 && canonical(a) != canonical(d.name)
}

/// Removing repeats from a sequence ordered by lowercase form leaves the lowercase
/// forms strictly increasing, and keeps the last form.
proof fn lemma_dedup_lower_strict(s: Seq<Seq<char>>)
    requires
        forall|a: int, b: int| 0 <= a < b < s.len() ==> !seq_less(lowercase(#[trigger] s[b]), lowercase(#[trigger] s[a])),
    ensures
        forall|a: int, b: int| 0 <= a < b < dedup_lower(s).len() ==> seq_less(
            lowercase(#[trigger] dedup_lower(s)[a]),
            lowercase(#[trigger] dedup_lower(s)[b]),
        ),
        s.len() > 0 ==> dedup_lower(s).len() > 0 && lowercase(dedup_lower(s).last()) == lowercase(s.last()),
    decreases s.len(),
{
    if s.len() == 0 {
        return;
    }
    let s0 = s.drop_last();
    assert forall|a: int, b: int| 0 <= a < b < s0.len() implies !seq_less(lowercase(#[trigger] s0[b]), lowercase(#[trigger] s0[a])) by {
        assert(s0[a] == s[a] && s0[b] == s[b]);
    }
    lemma_dedup_lower_strict(s0);
    let d0 = dedup_lower(s0);
    let d = dedup_lower(s);
    if d0.len() > 0 && same_lowercase(s.last(), d0.last()) {
        assert(d == d0);
    } else {
        assert(d == d0.push(s.last()));
        if d0.len() > 0 {
            let l0 = lowercase(d0.last());
            let l = lowercase(s.last());
            assert(l0 == lowercase(s0.last()));
            assert(s0.last() == s[s.len() - 2]);
            assert(!seq_less(l, l0));
            assert(l != l0);
            lemma_seq_less_total(l, l0);
            assert forall|a: int, b: int| 0 <= a < b < d.len() implies seq_less(lowercase(#[trigger] d[a]), lowercase(#[trigger] d[b])) by {
                if b == d.len() - 1 {
                    assert(d[b] == s.last());
                    assert(d[a] == d0[a]);
                    if a < d0.len() - 1 {
                        assert(d0[d0.len() - 1] == d0.last());
                        lemma_seq_less_transitive(lowercase(d0[a]), l0, l);
                    }
                } else {
                    assert(d[a] == d0[a] && d[b] == d0[b]);
                }
            }
        }
    }
}

/// Aliases sorted by lowercase form come in non-decreasing lowercase order.
proof fn lemma_sorted_by_lowercase_ordered(a: Seq<Seq<char>>)
    ensures
        forall|x: int, y: int| 0 <= x < y < sorted_by_lowercase(a).len() ==> !seq_less(
            lowercase(#[trigger] sorted_by_lowercase(a)[y]),
            lowercase(#[trigger] sorted_by_lowercase(a)[x]),
        ),
{
    let kd = lower_keyed(a);
    let s = sort_by_key(kd);
    lemma_sort_by_key_sorted(kd);
    assert forall|w: int| 0 <= w < s.len() implies (#[trigger] s[w]).1 == lowercase(s[w].0) by {
        assert(s.contains(s[w]));
        vstd::seq_lib::to_multiset_contains(s, s[w]);
        vstd::seq_lib::to_multiset_contains(kd, s[w]);
        let u = choose|u: int| 0 <= u < kd.len() && kd[u] == s[w];
    }
    assert forall|x: int, y: int| 0 <= x < y < sorted_by_lowercase(a).len() implies !seq_less(
        lowercase(#[trigger] sorted_by_lowercase(a)[y]),
        lowercase(#[trigger] sorted_by_lowercase(a)[x]),
    ) by {
        assert(sorted_by_lowercase(a)[x] == s[x].0);
        assert(sorted_by_lowercase(a)[y] == s[y].0);
        assert(s[x].1 == lowercase(s[x].0) && s[y].1 == lowercase(s[y].0));
    }
}

/// The prepared aliases of a definition are aliases it lists, in strictly increasing
/// lowercase order.
pub proof fn lemma_prepared_strict(d: DefView)
    ensures
        forall|x: int, y: int| 0 <= x < y < prepared_aliases(d).len() ==> seq_less(
            lowercase(#[trigger] prepared_aliases(d)[x]),
            lowercase(#[trigger] prepared_aliases(d)[y]),
        ),
        forall|x: int| 0 <= x < prepared_aliases(d).len() ==> alias_list(d).contains(#[trigger] prepared_aliases(d)[x]),
{
    let k = keep_nonblank(alias_list(d));
    lemma_sorted_by_lowercase_ordered(k);
    lemma_dedup_lower_strict(sorted_by_lowercase(k));
    assert forall|x: int| 0 <= x < prepared_aliases(d).len() implies alias_list(d).contains(#[trigger] prepared_aliases(d)[x]) by {
        let e = prepared_aliases(d)[x];
        assert(dedup_lower(sorted_by_lowercase(k)).contains(e));
        lemma_dedup_lower_sub(sorted_by_lowercase(k), e);
        lemma_sorted_by_lowercase_sub(k, e);
        lemma_keep_nonblank_sub(alias_list(d), e);
    }
}

/// The alias check passes when every checked alias has a key that is no namespace's
/// key and was not seen, and the aliases' keys differ.
proof fn lemma_accept_aliases_complete(names: Set<Seq<char>>, own: Seq<char>, ps: Seq<Seq<char>>, seen: Set<Seq<char>>)
    requires
        forall|x: int| 0 <= x < ps.len() && canonical(#[trigger] ps[x]).len() > 0 && canonical(ps[x]) != own ==> !names.contains(canonical(ps[x])) && !seen.contains(canonical(ps[x])),
        forall|x: int, y: int| 0 <= x < y < ps.len() ==> canonical(#[trigger] ps[x]) != canonical(#[trigger] ps[y]),
    ensures
        accept_aliases(names, own, ps, seen) is Ok,
    decreases ps.len(),
{
    if ps.len() == 0 {
        return;
    }
    let a = ps[0];
    let k = canonical(a);
    let rest = ps.drop_first();
    assert forall|x: int, y: int| 0 <= x < y < rest.len() implies canonical(#[trigger] rest[x]) != canonical(#[trigger] rest[y]) by {
        assert(rest[x] == ps[x + 1] && rest[y] == ps[y + 1]);
    }
    if k.len() == 0 || k == own {
        assert forall|x: int| 0 <= x < rest.len() && canonical(#[trigger] rest[x]).len() > 0 && canonical(rest[x]) != own implies !names.contains(canonical(rest[x])) && !seen.contains(canonical(rest[x])) by {
            assert(rest[x] == ps[x + 1]);
        }
        lemma_accept_aliases_complete(names, own, rest, seen);
    } else {
        assert(!names.contains(k) && !seen.contains(k));
        let s2 = seen.insert(k);
        assert forall|x: int| 0 <= x < rest.len() && canonical(#[trigger] rest[x]).len() > 0 && canonical(rest[x]) != own implies !names.contains(canonical(rest[x])) && !s2.contains(canonical(rest[x])) by {
            assert(rest[x] == ps[x + 1]);
            assert(canonical(ps[0]) != canonical(ps[x + 1]));
        }
        lemma_accept_aliases_complete(names, own, rest, s2);
    }
}

/// The checks of all definitions pass when, over their prepared aliases, every checked
/// alias has a key that is no namespace's key and was not seen, keys within one
/// definition differ, and checked aliases of different definitions have different keys.
pub proof fn lemma_accept_defs_complete(names: Set<Seq<char>>, defs: Seq<DefView>, seen: Set<Seq<char>>)
    requires
        forall|t: int, x: int, y: int| 0 <= t < defs.len() && 0 <= x < y < prepared_aliases(defs[t]).len() ==> canonical(
            #[trigger] prepared_aliases(defs[t])[x],
        ) != canonical(#[trigger] prepared_aliases(defs[t])[y]),
        forall|t: int, x: int| 0 <= t < defs.len() && 0 <= x < prepared_aliases(defs[t]).len() && checked_alias(
            defs[t],
            #[trigger] prepared_aliases(defs[t])[x],
        ) ==> !names.contains(canonical(prepared_aliases(defs[t])[x])) && !seen.contains(canonical(prepared_aliases(defs[t])[x])),
        forall|t: int, u: int, x: int, y: int|
            0 <= t < defs.len() && 0 <= u < defs.len() && t != u && 0 <= x < prepared_aliases(defs[t]).len() && 0 <= y
                < prepared_aliases(defs[u]).len() && checked_alias(defs[t], #[trigger] prepared_aliases(defs[t])[x])
                && checked_alias(defs[u], #[trigger] prepared_aliases(defs[u])[y]) ==> canonical(prepared_aliases(defs[t])[x])
                != canonical(prepared_aliases(defs[u])[y]),
    ensures
        accept_defs(names, defs, seen) is Ok,
    decreases defs.len(),
{
    if defs.len() == 0 {
        return;
    }
    let d = defs[0];
    let ps = prepared_aliases(d);
    assert forall|x: int| 0 <= x < ps.len() && canonical(#[trigger] ps[x]).len() > 0 && canonical(ps[x]) != canonical(d.name) implies !names.contains(canonical(ps[x])) && !seen.contains(canonical(ps[x])) by {
        assert(checked_alias(defs[0], prepared_aliases(defs[0])[x]));
    }
    assert forall|x: int, y: int| 0 <= x < y < ps.len() implies canonical(#[trigger] ps[x]) != canonical(#[trigger] ps[y]) by {
        assert(canonical(prepared_aliases(defs[0])[x]) != canonical(prepared_aliases(defs[0])[y]));
    }
    lemma_accept_aliases_complete(names, canonical(d.name), ps, seen);
    lemma_accept_aliases_ok(names, canonical(d.name), ps, seen);
    let (kept, s) = accept_aliases(names, canonical(d.name), ps, seen)->Ok_0;
    let tail = defs.drop_first();
    assert forall|t: int, x: int, y: int| 0 <= t < tail.len() && 0 <= x < y < prepared_aliases(tail[t]).len() implies canonical(
        #[trigger] prepared_aliases(tail[t])[x],
    ) != canonical(#[trigger] prepared_aliases(tail[t])[y]) by {
        assert(tail[t] == defs[t + 1]);
        assert(canonical(prepared_aliases(defs[t + 1])[x]) != canonical(prepared_aliases(defs[t + 1])[y]));
    }
    assert forall|t: int, x: int| 0 <= t < tail.len() && 0 <= x < prepared_aliases(tail[t]).len() && checked_alias(
        tail[t],
        #[trigger] prepared_aliases(tail[t])[x],
    ) implies !names.contains(canonical(prepared_aliases(tail[t])[x])) && !s.contains(canonical(prepared_aliases(tail[t])[x])) by {
        assert(tail[t] == defs[t + 1]);
        let b = prepared_aliases(defs[t + 1])[x];
        assert(checked_alias(defs[t + 1], prepared_aliases(defs[t + 1])[x]));
        if exists|z: int| 0 <= z < kept.len() && canonical(kept[z]) == canonical(b) {
            let z = choose|z: int| 0 <= z < kept.len() && canonical(kept[z]) == canonical(b);
            assert(ps.contains(kept[z]));
            let w = choose|w: int| 0 <= w < ps.len() && ps[w] == kept[z];
            assert(checked_alias(defs[0], prepared_aliases(defs[0])[w]));
            assert(canonical(prepared_aliases(defs[0])[w]) != canonical(prepared_aliases(defs[t + 1])[x]));
        }
    }
    assert forall|t: int, u: int, x: int, y: int|
        0 <= t < tail.len() && 0 <= u < tail.len() && t != u && 0 <= x < prepared_aliases(tail[t]).len() && 0 <= y
            < prepared_aliases(tail[u]).len() && checked_alias(tail[t], #[trigger] prepared_aliases(tail[t])[x])
            && checked_alias(tail[u], #[trigger] prepared_aliases(tail[u])[y]) implies canonical(prepared_aliases(tail[t])[x])
            != canonical(prepared_aliases(tail[u])[y]) by {
        assert(tail[t] == defs[t + 1] && tail[u] == defs[u + 1]);
        assert(checked_alias(defs[t + 1], prepared_aliases(defs[t + 1])[x]));
        assert(checked_alias(defs[u + 1], prepared_aliases(defs[u + 1])[y]));
    }
    lemma_accept_defs_complete(names, tail, s);
}


proof fn lemma_keep_nonblank_has(a: Seq<Seq<char>>, x: Seq<char>)
    requires
        a.contains(x),
        trim_seq(x).len() > 0,
    ensures
        keep_nonblank(a).contains(x),
    decreases a.len(),
{
    let t = choose|t: int| 0 <= t < a.len() && a[t] == x;
    if t == a.len() - 1 {
        assert(keep_nonblank(a) == keep_nonblank(a.drop_last()).push(x));
        assert(keep_nonblank(a)[keep_nonblank(a).len() - 1] == x);
    } else {
        assert(a.drop_last()[t] == x);
        lemma_keep_nonblank_has(a.drop_last(), x);
        let r = keep_nonblank(a.drop_last());
        let u = choose|u: int| 0 <= u < r.len() && r[u] == x;
        if trim_seq(a.last()).len() > 0 {
            assert(keep_nonblank(a)[u] == x);
        }
    }
}

proof fn lemma_sorted_by_lowercase_has(a: Seq<Seq<char>>, x: Seq<char>)
    requires
        a.contains(x),
    ensures
        sorted_by_lowercase(a).contains(x),
{
    let kd = lower_keyed(a);
    let s = sort_by_key(kd);
    lemma_sort_by_key_sorted(kd);
    let t = choose|t: int| 0 <= t < a.len() && a[t] == x;
    let p = kd[t];
    assert(kd.contains(p));
    vstd::seq_lib::to_multiset_contains(s, p);
    vstd::seq_lib::to_multiset_contains(kd, p);
    let u = choose|u: int| 0 <= u < s.len() && s[u] == p;
    assert(firsts(s)[u] == x);
}

proof fn lemma_dedup_lower_has(s: Seq<Seq<char>>, x: Seq<char>)
    requires
        s.contains(x),
    ensures
        exists|y: Seq<char>| dedup_lower(s).contains(y) && same_lowercase(y, x),
    decreases s.len(),
{
    let t = choose|t: int| 0 <= t < s.len() && s[t] == x;
    let s0 = s.drop_last();
    let d0 = dedup_lower(s0);
    let d = dedup_lower(s);
    assert(forall|y: Seq<char>| d0.contains(y) ==> d.contains(y)) by {
        assert forall|y: Seq<char>| d0.contains(y) implies d.contains(y) by {
            let u = choose|u: int| 0 <= u < d0.len() && d0[u] == y;
            if d != d0 {
                assert(d == d0.push(s.last()));
                assert(d[u] == y);
            }
        }
    }
    if t < s.len() - 1 {
        assert(s0[t] == x);
        lemma_dedup_lower_has(s0, x);
        let y = choose|y: Seq<char>| d0.contains(y) && same_lowercase(y, x);
        assert(d.contains(y));
    } else {
        if d0.len() > 0 && same_lowercase(s.last(), d0.last()) {
            assert(d0.contains(d0.last()));
            assert(d.contains(d0.last()) && same_lowercase(d0.last(), x));
        } else {
            assert(d == d0.push(s.last()));
            assert(d[d.len() - 1] == x);
            assert(d.contains(x) && same_lowercase(x, x));
        }
    }
}

/// Every listed alias without surrounding white space that is not empty has, among the
/// aliases its namespace keeps, one with the same key and lowercase form when its key
/// is neither blank nor the namespace's own (given that all listed aliases lack
/// surrounding white space).
pub proof fn lemma_listed_represented(defs: Seq<DefView>, i: int, a: Seq<char>)
    requires
        defs_error(defs) is None,
        0 <= i < defs.len(),
        alias_list(defs[i]).contains(a),
        a.len() > 0,
        forall|j: int, b: Seq<char>| 0 <= j < defs.len() && #[trigger] alias_list(defs[j]).contains(b) ==> trim_seq(b) == b,
        checked_alias(defs[i], a),
    ensures
        exists|y: Seq<char>| #[trigger] kept_aliases(defs)[i].contains(y) && lowercase(y) == lowercase(a) && canonical(y) == canonical(a),
{
    let d = defs[i];
    let l = alias_list(d);
    assert(trim_seq(a) == a);
    lemma_keep_nonblank_has(l, a);
    let k = keep_nonblank(l);
    lemma_sorted_by_lowercase_has(k, a);
    lemma_dedup_lower_has(sorted_by_lowercase(k), a);
    let y = choose|y: Seq<char>| dedup_lower(sorted_by_lowercase(k)).contains(y) && same_lowercase(y, a);
    assert(prepared_aliases(d).contains(y));
    lemma_dedup_lower_sub(sorted_by_lowercase(k), y);
    lemma_sorted_by_lowercase_sub(k, y);
    lemma_keep_nonblank_sub(l, y);
    assert(trim_seq(y) == y);
    assert(canonical(y) == canonical(a));
    let pa = prepared_aliases(d);
    let x = choose|x: int| 0 <= x < pa.len() && pa[x] == y;
    lemma_accept_defs_ok(namespace_keys(defs), defs, Set::empty());
    assert(checked_alias(defs[i], prepared_aliases(defs[i])[x]));
    assert(kept_aliases(defs)[i].contains(y));
}

} // verus!
