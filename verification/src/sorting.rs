//! Stable sorting by string keys, and sorted sets of strings.
//!
//! A stable sort is defined as insertion sort: each element, in input order,
//! goes after every earlier element whose key is not greater than its own.
//! A sorted set of strings is a strictly increasing sequence.
use vstd::prelude::*;
use crate::text::{
    lemma_seq_less_asymmetric, lemma_seq_less_total, lemma_seq_less_transitive, seq_less,
    str_eq, str_less,
};

verus! {

/// The views of a sequence of strings.
pub open spec fn string_views(v: Seq<String>) -> Seq<Seq<char>> {
    v.map_values(|s: String| s@)
}

/// Items paired with the view of their key.
pub open spec fn keyed<T>(v: Seq<(T, String)>) -> Seq<(T, Seq<char>)> {
    v.map_values(|p: (T, String)| (p.0, p.1@))
}

/// `x` inserted after every leading element whose key is not greater than `x`'s.
pub open spec fn insert_by_key<T>(s: Seq<(T, Seq<char>)>, x: (T, Seq<char>)) -> Seq<(T, Seq<char>)>
    decreases s.len(),
{
    if s.len() == 0 {
        seq![x]
    } else if seq_less(x.1, s[0].1) {
        seq![x] + s
    } else {
        seq![s[0]] + insert_by_key(s.drop_first(), x)
    }
}

/// The stable sort of `s` by key (`slice::sort_by_key`).
pub open spec fn sort_by_key<T>(s: Seq<(T, Seq<char>)>) -> Seq<(T, Seq<char>)>
    decreases s.len(),
{
    if s.len() == 0 {
        s
    } else {
        insert_by_key(sort_by_key(s.drop_last()), s.last())
    }
}

/// Keys never decrease along `s`.
pub open spec fn sorted_by_key<T>(s: Seq<(T, Seq<char>)>) -> bool {
    forall|i: int, j: int| 0 <= i < j < s.len() ==> !seq_less(#[trigger] s[j].1, #[trigger] s[i].1)
}

/// Strictly increasing, hence free of repeats.
pub open spec fn strictly_sorted(s: Seq<Seq<char>>) -> bool {
    forall|i: int, j: int| 0 <= i < j < s.len() ==> seq_less(#[trigger] s[i], #[trigger] s[j])
}

/// Inserting at the first position whose key is greater.
pub proof fn lemma_insert_by_key_split<T>(s: Seq<(T, Seq<char>)>, x: (T, Seq<char>), j: int)
    requires
        0 <= j <= s.len(),
        forall|t: int| 0 <= t < j ==> !seq_less(x.1, #[trigger] s[t].1),
        j < s.len() ==> seq_less(x.1, s[j].1),
    ensures
        insert_by_key(s, x) == s.take(j) + seq![x] + s.skip(j),
    decreases s.len(),
{
    if s.len() == 0 {
        assert(s.take(j) + seq![x] + s.skip(j) =~= seq![x]);
    } else if j == 0 {
        assert(s.take(0) + seq![x] + s.skip(0) =~= seq![x] + s);
    } else {
        let r = s.drop_first();
        assert forall|t: int| 0 <= t < j - 1 implies !seq_less(x.1, #[trigger] r[t].1) by {
            assert(r[t] == s[t + 1]);
        }
        lemma_insert_by_key_split(r, x, j - 1);
        assert(s.take(j) + seq![x] + s.skip(j) =~= seq![s[0]] + (r.take(j - 1) + seq![x] + r.skip(j - 1)));
    }
}

/// Insertion keeps a sorted sequence sorted.
pub proof fn lemma_insert_by_key_sorted<T>(s: Seq<(T, Seq<char>)>, x: (T, Seq<char>))
    requires
        sorted_by_key(s),
    ensures
        sorted_by_key(insert_by_key(s, x)),
        insert_by_key(s, x).len() == s.len() + 1,
        insert_by_key(s, x).to_multiset() == s.to_multiset().insert(x),
    decreases s.len(),
{
    broadcast use vstd::seq_lib::group_seq_properties, vstd::seq_lib::group_to_multiset_ensures;
    if s.len() == 0 {
        assert(insert_by_key(s, x) =~= seq![x]);
        assert(s =~= Seq::<(T, Seq<char>)>::empty());
    } else if seq_less(x.1, s[0].1) {
        let r = seq![x] + s;
        assert forall|i: int, j: int| 0 <= i < j < r.len() implies !seq_less(#[trigger] r[j].1, #[trigger] r[i].1) by {
            if i == 0 {
                assert(r[j] == s[j - 1]);
                if j - 1 > 0 {
                    assert(!seq_less(s[j - 1].1, s[0].1));
                    if seq_less(s[j - 1].1, x.1) {
                        lemma_seq_less_transitive(s[j - 1].1, x.1, s[0].1);
                    }
                } else {
                    lemma_seq_less_asymmetric(x.1, s[0].1);
                }
            } else {
                assert(r[i] == s[i - 1] && r[j] == s[j - 1]);
            }
        }
        assert(r =~= s.insert(0, x));
    } else {
        let t = s.drop_first();
        assert(sorted_by_key(t)) by {
            assert forall|i: int, j: int| 0 <= i < j < t.len() implies !seq_less(#[trigger] t[j].1, #[trigger] t[i].1) by {
                assert(t[i] == s[i + 1] && t[j] == s[j + 1]);
            }
        }
        lemma_insert_by_key_sorted(t, x);
        let it = insert_by_key(t, x);
        let r = seq![s[0]] + it;
        assert forall|i: int, j: int| 0 <= i < j < r.len() implies !seq_less(#[trigger] r[j].1, #[trigger] r[i].1) by {
            if i == 0 {
                assert(r[j] == it[j - 1]);
                // every element of `it` is either x or an element of t
                assert(it.to_multiset().count(it[j - 1]) > 0);
                assert(t.to_multiset().insert(x).count(it[j - 1]) > 0);
                if it[j - 1] != x {
                    assert(t.to_multiset().count(it[j - 1]) > 0);
                    assert(t.contains(it[j - 1]));
                    let k = choose|k: int| 0 <= k < t.len() && t[k] == it[j - 1];
                    assert(t[k] == s[k + 1]);
                }
            } else {
                assert(r[i] == it[i - 1] && r[j] == it[j - 1]);
            }
        }
        assert(s =~= t.insert(0, s[0]));
        assert(r =~= it.insert(0, s[0]));
    }
}

/// The stable sort is sorted and a permutation of its input.
pub proof fn lemma_sort_by_key_sorted<T>(s: Seq<(T, Seq<char>)>)
    ensures
        sorted_by_key(sort_by_key(s)),
        sort_by_key(s).to_multiset() == s.to_multiset(),
        sort_by_key(s).len() == s.len(),
    decreases s.len(),
{
    broadcast use vstd::seq_lib::group_seq_properties, vstd::seq_lib::group_to_multiset_ensures;
    if s.len() > 0 {
        lemma_sort_by_key_sorted(s.drop_last());
        lemma_insert_by_key_sorted(sort_by_key(s.drop_last()), s.last());
        assert(s =~= s.drop_last().push(s.last()));
    } else {
        assert(s.to_multiset() =~= vstd::multiset::Multiset::empty());
    }
}

/// Stable sort of `items` by their keys.
pub fn stable_sort_by_key<T>(items: Vec<(T, String)>) -> (r: Vec<(T, String)>)
    ensures
        keyed(r@) == sort_by_key(keyed(items@)),
{
    let ghost orig = keyed(items@);
    let mut rest = items;
    let mut out: Vec<(T, String)> = Vec::new();
    let n = rest.len();
    let mut i: usize = 0;
    while i < n
        invariant
            n == orig.len(),
            i <= n,
            rest@.len() == n - i,
            keyed(rest@) == orig.skip(i as int),
            keyed(out@) == sort_by_key(orig.take(i as int)),
        decreases n - i,
    {
        let ghost old_rest = rest@;
        let x = rest.remove(0);
        let ghost kx = (x.0, x.1@);
        proof {
            assert(keyed(old_rest)[0] == kx);
            assert(orig.skip(i as int)[0] == orig[i as int]);
            assert(kx == orig[i as int]);
            assert forall|k: int| 0 <= k < rest@.len() implies keyed(rest@)[k] == orig.skip(i + 1)[k] by {
                assert(rest@[k] == old_rest[k + 1]);
                assert(keyed(old_rest)[k + 1] == orig.skip(i as int)[k + 1]);
            }
            assert(keyed(rest@) =~= orig.skip(i + 1));
            assert(orig.take(i + 1).drop_last() =~= orig.take(i as int));
        }
        let m = out.len();
        let mut j: usize = 0;
        while j < m && !str_less(x.1.as_str(), out[j].1.as_str())
            invariant
                m == out@.len(),
                j <= m,
                kx == (x.0, x.1@),
                forall|t: int| 0 <= t < j ==> !seq_less(kx.1, #[trigger] keyed(out@)[t].1),
            decreases m - j,
        {
            j = j + 1;
        }
        proof {
            lemma_insert_by_key_split(keyed(out@), kx, j as int);
        }
        let ghost before = keyed(out@);
        out.insert(j, x);
        proof {
            assert(keyed(out@) =~= before.take(j as int) + seq![kx] + before.skip(j as int));
        }
        i = i + 1;
    }
    proof {
        assert(orig.take(n as int) =~= orig);
    }
    out
}

/// Adds `x` to a strictly sorted vector of strings unless it is already there.
pub fn insert_sorted_unique(v: &mut Vec<String>, x: String)
    requires
        strictly_sorted(string_views(old(v)@)),
    ensures
        strictly_sorted(string_views(final(v)@)),
        forall|y: Seq<char>| string_views(final(v)@).contains(y) <==> (string_views(old(v)@).contains(y) || y == x@),
{
    let ghost s = string_views(v@);
    let m = v.len();
    let mut j: usize = 0;
    while j < m && str_less(v[j].as_str(), x.as_str())
        invariant
            m == v@.len(),
            s == string_views(v@),
            j <= m,
            forall|t: int| 0 <= t < j ==> seq_less(#[trigger] s[t], x@),
        decreases m - j,
    {
        j = j + 1;
    }
    if j < m && str_eq(v[j].as_str(), x.as_str()) {
        assert(s[j as int] == x@);
        return;
    }
    proof {
        if j < m {
            lemma_seq_less_total(s[j as int], x@);
        }
    }
    v.insert(j, x);
    proof {
        let r = string_views(v@);
        assert(r =~= s.take(j as int) + seq![x@] + s.skip(j as int));
        assert forall|a: int, b: int| 0 <= a < b < r.len() implies seq_less(#[trigger] r[a], #[trigger] r[b]) by {
            if b < j {
                assert(r[a] == s[a] && r[b] == s[b]);
            } else if b == j {
                assert(r[a] == s[a]);
            } else if a == j {
                assert(r[b] == s[b - 1]);
                if b - 1 > j {
                    lemma_seq_less_transitive(x@, s[j as int], s[b - 1]);
                }
            } else if a < j {
                assert(r[a] == s[a] && r[b] == s[b - 1]);
            } else {
                assert(r[a] == s[a - 1] && r[b] == s[b - 1]);
            }
        }
        assert forall|y: Seq<char>| r.contains(y) <==> (s.contains(y) || y == x@) by {
            if r.contains(y) {
                let k = choose|k: int| 0 <= k < r.len() && r[k] == y;
                if k < j {
                    assert(s[k] == y);
                } else if k > j {
                    assert(s[k - 1] == y);
                }
            }
            if s.contains(y) {
                let k = choose|k: int| 0 <= k < s.len() && s[k] == y;
                if k < j {
                    assert(r[k] == y);
                } else {
                    assert(r[k + 1] == y);
                }
            }
            if y == x@ {
                assert(r[j as int] == y);
            }
        }
    }
}

} // verus!
