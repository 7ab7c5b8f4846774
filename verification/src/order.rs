//! Byte-string prefixes and lexicographic order, and what a sorted prefix
//! snapshot of a byte-keyed map is.  The storage engine's ordered prefix
//! scans are specified in these terms.

use vstd::prelude::*;
use crate::table::spec_lookup;

verus! {

/// Whether `p` is a byte-prefix of `s`.
pub open spec fn is_prefix_of(p: Seq<u8>, s: Seq<u8>) -> bool {
    p.len() <= s.len() && s.take(p.len() as int) == p
}

/// Strict lexicographic order on byte strings: the order in which an ordered
/// byte-keyed engine keeps its keys.
pub open spec fn lex_less(a: Seq<u8>, b: Seq<u8>) -> bool
    decreases a.len(),
{
    if b.len() == 0 {
        false
    } else if a.len() == 0 {
        true
    } else if a[0] < b[0] {
        true
    } else if a[0] > b[0] {
        false
    } else {
        lex_less(a.drop_first(), b.drop_first())
    }
}

/// Whether `es` is the ordered prefix snapshot of map `m` for prefix `p`:
/// its keys strictly ascend in lexicographic order, every entry is a pair of
/// `m` whose key begins with `p`, and every such key of `m` appears.
pub open spec fn is_sorted_matching(
    es: Seq<(Seq<u8>, Seq<u8>)>,
    m: Map<Seq<u8>, Seq<u8>>,
    p: Seq<u8>,
) -> bool {
    &&& forall|i: int, j: int| 0 <= i < j < es.len() ==> lex_less(es[i].0, es[j].0)
    &&& forall|i: int| 0 <= i < es.len()
        ==> m.contains_pair(#[trigger] es[i].0, es[i].1) && is_prefix_of(p, es[i].0)
    &&& forall|k: Seq<u8>| m.contains_key(k) && is_prefix_of(p, k)
        ==> exists|i: int| 0 <= i < es.len() && #[trigger] es[i].0 == k
}

/// Whether a lookup table resolves exactly as a map does.
pub open spec fn table_matches_map(
    t: Seq<(Seq<u8>, Seq<u8>)>,
    m: Map<Seq<u8>, Seq<u8>>,
) -> bool {
    forall|k: Seq<u8>| #[trigger] spec_lookup(t, k) == if m.contains_key(k) {
        Some(m[k])
    } else {
        None::<Seq<u8>>
    }
}

/// A full snapshot (empty prefix) of a map, used as a lookup table, resolves
/// exactly as the map does.
pub proof fn lemma_snapshot_lookup(es: Seq<(Seq<u8>, Seq<u8>)>, m: Map<Seq<u8>, Seq<u8>>)
    requires
        is_sorted_matching(es, m, Seq::empty()),
    ensures
        table_matches_map(es, m),
    decreases es.len(),
{
    assert forall|k: Seq<u8>| #[trigger] spec_lookup(es, k) == (if m.contains_key(k) {
        Some(m[k])
    } else {
        None::<Seq<u8>>
    }) by {
        lemma_snapshot_lookup_one(es, m, k);
    }
}

/// One key of [`lemma_snapshot_lookup`].
pub proof fn lemma_snapshot_lookup_one(
    es: Seq<(Seq<u8>, Seq<u8>)>,
    m: Map<Seq<u8>, Seq<u8>>,
    k: Seq<u8>,
)
    requires
        is_sorted_matching(es, m, Seq::empty()),
    ensures
        spec_lookup(es, k) == if m.contains_key(k) {
            Some(m[k])
        } else {
            None::<Seq<u8>>
        },
    decreases es.len(),
{
    let p = Seq::<u8>::empty();
    assert forall|s: Seq<u8>| is_prefix_of(p, s) by {
        assert(s.take(0) =~= p);
    }
    if es.len() == 0 {
        if m.contains_key(k) {
            assert(is_prefix_of(p, k));
            assert(exists|i: int| 0 <= i < es.len() && #[trigger] es[i].0 == k);
            assert(false);
        }
    } else {
        let k0 = es[0].0;
        if k0 == k {
            assert(m.contains_pair(k0, es[0].1));
        } else {
            lemma_sorted_matching_tail(es, m, p);
            lemma_snapshot_lookup_one(es.drop_first(), m.remove(k0), k);
            assert(m.remove(k0).contains_key(k) == m.contains_key(k));
            if m.contains_key(k) {
                assert(m.remove(k0)[k] == m[k]);
            }
        }
    }
}

/// Behind its first entry, an ordered snapshot is the ordered snapshot of
/// the map without that entry's key.
pub proof fn lemma_sorted_matching_tail(
    es: Seq<(Seq<u8>, Seq<u8>)>,
    m: Map<Seq<u8>, Seq<u8>>,
    p: Seq<u8>,
)
    requires
        is_sorted_matching(es, m, p),
        es.len() > 0,
    ensures
        is_sorted_matching(es.drop_first(), m.remove(es[0].0), p),
{
    let k0 = es[0].0;
    let m1 = m.remove(k0);
    let tail = es.drop_first();
    assert forall|i: int, j: int| 0 <= i < j < tail.len() implies lex_less(
        tail[i].0, tail[j].0,
    ) by {
        assert(tail[i] == es[i + 1] && tail[j] == es[j + 1]);
    }
    assert forall|i: int| 0 <= i < tail.len() implies m1.contains_pair(
        #[trigger] tail[i].0, tail[i].1,
    ) && is_prefix_of(p, tail[i].0) by {
        assert(tail[i] == es[i + 1]);
        assert(m.contains_pair(es[i + 1].0, es[i + 1].1));
        assert(lex_less(es[0].0, es[i + 1].0));
        lemma_lex_less_irrefl(es[0].0);
        assert(es[i + 1].0 != k0);
    }
    assert forall|k2: Seq<u8>| m1.contains_key(k2) && is_prefix_of(p, k2)
        implies exists|i: int| 0 <= i < tail.len() && #[trigger] tail[i].0 == k2 by {
        assert(m.contains_key(k2));
        let i0 = choose|i: int| 0 <= i < es.len() && #[trigger] es[i].0 == k2;
        assert(k2 != k0);
        assert(es[i0].0 == k2 && i0 != 0);
        assert(tail[i0 - 1].0 == k2);
    }
}

/// Lexicographic order is irreflexive.
pub proof fn lemma_lex_less_irrefl(a: Seq<u8>)
    ensures
        !lex_less(a, a),
    decreases a.len(),
{
    if a.len() > 0 {
        lemma_lex_less_irrefl(a.drop_first());
    }
}

/// Lexicographic order is asymmetric.
pub proof fn lemma_lex_less_asymm(a: Seq<u8>, b: Seq<u8>)
    ensures
        !(lex_less(a, b) && lex_less(b, a)),
    decreases a.len(),
{
    if a.len() > 0 && b.len() > 0 && a[0] == b[0] {
        lemma_lex_less_asymm(a.drop_first(), b.drop_first());
    }
}

/// An ordered prefix snapshot of a map is unique: the engine's answer for a
/// given tree state and prefix is pinned down.
pub proof fn lemma_sorted_matching_unique(
    es1: Seq<(Seq<u8>, Seq<u8>)>,
    es2: Seq<(Seq<u8>, Seq<u8>)>,
    m: Map<Seq<u8>, Seq<u8>>,
    p: Seq<u8>,
)
    requires
        is_sorted_matching(es1, m, p),
        is_sorted_matching(es2, m, p),
    ensures
        es1 == es2,
    decreases es1.len(),
{
    if es1.len() == 0 {
        if es2.len() > 0 {
            assert(m.contains_pair(es2[0].0, es2[0].1) && is_prefix_of(p, es2[0].0));
            assert(exists|i: int| 0 <= i < es1.len() && #[trigger] es1[i].0 == es2[0].0);
            assert(false);
        }
        assert(es1 =~= es2);
    } else if es2.len() == 0 {
        assert(m.contains_pair(es1[0].0, es1[0].1) && is_prefix_of(p, es1[0].0));
        assert(exists|i: int| 0 <= i < es2.len() && #[trigger] es2[i].0 == es1[0].0);
        assert(false);
    } else {
        let k1 = es1[0].0;
        let k2 = es2[0].0;
        if k1 != k2 {
            assert(m.contains_pair(k1, es1[0].1) && is_prefix_of(p, k1));
            assert(m.contains_pair(k2, es2[0].1) && is_prefix_of(p, k2));
            let j = choose|j: int| 0 <= j < es2.len() && #[trigger] es2[j].0 == k1;
            assert(j != 0);
            assert(lex_less(es2[0].0, es2[j].0));
            let i = choose|i: int| 0 <= i < es1.len() && #[trigger] es1[i].0 == k2;
            assert(i != 0);
            assert(lex_less(es1[0].0, es1[i].0));
            lemma_lex_less_asymm(k1, k2);
            assert(false);
        }
        assert(m.contains_pair(k1, es1[0].1));
        assert(m.contains_pair(k2, es2[0].1));
        assert(es1[0].1 == m[k1] && es2[0].1 == m[k1]);
        lemma_sorted_matching_tail(es1, m, p);
        lemma_sorted_matching_tail(es2, m, p);
        lemma_sorted_matching_unique(es1.drop_first(), es2.drop_first(), m.remove(k1), p);
        assert(es1[0] == es2[0]);
        assert forall|x: int| 0 <= x < es1.len() implies es1[x] == es2[x] by {
            if x > 0 {
                assert(es1[x] == es1.drop_first()[x - 1]);
                assert(es2[x] == es2.drop_first()[x - 1]);
            }
        }
        assert(es1 =~= es2);
    }
}

} // verus!
