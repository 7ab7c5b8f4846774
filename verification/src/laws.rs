//! The laws of the codec and the store, stated and proved: the round trip
//! through encode and decode, prefix consistency, determinism and
//! deduplication of writes, completeness and soundness of prefix scans, and
//! the isolation of per-entry decode failures.

use vstd::prelude::*;
use crate::hash::spec_id_of;
use crate::model::{Shape, ValModel, matches_shape, matches_fields, model_primitive,
    shape_primitive, registry_wf};
use crate::codec::{DECODE_BUDGET,
    spec_encode, spec_field_encoding, spec_encode_fields, spec_nested, spec_field_blobs,
    spec_nested_fields, spec_serialize, spec_encode_prefix, spec_decode, spec_decode_fields,
};
use crate::table::spec_lookup;
use crate::store::{spec_scan, store_forward_after, store_reverse_after};
use crate::order::{is_prefix_of, is_sorted_matching, table_matches_map, lex_less};

verus! {

broadcast use vstd::seq::axiom_seq_index_decreases, vstd::seq::axiom_seq_subrange_decreases;

/// The record-nesting depth of a value: how many levels of registered
/// records stand above its deepest leaf.  Decoding a value needs a budget of
/// at least its depth.
pub open spec fn val_depth(m: ValModel) -> nat
    decreases m, 1int,
{
    match m {
        ValModel::Unit => 0,
        ValModel::Prim(_) => 0,
        ValModel::Record(t, fs) => 1 + fields_depth(fs),
        ValModel::Pair(a, b) => if val_depth(*a) >= val_depth(*b) {
            val_depth(*a)
        } else {
            val_depth(*b)
        },
        ValModel::Maybe(o) => match o {
            None => 0,
            Some(x) => val_depth(*x),
        },
    }
}

/// The largest depth among a record's fields.
pub open spec fn fields_depth(fs: Seq<ValModel>) -> nat
    decreases fs, 0int,
{
    if fs.len() == 0 {
        0
    } else if fields_depth(fs.drop_last()) >= val_depth(fs.last()) {
        fields_depth(fs.drop_last())
    } else {
        val_depth(fs.last())
    }
}

/// Whether a lookup table resolves every structural sub-value of `m` to that
/// sub-value's own encoding.  This is what "a lookup over the full blob set
/// of `m`" provides; no table can provide it when two distinct sub-value
/// encodings collide to one id.
pub open spec fn resolves(table: Seq<(Seq<u8>, Seq<u8>)>, m: ValModel) -> bool
    decreases m, 1int,
{
    match m {
        ValModel::Unit => true,
        ValModel::Prim(_) => true,
        ValModel::Record(t, fs) => resolves_fields(table, fs),
        ValModel::Pair(a, b) => resolves(table, *a) && resolves(table, *b),
        ValModel::Maybe(o) => match o {
            None => true,
            Some(x) => resolves(table, *x),
        },
    }
}

/// [`resolves`], for one record field: a structural field's own blob must
/// resolve, and so must everything below it.
pub open spec fn resolves_field(table: Seq<(Seq<u8>, Seq<u8>)>, m: ValModel) -> bool
    decreases m, 2int,
{
    if model_primitive(m) {
        true
    } else {
        spec_lookup(table, spec_id_of(spec_encode(m))) == Some(spec_encode(m))
            && resolves(table, m)
    }
}

/// [`resolves_field`] over all fields of a record.
pub open spec fn resolves_fields(table: Seq<(Seq<u8>, Seq<u8>)>, fs: Seq<ValModel>) -> bool
    decreases fs, 0int,
{
    if fs.len() == 0 {
        true
    } else {
        resolves_fields(table, fs.drop_last()) && resolves_field(table, fs.last())
    }
}

/// A primitive value holds no structural sub-values, so every table
/// resolves it.
pub proof fn lemma_resolves_primitive(table: Seq<(Seq<u8>, Seq<u8>)>, m: ValModel)
    requires
        model_primitive(m),
    ensures
        resolves(table, m),
    decreases m,
{
    match m {
        ValModel::Pair(a, b) => {
            lemma_resolves_primitive(table, *a);
            lemma_resolves_primitive(table, *b);
        },
        _ => {},
    }
}

/// A value matching a primitive shape is primitive, and one matching a
/// structural shape is structural.
pub proof fn lemma_primitive_agree(m: ValModel, s: Shape, reg: Seq<Seq<Shape>>)
    requires
        matches_shape(m, s, reg),
    ensures
        model_primitive(m) == shape_primitive(s),
    decreases m,
{
    match (m, s) {
        (ValModel::Pair(a, b), Shape::Pair(sa, sb)) => {
            lemma_primitive_agree(*a, *sa, reg);
            lemma_primitive_agree(*b, *sb, reg);
        },
        _ => {},
    }
}

/// Head forms of the snoc-defined field helpers: encoding, blob resolution
/// and depth of a non-empty field list, split at the first field.
pub proof fn lemma_fields_cons(fs: Seq<ValModel>, table: Seq<(Seq<u8>, Seq<u8>)>)
    requires
        fs.len() > 0,
    ensures
        spec_encode_fields(fs) == spec_field_encoding(fs[0]) + spec_encode_fields(
            fs.drop_first(),
        ),
        resolves_fields(table, fs) == (resolves_field(table, fs[0]) && resolves_fields(
            table, fs.drop_first(),
        )),
        fields_depth(fs) >= val_depth(fs[0]),
        fields_depth(fs) >= fields_depth(fs.drop_first()),
    decreases fs.len(),
{
    if fs.len() == 1 {
        assert(fs.drop_last() =~= Seq::<ValModel>::empty());
        assert(fs.drop_first() =~= Seq::<ValModel>::empty());
        assert(fs.last() == fs[0]);
        assert(spec_encode_fields(fs.drop_first()) =~= Seq::<u8>::empty());
        assert(spec_field_encoding(fs[0]) + spec_encode_fields(fs.drop_first())
            =~= spec_field_encoding(fs[0]));
        assert(Seq::<u8>::empty() + spec_field_encoding(fs[0]) =~= spec_field_encoding(fs[0]));
    } else {
        let dl = fs.drop_last();
        lemma_fields_cons(dl, table);
        assert(dl[0] == fs[0]);
        assert(fs.drop_first().drop_last() =~= dl.drop_first());
        assert(fs.drop_first().last() == fs.last());
        assert(fs.drop_first().len() > 0);
        assert(spec_encode_fields(fs) == spec_encode_fields(dl) + spec_field_encoding(fs.last()));
        assert(spec_encode_fields(fs.drop_first()) == spec_encode_fields(dl.drop_first())
            + spec_field_encoding(fs.last()));
        assert(spec_encode_fields(fs) =~= spec_field_encoding(fs[0]) + spec_encode_fields(
            fs.drop_first(),
        ));
    }
}

/// Splitting a matching field list at its first field.
pub proof fn lemma_matches_fields_cons(fs: Seq<ValModel>, shapes: Seq<Shape>, reg: Seq<Seq<Shape>>)
    requires
        matches_fields(fs, shapes, reg),
        fs.len() > 0,
    ensures
        matches_shape(fs[0], shapes[0], reg),
        matches_fields(fs.drop_first(), shapes.drop_first(), reg),
    decreases fs.len(),
{
    if fs.len() == 1 {
        assert(fs.last() == fs[0] && shapes.last() == shapes[0]);
        assert(fs.drop_first() =~= Seq::<ValModel>::empty());
        assert(shapes.drop_first() =~= Seq::<Shape>::empty());
    } else {
        lemma_matches_fields_cons(fs.drop_last(), shapes.drop_last(), reg);
        assert(fs.drop_last()[0] == fs[0] && shapes.drop_last()[0] == shapes[0]);
        assert(fs.drop_first().drop_last() =~= fs.drop_last().drop_first());
        assert(shapes.drop_first().drop_last() =~= shapes.drop_last().drop_first());
        assert(fs.drop_first().last() == fs.last());
        assert(shapes.drop_first().last() == shapes.last());
    }
}

/// The type-tag law: the prefix encoding that covers no fields is the single
/// tag byte of the value's type, for every record value.
pub proof fn lemma_prefix_zero_is_tag(m: ValModel)
    requires
        m is Record,
    ensures
        spec_encode_prefix(m, 0) =~= seq![m->Record_0],
{
    if let ValModel::Record(t, fs) = m {
        assert(fs.take(0) =~= Seq::<ValModel>::empty());
    }
}

/// The prefix-consistency law: for a record value and any field count, the
/// prefix encoding is a true byte-prefix of the full record encoding.
pub proof fn lemma_prefix_consistency(m: ValModel, k: int)
    requires
        m is Record,
        0 <= k,
    ensures
        is_prefix_of(spec_encode_prefix(m, k), spec_encode(m)),
{
    if let ValModel::Record(t, fs) = m {
        let j = if k < fs.len() {
            k
        } else {
            fs.len() as int
        };
        lemma_encode_fields_prefix(fs, j);
        let p = spec_encode_prefix(m, k);
        let e = spec_encode(m);
        assert(p == seq![t] + spec_encode_fields(fs.take(j)));
        assert(e == seq![t] + spec_encode_fields(fs));
        assert(p.len() <= e.len());
        assert(e.take(p.len() as int) =~= p);
    }
}

/// Decoding the encoding of `m` (with anything appended) gives back exactly
/// `m` and the appended bytes, whenever the table resolves `m`'s structural
/// sub-values and the budget covers `m`'s record depth.
pub proof fn lemma_decode_encode(
    m: ValModel,
    s: Shape,
    extra: Seq<u8>,
    table: Seq<(Seq<u8>, Seq<u8>)>,
    reg: Seq<Seq<Shape>>,
    budget: nat,
)
    requires
        registry_wf(reg),
        matches_shape(m, s, reg),
        resolves(table, m),
        budget >= val_depth(m),
    ensures
        spec_decode(s, spec_encode(m) + extra, table, reg, budget) == Some((extra, m)),
    decreases m, 1int,
{
    let bytes = spec_encode(m) + extra;
    match m {
        ValModel::Unit => {
            assert(bytes =~= extra);
        },
        ValModel::Prim(b) => {
            if let Shape::Prim(w) = s {
                assert(bytes.len() >= w);
                assert(bytes.take(w as int) =~= b);
                assert(bytes.skip(w as int) =~= extra);
            }
        },
        ValModel::Record(t, fs) => {
            if let Shape::Record(t2) = s {
                assert(t2 == t);
                assert(matches_fields(fs, reg[t as int], reg));
                assert(bytes.len() >= 1);
                assert(bytes[0] == t);
                assert(budget >= 1);
                let b1 = (budget - 1) as nat;
                assert(bytes.skip(1) =~= spec_encode_fields(fs) + extra);
                lemma_decode_encode_fields(fs, reg[t as int], extra, table, reg, b1);
            }
        },
        ValModel::Pair(a, b) => {
            if let Shape::Pair(sa, sb) = s {
                let mid = spec_encode(*b) + extra;
                assert(bytes =~= spec_encode(*a) + mid);
                lemma_decode_encode(*a, *sa, mid, table, reg, budget);
                lemma_decode_encode(*b, *sb, extra, table, reg, budget);
            }
        },
        ValModel::Maybe(o) => {
            if let Shape::Optional(si) = s {
                match o {
                    None => {
                        assert(bytes.len() >= 1);
                        assert(bytes[0] == 0);
                        assert(bytes.skip(1) =~= extra);
                    },
                    Some(x) => {
                        assert(bytes.len() >= 1);
                        assert(bytes[0] == 1);
                        assert(bytes.skip(1) =~= spec_encode(*x) + extra);
                        lemma_decode_encode(*x, *si, extra, table, reg, budget);
                    },
                }
            }
        },
    }
}

/// [`lemma_decode_encode`], for the field list of a record.
pub proof fn lemma_decode_encode_fields(
    fs: Seq<ValModel>,
    shapes: Seq<Shape>,
    extra: Seq<u8>,
    table: Seq<(Seq<u8>, Seq<u8>)>,
    reg: Seq<Seq<Shape>>,
    budget: nat,
)
    requires
        registry_wf(reg),
        matches_fields(fs, shapes, reg),
        resolves_fields(table, fs),
        budget >= fields_depth(fs),
    ensures
        spec_decode_fields(shapes, spec_encode_fields(fs) + extra, table, reg, budget)
            == Some((extra, fs)),
    decreases fs, 0int,
{
    if fs.len() == 0 {
        assert(spec_encode_fields(fs) + extra =~= extra);
        assert(Seq::<ValModel>::empty() =~= fs);
    } else {
        let f0 = fs[0];
        let s0 = shapes[0];
        lemma_fields_cons(fs, table);
        lemma_matches_fields_cons(fs, shapes, reg);
        lemma_primitive_agree(f0, s0, reg);
        let bytes = spec_encode_fields(fs) + extra;
        let rest_bytes = spec_encode_fields(fs.drop_first()) + extra;
        if model_primitive(f0) {
            assert(bytes =~= spec_encode(f0) + rest_bytes);
            lemma_resolves_primitive(table, f0);
            lemma_decode_encode(f0, s0, rest_bytes, table, reg, budget);
            lemma_decode_encode_fields(fs.drop_first(), shapes.drop_first(), extra, table, reg,
                budget);
            assert(seq![f0] + fs.drop_first() =~= fs);
        } else {
            let idb = spec_id_of(spec_encode(f0));
            assert(idb.len() == 8);
            assert(bytes =~= idb + rest_bytes);
            assert(bytes.len() >= 8);
            assert(bytes.take(8) =~= idb);
            assert(bytes.skip(8) =~= rest_bytes);
            assert(spec_lookup(table, idb) == Some(spec_encode(f0)));
            assert(spec_encode(f0) =~= spec_encode(f0) + Seq::<u8>::empty());
            lemma_decode_encode(f0, s0, Seq::empty(), table, reg, budget);
            lemma_decode_encode_fields(fs.drop_first(), shapes.drop_first(), extra, table, reg,
                budget);
            assert(seq![f0] + fs.drop_first() =~= fs);
        }
    }
}

/// The round-trip law: decoding a value's full encoding, over a lookup that
/// resolves the value's entire blob set, yields exactly the value with no
/// bytes left over.
pub proof fn lemma_round_trip(
    m: ValModel,
    s: Shape,
    table: Seq<(Seq<u8>, Seq<u8>)>,
    reg: Seq<Seq<Shape>>,
    budget: nat,
)
    requires
        registry_wf(reg),
        matches_shape(m, s, reg),
        resolves(table, m),
        budget >= val_depth(m),
    ensures
        spec_decode(s, spec_encode(m), table, reg, budget) == Some((Seq::<u8>::empty(), m)),
{
    assert(spec_encode(m) =~= spec_encode(m) + Seq::<u8>::empty());
    lemma_decode_encode(m, s, Seq::empty(), table, reg, budget);
}

/// The decode-failure isolation law: whether a scanned entry appears in the
/// scan's result depends on that entry alone.  An entry with a well-formed
/// id whose blob decodes is always yielded, whatever becomes of its
/// neighbours (a missing reference elsewhere skips only that entry).
pub proof fn lemma_scan_isolates(
    es: Seq<(Seq<u8>, Seq<u8>)>,
    s: Shape,
    tb: Seq<(Seq<u8>, Seq<u8>)>,
    reg: Seq<Seq<Shape>>,
    i: int,
    m: ValModel,
)
    requires
        0 <= i < es.len(),
        es[i].1.len() == 8,
        exists|r: Seq<u8>| spec_decode(s, es[i].0, tb, reg, DECODE_BUDGET as nat)
            == Some((r, m)),
    ensures
        spec_scan(es, s, tb, reg).contains((m, es[i].1)),
    decreases es.len(),
{
    let rest = spec_scan(es.drop_first(), s, tb, reg);
    if i == 0 {
        let whole = spec_scan(es, s, tb, reg);
        assert(whole[0] == (m, es[0].1));
    } else {
        assert(es.drop_first()[i - 1] == es[i]);
        lemma_scan_isolates(es.drop_first(), s, tb, reg, i - 1, m);
        let j = choose|j: int| 0 <= j < rest.len() && rest[j] == (m, es[i].1);
        match spec_decode(s, es[0].0, tb, reg, DECODE_BUDGET as nat) {
            Some(p) => {
                if es[0].1.len() == 8 {
                    assert(spec_scan(es, s, tb, reg)[j + 1] == (m, es[i].1));
                } else {
                    assert(spec_scan(es, s, tb, reg)[j] == (m, es[i].1));
                }
            },
            None => {
                assert(spec_scan(es, s, tb, reg)[j] == (m, es[i].1));
            },
        }
    }
}

/// The scan-soundness law: everything a scan yields is the decoding of some
/// scanned entry, under that entry's stored id.
pub proof fn lemma_scan_sound(
    es: Seq<(Seq<u8>, Seq<u8>)>,
    s: Shape,
    tb: Seq<(Seq<u8>, Seq<u8>)>,
    reg: Seq<Seq<Shape>>,
    j: int,
)
    requires
        0 <= j < spec_scan(es, s, tb, reg).len(),
    ensures
        exists|i: int|
            0 <= i < es.len() && es[i].1 == spec_scan(es, s, tb, reg)[j].1
            && es[i].1.len() == 8
            && #[trigger] spec_decode(s, es[i].0, tb, reg, DECODE_BUDGET as nat) is Some
            && spec_decode(s, es[i].0, tb, reg, DECODE_BUDGET as nat)->Some_0.1
                == spec_scan(es, s, tb, reg)[j].0,
    decreases es.len(),
{
    let whole = spec_scan(es, s, tb, reg);
    let rest = spec_scan(es.drop_first(), s, tb, reg);
    let included = es[0].1.len() == 8
        && spec_decode(s, es[0].0, tb, reg, DECODE_BUDGET as nat) is Some;
    if included && j == 0 {
        let p = spec_decode(s, es[0].0, tb, reg, DECODE_BUDGET as nat)->Some_0;
        assert(whole[0] == (p.1, es[0].1));
        assert(0 <= 0 < es.len() && es[0].1 == whole[j].1 && es[0].1.len() == 8
            && spec_decode(s, es[0].0, tb, reg, DECODE_BUDGET as nat) is Some
            && spec_decode(s, es[0].0, tb, reg, DECODE_BUDGET as nat)->Some_0.1
                == whole[j].0);
    } else {
        let j2 = if included { j - 1 } else { j };
        assert(whole[j] == rest[j2]);
        lemma_scan_sound(es.drop_first(), s, tb, reg, j2);
        let i2 = choose|i2: int|
            0 <= i2 < es.drop_first().len() && es.drop_first()[i2].1 == rest[j2].1
            && es.drop_first()[i2].1.len() == 8
            && #[trigger] spec_decode(s, es.drop_first()[i2].0, tb, reg,
                DECODE_BUDGET as nat) is Some
            && spec_decode(s, es.drop_first()[i2].0, tb, reg, DECODE_BUDGET as nat)->Some_0.1
                == rest[j2].0;
        assert(es.drop_first()[i2] == es[i2 + 1]);
        assert(0 <= i2 + 1 < es.len() && es[i2 + 1].1 == whole[j].1
            && es[i2 + 1].1.len() == 8
            && spec_decode(s, es[i2 + 1].0, tb, reg, DECODE_BUDGET as nat) is Some
            && spec_decode(s, es[i2 + 1].0, tb, reg, DECODE_BUDGET as nat)->Some_0.1
                == whole[j].0);
    }
}

/// The index of the scanned entry that the scan's `j`-th result decodes.
pub open spec fn scan_source(
    entries: Seq<(Seq<u8>, Seq<u8>)>,
    s: Shape,
    table: Seq<(Seq<u8>, Seq<u8>)>,
    reg: Seq<Seq<Shape>>,
    j: int,
) -> int
    decreases entries.len(),
{
    if entries.len() == 0 {
        0
    } else {
        let included = entries[0].1.len() == 8
            && spec_decode(s, entries[0].0, table, reg, DECODE_BUDGET as nat) is Some;
        if included && j == 0 {
            0
        } else {
            1 + scan_source(entries.drop_first(), s, table, reg, if included {
                j - 1
            } else {
                j
            })
        }
    }
}

/// Each scan result decodes the entry [`scan_source`] points at: same id,
/// and the entry's blob decodes to the yielded value.
pub proof fn lemma_scan_source_correspond(
    es: Seq<(Seq<u8>, Seq<u8>)>,
    s: Shape,
    tb: Seq<(Seq<u8>, Seq<u8>)>,
    reg: Seq<Seq<Shape>>,
    j: int,
)
    requires
        0 <= j < spec_scan(es, s, tb, reg).len(),
    ensures
        0 <= scan_source(es, s, tb, reg, j) < es.len(),
        es[scan_source(es, s, tb, reg, j)].1 == spec_scan(es, s, tb, reg)[j].1,
        es[scan_source(es, s, tb, reg, j)].1.len() == 8,
        spec_decode(s, es[scan_source(es, s, tb, reg, j)].0, tb, reg,
            DECODE_BUDGET as nat) is Some,
        spec_decode(s, es[scan_source(es, s, tb, reg, j)].0, tb, reg,
            DECODE_BUDGET as nat)->Some_0.1 == spec_scan(es, s, tb, reg)[j].0,
    decreases es.len(),
{
    let whole = spec_scan(es, s, tb, reg);
    let rest = spec_scan(es.drop_first(), s, tb, reg);
    let included = es[0].1.len() == 8
        && spec_decode(s, es[0].0, tb, reg, DECODE_BUDGET as nat) is Some;
    if included && j == 0 {
        let p = spec_decode(s, es[0].0, tb, reg, DECODE_BUDGET as nat)->Some_0;
        assert(whole[0] == (p.1, es[0].1));
    } else {
        let j2 = if included { j - 1 } else { j };
        assert(whole[j] == rest[j2]);
        lemma_scan_source_correspond(es.drop_first(), s, tb, reg, j2);
        assert(es.drop_first()[scan_source(es.drop_first(), s, tb, reg, j2)]
            == es[1 + scan_source(es.drop_first(), s, tb, reg, j2)]);
    }
}

/// [`scan_source`] is strictly increasing: the scan yields its results in
/// the order of the entries they come from.
pub proof fn lemma_scan_source_mono(
    es: Seq<(Seq<u8>, Seq<u8>)>,
    s: Shape,
    tb: Seq<(Seq<u8>, Seq<u8>)>,
    reg: Seq<Seq<Shape>>,
    j1: int,
    j2: int,
)
    requires
        0 <= j1 < j2 < spec_scan(es, s, tb, reg).len(),
    ensures
        scan_source(es, s, tb, reg, j1) < scan_source(es, s, tb, reg, j2),
    decreases es.len(),
{
    let rest = spec_scan(es.drop_first(), s, tb, reg);
    let included = es[0].1.len() == 8
        && spec_decode(s, es[0].0, tb, reg, DECODE_BUDGET as nat) is Some;
    if included && j1 == 0 {
        assert(spec_scan(es, s, tb, reg)[j2] == rest[j2 - 1]);
        lemma_scan_source_correspond(es.drop_first(), s, tb, reg, j2 - 1);
    } else {
        let d = if included { 1int } else { 0int };
        assert(spec_scan(es, s, tb, reg)[j1] == rest[j1 - d]);
        assert(spec_scan(es, s, tb, reg)[j2] == rest[j2 - d]);
        lemma_scan_source_mono(es.drop_first(), s, tb, reg, j1 - d, j2 - d);
    }
}

/// The result-order law: over a snapshot whose keys ascend in lexicographic
/// byte order (as the engine hands them out), the scan's results come in
/// that same order — each later result decodes a strictly
/// lexicographically-greater stored blob.  With the fixed-width big-endian
/// field layout this is also numeric order of the leading fields.
pub proof fn lemma_scan_ordered(
    es: Seq<(Seq<u8>, Seq<u8>)>,
    s: Shape,
    tb: Seq<(Seq<u8>, Seq<u8>)>,
    reg: Seq<Seq<Shape>>,
    j1: int,
    j2: int,
)
    requires
        forall|i1: int, i2: int| 0 <= i1 < i2 < es.len() ==> lex_less(es[i1].0, es[i2].0),
        0 <= j1 < j2 < spec_scan(es, s, tb, reg).len(),
    ensures
        scan_source(es, s, tb, reg, j1) < scan_source(es, s, tb, reg, j2),
        lex_less(es[scan_source(es, s, tb, reg, j1)].0, es[scan_source(es, s, tb, reg, j2)].0),
        es[scan_source(es, s, tb, reg, j1)].1 == spec_scan(es, s, tb, reg)[j1].1,
        es[scan_source(es, s, tb, reg, j2)].1 == spec_scan(es, s, tb, reg)[j2].1,
{
    lemma_scan_source_correspond(es, s, tb, reg, j1);
    lemma_scan_source_correspond(es, s, tb, reg, j2);
    lemma_scan_source_mono(es, s, tb, reg, j1, j2);
}

/// Two records of one registered type that agree on their first `k` fields
/// share the same prefix encoding for `k`.
pub proof fn lemma_prefix_agreement(v: ValModel, probe: ValModel, k: int, reg: Seq<Seq<Shape>>)
    requires
        v is Record,
        probe is Record,
        v->Record_0 == probe->Record_0,
        matches_shape(v, Shape::Record(v->Record_0), reg),
        matches_shape(probe, Shape::Record(probe->Record_0), reg),
        0 <= k,
        v->Record_1.take(if k < v->Record_1.len() { k } else { v->Record_1.len() as int })
            == probe->Record_1.take(
            if k < probe->Record_1.len() { k } else { probe->Record_1.len() as int },
        ),
    ensures
        spec_encode_prefix(v, k) == spec_encode_prefix(probe, k),
{
}

/// The prefix-scan completeness law: a stored well-formed record whose
/// encoding begins with the probe's prefix key is yielded by the scan of
/// that key, under its content id, whenever the reverse table resolves its
/// blob set and its nesting fits the decode budget.
pub proof fn lemma_scan_finds_stored(
    es: Seq<(Seq<u8>, Seq<u8>)>,
    fwd: Map<Seq<u8>, Seq<u8>>,
    tb: Seq<(Seq<u8>, Seq<u8>)>,
    reg: Seq<Seq<Shape>>,
    probe: ValModel,
    k: int,
    v: ValModel,
)
    requires
        registry_wf(reg),
        probe is Record,
        v is Record,
        matches_shape(v, Shape::Record(v->Record_0), reg),
        0 <= k,
        is_prefix_of(spec_encode_prefix(probe, k), spec_encode(v)),
        fwd.contains_pair(spec_encode(v), spec_id_of(spec_encode(v))),
        is_sorted_matching(es, fwd, spec_encode_prefix(probe, k)),
        resolves(tb, v),
        val_depth(v) <= DECODE_BUDGET as nat,
    ensures
        spec_scan(es, Shape::Record(probe->Record_0), tb, reg).contains(
            (v, spec_id_of(spec_encode(v))),
        ) || probe->Record_0 != v->Record_0,
{
    if probe->Record_0 == v->Record_0 {
        let key = spec_encode(v);
        let idb = spec_id_of(key);
        let p = spec_encode_prefix(probe, k);
        assert(fwd.contains_key(key));
        let i = choose|i: int| 0 <= i < es.len() && #[trigger] es[i].0 == key;
        assert(fwd.contains_pair(es[i].0, es[i].1));
        assert(es[i].1 == idb);
        assert(idb.len() == 8);
        lemma_round_trip(v, Shape::Record(v->Record_0), tb, reg, DECODE_BUDGET as nat);
        lemma_scan_isolates(es, Shape::Record(probe->Record_0), tb, reg, i, v);
    }
}

/// Whether a table holds the entry (id, bytes) for one (bytes, id) pair.
pub open spec fn covers_one(table: Seq<(Seq<u8>, Seq<u8>)>, p: (Seq<u8>, Seq<u8>)) -> bool {
    exists|j: int| 0 <= j < table.len() && #[trigger] table[j] == (p.1, p.0)
}

/// Whether a table holds an entry (id, bytes) for every (bytes, id) pair of
/// the list: the table covers the blob set.
pub open spec fn covers(table: Seq<(Seq<u8>, Seq<u8>)>, blobs: Seq<(Seq<u8>, Seq<u8>)>) -> bool {
    forall|i: int| 0 <= i < blobs.len() ==> covers_one(table, #[trigger] blobs[i])
}

/// Whether every table entry is content-addressed (its key is the id of its
/// bytes) and no two entries collide on a key with different bytes.  The
/// second clause is the collision-freedom hypothesis: it fails exactly when
/// two distinct blobs hash to one id, the case the design accepts as a
/// small-id trade-off.
pub open spec fn content_addressed(table: Seq<(Seq<u8>, Seq<u8>)>) -> bool {
    &&& forall|j: int| 0 <= j < table.len()
        ==> (#[trigger] table[j]).0 == spec_id_of(table[j].1)
    &&& forall|j1: int, j2: int| 0 <= j1 < table.len() && 0 <= j2 < table.len()
        && (#[trigger] table[j1]).0 == (#[trigger] table[j2]).0 ==> table[j1].1 == table[j2].1
}

/// A key held by some entry resolves to one of its entries' bytes.
pub proof fn lemma_lookup_finds(table: Seq<(Seq<u8>, Seq<u8>)>, j: int)
    requires
        0 <= j < table.len(),
    ensures
        exists|j2: int| 0 <= j2 < table.len() && (#[trigger] table[j2]).0 == table[j].0
            && spec_lookup(table, table[j].0) == Some(table[j2].1),
    decreases table.len(),
{
    if table[0].0 == table[j].0 {
        assert(spec_lookup(table, table[j].0) == Some(table[0].1));
    } else {
        assert(j > 0);
        assert(table.drop_first()[j - 1] == table[j]);
        lemma_lookup_finds(table.drop_first(), j - 1);
        let j2 = choose|j2: int| 0 <= j2 < table.drop_first().len()
            && (#[trigger] table.drop_first()[j2]).0 == table.drop_first()[j - 1].0
            && spec_lookup(table.drop_first(), table.drop_first()[j - 1].0)
                == Some(table.drop_first()[j2].1);
        assert(table.drop_first()[j2] == table[j2 + 1]);
        assert(spec_lookup(table, table[j].0) == Some(table[j2 + 1].1));
    }
}

/// In a content-addressed table, a covered blob resolves to its own bytes.
pub proof fn lemma_covered_blob_resolves(
    table: Seq<(Seq<u8>, Seq<u8>)>,
    b: Seq<u8>,
)
    requires
        content_addressed(table),
        exists|j: int| 0 <= j < table.len() && #[trigger] table[j] == (spec_id_of(b), b),
    ensures
        spec_lookup(table, spec_id_of(b)) == Some(b),
{
    let j = choose|j: int| 0 <= j < table.len() && #[trigger] table[j] == (spec_id_of(b), b);
    lemma_lookup_finds(table, j);
    let j2 = choose|j2: int| 0 <= j2 < table.len() && (#[trigger] table[j2]).0 == table[j].0
        && spec_lookup(table, table[j].0) == Some(table[j2].1);
    assert(table[j2].1 == table[j].1);
}

/// A content-addressed table that covers a value's nested blob set resolves
/// every structural sub-value of the value.
pub proof fn lemma_blobset_resolves(table: Seq<(Seq<u8>, Seq<u8>)>, m: ValModel)
    requires
        content_addressed(table),
        covers(table, spec_nested(m)),
    ensures
        resolves(table, m),
    decreases m, 1int,
{
    match m {
        ValModel::Record(t, fs) => {
            lemma_blobset_resolves_fields(table, fs);
        },
        ValModel::Pair(a, b) => {
            lemma_covers_split(table, spec_nested(*a), spec_nested(*b));
            lemma_blobset_resolves(table, *a);
            lemma_blobset_resolves(table, *b);
        },
        ValModel::Maybe(o) => {
            if let Some(x) = o {
                lemma_blobset_resolves(table, *x);
            }
        },
        _ => {},
    }
}

/// [`lemma_blobset_resolves`] for one record field.
pub proof fn lemma_blobset_resolves_field(table: Seq<(Seq<u8>, Seq<u8>)>, m: ValModel)
    requires
        content_addressed(table),
        covers(table, spec_field_blobs(m)),
    ensures
        resolves_field(table, m),
    decreases m, 2int,
{
    if !model_primitive(m) {
        let own = (spec_encode(m), spec_id_of(spec_encode(m)));
        let blobs = spec_field_blobs(m);
        assert(blobs[blobs.len() - 1] == own);
        assert(covers_one(table, own));
        lemma_covered_blob_resolves(table, spec_encode(m));
        assert forall|i: int| 0 <= i < spec_nested(m).len() implies covers_one(
            table, #[trigger] spec_nested(m)[i],
        ) by {
            assert(blobs[i] == spec_nested(m)[i]);
        }
        lemma_blobset_resolves(table, m);
    }
}

/// [`lemma_blobset_resolves`] for a record's field list.
pub proof fn lemma_blobset_resolves_fields(table: Seq<(Seq<u8>, Seq<u8>)>, fs: Seq<ValModel>)
    requires
        content_addressed(table),
        covers(table, spec_nested_fields(fs)),
    ensures
        resolves_fields(table, fs),
    decreases fs, 0int,
{
    if fs.len() > 0 {
        lemma_covers_split(table, spec_nested_fields(fs.drop_last()),
            spec_field_blobs(fs.last()));
        lemma_blobset_resolves_fields(table, fs.drop_last());
        lemma_blobset_resolves_field(table, fs.last());
    }
}

/// Coverage of a concatenation is coverage of both halves.
proof fn lemma_covers_split(
    table: Seq<(Seq<u8>, Seq<u8>)>,
    a: Seq<(Seq<u8>, Seq<u8>)>,
    b: Seq<(Seq<u8>, Seq<u8>)>,
)
    requires
        covers(table, a + b),
    ensures
        covers(table, a),
        covers(table, b),
{
    assert forall|i: int| 0 <= i < a.len() implies covers_one(table, #[trigger] a[i]) by {
        assert((a + b)[i] == a[i]);
    }
    assert forall|i: int| 0 <= i < b.len() implies covers_one(table, #[trigger] b[i]) by {
        assert((a + b)[a.len() + i] == b[i]);
    }
}

/// The round-trip law in its concrete form: decoding a value's encoding
/// over any content-addressed, collision-free table holding the value's own
/// blob set (as `BlobTable::from_blobs` builds one from `serialize_type`'s
/// output) gives back exactly the value.
pub proof fn lemma_round_trip_blob_set(
    m: ValModel,
    s: Shape,
    table: Seq<(Seq<u8>, Seq<u8>)>,
    reg: Seq<Seq<Shape>>,
    budget: nat,
)
    requires
        registry_wf(reg),
        matches_shape(m, s, reg),
        content_addressed(table),
        covers(table, spec_serialize(m)),
        budget >= val_depth(m),
    ensures
        spec_decode(s, spec_encode(m), table, reg, budget) == Some((Seq::<u8>::empty(), m)),
{
    assert forall|i: int| 0 <= i < spec_nested(m).len() implies covers_one(
        table, #[trigger] spec_nested(m)[i],
    ) by {
        assert(spec_serialize(m)[i] == spec_nested(m)[i]);
    }
    lemma_blobset_resolves(table, m);
    lemma_round_trip(m, s, table, reg, budget);
}

/// Every pair of a decomposition carries the content id of its own bytes:
/// the id is a function of the blob, which is what makes equal blobs
/// collide to one index entry.
pub proof fn lemma_serialize_pairs_hashed(m: ValModel)
    ensures
        forall|i: int| 0 <= i < spec_serialize(m).len()
            ==> (#[trigger] spec_serialize(m)[i]).1 == spec_id_of(spec_serialize(m)[i].0),
{
    lemma_nested_hashed(m);
}

/// [`lemma_serialize_pairs_hashed`] for the nested blobs alone.
pub proof fn lemma_nested_hashed(m: ValModel)
    ensures
        forall|i: int| 0 <= i < spec_nested(m).len()
            ==> (#[trigger] spec_nested(m)[i]).1 == spec_id_of(spec_nested(m)[i].0),
    decreases m, 1int,
{
    match m {
        ValModel::Record(t, fs) => {
            lemma_nested_fields_hashed(fs);
            assert forall|i: int| 0 <= i < spec_nested(m).len() implies
                (#[trigger] spec_nested(m)[i]).1 == spec_id_of(spec_nested(m)[i].0) by {
                assert(spec_nested(m)[i] == spec_nested_fields(fs)[i]);
            }
        },
        ValModel::Pair(a, b) => {
            lemma_nested_hashed(*a);
            lemma_nested_hashed(*b);
            let na = spec_nested(*a);
            let nb = spec_nested(*b);
            assert forall|i: int| 0 <= i < spec_nested(m).len() implies
                (#[trigger] spec_nested(m)[i]).1 == spec_id_of(spec_nested(m)[i].0) by {
                if i < na.len() {
                    assert(spec_nested(m)[i] == na[i]);
                } else {
                    assert(spec_nested(m)[i] == nb[i - na.len()]);
                }
            }
        },
        ValModel::Maybe(o) => {
            if let Some(x) = o {
                lemma_nested_hashed(*x);
                assert forall|i: int| 0 <= i < spec_nested(m).len() implies
                    (#[trigger] spec_nested(m)[i]).1 == spec_id_of(spec_nested(m)[i].0) by {
                    assert(spec_nested(m)[i] == spec_nested(*x)[i]);
                }
            }
        },
        _ => {},
    }
}

/// [`lemma_nested_hashed`] for one field's blobs.
pub proof fn lemma_field_blobs_hashed(m: ValModel)
    ensures
        forall|i: int| 0 <= i < spec_field_blobs(m).len()
            ==> (#[trigger] spec_field_blobs(m)[i]).1 == spec_id_of(spec_field_blobs(m)[i].0),
    decreases m, 2int,
{
    if !model_primitive(m) {
        lemma_nested_hashed(m);
        let n = spec_nested(m);
        let own = (spec_encode(m), spec_id_of(spec_encode(m)));
        assert forall|i: int| 0 <= i < spec_field_blobs(m).len() implies
            (#[trigger] spec_field_blobs(m)[i]).1 == spec_id_of(spec_field_blobs(m)[i].0) by {
            if i < n.len() {
                assert(spec_field_blobs(m)[i] == n[i]);
            } else {
                assert(spec_field_blobs(m)[i] == own);
            }
        }
    }
}

/// [`lemma_nested_hashed`] for a record's field list.
pub proof fn lemma_nested_fields_hashed(fs: Seq<ValModel>)
    ensures
        forall|i: int| 0 <= i < spec_nested_fields(fs).len()
            ==> (#[trigger] spec_nested_fields(fs)[i]).1
                == spec_id_of(spec_nested_fields(fs)[i].0),
    decreases fs, 0int,
{
    if fs.len() > 0 {
        lemma_nested_fields_hashed(fs.drop_last());
        lemma_field_blobs_hashed(fs.last());
        let front = spec_nested_fields(fs.drop_last());
        let back = spec_field_blobs(fs.last());
        assert forall|i: int| 0 <= i < spec_nested_fields(fs).len() implies
            (#[trigger] spec_nested_fields(fs)[i]).1
                == spec_id_of(spec_nested_fields(fs)[i].0) by {
            if i < front.len() {
                assert(spec_nested_fields(fs)[i] == front[i]);
            } else {
                assert(spec_nested_fields(fs)[i] == back[i - front.len()]);
            }
        }
    }
}

/// The value the forward index ends with for key `k` after writing the
/// pairs `bs`: the value of `k`'s last occurrence in `bs`, if any.
pub open spec fn last_value_for(bs: Seq<(Seq<u8>, Seq<u8>)>, k: Seq<u8>) -> Option<Seq<u8>>
    decreases bs.len(),
{
    if bs.len() == 0 {
        None
    } else if bs.last().0 == k {
        Some(bs.last().1)
    } else {
        last_value_for(bs.drop_last(), k)
    }
}

/// What writing a decomposition does to the forward index, key by key:
/// keys of the decomposition take the value of their last occurrence, all
/// other keys keep their entry.
pub proof fn lemma_forward_after_at(
    m: Map<Seq<u8>, Seq<u8>>,
    bs: Seq<(Seq<u8>, Seq<u8>)>,
    k: Seq<u8>,
)
    ensures
        match last_value_for(bs, k) {
            Some(v) => store_forward_after(m, bs).contains_key(k)
                && store_forward_after(m, bs)[k] == v,
            None => store_forward_after(m, bs).contains_key(k) == m.contains_key(k)
                && (m.contains_key(k) ==> store_forward_after(m, bs)[k] == m[k]),
        },
    decreases bs.len(),
{
    if bs.len() > 0 {
        lemma_forward_after_at(m, bs.drop_last(), k);
    }
}

/// The write-idempotence half of the determinism law: writing one value's
/// decomposition twice leaves the indices exactly as one write does, because
/// encoding is a function of the value and rewriting a pair overwrites it
/// with equal content.
pub proof fn lemma_put_idempotent(m: Map<Seq<u8>, Seq<u8>>, bs: Seq<(Seq<u8>, Seq<u8>)>)
    ensures
        store_forward_after(store_forward_after(m, bs), bs) == store_forward_after(m, bs),
        store_reverse_after(store_reverse_after(m, bs), bs) == store_reverse_after(m, bs),
{
    let once = store_forward_after(m, bs);
    let twice = store_forward_after(once, bs);
    assert forall|k: Seq<u8>| #[trigger] twice.contains_key(k) == once.contains_key(k)
        && (once.contains_key(k) ==> twice[k] == once[k]) by {
        lemma_forward_after_at(m, bs, k);
        lemma_forward_after_at(once, bs, k);
    }
    assert(twice =~= once);
    let once_r = store_reverse_after(m, bs);
    let twice_r = store_reverse_after(once_r, bs);
    assert forall|k: Seq<u8>| #[trigger] twice_r.contains_key(k) == once_r.contains_key(k)
        && (once_r.contains_key(k) ==> twice_r[k] == once_r[k]) by {
        lemma_reverse_after_at(m, bs, k);
        lemma_reverse_after_at(once_r, bs, k);
    }
    assert(twice_r =~= once_r);
}

/// The blob the reverse index ends with for id `k` after writing `bs`.
pub open spec fn last_blob_for(bs: Seq<(Seq<u8>, Seq<u8>)>, k: Seq<u8>) -> Option<Seq<u8>>
    decreases bs.len(),
{
    if bs.len() == 0 {
        None
    } else if bs.last().1 == k {
        Some(bs.last().0)
    } else {
        last_blob_for(bs.drop_last(), k)
    }
}

/// [`lemma_forward_after_at`] for the reverse index.
pub proof fn lemma_reverse_after_at(
    m: Map<Seq<u8>, Seq<u8>>,
    bs: Seq<(Seq<u8>, Seq<u8>)>,
    k: Seq<u8>,
)
    ensures
        match last_blob_for(bs, k) {
            Some(v) => store_reverse_after(m, bs).contains_key(k)
                && store_reverse_after(m, bs)[k] == v,
            None => store_reverse_after(m, bs).contains_key(k) == m.contains_key(k)
                && (m.contains_key(k) ==> store_reverse_after(m, bs)[k] == m[k]),
        },
    decreases bs.len(),
{
    if bs.len() > 0 {
        lemma_reverse_after_at(m, bs.drop_last(), k);
    }
}

/// Writing a decomposition leaves every one of its pairs present in the
/// forward index: a later pair with the same key is the same pair, since
/// ids are a function of the blob bytes.
pub proof fn lemma_forward_after_contains(
    m: Map<Seq<u8>, Seq<u8>>,
    v: ValModel,
    i: int,
)
    requires
        0 <= i < spec_serialize(v).len(),
    ensures
        store_forward_after(m, spec_serialize(v)).contains_key(spec_serialize(v)[i].0),
        store_forward_after(m, spec_serialize(v))[spec_serialize(v)[i].0]
            == spec_serialize(v)[i].1,
{
    let bs = spec_serialize(v);
    lemma_serialize_pairs_hashed(v);
    lemma_last_value_functional(bs, i);
    lemma_forward_after_at(m, bs, bs[i].0);
}

/// In a list whose pairs all carry the id of their own bytes, the last
/// value for any listed key is that key's id.
proof fn lemma_last_value_functional(bs: Seq<(Seq<u8>, Seq<u8>)>, i: int)
    requires
        0 <= i < bs.len(),
        forall|j: int| 0 <= j < bs.len()
            ==> (#[trigger] bs[j]).1 == spec_id_of(bs[j].0),
    ensures
        last_value_for(bs, bs[i].0) == Some(bs[i].1),
    decreases bs.len(),
{
    if bs.last().0 == bs[i].0 {
        assert(bs.last().1 == spec_id_of(bs.last().0));
        assert(bs[i].1 == spec_id_of(bs[i].0));
    } else {
        assert(i < bs.len() - 1);
        lemma_last_value_functional(bs.drop_last(), i);
        assert(bs.drop_last()[i] == bs[i]);
    }
}

/// In a decomposition (whose pairs all carry the id of their own bytes),
/// whatever the last value written under key `k` is, it is `k`'s id.
proof fn lemma_last_value_hashed(bs: Seq<(Seq<u8>, Seq<u8>)>, k: Seq<u8>)
    requires
        forall|j: int| 0 <= j < bs.len()
            ==> (#[trigger] bs[j]).1 == spec_id_of(bs[j].0),
    ensures
        last_value_for(bs, k) matches Some(v) ==> v == spec_id_of(k),
    decreases bs.len(),
{
    if bs.len() > 0 && bs.last().0 != k {
        lemma_last_value_hashed(bs.drop_last(), k);
    }
}

/// A content-addressed forward entry survives any later write of a
/// decomposition: a later pair under the same blob bytes carries the same
/// id, so the entry is at worst overwritten with equal content.
pub proof fn lemma_forward_entry_survives_put(
    fwd: Map<Seq<u8>, Seq<u8>>,
    v: ValModel,
    b: Seq<u8>,
)
    requires
        fwd.contains_pair(b, spec_id_of(b)),
    ensures
        store_forward_after(fwd, spec_serialize(v)).contains_pair(b, spec_id_of(b)),
{
    lemma_serialize_pairs_hashed(v);
    lemma_last_value_hashed(spec_serialize(v), b);
    lemma_forward_after_at(fwd, spec_serialize(v), b);
}

/// A reverse entry survives a later write of a decomposition holding no
/// blob that collides with it: a later pair under the same id then carries
/// the same blob.  A colliding distinct blob — the small-id risk the design
/// accepts — is exactly what this hypothesis excludes.
pub proof fn lemma_reverse_entry_survives_put(
    rev: Map<Seq<u8>, Seq<u8>>,
    v: ValModel,
    b: Seq<u8>,
)
    requires
        rev.contains_pair(spec_id_of(b), b),
        forall|j: int| 0 <= j < spec_serialize(v).len()
            && (#[trigger] spec_serialize(v)[j]).1 == spec_id_of(b)
            ==> spec_serialize(v)[j].0 == b,
    ensures
        store_reverse_after(rev, spec_serialize(v)).contains_pair(spec_id_of(b), b),
{
    lemma_last_blob_for_uncollided(spec_serialize(v), spec_id_of(b), b);
    lemma_reverse_after_at(rev, spec_serialize(v), spec_id_of(b));
}

/// If every pair of the list that carries id `k` carries blob `b`, then the
/// last blob written under `k`, if any, is `b`.
proof fn lemma_last_blob_for_uncollided(bs: Seq<(Seq<u8>, Seq<u8>)>, k: Seq<u8>, b: Seq<u8>)
    requires
        forall|j: int| 0 <= j < bs.len() && (#[trigger] bs[j]).1 == k ==> bs[j].0 == b,
    ensures
        last_blob_for(bs, k) matches Some(v) ==> v == b,
    decreases bs.len(),
{
    if bs.len() > 0 && bs.last().1 != k {
        assert(forall|j: int| 0 <= j < bs.drop_last().len()
            && (#[trigger] bs.drop_last()[j]).1 == k ==> bs.drop_last()[j].0 == b);
        lemma_last_blob_for_uncollided(bs.drop_last(), k, b);
    }
}

/// The deduplication law: after storing two values whose decompositions
/// both carry the blob `b` (a shared sub-value stored by both), the forward
/// index holds the single entry `b` for those bytes — a map holds one entry
/// per key, so the shared blob is stored once.
pub proof fn lemma_dedup_shared_blob(
    m: Map<Seq<u8>, Seq<u8>>,
    v1: ValModel,
    v2: ValModel,
    b: (Seq<u8>, Seq<u8>),
)
    requires
        spec_serialize(v1).contains(b),
        spec_serialize(v2).contains(b),
    ensures
        store_forward_after(store_forward_after(m, spec_serialize(v1)), spec_serialize(v2))
            .contains_pair(b.0, b.1),
{
    let m1 = store_forward_after(m, spec_serialize(v1));
    let i = choose|i: int| 0 <= i < spec_serialize(v2).len()
        && #[trigger] spec_serialize(v2)[i] == b;
    lemma_forward_after_contains(m1, v2, i);
}

/// A structural field of a record has its own blob in the record's
/// decomposition: this is the pair two values containing the field share.
pub proof fn lemma_field_blob_listed(t: u8, fs: Seq<ValModel>, i: int)
    requires
        0 <= i < fs.len(),
        !model_primitive(fs[i]),
    ensures
        spec_serialize(ValModel::Record(t, fs)).contains(
            (spec_encode(fs[i]), spec_id_of(spec_encode(fs[i]))),
        ),
{
    lemma_nested_fields_listed(fs, i);
    let b = (spec_encode(fs[i]), spec_id_of(spec_encode(fs[i])));
    let j = choose|j: int| 0 <= j < spec_nested_fields(fs).len()
        && #[trigger] spec_nested_fields(fs)[j] == b;
    assert(spec_serialize(ValModel::Record(t, fs))[j] == b);
}

/// [`lemma_field_blob_listed`] at the field-list level.
proof fn lemma_nested_fields_listed(fs: Seq<ValModel>, i: int)
    requires
        0 <= i < fs.len(),
        !model_primitive(fs[i]),
    ensures
        spec_nested_fields(fs).contains(
            (spec_encode(fs[i]), spec_id_of(spec_encode(fs[i]))),
        ),
    decreases fs.len(),
{
    let b = (spec_encode(fs[i]), spec_id_of(spec_encode(fs[i])));
    if i == fs.len() - 1 {
        let own = spec_field_blobs(fs.last());
        assert(own.last() == b);
        let whole = spec_nested_fields(fs);
        assert(whole[whole.len() - 1] == b);
    } else {
        lemma_nested_fields_listed(fs.drop_last(), i);
        assert(fs.drop_last()[i] == fs[i]);
        let j = choose|j: int| 0 <= j < spec_nested_fields(fs.drop_last()).len()
            && #[trigger] spec_nested_fields(fs.drop_last())[j] == b;
        assert(spec_nested_fields(fs)[j] == b);
    }
}

/// Decoding depends on a table only through what it resolves: two tables
/// that answer every lookup alike decode every buffer alike.
pub proof fn lemma_decode_table_congruence(
    s: Shape,
    bytes: Seq<u8>,
    t1: Seq<(Seq<u8>, Seq<u8>)>,
    t2: Seq<(Seq<u8>, Seq<u8>)>,
    reg: Seq<Seq<Shape>>,
    budget: nat,
)
    requires
        forall|k: Seq<u8>| #[trigger] spec_lookup(t1, k) == spec_lookup(t2, k),
    ensures
        spec_decode(s, bytes, t1, reg, budget) == spec_decode(s, bytes, t2, reg, budget),
    decreases budget, s,
{
    match s {
        Shape::Unit => {},
        Shape::Prim(_) => {},
        Shape::Record(t) => {
            if bytes.len() >= 1 && budget > 0 {
                lemma_decode_fields_table_congruence(reg[t as int], bytes.skip(1), t1, t2, reg,
                    (budget - 1) as nat);
            }
        },
        Shape::Pair(sa, sb) => {
            lemma_decode_table_congruence(*sa, bytes, t1, t2, reg, budget);
            if let Some((r1, _a)) = spec_decode(*sa, bytes, t1, reg, budget) {
                lemma_decode_table_congruence(*sb, r1, t1, t2, reg, budget);
            }
        },
        Shape::Optional(si) => {
            if bytes.len() > 0 && bytes[0] == 1 {
                lemma_decode_table_congruence(*si, bytes.skip(1), t1, t2, reg, budget);
            }
        },
    }
}

/// [`lemma_decode_table_congruence`] for a record's field list.
pub proof fn lemma_decode_fields_table_congruence(
    shapes: Seq<Shape>,
    bytes: Seq<u8>,
    t1: Seq<(Seq<u8>, Seq<u8>)>,
    t2: Seq<(Seq<u8>, Seq<u8>)>,
    reg: Seq<Seq<Shape>>,
    budget: nat,
)
    requires
        forall|k: Seq<u8>| #[trigger] spec_lookup(t1, k) == spec_lookup(t2, k),
    ensures
        spec_decode_fields(shapes, bytes, t1, reg, budget)
            == spec_decode_fields(shapes, bytes, t2, reg, budget),
    decreases budget, shapes,
{
    if shapes.len() == 0 {
    } else if shape_primitive(shapes[0]) {
        lemma_decode_table_congruence(shapes[0], bytes, t1, t2, reg, budget);
        if let Some((r1, _m)) = spec_decode(shapes[0], bytes, t1, reg, budget) {
            lemma_decode_fields_table_congruence(shapes.drop_first(), r1, t1, t2, reg, budget);
        }
    } else if bytes.len() >= 8 {
        if let Some(blob) = spec_lookup(t1, bytes.take(8)) {
            lemma_decode_table_congruence(shapes[0], blob, t1, t2, reg, budget);
            if spec_decode(shapes[0], blob, t1, reg, budget) is Some {
                lemma_decode_fields_table_congruence(shapes.drop_first(), bytes.skip(8), t1, t2,
                    reg, budget);
            }
        }
    }
}

/// Scanning depends on the tables only through what they resolve.
pub proof fn lemma_scan_table_congruence(
    es: Seq<(Seq<u8>, Seq<u8>)>,
    s: Shape,
    t1: Seq<(Seq<u8>, Seq<u8>)>,
    t2: Seq<(Seq<u8>, Seq<u8>)>,
    reg: Seq<Seq<Shape>>,
)
    requires
        forall|k: Seq<u8>| #[trigger] spec_lookup(t1, k) == spec_lookup(t2, k),
    ensures
        spec_scan(es, s, t1, reg) == spec_scan(es, s, t2, reg),
    decreases es.len(),
{
    if es.len() > 0 {
        lemma_decode_table_congruence(s, es[0].0, t1, t2, reg, DECODE_BUDGET as nat);
        lemma_scan_table_congruence(es.drop_first(), s, t1, t2, reg);
    }
}

/// The scan-determinism law: for one store state (a forward map, a reverse
/// map), one prefix and one shape, every ordered snapshot and every
/// faithful reverse table give the same scan result.  With this, the
/// store's scan output is a function of its indices and the probe.
pub proof fn lemma_scan_deterministic(
    es1: Seq<(Seq<u8>, Seq<u8>)>,
    tb1: Seq<(Seq<u8>, Seq<u8>)>,
    es2: Seq<(Seq<u8>, Seq<u8>)>,
    tb2: Seq<(Seq<u8>, Seq<u8>)>,
    fwd: Map<Seq<u8>, Seq<u8>>,
    rev: Map<Seq<u8>, Seq<u8>>,
    p: Seq<u8>,
    s: Shape,
    reg: Seq<Seq<Shape>>,
)
    requires
        is_sorted_matching(es1, fwd, p),
        is_sorted_matching(es2, fwd, p),
        table_matches_map(tb1, rev),
        table_matches_map(tb2, rev),
    ensures
        spec_scan(es1, s, tb1, reg) == spec_scan(es2, s, tb2, reg),
{
    crate::order::lemma_sorted_matching_unique(es1, es2, fwd, p);
    lemma_scan_table_congruence(es1, s, tb1, tb2, reg);
}

/// The encoding of a record's first `j` fields is a prefix of the encoding
/// of all its fields.
pub proof fn lemma_encode_fields_prefix(fs: Seq<ValModel>, j: int)
    requires
        0 <= j <= fs.len(),
    ensures
        is_prefix_of(spec_encode_fields(fs.take(j)), spec_encode_fields(fs)),
    decreases fs.len(),
{
    if j == fs.len() {
        assert(fs.take(j) =~= fs);
        assert(spec_encode_fields(fs).take(spec_encode_fields(fs).len() as int)
            =~= spec_encode_fields(fs));
    } else {
        let dl = fs.drop_last();
        assert(fs.take(j) =~= dl.take(j));
        lemma_encode_fields_prefix(dl, j);
        let p = spec_encode_fields(fs.take(j));
        assert(spec_encode_fields(fs) == spec_encode_fields(dl) + spec_field_encoding(fs.last()));
        assert(p.len() <= spec_encode_fields(fs).len());
        assert(spec_encode_fields(fs).take(p.len() as int) =~= spec_encode_fields(dl).take(
            p.len() as int,
        ));
    }
}

} // verus!
