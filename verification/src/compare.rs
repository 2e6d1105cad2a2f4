//! The structural comparator.
//!
//! `check` walks the original value and requires the re-encoded value to
//! carry the same information: every key and index of the original must be
//! present and equal in the re-encoding, while information the re-encoding
//! adds is ignored. One object key is volatile — it is stamped by the
//! runtime rather than the submitter — and its entry is skipped: its
//! subtree is never descended into, whatever the re-encoding holds there,
//! while the sibling entries around it are still compared. The first
//! mismatch found in walking order is reported, annotated with the key or
//! index path.

use vstd::prelude::*;

use crate::json::dec_of;
use crate::json::dec_str;
use crate::json::elems_of;
use crate::json::lookup;
use crate::json::lookup_entries;
use crate::json::render;
use crate::json::spec_render;
use crate::json::JsonValue;

verus! {

/// The one field name exempt from comparison: the creation stamp the
/// control plane fills in at persistence time.
pub open spec fn volatile_key() -> Seq<char> {
    "creationTimestamp"@
}

/// Failure text for a value the re-encoding lost.
pub open spec fn missing_msg() -> Seq<char> {
    "no matching value in deserialized"@
}

/// Failure text for two leaf values that differ.
pub open spec fn mismatch_msg(a: Seq<char>, b: Seq<char>) -> Seq<char> {
    "input ("@ + a + ") not equal to parsed ("@ + b + ")"@
}

/// Failure text for a mismatch below an object key.
pub open spec fn key_msg(k: Seq<char>, inner: Seq<char>) -> Seq<char> {
    "input key ('"@ + k + "') not equal to parsed: ("@ + inner + ")"@
}

/// Failure text for a mismatch below an array index.
pub open spec fn index_msg(i: int, inner: Seq<char>) -> Seq<char> {
    "input index ("@ + dec_of(i as nat) + ") not equal to parsed: ("@ + inner + ")"@
}

/// First element of a sequence, or null where there is none: an absent
/// array position reads as a missing value.
pub open spec fn head_or_null(s: Seq<JsonValue>) -> JsonValue {
    if s.len() == 0 {
        JsonValue::Null
    } else {
        s[0]
    }
}

/// The sequence without its first element, or empty where there is none.
pub open spec fn tail_or_empty(s: Seq<JsonValue>) -> Seq<JsonValue> {
    if s.len() == 0 {
        s
    } else {
        s.drop_first()
    }
}

/// Whether the original value `v` survives into the re-encoded value `d`.
///
/// A null re-encoding matches only a null original; leaves must be equal
/// with equal kinds; arrays are checked pairwise by index against the
/// re-encoded elements, a missing position reading as null; objects are
/// checked key by key in entry order, each key looked up in the
/// re-encoding, with the volatile key's entry skipped.
pub open spec fn check_ok(v: JsonValue, d: JsonValue) -> bool
    decreases v,
{
    if d is Null {
        v is Null
    } else {
        match v {
            JsonValue::Null => false,
            JsonValue::Bool(b) => d matches JsonValue::Bool(db) && b == db,
            JsonValue::Number(n) => d matches JsonValue::Number(dn) && n == dn,
            JsonValue::Str(s) => d matches JsonValue::Str(ds) && s@ == ds@,
            JsonValue::Array(xs) => arr_ok(xs@, elems_of(d)),
            JsonValue::Object(es) => obj_ok(es@, d),
        }
    }
}

/// Pairwise element check, walking both sequences together.
pub open spec fn arr_ok(xs: Seq<JsonValue>, ds: Seq<JsonValue>) -> bool
    decreases xs,
{
    if xs.len() == 0 {
        true
    } else {
        check_ok(xs[0], head_or_null(ds)) && arr_ok(xs.drop_first(), tail_or_empty(ds))
    }
}

/// Entry-by-entry object check against lookups in the re-encoded value;
/// an entry under the volatile key is skipped, the rest still compared.
pub open spec fn obj_ok(es: Seq<(String, JsonValue)>, d: JsonValue) -> bool
    decreases es,
{
    if es.len() == 0 {
        true
    } else if es[0].0@ == volatile_key() {
        obj_ok(es.drop_first(), d)
    } else {
        check_ok(es[0].1, lookup(d, es[0].0@)) && obj_ok(es.drop_first(), d)
    }
}

/// The failure text `check` reports; meaningful where `check_ok` is false.
pub open spec fn check_msg(v: JsonValue, d: JsonValue) -> Seq<char>
    decreases v,
{
    if d is Null {
        missing_msg()
    } else {
        match v {
            JsonValue::Array(xs) => arr_msg(xs@, elems_of(d), 0),
            JsonValue::Object(es) => obj_msg(es@, d),
            _ => mismatch_msg(spec_render(v), spec_render(d)),
        }
    }
}

/// The failure text of the first failing index, counted from `base`.
pub open spec fn arr_msg(xs: Seq<JsonValue>, ds: Seq<JsonValue>, base: int) -> Seq<char>
    decreases xs,
{
    if xs.len() == 0 {
        Seq::empty()
    } else if !check_ok(xs[0], head_or_null(ds)) {
        index_msg(base, check_msg(xs[0], head_or_null(ds)))
    } else {
        arr_msg(xs.drop_first(), tail_or_empty(ds), base + 1)
    }
}

/// The failure text of the first failing key.
pub open spec fn obj_msg(es: Seq<(String, JsonValue)>, d: JsonValue) -> Seq<char>
    decreases es,
{
    if es.len() == 0 {
        Seq::empty()
    } else if es[0].0@ == volatile_key() {
        obj_msg(es.drop_first(), d)
    } else if !check_ok(es[0].1, lookup(d, es[0].0@)) {
        key_msg(es[0].0@, check_msg(es[0].1, lookup(d, es[0].0@)))
    } else {
        obj_msg(es.drop_first(), d)
    }
}

/// Dropping the head of a suffix moves the suffix start one to the right.
pub proof fn lemma_suffix_step<A>(s: Seq<A>, i: int)
    requires
        0 <= i < s.len(),
    ensures
        s.subrange(i, s.len() as int).drop_first() == s.subrange(i + 1, s.len() as int),
{
    assert(s.subrange(i, s.len() as int).drop_first() =~= s.subrange(i + 1, s.len() as int));
}

/// The suffix of the re-encoded elements seen from position `i`.
pub open spec fn suffix_from(s: Seq<JsonValue>, i: int) -> Seq<JsonValue> {
    if 0 <= i < s.len() {
        s.subrange(i, s.len() as int)
    } else {
        Seq::empty()
    }
}

/// Stepping the re-encoded suffix agrees with dropping its head.
proof fn lemma_suffix_from_step(s: Seq<JsonValue>, i: int)
    requires
        0 <= i,
    ensures
        tail_or_empty(suffix_from(s, i)) == suffix_from(s, i + 1),
        head_or_null(suffix_from(s, i)) == (if i < s.len() {
            s[i]
        } else {
            JsonValue::Null
        }),
{
    if i < s.len() {
        if i + 1 < s.len() {
            lemma_suffix_step(s, i);
        } else {
            assert(suffix_from(s, i).drop_first() =~= Seq::<JsonValue>::empty());
        }
    }
}

/// Builds the missing-value failure text.
fn missing_str() -> (s: String)
    ensures
        s@ == missing_msg(),
{
    String::from_str("no matching value in deserialized")
}

/// Builds the leaf mismatch failure text.
fn mismatch_str(v: &JsonValue, d: &JsonValue) -> (s: String)
    ensures
        s@ == mismatch_msg(spec_render(*v), spec_render(*d)),
{
    let mut s = String::from_str("input (");
    s.append(render(v).as_str());
    s.append(") not equal to parsed (");
    s.append(render(d).as_str());
    s.append(")");
    s
}

/// Wraps an inner failure text with the object key it sits under.
fn key_wrap(k: &String, inner: &String) -> (s: String)
    ensures
        s@ == key_msg(k@, inner@),
{
    let mut s = String::from_str("input key ('");
    s.append(k.as_str());
    s.append("') not equal to parsed: (");
    s.append(inner.as_str());
    s.append(")");
    s
}

/// Wraps an inner failure text with the array index it sits under.
fn index_wrap(i: usize, inner: &String) -> (s: String)
    ensures
        s@ == index_msg(i as int, inner@),
{
    let mut s = String::from_str("input index (");
    s.append(dec_str(i as u64).as_str());
    s.append(") not equal to parsed: (");
    s.append(inner.as_str());
    s.append(")");
    s
}

/// Looks a key up in the re-encoded value: the first entry of an object
/// with that key, and null anywhere the key is absent.
fn lookup_ref<'a>(d: &'a JsonValue, k: &String, null_v: &'a JsonValue) -> (r: &'a JsonValue)
    requires
        *null_v == JsonValue::Null,
    ensures
        *r == lookup(*d, k@),
{
    match d {
        JsonValue::Object(es) => {
            let n = es.len();
            let mut j: usize = 0;
            proof {
                assert(es@.subrange(0, n as int) =~= es@);
            }
            while j < n
                invariant
                    j <= n,
                    n == es@.len(),
                    *d == JsonValue::Object(*es),
                    *null_v == JsonValue::Null,
                    lookup_entries(es@, k@) == lookup_entries(
                        es@.subrange(j as int, n as int),
                        k@,
                    ),
                decreases n - j,
            {
                if es[j].0.eq(k) {
                    assert(es@.subrange(j as int, n as int)[0] == es@[j as int]);
                    return &es[j].1;
                }
                proof {
                    lemma_suffix_step(es@, j as int);
                }
                j += 1;
            }
            assert(es@.subrange(n as int, n as int) =~= Seq::<(String, JsonValue)>::empty());
            null_v
        },
        _ => null_v,
    }
}

/// The structural comparator: succeeds when the original value `v`
/// survives into the re-encoded value `deserialized`, and otherwise
/// reports the first mismatch in walking order, annotated with its path.
pub fn check(v: &JsonValue, deserialized: &JsonValue) -> (r: Result<(), String>)
    ensures
        r is Ok <==> check_ok(*v, *deserialized),
        r matches Err(m) ==> m@ == check_msg(*v, *deserialized),
    decreases *v,
{
    if let JsonValue::Null = deserialized {
        return if let JsonValue::Null = v {
            Ok(())
        } else {
            Err(missing_str())
        };
    }
    match v {
        JsonValue::Null => Err(mismatch_str(v, deserialized)),
        JsonValue::Bool(b) => {
            match deserialized {
                JsonValue::Bool(db) => {
                    if *b == *db {
                        Ok(())
                    } else {
                        Err(mismatch_str(v, deserialized))
                    }
                },
                _ => Err(mismatch_str(v, deserialized)),
            }
        },
        JsonValue::Number(n) => {
            match deserialized {
                JsonValue::Number(dn) => {
                    if *n == *dn {
                        Ok(())
                    } else {
                        Err(mismatch_str(v, deserialized))
                    }
                },
                _ => Err(mismatch_str(v, deserialized)),
            }
        },
        JsonValue::Str(s) => {
            match deserialized {
                JsonValue::Str(ds) => {
                    if s.eq(ds) {
                        Ok(())
                    } else {
                        Err(mismatch_str(v, deserialized))
                    }
                },
                _ => Err(mismatch_str(v, deserialized)),
            }
        },
        JsonValue::Array(xs) => {
            let null_v = JsonValue::Null;
            let n = xs.len();
            let ghost dsq = elems_of(*deserialized);
            let mut i: usize = 0;
            proof {
                assert(xs@.subrange(0, n as int) =~= xs@);
                assert(suffix_from(dsq, 0) =~= dsq);
            }
            while i < n
                invariant
                    i <= n,
                    n == xs@.len(),
                    *v == JsonValue::Array(*xs),
                    null_v == JsonValue::Null,
                    !(*deserialized is Null),
                    dsq == elems_of(*deserialized),
                    arr_ok(xs@, dsq) == arr_ok(xs@.subrange(i as int, n as int), suffix_from(dsq, i as int)),
                    arr_msg(xs@, dsq, 0) == arr_msg(
                        xs@.subrange(i as int, n as int),
                        suffix_from(dsq, i as int),
                        i as int,
                    ),
                decreases n - i,
            {
                let di: &JsonValue = match deserialized {
                    JsonValue::Array(ds) => {
                        if i < ds.len() {
                            &ds[i]
                        } else {
                            &null_v
                        }
                    },
                    _ => &null_v,
                };
                let child: &JsonValue = &xs[i];
                proof {
                    lemma_suffix_from_step(dsq, i as int);
                    assert(xs@.subrange(i as int, n as int)[0] == xs@[i as int]);
                    assert(*di == head_or_null(suffix_from(dsq, i as int)));
                    assert(decreases_to!(*v => v->Array_0));
                    assert(v->Array_0 == *xs);
                    assert(decreases_to!(*xs => xs@));
                    assert(decreases_to!(xs@ => xs@[i as int]));
                    assert(decreases_to!(*v => xs@[i as int]));
                }
                match check(child, di) {
                    Ok(()) => {
                        proof {
                            lemma_suffix_step(xs@, i as int);
                        }
                    },
                    Err(e) => {
                        return Err(index_wrap(i, &e));
                    },
                }
                i += 1;
            }
            assert(xs@.subrange(n as int, n as int) =~= Seq::<JsonValue>::empty());
            Ok(())
        },
        JsonValue::Object(es) => {
            let vol = String::from_str("creationTimestamp");
            let null_v = JsonValue::Null;
            let n = es.len();
            let mut i: usize = 0;
            proof {
                assert(es@.subrange(0, n as int) =~= es@);
            }
            while i < n
                invariant
                    i <= n,
                    n == es@.len(),
                    *v == JsonValue::Object(*es),
                    vol@ == volatile_key(),
                    null_v == JsonValue::Null,
                    !(*deserialized is Null),
                    obj_ok(es@, *deserialized) == obj_ok(
                        es@.subrange(i as int, n as int),
                        *deserialized,
                    ),
                    obj_msg(es@, *deserialized) == obj_msg(
                        es@.subrange(i as int, n as int),
                        *deserialized,
                    ),
                decreases n - i,
            {
                proof {
                    assert(es@.subrange(i as int, n as int)[0] == es@[i as int]);
                }
                if es[i].0.eq(&vol) {
                    proof {
                        lemma_suffix_step(es@, i as int);
                    }
                } else {
                    let dv = lookup_ref(deserialized, &es[i].0, &null_v);
                    let child: &JsonValue = &es[i].1;
                    proof {
                        assert(decreases_to!(*v => v->Object_0));
                        assert(v->Object_0 == *es);
                        assert(decreases_to!(*es => es@));
                        assert(decreases_to!(es@ => es@[i as int]));
                        assert(decreases_to!(es@[i as int] => es@[i as int].1));
                        assert(decreases_to!(*v => es@[i as int].1));
                    }
                    match check(child, dv) {
                        Ok(()) => {
                            proof {
                                lemma_suffix_step(es@, i as int);
                            }
                        },
                        Err(e) => {
                            return Err(key_wrap(&es[i].0, &e));
                        },
                    }
                }
                i += 1;
            }
            assert(es@.subrange(n as int, n as int) =~= Seq::<(String, JsonValue)>::empty());
            Ok(())
        },
    }
}

} // verus!
