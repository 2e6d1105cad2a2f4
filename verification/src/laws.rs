//! Laws of the structural comparator.
//!
//! Each proof function states one property of the comparison for every
//! input it speaks of: the volatile key can never be the reason an object
//! is rejected, a key the re-encoding dropped is always reported by name,
//! and information the re-encoding adds never changes the verdict.

use vstd::prelude::*;

use crate::compare::arr_msg;
use crate::compare::arr_ok;
use crate::compare::check_msg;
use crate::compare::check_ok;
use crate::compare::head_or_null;
use crate::compare::key_msg;
use crate::compare::missing_msg;
use crate::compare::obj_msg;
use crate::compare::obj_ok;
use crate::compare::tail_or_empty;
use crate::compare::volatile_key;
use crate::json::entries_of;
use crate::json::lookup;
use crate::json::lookup_entries;
use crate::json::JsonNumber;
use crate::json::JsonValue;

verus! {

/// Whether some entry carries the key.
pub open spec fn has_key(es: Seq<(String, JsonValue)>, k: Seq<char>) -> bool {
    exists|j: int| 0 <= j < es.len() && es[j].0@ == k
}

/// Law: the volatile field is exempt. Wherever the volatile key stands in
/// an object, with any value at all, the comparison of that object is the
/// comparison of the other entries alone — the volatile entry's value and
/// its counterpart in the re-encoding can never make the verdict or the
/// reported failure differ, while the entries around it are still
/// compared.
pub proof fn lemma_volatile_field_exemption(
    pre: Seq<(String, JsonValue)>,
    k: String,
    vv: JsonValue,
    rest: Seq<(String, JsonValue)>,
    d: JsonValue,
)
    requires
        k@ == volatile_key(),
    ensures
        obj_ok(pre + seq![(k, vv)] + rest, d) == obj_ok(pre + rest, d),
        obj_msg(pre + seq![(k, vv)] + rest, d) == obj_msg(pre + rest, d),
    decreases pre.len(),
{
    let whole = pre + seq![(k, vv)] + rest;
    let without = pre + rest;
    if pre.len() == 0 {
        assert(whole[0] == (k, vv));
        assert(whole.drop_first() =~= rest);
        assert(without =~= rest);
    } else {
        assert(whole[0] == pre[0]);
        assert(without[0] == pre[0]);
        assert(whole.drop_first() =~= pre.drop_first() + seq![(k, vv)] + rest);
        assert(without.drop_first() =~= pre.drop_first() + rest);
        lemma_volatile_field_exemption(pre.drop_first(), k, vv, rest, d);
    }
}

/// Law: loss is detected and named. Where entry `i` of an object is the
/// first that fails — every earlier entry is either volatile, and so
/// skipped, or passes — and it fails because the re-encoding dropped its
/// non-null value, the object is rejected and the failure text is exactly
/// the missing-value report wrapped in that entry's key name.
pub proof fn lemma_loss_detection(es: Seq<(String, JsonValue)>, i: int, d: JsonValue)
    requires
        0 <= i < es.len(),
        forall|j: int| 0 <= j < i ==> (#[trigger] es[j]).0@ == volatile_key() || check_ok(
            es[j].1,
            lookup(d, es[j].0@),
        ),
        es[i].0@ != volatile_key(),
        !(es[i].1 is Null),
        lookup(d, es[i].0@) is Null,
    ensures
        !obj_ok(es, d),
        obj_msg(es, d) == key_msg(es[i].0@, missing_msg()),
        obj_msg(es, d).subrange(12, 12 + es[i].0@.len() as int) == es[i].0@,
    decreases i,
{
    if i == 0 {
        assert(!check_ok(es[0].1, lookup(d, es[0].0@)));
        assert(check_msg(es[0].1, lookup(d, es[0].0@)) == missing_msg());
    } else {
        let tail = es.drop_first();
        assert(tail[i - 1] == es[i]);
        assert forall|j: int| 0 <= j < i - 1 implies (#[trigger] tail[j]).0@ == volatile_key()
            || check_ok(tail[j].1, lookup(d, tail[j].0@)) by {
            assert(tail[j] == es[j + 1]);
        }
        lemma_loss_detection(tail, i - 1, d);
        assert(es[0].0@ == volatile_key() || check_ok(es[0].1, lookup(d, es[0].0@)));
    }
    lemma_key_msg_names_key(es[i].0@, missing_msg());
}

/// Law: numbers are compared by value. On well-formed values — every
/// number canonical, as `JsonNumber::new` builds them and
/// `crate::json::well_formed` states — the comparison of two numbers
/// succeeds exactly when they denote the same numeric value, whatever
/// textual forms they were read from.
pub proof fn lemma_numbers_compared_by_value(a: JsonNumber, b: JsonNumber)
    requires
        a.is_canonical(),
        b.is_canonical(),
    ensures
        check_ok(JsonValue::Number(a), JsonValue::Number(b)) <==> a.same_value(b),
{
    JsonNumber::lemma_canonical_eq_iff_same_value(a, b);
}

/// The wrapped failure text carries the key's characters verbatim, right
/// after its fixed opening words.
pub proof fn lemma_key_msg_names_key(k: Seq<char>, inner: Seq<char>)
    ensures
        key_msg(k, inner).subrange(12, 12 + k.len() as int) == k,
{
    reveal_strlit("input key ('");
    assert("input key ('"@.len() == 12);
    assert(key_msg(k, inner).subrange(12, 12 + k.len() as int) =~= k);
}

/// Law: extra array elements are tolerated. Trailing elements the
/// re-encoding adds past the original's length change neither the verdict
/// nor the reported failure.
pub proof fn lemma_addition_tolerance_array(
    xs: Seq<JsonValue>,
    ds: Seq<JsonValue>,
    extra: Seq<JsonValue>,
    base: int,
)
    requires
        ds.len() >= xs.len(),
    ensures
        arr_ok(xs, ds + extra) == arr_ok(xs, ds),
        arr_msg(xs, ds + extra, base) == arr_msg(xs, ds, base),
    decreases xs.len(),
{
    if xs.len() != 0 {
        assert(head_or_null(ds + extra) == head_or_null(ds));
        assert(tail_or_empty(ds + extra) =~= tail_or_empty(ds) + extra);
        lemma_addition_tolerance_array(xs.drop_first(), ds.drop_first(), extra, base + 1);
    }
}

/// A key no entry carries looks up to null.
proof fn lemma_lookup_absent(es: Seq<(String, JsonValue)>, k: Seq<char>)
    requires
        !has_key(es, k),
    ensures
        lookup_entries(es, k) is Null,
    decreases es.len(),
{
    if es.len() != 0 {
        assert(es[0].0@ != k);
        if has_key(es.drop_first(), k) {
            let j = choose|j: int|
                0 <= j < es.drop_first().len() && es.drop_first()[j].0@ == k;
            assert(es[j + 1].0@ == k);
            assert(false);
        }
        lemma_lookup_absent(es.drop_first(), k);
    }
}

/// Appending entries that do not carry the key leaves its lookup alone.
proof fn lemma_lookup_append(
    de: Seq<(String, JsonValue)>,
    extra: Seq<(String, JsonValue)>,
    k: Seq<char>,
)
    requires
        !has_key(extra, k),
    ensures
        lookup_entries(de + extra, k) == lookup_entries(de, k),
    decreases de.len(),
{
    if de.len() == 0 {
        assert(de + extra =~= extra);
        lemma_lookup_absent(extra, k);
    } else {
        assert((de + extra)[0] == de[0]);
        assert((de + extra).drop_first() =~= de.drop_first() + extra);
        lemma_lookup_append(de.drop_first(), extra, k);
    }
}

/// An object comparison reads the re-encoded value only through key
/// lookups: two re-encodings that agree on every key of the original
/// receive the same verdict and the same failure text.
pub proof fn lemma_object_lookup_agreement(
    es: Seq<(String, JsonValue)>,
    d1: JsonValue,
    d2: JsonValue,
)
    requires
        forall|j: int| 0 <= j < es.len() ==> lookup(d1, (#[trigger] es[j]).0@) == lookup(
            d2,
            es[j].0@,
        ),
    ensures
        obj_ok(es, d1) == obj_ok(es, d2),
        obj_msg(es, d1) == obj_msg(es, d2),
    decreases es.len(),
{
    if es.len() != 0 {
        let tail = es.drop_first();
        assert forall|j: int| 0 <= j < tail.len() implies lookup(d1, (#[trigger] tail[j]).0@)
            == lookup(d2, tail[j].0@) by {
            assert(tail[j] == es[j + 1]);
        }
        lemma_object_lookup_agreement(tail, d1, d2);
        assert(lookup(d1, es[0].0@) == lookup(d2, es[0].0@));
    }
}

/// Where the walk of the original `v` reads two re-encodings alike.
///
/// The comparison reads a re-encoding only at `v`'s own keys and indices,
/// outside the volatile entry: at a leaf of `v` the two must admit the
/// same verdict, at an array each position up to `v`'s length must agree,
/// at an object the lookup of each non-volatile key of `v` must agree —
/// and a value the walk reads as present in one and absent in the other
/// never agrees. Everything else — keys `v` does not carry, elements past
/// `v`'s length, the whole subtree under a volatile key — is free.
pub open spec fn walk_agrees(v: JsonValue, d1: JsonValue, d2: JsonValue) -> bool
    decreases v,
{
    if d1 is Null && d2 is Null {
        true
    } else if d1 is Null || d2 is Null {
        false
    } else {
        match v {
            JsonValue::Array(xs) => walk_agrees_elems(xs@, crate::json::elems_of(d1), crate::json::elems_of(d2)),
            JsonValue::Object(es) => walk_agrees_entries(es@, d1, d2),
            _ => check_ok(v, d1) == check_ok(v, d2),
        }
    }
}

/// Pairwise agreement along the original's elements.
pub open spec fn walk_agrees_elems(
    xs: Seq<JsonValue>,
    ds1: Seq<JsonValue>,
    ds2: Seq<JsonValue>,
) -> bool
    decreases xs,
{
    xs.len() == 0 || (walk_agrees(xs[0], head_or_null(ds1), head_or_null(ds2))
        && walk_agrees_elems(xs.drop_first(), tail_or_empty(ds1), tail_or_empty(ds2)))
}

/// Agreement at each non-volatile key of the original's entries.
pub open spec fn walk_agrees_entries(
    es: Seq<(String, JsonValue)>,
    d1: JsonValue,
    d2: JsonValue,
) -> bool
    decreases es,
{
    es.len() == 0 || ((es[0].0@ == volatile_key() || walk_agrees(
        es[0].1,
        lookup(d1, es[0].0@),
        lookup(d2, es[0].0@),
    )) && walk_agrees_entries(es.drop_first(), d1, d2))
}

/// Law: additions are tolerated at any depth. Two re-encodings that the
/// walk of the original reads alike receive the same verdict; since a
/// re-encoding that only adds — extra object keys the original does not
/// carry, extra array elements past the original's length, anything at
/// all under a volatile key, at any nesting depth — is read exactly like
/// the one without the additions, the additions can never change the
/// verdict.
pub proof fn lemma_walk_agreement(v: JsonValue, d1: JsonValue, d2: JsonValue)
    requires
        walk_agrees(v, d1, d2),
    ensures
        check_ok(v, d1) == check_ok(v, d2),
    decreases v,
{
    if !(d1 is Null && d2 is Null) {
        match v {
            JsonValue::Array(xs) => {
                lemma_walk_agreement_elems(
                    xs@,
                    crate::json::elems_of(d1),
                    crate::json::elems_of(d2),
                );
            },
            JsonValue::Object(es) => {
                lemma_walk_agreement_entries(es@, d1, d2);
            },
            _ => {},
        }
    }
}

/// The element-wise step of the walk-agreement law.
proof fn lemma_walk_agreement_elems(xs: Seq<JsonValue>, ds1: Seq<JsonValue>, ds2: Seq<JsonValue>)
    requires
        walk_agrees_elems(xs, ds1, ds2),
    ensures
        arr_ok(xs, ds1) == arr_ok(xs, ds2),
    decreases xs,
{
    if xs.len() != 0 {
        lemma_walk_agreement(xs[0], head_or_null(ds1), head_or_null(ds2));
        lemma_walk_agreement_elems(xs.drop_first(), tail_or_empty(ds1), tail_or_empty(ds2));
    }
}

/// The entry-wise step of the walk-agreement law.
proof fn lemma_walk_agreement_entries(es: Seq<(String, JsonValue)>, d1: JsonValue, d2: JsonValue)
    requires
        walk_agrees_entries(es, d1, d2),
    ensures
        obj_ok(es, d1) == obj_ok(es, d2),
    decreases es,
{
    if es.len() != 0 {
        if es[0].0@ != volatile_key() {
            lemma_walk_agreement(es[0].1, lookup(d1, es[0].0@), lookup(d2, es[0].0@));
        }
        lemma_walk_agreement_entries(es.drop_first(), d1, d2);
    }
}

/// Law: extra object keys are tolerated. A re-encoding whose entries are
/// the original re-encoding's entries followed by entries under keys the
/// original object does not carry receives the same verdict and the same
/// failure text.
pub proof fn lemma_addition_tolerance_object(
    es: Seq<(String, JsonValue)>,
    d1: JsonValue,
    d2: JsonValue,
    extra: Seq<(String, JsonValue)>,
)
    requires
        entries_of(d2) == entries_of(d1) + extra,
        forall|j: int| 0 <= j < extra.len() ==> !has_key(es, (#[trigger] extra[j]).0@),
    ensures
        obj_ok(es, d2) == obj_ok(es, d1),
        obj_msg(es, d2) == obj_msg(es, d1),
{
    assert forall|j: int| 0 <= j < es.len() implies lookup(d2, (#[trigger] es[j]).0@) == lookup(
        d1,
        es[j].0@,
    ) by {
        let k = es[j].0@;
        if has_key(extra, k) {
            let j2 = choose|j2: int| 0 <= j2 < extra.len() && extra[j2].0@ == k;
            assert(!has_key(es, extra[j2].0@));
            assert(0 <= j < es.len() && es[j].0@ == k);
            assert(false);
        }
        lemma_lookup_append(entries_of(d1), extra, k);
    }
    lemma_object_lookup_agreement(es, d2, d1);
}

} // verus!
