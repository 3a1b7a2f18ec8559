use vstd::prelude::*;
use crate::json::{is_json, parse_annotated, text_of_annotated, JsonError};
use crate::value::{expected_message, one_unexpected, Annotated, Meta, Object, Val};

verus! {

/// Schema-driven conversion from an annotated untyped value. It never fails:
/// a mismatch becomes an error in the result's meta.
pub trait FromValue: Sized {
    /// `r` is what reading `value` as this type gives.
    spec fn read_spec(value: Annotated<Val>, r: Annotated<Self>) -> bool;

    fn from_value(value: Annotated<Val>) -> (r: Annotated<Self>)
        ensures
            Self::read_spec(value, r),
    ;
}

/// Conversion of an annotated typed value back to an untyped one.
pub trait ToValue: Sized {
    /// `r` is what writing `value` gives.
    spec fn write_spec(value: Annotated<Self>, r: Annotated<Val>) -> bool;

    fn to_value(value: Annotated<Self>) -> (r: Annotated<Val>)
        ensures
            Self::write_spec(value, r),
    ;
}

/// The `i`-th of `keys` is `key`, and none after it and before the `n`-th
/// is.
pub open spec fn last_key(keys: Seq<Seq<char>>, i: int, key: Seq<char>, n: int) -> bool {
    &&& keys[i] == key
    &&& forall|m: int| i < m < n ==> #[trigger] keys[m] != key
}

/// The input is absent or null: it becomes an absent value with its meta.
pub open spec fn absent_or_null(value: Annotated<Val>) -> bool {
    value.0 is None || value.0 == Some(Val::Null)
}

/// `r` is the input rejected as not being `expected`: absent, with one more
/// error and the input captured.
pub open spec fn rejected<T>(value: Annotated<Val>, r: Annotated<T>, expected: Seq<char>) -> bool {
    &&& value.0 is Some
    &&& r.0 is None
    &&& one_unexpected(value.1, r.1, expected, value.0->Some_0)
}

/// An absent value whose meta records that `value` is not `expected`.
pub fn reject<T>(value: Val, meta: Meta, expected: &str) -> (r: Annotated<T>)
    ensures
        r.0 is None,
        one_unexpected(meta, r.1, expected@, value),
{
    let mut meta = meta;
    meta.add_unexpected_value_error(expected, value);
    Annotated(None, meta)
}

/// `r` is what reading `value` as a string gives: a string as it is, absent
/// and null as absent, anything else rejected.
pub open spec fn string_read(value: Annotated<Val>, r: Annotated<String>) -> bool {
    &&& value.0 matches Some(Val::String(s)) ==> r == Annotated(Some(s), value.1)
    &&& absent_or_null(value) ==> r == Annotated::<String>(None, value.1)
    &&& !(value.0 matches Some(Val::String(_))) && !absent_or_null(value) ==> rejected(value, r, "a string"@)
}

/// `r` is what writing the string field `value` gives.
pub open spec fn string_written(value: Annotated<String>, r: Annotated<Val>) -> bool {
    &&& r.1 == value.1
    &&& value.0 matches Some(s) ==> r.0 == Some(Val::String(s))
    &&& value.0 is None ==> r.0 is None
}

/// `r` is what reading `value` as an unsigned integer gives.
pub open spec fn unsigned_read(value: Annotated<Val>, r: Annotated<u64>) -> bool {
    &&& value.0 matches Some(Val::U64(u)) ==> r == Annotated(Some(u), value.1)
    &&& (value.0 matches Some(Val::I64(i)) && i >= 0) ==> r == Annotated(Some(value.0->Some_0->I64_0 as u64), value.1)
    &&& absent_or_null(value) ==> r == Annotated::<u64>(None, value.1)
    &&& !(value.0 matches Some(Val::U64(_))) && !(value.0 matches Some(Val::I64(i)) && i >= 0)
        && !absent_or_null(value) ==> rejected(value, r, "an unsigned integer"@)
}

/// `r` is what writing the unsigned field `value` gives.
pub open spec fn unsigned_written(value: Annotated<u64>, r: Annotated<Val>) -> bool {
    &&& r.1 == value.1
    &&& value.0 matches Some(n) ==> r.0 == Some(unsigned_val(n))
    &&& value.0 is None ==> r.0 is None
}

/// A string field given a value of another kind reads as absent, with
/// exactly one error, `expected a string`, and the value captured.
pub proof fn mismatched_string_field(value: Annotated<Val>, r: Annotated<String>)
    requires
        string_read(value, r),
        value.1.blank(),
        value.0 is Some,
        !(value.0 matches Some(Val::String(_))),
        value.0 != Some(Val::Null),
    ensures
        r.0 is None,
        r.1.errors@.len() == 1,
        r.1.errors@[0]@ == expected_message("a string"@),
        r.1.original_value == value.0,
{
    assert(r.1.errors@.last() == r.1.errors@[0]);
}

/// Writing a string field and reading it back gives the field unchanged,
/// meta included.
pub proof fn string_round_trip(v: Annotated<String>, w: Annotated<Val>, r: Annotated<String>)
    requires
        string_written(v, w),
        string_read(w, r),
    ensures
        r == v,
{
}

/// Writing an unsigned integer field and reading it back gives the field
/// unchanged, meta included.
pub proof fn unsigned_round_trip(v: Annotated<u64>, w: Annotated<Val>, r: Annotated<u64>)
    requires
        unsigned_written(v, w),
        unsigned_read(w, r),
    ensures
        r == v,
{
}

impl FromValue for String {
    open spec fn read_spec(value: Annotated<Val>, r: Annotated<String>) -> bool {
        &&& string_read(value, r)
    }

    fn from_value(value: Annotated<Val>) -> (r: Annotated<String>) {
        match value {
            Annotated(Some(Val::String(s)), meta) => Annotated(Some(s), meta),
            Annotated(Some(Val::Null), meta) => Annotated(None, meta),
            Annotated(None, meta) => Annotated(None, meta),
            Annotated(Some(other), meta) => reject(other, meta, "a string"),
        }
    }
}

impl FromValue for u64 {
    open spec fn read_spec(value: Annotated<Val>, r: Annotated<u64>) -> bool {
        &&& unsigned_read(value, r)
    }

    fn from_value(value: Annotated<Val>) -> (r: Annotated<u64>) {
        match value {
            Annotated(Some(Val::U64(u)), meta) => Annotated(Some(u), meta),
            Annotated(Some(Val::I64(i)), meta) => {
                if i >= 0 {
                    Annotated(Some(i as u64), meta)
                } else {
                    reject(Val::I64(i), meta, "an unsigned integer")
                }
            },
            Annotated(Some(Val::Null), meta) => Annotated(None, meta),
            Annotated(None, meta) => Annotated(None, meta),
            Annotated(Some(other), meta) => reject(other, meta, "an unsigned integer"),
        }
    }
}

impl FromValue for bool {
    open spec fn read_spec(value: Annotated<Val>, r: Annotated<bool>) -> bool {
        &&& value.0 matches Some(Val::Bool(b)) ==> r == Annotated(Some(b), value.1)
        &&& absent_or_null(value) ==> r == Annotated::<bool>(None, value.1)
        &&& !(value.0 matches Some(Val::Bool(_))) && !absent_or_null(value) ==> rejected(value, r, "a boolean"@)
    }

    fn from_value(value: Annotated<Val>) -> (r: Annotated<bool>) {
        match value {
            Annotated(Some(Val::Bool(b)), meta) => Annotated(Some(b), meta),
            Annotated(Some(Val::Null), meta) => Annotated(None, meta),
            Annotated(None, meta) => Annotated(None, meta),
            Annotated(Some(other), meta) => reject(other, meta, "a boolean"),
        }
    }
}

impl FromValue for Val {
    open spec fn read_spec(value: Annotated<Val>, r: Annotated<Val>) -> bool {
        &&& r == value
    }

    fn from_value(value: Annotated<Val>) -> (r: Annotated<Val>) {
        value
    }
}

impl<T: FromValue> FromValue for Vec<Annotated<T>> {
    open spec fn read_spec(value: Annotated<Val>, r: Annotated<Vec<Annotated<T>>>) -> bool {
        &&& value.0 matches Some(Val::Array(items)) ==> (r.1 == value.1 && r.0 is Some
            && r.0->Some_0@.len() == items@.len()
            && forall|i: int| 0 <= i < items@.len() ==> T::read_spec(items@[i], #[trigger] r.0->Some_0@[i]))
        &&& absent_or_null(value) ==> r == Annotated::<Vec<Annotated<T>>>(None, value.1)
        &&& !(value.0 matches Some(Val::Array(_))) && !absent_or_null(value) ==> rejected(value, r, "an array"@)
    }

    fn from_value(value: Annotated<Val>) -> (r: Annotated<Vec<Annotated<T>>>) {
        match value {
            Annotated(Some(Val::Array(mut items)), meta) => {
                let ghost all = items@;
                let mut out: Vec<Annotated<T>> = Vec::new();
                while items.len() > 0
                    invariant
                        out@.len() + items@.len() == all.len(),
                        items@ == all.subrange(out@.len() as int, all.len() as int),
                        forall|i: int| 0 <= i < out@.len() ==> T::read_spec(all[i], #[trigger] out@[i]),
                    decreases items.len(),
                {
                    let ghost rest = items@;
                    let item = items.remove(0);
                    proof {
                        assert(rest[0] == all[out@.len() as int]);
                        assert(items@ =~= all.subrange(out@.len() as int + 1, all.len() as int));
                    }
                    out.push(T::from_value(item));
                }
                Annotated(Some(out), meta)
            },
            Annotated(Some(Val::Null), meta) => Annotated(None, meta),
            Annotated(None, meta) => Annotated(None, meta),
            Annotated(Some(other), meta) => reject(other, meta, "an array"),
        }
    }
}

/// `keys` and `of` hold the same keys.
pub open spec fn same_keys(keys: Seq<Seq<char>>, of: Seq<Seq<char>>) -> bool {
    &&& forall|i: int| 0 <= i < of.len() ==> keys.contains(#[trigger] of[i])
    &&& forall|k: Seq<char>| #[trigger] keys.contains(k) ==> of.contains(k)
}

/// Each key of `items` holds in `r` what reading the value of its last
/// entry gives.
pub open spec fn entries_read<T: FromValue>(items: Object<Val>, r: Object<T>) -> bool {
    forall|i: int| 0 <= i < items.keys().len() && #[trigger] last_key(items.keys(), i, items.keys()[i], items.keys().len() as int)
        ==> exists|v: Annotated<T>| #[trigger] r.maps(items.keys()[i], v) && T::read_spec(items.entries@[i].1, v)
}

/// Converts each value of an object; the keys are inserted in ascending
/// order.
pub fn convert_entries<T: FromValue>(items: Object<Val>) -> (r: Object<T>)
    ensures
        r.wf(),
        same_keys(r.keys(), items.keys()),
        entries_read(items, r),
{
    let mut entries = items.entries;
    let ghost all = items.entries@;
    let mut out: Object<T> = Object::new();
    let ghost mut j: int = 0;
    while entries.len() > 0
        invariant
            out.wf(),
            items.keys() == all.map_values(|e: (String, Annotated<Val>)| e.0@),
            0 <= j,
            j + entries@.len() == all.len(),
            entries@ == all.subrange(j, all.len() as int),
            forall|i: int| 0 <= i < j ==> out.keys().contains(#[trigger] items.keys()[i]),
            forall|k: Seq<char>| #[trigger] out.keys().contains(k) ==> items.keys().contains(k),
            items.entries@ == all,
            forall|i: int| 0 <= i < j && #[trigger] last_key(items.keys(), i, items.keys()[i], j)
                ==> exists|v: Annotated<T>| #[trigger] out.maps(items.keys()[i], v) && T::read_spec(items.entries@[i].1, v),
        decreases entries.len(),
    {
        let ghost before = out;
        let ghost rest = entries@;
        let (key, item) = entries.remove(0);
        proof {
            assert(rest[0] == all[j]);
            assert(items.keys()[j] == key@);
            assert(entries@ =~= all.subrange(j + 1, all.len() as int));
        }
        let ghost k0 = key@;
        let ghost input = item;
        let read = T::from_value(item);
        let ghost v0 = read;
        out.insert(key, read);
        proof {
            assert(input == items.entries@[j].1);
            assert(out.maps(k0, v0));
            assert forall|i: int| 0 <= i < j + 1 && #[trigger] last_key(items.keys(), i, items.keys()[i], j + 1)
                implies exists|v: Annotated<T>| #[trigger] out.maps(items.keys()[i], v) && T::read_spec(items.entries@[i].1, v) by {
                if i < j {
                    assert(items.keys()[j] != items.keys()[i]);
                    assert(last_key(items.keys(), i, items.keys()[i], j));
                    let v = choose|v: Annotated<T>| #[trigger] before.maps(items.keys()[i], v) && T::read_spec(items.entries@[i].1, v);
                    assert(out.maps(items.keys()[i], v));
                } else {
                    assert(out.maps(items.keys()[i], v0));
                }
            }
            assert forall|k: Seq<char>| #[trigger] out.keys().contains(k) implies items.keys().contains(k) by {
                if k == k0 {
                    assert(items.keys()[j] == k);
                } else {
                    assert(before.keys().contains(k));
                }
            }
            assert forall|i: int| 0 <= i < j + 1 implies out.keys().contains(#[trigger] items.keys()[i]) by {
                if i < j {
                    assert(before.keys().contains(items.keys()[i]));
                }
            }
            j = j + 1;
        }
    }
    out
}

impl<T: FromValue> FromValue for Object<T> {
    open spec fn read_spec(value: Annotated<Val>, r: Annotated<Object<T>>) -> bool {
        &&& value.0 matches Some(Val::Object(items)) ==> (r.1 == value.1 && r.0 is Some
                    && r.0->Some_0.wf() && same_keys(r.0->Some_0.keys(), items.keys())
            && entries_read(items, r.0->Some_0))
        &&& absent_or_null(value) ==> r == Annotated::<Object<T>>(None, value.1)
        &&& !(value.0 matches Some(Val::Object(_))) && !absent_or_null(value) ==> rejected(value, r, "an object"@)
    }

    fn from_value(value: Annotated<Val>) -> (r: Annotated<Object<T>>) {
        match value {
            Annotated(Some(Val::Object(items)), meta) => Annotated(Some(convert_entries(items)), meta),
            Annotated(Some(Val::Null), meta) => Annotated(None, meta),
            Annotated(None, meta) => Annotated(None, meta),
            Annotated(Some(other), meta) => reject(other, meta, "an object"),
        }
    }
}

impl ToValue for String {
    open spec fn write_spec(value: Annotated<String>, r: Annotated<Val>) -> bool {
        &&& string_written(value, r)
    }

    fn to_value(value: Annotated<String>) -> (r: Annotated<Val>) {
        let Annotated(v, meta) = value;
        match v {
            Some(s) => Annotated(Some(Val::String(s)), meta),
            None => Annotated(None, meta),
        }
    }
}

/// The narrowest integer value for `n`: signed where it fits.
pub open spec fn unsigned_val(n: u64) -> Val {
    if n <= i64::MAX as u64 {
        Val::I64(n as i64)
    } else {
        Val::U64(n)
    }
}

impl ToValue for u64 {
    open spec fn write_spec(value: Annotated<u64>, r: Annotated<Val>) -> bool {
        &&& unsigned_written(value, r)
    }

    fn to_value(value: Annotated<u64>) -> (r: Annotated<Val>) {
        let Annotated(v, meta) = value;
        match v {
            Some(n) => Annotated(Some(if n <= i64::MAX as u64 { Val::I64(n as i64) } else { Val::U64(n) }), meta),
            None => Annotated(None, meta),
        }
    }
}

impl ToValue for bool {
    open spec fn write_spec(value: Annotated<bool>, r: Annotated<Val>) -> bool {
        &&& r.1 == value.1
        &&& value.0 matches Some(b) ==> r.0 == Some(Val::Bool(b))
        &&& value.0 is None ==> r.0 is None
    }

    fn to_value(value: Annotated<bool>) -> (r: Annotated<Val>) {
        let Annotated(v, meta) = value;
        match v {
            Some(b) => Annotated(Some(Val::Bool(b)), meta),
            None => Annotated(None, meta),
        }
    }
}

impl ToValue for Val {
    open spec fn write_spec(value: Annotated<Val>, r: Annotated<Val>) -> bool {
        &&& r == value
    }

    fn to_value(value: Annotated<Val>) -> (r: Annotated<Val>) {
        value
    }
}

impl<T: ToValue> ToValue for Vec<Annotated<T>> {
    open spec fn write_spec(value: Annotated<Vec<Annotated<T>>>, r: Annotated<Val>) -> bool {
        &&& r.1 == value.1
        &&& value.0 matches Some(items) ==> (r.0 matches Some(Val::Array(out)) && out@.len() == items@.len()
            && forall|i: int| 0 <= i < items@.len() ==> T::write_spec(items@[i], #[trigger] out@[i]))
        &&& value.0 is None ==> r.0 is None
    }

    fn to_value(value: Annotated<Vec<Annotated<T>>>) -> (r: Annotated<Val>) {
        let Annotated(v, meta) = value;
        match v {
            Some(mut items) => {
                let ghost all = items@;
                let mut out: Vec<Annotated<Val>> = Vec::new();
                while items.len() > 0
                    invariant
                        out@.len() + items@.len() == all.len(),
                        items@ == all.subrange(out@.len() as int, all.len() as int),
                        forall|i: int| 0 <= i < out@.len() ==> T::write_spec(all[i], #[trigger] out@[i]),
                    decreases items.len(),
                {
                    let ghost rest = items@;
                    let item = items.remove(0);
                    proof {
                        assert(rest[0] == all[out@.len() as int]);
                        assert(items@ =~= all.subrange(out@.len() as int + 1, all.len() as int));
                    }
                    out.push(T::to_value(item));
                }
                Annotated(Some(Val::Array(out)), meta)
            },
            None => Annotated(None, meta),
        }
    }
}

/// Each entry of `out` is the entry of `items` at the same place, its value
/// written.
pub open spec fn entries_written<T: ToValue>(items: Object<T>, out: Object<Val>) -> bool {
    &&& out.entries@.len() == items.entries@.len()
    &&& forall|i: int| 0 <= i < items.entries@.len() ==> #[trigger] out.entries@[i].0 == items.entries@[i].0
        && T::write_spec(items.entries@[i].1, out.entries@[i].1)
}

/// Converts each value of an object back, keeping keys and their order.
pub fn unconvert_entries<T: ToValue>(items: Object<T>) -> (r: Object<Val>)
    ensures
        entries_written(items, r),
        r.keys() == items.keys(),
        items.wf() ==> r.wf(),
{
    let ghost all = items.entries@;
    let mut entries = items.entries;
    let mut out: Vec<(String, Annotated<Val>)> = Vec::new();
    while entries.len() > 0
        invariant
            out@.len() + entries@.len() == all.len(),
            entries@ == all.subrange(out@.len() as int, all.len() as int),
            forall|i: int| 0 <= i < out@.len() ==> #[trigger] out@[i].0 == all[i].0
                && T::write_spec(all[i].1, out@[i].1),
        decreases entries.len(),
    {
        let ghost rest = entries@;
        let (key, item) = entries.remove(0);
        proof {
            assert(rest[0] == all[out@.len() as int]);
            assert(entries@ =~= all.subrange(out@.len() as int + 1, all.len() as int));
        }
        out.push((key, T::to_value(item)));
    }
    let r = Object { entries: out };
    proof {
        assert(r.keys() =~= items.keys());
    }
    r
}

impl<T: ToValue> ToValue for Object<T> {
    open spec fn write_spec(value: Annotated<Object<T>>, r: Annotated<Val>) -> bool {
        &&& r.1 == value.1
        &&& value.0 matches Some(items) ==> (r.0 matches Some(Val::Object(out))
                    && (items.wf() ==> out.wf()) && out.keys() == items.keys() && entries_written(items, out))
        &&& value.0 is None ==> r.0 is None
    }

    fn to_value(value: Annotated<Object<T>>) -> (r: Annotated<Val>) {
        let Annotated(v, meta) = value;
        match v {
            Some(items) => Annotated(Some(Val::Object(unconvert_entries(items))), meta),
            None => Annotated(None, meta),
        }
    }
}

impl<T: FromValue> Annotated<T> {
    /// Parses JSON text and converts it. Malformed JSON is the only error;
    /// every schema mismatch is recorded in the result's metas.
    pub fn from_json(text: &str) -> (r: Result<Annotated<T>, JsonError>)
        ensures
            r is Ok == is_json(text@),
            r matches Ok(a) ==> exists|v: Annotated<Val>| v.0 is Some && v.1.blank() && #[trigger] T::read_spec(v, a),
    {
        match parse_annotated(text) {
            Ok(v) => Ok(T::from_value(v)),
            Err(e) => Err(e),
        }
    }
}

impl<T: ToValue> Annotated<T> {
    /// The compact JSON text of the value, with its annotations under
    /// `_meta`.
    pub fn to_json(self) -> (r: String) {
        text_of_annotated(&T::to_value(self), false)
    }

    /// The JSON text of the value indented by two spaces, with its
    /// annotations under `_meta`.
    pub fn to_json_pretty(self) -> (r: String) {
        text_of_annotated(&T::to_value(self), true)
    }
}

} // verus!
