use vstd::prelude::*;
use crate::convert::{string_round_trip, absent_or_null, last_key, convert_entries, entries_read, reject, rejected, same_keys, string_read, FromValue, ToValue};
use crate::json::compact_data;
use crate::text::{chars_of, normalize_header, normalized_header, same_text, string_of};
use crate::value::{Annotated, Meta, Object, Val};

verus! {

/// The Unicode `White_Space` property, which `char::is_whitespace` tests.
pub open spec fn is_space(c: char) -> bool {
    let n = c as u32;
    (0x9 <= n && n <= 0xd) || n == 0x20 || n == 0x85 || n == 0xa0 || n == 0x1680
        || (0x2000 <= n && n <= 0x200a) || n == 0x2028 || n == 0x2029 || n == 0x202f
        || n == 0x205f || n == 0x3000
}

/// Whether a character is whitespace.
fn whitespace(c: char) -> (r: bool)
    ensures
        r == is_space(c),
{
    let n = c as u32;
    (0x9 <= n && n <= 0xd) || n == 0x20 || n == 0x85 || n == 0xa0 || n == 0x1680
        || (0x2000 <= n && n <= 0x200a) || n == 0x2028 || n == 0x2029 || n == 0x202f
        || n == 0x205f || n == 0x3000
}

/// What `cookie::Cookie::parse_encoded` makes of one cookie segment: its
/// name and percent-decoded value, or the text of its parse error.
pub uninterp spec fn cookie_of(segment: Seq<char>) -> Result<(Seq<char>, Seq<char>), Seq<char>>;

/// Relies on `cookie::Cookie::parse_encoded`, `Cookie::name`, `Cookie::value`
/// and the `Display` of `cookie::ParseError`.
#[verifier::external_body]
fn parse_cookie(segment: &str) -> (r: Result<(String, String), String>)
    ensures
        match r {
            Ok(p) => cookie_of(segment@) == Ok::<(Seq<char>, Seq<char>), Seq<char>>((p.0@, p.1@)),
            Err(e) => cookie_of(segment@) == Err::<(Seq<char>, Seq<char>), Seq<char>>(e@),
        },
{
    match cookie::Cookie::parse_encoded(segment) {
        Ok(c) => Ok((c.name().to_string(), c.value().to_string())),
        Err(e) => Err(e.to_string()),
    }
}

/// What `url::form_urlencoded::parse` makes of a query string: its key/value
/// pairs, decoded, in order.
pub uninterp spec fn query_pairs(query: Seq<char>) -> Seq<(Seq<char>, Seq<char>)>;

/// Relies on `url::form_urlencoded::parse` over the UTF-8 bytes of `query`.
#[verifier::external_body]
fn parse_query(query: &str) -> (r: Vec<(String, String)>)
    ensures
        r@.map_values(|p: (String, String)| (p.0@, p.1@)) == query_pairs(query@),
{
    url::form_urlencoded::parse(query.as_bytes()).map(|(k, v)| (k.into_owned(), v.into_owned())).collect()
}

/// The pieces of `s` between occurrences of `sep`; a text without `sep`
/// is one piece.
pub open spec fn split_on(s: Seq<char>, sep: char) -> Seq<Seq<char>>
    decreases s.len(),
{
    if s.len() == 0 {
        seq![Seq::<char>::empty()]
    } else {
        let init = split_on(s.drop_last(), sep);
        if s.last() == sep {
            init.push(Seq::<char>::empty())
        } else {
            init.update(init.len() - 1, init.last().push(s.last()))
        }
    }
}

/// Every character of `s` is whitespace.
pub open spec fn blank(s: Seq<char>) -> bool {
    forall|i: int| 0 <= i < s.len() ==> is_space(#[trigger] s[i])
}

/// Splits `s` at each `sep`.
pub fn split_chars(s: &Vec<char>, sep: char) -> (r: Vec<Vec<char>>)
    ensures
        r@.map_values(|v: Vec<char>| v@) == split_on(s@, sep),
{
    let mut pieces: Vec<Vec<char>> = Vec::new();
    let mut cur: Vec<char> = Vec::new();
    let mut i: usize = 0;
    proof {
        assert(s@.take(0) =~= Seq::<char>::empty());
        assert(pieces@.map_values(|v: Vec<char>| v@).push(cur@) =~= split_on(s@.take(0), sep));
    }
    while i < s.len()
        invariant
            0 <= i <= s.len(),
            pieces@.map_values(|v: Vec<char>| v@).push(cur@) == split_on(s@.take(i as int), sep),
        decreases s.len() - i,
    {
        let c = s[i];
        proof {
            assert(s@.take(i + 1).drop_last() =~= s@.take(i as int));
            assert(s@.take(i + 1).last() == c);
        }
        if c == sep {
            pieces.push(cur);
            cur = Vec::new();
        } else {
            cur.push(c);
        }
        i = i + 1;
        proof {
            assert(pieces@.map_values(|v: Vec<char>| v@).push(cur@) =~= split_on(s@.take(i as int), sep));
        }
    }
    pieces.push(cur);
    proof {
        assert(s@.take(i as int) =~= s@);
        assert(pieces@.map_values(|v: Vec<char>| v@) =~= split_on(s@, sep));
    }
    pieces
}

/// Whether every character is whitespace.
fn is_blank(s: &Vec<char>) -> (r: bool)
    ensures
        r == blank(s@),
{
    let mut i: usize = 0;
    while i < s.len()
        invariant
            0 <= i <= s.len(),
            forall|j: int| 0 <= j < i ==> is_space(#[trigger] s@[j]),
        decreases s.len() - i,
    {
        if !whitespace(s[i]) {
            return false;
        }
        i = i + 1;
    }
    true
}

/// The non-blank segments of a cookie header.
pub open spec fn cookie_segments(s: Seq<char>) -> Seq<Seq<char>> {
    split_on(s, ';').filter(|seg: Seq<char>| !blank(seg))
}

/// `map` maps `key` to the present, unannotated string `text`.
pub open spec fn holds_text(map: Object<String>, key: Seq<char>, text: Seq<char>) -> bool {
    exists|v: Annotated<String>| #[trigger] map.maps(key, v) && v.0 is Some && v.0->Some_0@ == text && v.1.blank()
}

/// The `i`-th segment parses, and no segment after it and before the
/// `n`-th parses to the same name.
pub open spec fn last_cookie(segs: Seq<Seq<char>>, i: int, n: int) -> bool {
    &&& !blank(segs[i])
    &&& cookie_of(segs[i]) is Ok
    &&& forall|m: int| i < m < n && !blank(segs[m]) && cookie_of(segs[m]) is Ok
        ==> #[trigger] cookie_of(segs[m])->Ok_0.0 != cookie_of(segs[i])->Ok_0.0
}

/// The non-blank segments that do not parse, in order.
pub open spec fn cookie_failures(segs: Seq<Seq<char>>) -> Seq<Seq<char>>
    decreases segs.len(),
{
    if segs.len() == 0 {
        Seq::empty()
    } else {
        let init = cookie_failures(segs.drop_last());
        if !blank(segs.last()) && cookie_of(segs.last()) is Err {
            init.push(segs.last())
        } else {
            init
        }
    }
}

/// The texts of a list of strings.
pub open spec fn texts(v: Seq<String>) -> Seq<Seq<char>> {
    v.map_values(|e: String| e@)
}

/// `m` is `meta` with one error per failing segment of `segs`, in order,
/// each with its parse error's text; the last failing segment is captured,
/// and where none fails the meta is unchanged.
pub open spec fn failures_recorded(segs: Seq<Seq<char>>, meta: Meta, m: Meta) -> bool {
    let failed = cookie_failures(segs);
    &&& texts(m.errors@) == texts(meta.errors@) + failed.map_values(|g: Seq<char>| cookie_of(g)->Err_0)
    &&& failed.len() == 0 ==> m.original_value == meta.original_value
    &&& failed.len() > 0 ==> (m.original_value matches Some(Val::String(g)) && g@ == failed.last())
    &&& m.remarks == meta.remarks
    &&& m.original_length == meta.original_length
}

/// `cookies` and `m` are what parsing the cookie header `text` gives on top
/// of `meta`: each segment that parses contributes its name, every name comes
/// from such a segment, and failed segments only add errors.
pub open spec fn header_parsed(text: Seq<char>, meta: Meta, cookies: Object<String>, m: Meta) -> bool {
    let segs = split_on(text, ';');
    &&& cookies.wf()
    &&& forall|i: int| 0 <= i < segs.len() && !blank(segs[i]) && cookie_of(segs[i]) is Ok
        ==> cookies.keys().contains(#[trigger] cookie_of(segs[i])->Ok_0.0)
    &&& forall|k: Seq<char>| #[trigger] cookies.keys().contains(k) ==> exists|i: int|
        0 <= i < segs.len() && !blank(segs[i]) && #[trigger] cookie_of(segs[i]) is Ok
            && cookie_of(segs[i])->Ok_0.0 == k
    &&& forall|i: int| 0 <= i < segs.len() && last_cookie(segs, i, segs.len() as int)
        ==> holds_text(cookies, #[trigger] cookie_of(segs[i])->Ok_0.0, cookie_of(segs[i])->Ok_0.1)
    &&& failures_recorded(segs, meta, m)
}

/// A map holding cookies.
#[derive(Debug, PartialEq)]
pub struct Cookies(pub Object<String>);

impl Cookies {
    /// Parses a `Cookie` header: split at `;`, blank segments skipped, each
    /// other segment parsed as `name=value` with a percent-encoded value. A
    /// segment that fails adds its error to the meta, with the raw segment
    /// captured, and the rest goes on.
    pub fn parse_header(text: &String, meta: Meta) -> (r: (Object<String>, Meta))
        ensures
            header_parsed(text@, meta, r.0, r.1),
    {
        let chars = chars_of(text.as_str());
        let segments = split_chars(&chars, ';');
        let ghost segs = split_on(text@, ';');
        let ghost m0 = meta;
        let mut meta = meta;
        let mut cookies: Object<String> = Object::new();
        let mut j: usize = 0;
        while j < segments.len()
            invariant
                segments@.map_values(|v: Vec<char>| v@) == segs,
                segs == split_on(text@, ';'),
                0 <= j <= segments.len(),
                cookies.wf(),
                forall|i: int| 0 <= i < j && !blank(segs[i]) && cookie_of(segs[i]) is Ok
                    ==> cookies.keys().contains(#[trigger] cookie_of(segs[i])->Ok_0.0),
                forall|k: Seq<char>| #[trigger] cookies.keys().contains(k) ==> exists|i: int|
                    0 <= i < segs.len() && !blank(segs[i]) && #[trigger] cookie_of(segs[i]) is Ok
                        && cookie_of(segs[i])->Ok_0.0 == k,
                forall|i: int| 0 <= i < j && last_cookie(segs, i, j as int)
                    ==> holds_text(cookies, #[trigger] cookie_of(segs[i])->Ok_0.0, cookie_of(segs[i])->Ok_0.1),
                failures_recorded(segs.take(j as int), m0, meta),
            decreases segments.len() - j,
        {
            let seg = &segments[j];
            proof {
                assert(seg@ == segs[j as int]);
                assert(segs.take(j + 1).drop_last() =~= segs.take(j as int));
                assert(segs.take(j + 1).last() == segs[j as int]);
            }
            if !is_blank(seg) {
                let piece = string_of(seg);
                match parse_cookie(piece.as_str()) {
                    Ok((name, value)) => {
                        let ghost before = cookies;
                        let ghost k0 = name@;
                        let fresh = Annotated::new(value);
                        let ghost v0 = fresh;
                        cookies.insert(name, fresh);
                        proof {
                            assert(cookies.maps(k0, v0));
                            assert forall|i: int| 0 <= i < j + 1 && last_cookie(segs, i, j + 1)
                                implies holds_text(cookies, #[trigger] cookie_of(segs[i])->Ok_0.0, cookie_of(segs[i])->Ok_0.1) by {
                                if i < j {
                                    assert(last_cookie(segs, i, j as int));
                                    assert(!blank(segs[j as int]) && cookie_of(segs[j as int]) is Ok);
                                    assert(cookie_of(segs[j as int])->Ok_0.0 == k0);
                                    assert(cookie_of(segs[i])->Ok_0.0 != k0);
                                    let v = choose|v: Annotated<String>| #[trigger] before.maps(cookie_of(segs[i])->Ok_0.0, v)
                                        && v.0 is Some && v.0->Some_0@ == cookie_of(segs[i])->Ok_0.1 && v.1.blank();
                                    assert(cookies.maps(cookie_of(segs[i])->Ok_0.0, v));
                                }
                            }
                            assert(cookie_of(segs[j as int])->Ok_0.0 == k0);
                            assert forall|k: Seq<char>| #[trigger] cookies.keys().contains(k) implies exists|i: int|
                                0 <= i < segs.len() && !blank(segs[i]) && #[trigger] cookie_of(segs[i]) is Ok
                                    && cookie_of(segs[i])->Ok_0.0 == k by {
                                if k == k0 {
                                    assert(cookie_of(segs[j as int]) is Ok);
                                } else {
                                    assert(before.keys().contains(k));
                                }
                            }
                        }
                    },
                    Err(e) => {
                        let ghost before = meta;
                        let ghost e0 = e@;
                        meta.add_error(e, Some(Val::String(piece)));
                        proof {
                            assert(e0 == cookie_of(segs[j as int])->Err_0);
                            assert(cookie_failures(segs.take(j + 1)) == cookie_failures(segs.take(j as int)).push(segs[j as int]));
                            assert(texts(meta.errors@) =~= texts(before.errors@).push(e0));
                            assert(texts(meta.errors@) =~= texts(m0.errors@) + cookie_failures(segs.take(j + 1)).map_values(|g: Seq<char>| cookie_of(g)->Err_0));
                            assert forall|i: int| 0 <= i < j + 1 && last_cookie(segs, i, j + 1)
                                implies holds_text(cookies, #[trigger] cookie_of(segs[i])->Ok_0.0, cookie_of(segs[i])->Ok_0.1) by {
                                assert(i < j);
                                assert(last_cookie(segs, i, j as int));
                            }
                            assert(meta.errors@.take(m0.errors@.len() as int) =~= before.errors@.take(m0.errors@.len() as int));
                        }
                    },
                }
            }
            j = j + 1;
        }
        proof {
            assert(segs.take(j as int) =~= segs);
        }
        (cookies, meta)
    }
}

impl FromValue for Cookies {
    open spec fn read_spec(value: Annotated<Val>, r: Annotated<Cookies>) -> bool {
        &&& value.0 matches Some(Val::String(s)) ==> (r.0 is Some && header_parsed(s@, value.1, r.0->Some_0.0, r.1))
        &&& value.0 matches Some(Val::Object(items)) ==> (r.1 == value.1 && r.0 is Some
                    && r.0->Some_0.0.wf() && same_keys(r.0->Some_0.0.keys(), items.keys())
            && entries_read(items, r.0->Some_0.0))
        &&& absent_or_null(value) ==> r == Annotated::<Cookies>(None, value.1)
        &&& !(value.0 matches Some(Val::String(_))) && !(value.0 matches Some(Val::Object(_)))
                    && !absent_or_null(value) ==> rejected(value, r, "cookies"@)
    }

    /// A string is parsed as a `Cookie` header, an object taken as a map of
    /// strings; anything else is rejected.
    fn from_value(value: Annotated<Val>) -> (r: Annotated<Cookies>) {
        match value {
            Annotated(Some(Val::String(text)), meta) => {
                let (cookies, meta) = Cookies::parse_header(&text, meta);
                Annotated(Some(Cookies(cookies)), meta)
            },
            Annotated(Some(Val::Object(items)), meta) => {
                Annotated(Some(Cookies(convert_entries(items))), meta)
            },
            Annotated(Some(Val::Null), meta) => Annotated(None, meta),
            Annotated(None, meta) => Annotated(None, meta),
            Annotated(Some(other), meta) => reject(other, meta, "cookies"),
        }
    }
}

/// A map holding headers, keyed by canonical header name.
#[derive(Debug, PartialEq)]
pub struct Headers(pub Object<String>);

/// The key of a `[key, value]` pair whose key is a string.
pub open spec fn pair_key(item: Annotated<Val>) -> Option<Seq<char>> {
    match item.0 {
        Some(Val::Array(a)) => if a@.len() == 2 {
            match a@[0].0 {
                Some(Val::String(k)) => Some(k@),
                _ => None,
            }
        } else {
            None
        },
        _ => None,
    }
}

/// Reading `v` as a string leaves something to show: the string, the
/// rejected value, or an original that `v`'s meta had captured.
pub open spec fn recoverable(v: Annotated<Val>) -> bool {
    if absent_or_null(v) {
        v.1.original_value is Some
    } else {
        true
    }
}

/// An item of the array form of headers that cannot be an entry but whose
/// content can be shown: it is collected under `invalid non-header values`.
pub open spec fn is_bad_header(item: Annotated<Val>) -> bool {
    match item.0 {
        Some(Val::Array(a)) => if a@.len() == 2 {
            !(a@[0].0 matches Some(Val::String(_))) && recoverable(a@[0]) && recoverable(a@[1])
        } else {
            true
        },
        Some(Val::Null) => item.1.original_value is Some,
        None => item.1.original_value is Some,
        _ => true,
    }
}

/// The `i`-th item is a pair with a string key, and no pair after it and
/// before the `n`-th has a key with the same canonical name.
pub open spec fn last_pair(items: Seq<Annotated<Val>>, i: int, n: int) -> bool {
    &&& pair_key(items[i]) is Some
    &&& forall|m: int| i < m < n && pair_key(items[m]) is Some
        ==> normalized_header(#[trigger] pair_key(items[m])->Some_0) != normalized_header(pair_key(items[i])->Some_0)
}

/// `w` is the entry for the pair `item`: its value read as a string, with
/// the pair's meta merged in before the value's own.
pub open spec fn pair_entry(item: Annotated<Val>, w: Annotated<String>) -> bool {
    exists|v: Annotated<String>| #[trigger] string_read(item.0->Some_0->Array_0@[1], v)
        && w.0 == v.0
        && w.1.errors@ == item.1.errors@ + v.1.errors@
        && w.1.remarks@ == item.1.remarks@ + v.1.remarks@
        && w.1.original_length == (if v.1.original_length is Some { v.1.original_length } else { item.1.original_length })
        && w.1.original_value == (if v.1.original_value is Some { v.1.original_value } else { item.1.original_value })
}

/// Each last pair's canonical key holds its entry.
pub open spec fn pairs_read(items: Seq<Annotated<Val>>, headers: Object<String>, n: int) -> bool {
    forall|i: int| 0 <= i < n && #[trigger] last_pair(items, i, n)
        ==> exists|w: Annotated<String>| #[trigger] headers.maps(normalized_header(pair_key(items[i])->Some_0), w)
            && pair_entry(items[i], w)
}

/// How many of `items` are collected as bad.
pub open spec fn bad_count(items: Seq<Annotated<Val>>) -> nat
    decreases items.len(),
{
    if items.len() == 0 {
        0
    } else {
        bad_count(items.drop_last()) + if is_bad_header(items.last()) {
            1nat
        } else {
            0nat
        }
    }
}

/// A `[key, value]` pair of strings, as the array form of headers gives it.
fn pair_from_value(item: Annotated<Val>) -> (r: Annotated<(Annotated<String>, Annotated<String>)>)
    ensures
        pair_key(item) is Some <==> (r.0 is Some && r.0->Some_0.0.0 is Some),
        pair_key(item) is Some ==> r.0->Some_0.0.0->Some_0@ == pair_key(item)->Some_0,
        (item.0 matches Some(Val::Array(a)) && a@.len() == 2) ==> (r.0 is Some && r.1 == item.1
            && string_read(item.0->Some_0->Array_0@[0], r.0->Some_0.0)
            && string_read(item.0->Some_0->Array_0@[1], r.0->Some_0.1)),
        r.0 is None ==> (r.1.original_value is Some <==> is_bad_header(item)),
        r.0 is None ==> !(item.0 matches Some(Val::Array(a)) && a@.len() == 2),
        r.0 is Some ==> (item.0 matches Some(Val::Array(a)) && a@.len() == 2),
{
    match item {
        Annotated(Some(Val::Array(mut items)), meta) => {
            if items.len() == 2 {
                let key = items.remove(0);
                let value = items.remove(0);
                Annotated(Some((String::from_value(key), String::from_value(value))), meta)
            } else {
                reject(Val::Array(items), meta, "a tuple")
            }
        },
        Annotated(Some(Val::Null), meta) => Annotated(None, meta),
        Annotated(None, meta) => Annotated(None, meta),
        Annotated(Some(other), meta) => reject(other, meta, "a tuple"),
    }
}

/// No entry of `items` after the `i`-th and before the `n`-th has a key
/// with the same canonical name.
pub open spec fn last_header(items: Object<Val>, i: int, n: int) -> bool {
    forall|m: int| i < m < n ==> normalized_header(#[trigger] items.keys()[m]) != normalized_header(items.keys()[i])
}

/// `headers` holds, under its canonical name, each key of `items`, and no
/// other key; each name holds what reading the value of the last entry with
/// that name as a string gives.
pub open spec fn headers_of_object(items: Object<Val>, headers: Object<String>) -> bool {
    &&& headers.wf()
    &&& forall|i: int| 0 <= i < items.keys().len() && #[trigger] last_header(items, i, items.keys().len() as int)
        ==> exists|v: Annotated<String>| #[trigger] headers.maps(normalized_header(items.keys()[i]), v)
            && string_read(items.entries@[i].1, v)
    &&& forall|i: int| 0 <= i < items.keys().len() ==> headers.keys().contains(#[trigger] normalized_header(items.keys()[i]))
    &&& forall|k: Seq<char>| #[trigger] headers.keys().contains(k) ==> exists|i: int|
        0 <= i < items.keys().len() && #[trigger] normalized_header(items.keys()[i]) == k
}

impl Headers {
    /// Headers from an object: keys brought into canonical case, values
    /// taken as strings.
    pub fn from_object(items: Object<Val>) -> (r: Object<String>)
        ensures
            headers_of_object(items, r),
    {
        let mut entries = items.entries;
        let ghost all = items.entries@;
        let mut headers: Object<String> = Object::new();
        let ghost mut j: int = 0;
        proof {
            assert(items.keys() == all.map_values(|e: (String, Annotated<Val>)| e.0@));
        }
        while entries.len() > 0
            invariant
                headers.wf(),
                items.keys() == all.map_values(|e: (String, Annotated<Val>)| e.0@),
                0 <= j,
                j + entries@.len() == all.len(),
                entries@ == all.subrange(j, all.len() as int),
                forall|i: int| 0 <= i < j ==> headers.keys().contains(#[trigger] normalized_header(items.keys()[i])),
                forall|k: Seq<char>| #[trigger] headers.keys().contains(k) ==> exists|i: int|
                    0 <= i < items.keys().len() && #[trigger] normalized_header(items.keys()[i]) == k,
                items.entries@ == all,
                forall|i: int| 0 <= i < j && #[trigger] last_header(items, i, j)
                    ==> exists|v: Annotated<String>| #[trigger] headers.maps(normalized_header(items.keys()[i]), v)
                        && string_read(items.entries@[i].1, v),
            decreases entries.len(),
        {
            let ghost before = headers;
            let ghost rest = entries@;
            let (key, value) = entries.remove(0);
            proof {
                assert(rest[0] == all[j]);
                assert(all[j].0 == key);
                assert(items.keys()[j] == key@);
                assert(entries@ =~= all.subrange(j + 1, all.len() as int));
            }
            let name = normalize_header(key.as_str());
            let ghost n0 = name@;
            let ghost input = value;
            let read = String::from_value(value);
            let ghost v0 = read;
            headers.insert(name, read);
            proof {
                assert(input == items.entries@[j].1);
                assert(headers.maps(n0, v0));
                assert forall|i: int| 0 <= i < j + 1 && #[trigger] last_header(items, i, j + 1)
                    implies exists|v: Annotated<String>| #[trigger] headers.maps(normalized_header(items.keys()[i]), v)
                        && string_read(items.entries@[i].1, v) by {
                    if i < j {
                        assert(normalized_header(items.keys()[j]) != normalized_header(items.keys()[i]));
                        assert(last_header(items, i, j));
                        let v = choose|v: Annotated<String>| #[trigger] before.maps(normalized_header(items.keys()[i]), v)
                            && string_read(items.entries@[i].1, v);
                        assert(headers.maps(normalized_header(items.keys()[i]), v));
                    } else {
                        assert(headers.maps(normalized_header(items.keys()[i]), v0));
                    }
                }
                assert forall|k: Seq<char>| #[trigger] headers.keys().contains(k) implies exists|i: int|
                    0 <= i < items.keys().len() && #[trigger] normalized_header(items.keys()[i]) == k by {
                    if k == n0 {
                        assert(normalized_header(items.keys()[j]) == k);
                    } else {
                        assert(before.keys().contains(k));
                    }
                }
                assert forall|i: int| 0 <= i < j + 1 implies headers.keys().contains(#[trigger] normalized_header(items.keys()[i])) by {
                    if i < j {
                        assert(before.keys().contains(normalized_header(items.keys()[i])));
                    }
                }
            }
            proof {
                j = j + 1;
            }
        }
        headers
    }

    /// Headers from an array of `[key, value]` pairs. A pair with a string
    /// key gives an entry under the canonical key, its meta merged into the
    /// value's; what cannot be an entry is collected and reported in one
    /// `invalid non-header values` error with the collected items captured.
    pub fn from_pairs(items: Vec<Annotated<Val>>, meta: Meta) -> (r: (Object<String>, Meta))
        ensures
            r.0.wf(),
            forall|i: int| 0 <= i < items@.len() && pair_key(items@[i]) is Some
                ==> r.0.keys().contains(normalized_header(#[trigger] pair_key(items@[i])->Some_0)),
            forall|k: Seq<char>| #[trigger] r.0.keys().contains(k) ==> exists|i: int|
                0 <= i < items@.len() && pair_key(items@[i]) is Some
                    && normalized_header(#[trigger] pair_key(items@[i])->Some_0) == k,
            pairs_read(items@, r.0, items@.len() as int),
            bad_count(items@) == 0 ==> r.1 == meta,
            bad_count(items@) > 0 ==> (texts(r.1.errors@) == texts(meta.errors@).push("invalid non-header values"@)
                && r.1.remarks == meta.remarks && r.1.original_length == meta.original_length
                && (r.1.original_value matches Some(Val::Array(bad)) && bad@.len() == bad_count(items@))),
    {
        let ghost all = items@;
        let mut items = items;
        let mut headers: Object<String> = Object::new();
        let mut bad_items: Vec<Annotated<Val>> = Vec::new();
        let ghost mut j: int = 0;
        while items.len() > 0
            invariant
                headers.wf(),
                0 <= j,
                j + items@.len() == all.len(),
                items@ == all.subrange(j, all.len() as int),
                forall|i: int| 0 <= i < j && pair_key(all[i]) is Some
                    ==> headers.keys().contains(normalized_header(#[trigger] pair_key(all[i])->Some_0)),
                forall|k: Seq<char>| #[trigger] headers.keys().contains(k) ==> exists|i: int|
                    0 <= i < all.len() && pair_key(all[i]) is Some
                        && normalized_header(#[trigger] pair_key(all[i])->Some_0) == k,
                bad_items@.len() == bad_count(all.take(j)),
                pairs_read(all, headers, j),
            decreases items.len(),
        {
            let ghost before = headers;
            let ghost rest = items@;
            let item = items.remove(0);
            proof {
                assert(rest[0] == all[j]);
                assert(items@ =~= all.subrange(j + 1, all.len() as int));
                assert(all.take(j + 1).drop_last() =~= all.take(j));
                assert(all.take(j + 1).last() == all[j]);
            }
            let ghost item0 = item;
            match pair_from_value(item) {
                Annotated(Some((Annotated(Some(key), _), Annotated(value, value_meta))), pair_meta) => {
                    proof {
                        assert(!is_bad_header(item0));
                    }
                    let name = normalize_header(key.as_str());
                    let ghost n0 = name@;
                    let ghost vread = Annotated(value, value_meta);
                    let entry = Annotated(value, pair_meta.merge(value_meta));
                    let ghost w0 = entry;
                    headers.insert(name, entry);
                    proof {
                        assert(all[j] == item0);
                        assert(string_read(item0.0->Some_0->Array_0@[1], vread));
                        assert(pair_entry(all[j], w0));
                        assert(headers.maps(n0, w0));
                        assert forall|i: int| 0 <= i < j + 1 && #[trigger] last_pair(all, i, j + 1)
                            implies exists|w: Annotated<String>| #[trigger] headers.maps(normalized_header(pair_key(all[i])->Some_0), w)
                                && pair_entry(all[i], w) by {
                            if i < j {
                                assert(normalized_header(pair_key(all[j])->Some_0) != normalized_header(pair_key(all[i])->Some_0));
                                assert(last_pair(all, i, j));
                                let w = choose|w: Annotated<String>| #[trigger] before.maps(normalized_header(pair_key(all[i])->Some_0), w)
                                    && pair_entry(all[i], w);
                                assert(headers.maps(normalized_header(pair_key(all[i])->Some_0), w));
                            } else {
                                assert(headers.maps(normalized_header(pair_key(all[i])->Some_0), w0));
                            }
                        }
                        assert(n0 == normalized_header(pair_key(all[j])->Some_0));
                        assert forall|k: Seq<char>| #[trigger] headers.keys().contains(k) implies exists|i: int|
                            0 <= i < all.len() && pair_key(all[i]) is Some
                                && normalized_header(#[trigger] pair_key(all[i])->Some_0) == k by {
                            if k != n0 {
                                assert(before.keys().contains(k));
                            }
                        }
                        assert forall|i: int| 0 <= i < j + 1 && pair_key(all[i]) is Some
                            implies headers.keys().contains(normalized_header(#[trigger] pair_key(all[i])->Some_0)) by {
                            if i < j {
                                assert(before.keys().contains(normalized_header(pair_key(all[i])->Some_0)));
                            }
                        }
                    }
                },
                Annotated(Some((Annotated(None, mut key_meta), value)), _) => {
                    proof {
                        assert(pair_key(all[j]) is None);
                        assert forall|i: int| 0 <= i < j + 1 && #[trigger] last_pair(all, i, j + 1)
                            implies last_pair(all, i, j) by {}
                        let a = item0.0->Some_0->Array_0;
                        assert(string_read(a@[0], Annotated(None, key_meta)));
                        assert(string_read(a@[1], value));
                        assert(is_bad_header(item0) == (key_meta.original_value is Some
                            && (value.0 is Some || value.1.original_value is Some)));
                    }
                    let Annotated(v, mut value_meta) = String::to_value(value);
                    let key = key_meta.take_original_value();
                    let v = match v {
                        Some(v) => Some(v),
                        None => value_meta.take_original_value(),
                    };
                    match (key, v) {
                        (Some(key), Some(v)) => {
                            let mut pair: Vec<Annotated<Val>> = Vec::new();
                            pair.push(Annotated::new(key));
                            pair.push(Annotated::new(v));
                            bad_items.push(Annotated::new(Val::Array(pair)));
                        },
                        _ => {},
                    }
                },
                Annotated(_, mut pair_meta) => {
                    proof {
                        assert(pair_key(all[j]) is None);
                        assert forall|i: int| 0 <= i < j + 1 && #[trigger] last_pair(all, i, j + 1)
                            implies last_pair(all, i, j) by {}
                    }
                    match pair_meta.take_original_value() {
                        Some(v) => bad_items.push(Annotated::new(v)),
                        None => {},
                    }
                },
            }
            proof {
                j = j + 1;
            }
        }
        proof {
            assert(all.take(j) =~= all);
        }
        let mut meta = meta;
        if bad_items.len() > 0 {
            let ghost before = meta;
            let message = "invalid non-header values".to_owned();
            proof {
                assert(message@ == "invalid non-header values"@);
            }
            meta.add_error(message, Some(Val::Array(bad_items)));
            proof {
                assert(texts(meta.errors@) =~= texts(before.errors@).push("invalid non-header values"@));
            }
        }
        (headers, meta)
    }
}

impl FromValue for Headers {
    open spec fn read_spec(value: Annotated<Val>, r: Annotated<Headers>) -> bool {
        &&& value.0 matches Some(Val::Object(items)) ==> (r.1 == value.1 && r.0 is Some
                    && headers_of_object(items, r.0->Some_0.0))
        &&& value.0 matches Some(Val::Array(items)) ==> (r.0 is Some && r.0->Some_0.0.wf()
                    && (forall|i: int| 0 <= i < items@.len() && pair_key(items@[i]) is Some
                        ==> r.0->Some_0.0.keys().contains(normalized_header(#[trigger] pair_key(items@[i])->Some_0)))
                    && (forall|k: Seq<char>| #[trigger] r.0->Some_0.0.keys().contains(k) ==> exists|i: int|
                        0 <= i < items@.len() && pair_key(items@[i]) is Some
                            && normalized_header(#[trigger] pair_key(items@[i])->Some_0) == k)
                    && pairs_read(items@, r.0->Some_0.0, items@.len() as int)
                    && (bad_count(items@) == 0 ==> r.1 == value.1)
                    && (bad_count(items@) > 0 ==> (texts(r.1.errors@) == texts(value.1.errors@).push("invalid non-header values"@)
                        && r.1.remarks == value.1.remarks && r.1.original_length == value.1.original_length
                        && (r.1.original_value matches Some(Val::Array(bad)) && bad@.len() == bad_count(items@)))))
        &&& absent_or_null(value) ==> r == Annotated::<Headers>(None, value.1)
        &&& !(value.0 matches Some(Val::Array(_))) && !(value.0 matches Some(Val::Object(_)))
                    && !absent_or_null(value) ==> rejected(value, r, "an object"@)
    }

    /// An array is read as `[key, value]` pairs, an object as a map; keys
    /// are brought into canonical case.
    fn from_value(value: Annotated<Val>) -> (r: Annotated<Headers>) {
        match value {
            Annotated(Some(Val::Array(items)), meta) => {
                let (headers, meta) = Headers::from_pairs(items, meta);
                Annotated(Some(Headers(headers)), meta)
            },
            Annotated(Some(Val::Object(items)), meta) => Annotated(Some(Headers(Headers::from_object(items))), meta),
            Annotated(Some(Val::Null), meta) => Annotated(None, meta),
            Annotated(None, meta) => Annotated(None, meta),
            Annotated(Some(other), meta) => reject(other, meta, "an object"),
        }
    }
}

/// A map holding query string pairs.
#[derive(Debug, PartialEq)]
pub struct Query(pub Object<String>);

/// A query string without one leading `?`.
pub open spec fn query_text(s: Seq<char>) -> Seq<char> {
    if s.len() > 0 && s[0] == '?' {
        s.drop_first()
    } else {
        s
    }
}

/// `query` holds the key of every pair, and no other key.
pub open spec fn query_of_pairs(pairs: Seq<(Seq<char>, Seq<char>)>, query: Object<String>) -> bool {
    &&& query.wf()
    &&& forall|i: int| 0 <= i < pairs.len() ==> query.keys().contains(#[trigger] pairs[i].0)
    &&& forall|k: Seq<char>| #[trigger] query.keys().contains(k) ==> exists|i: int|
        0 <= i < pairs.len() && #[trigger] pairs[i].0 == k
}

/// No pair after the `i`-th and before the `n`-th has the `i`-th key.
pub open spec fn last_before(pairs: Seq<(Seq<char>, Seq<char>)>, i: int, n: int) -> bool {
    forall|m: int| i < m < n ==> #[trigger] pairs[m].0 != pairs[i].0
}

/// `query` is what parsing the query string `text` gives: every key of its
/// pairs and no other, each holding the value of its last pair.
pub open spec fn query_parsed(text: Seq<char>, query: Object<String>) -> bool {
    let pairs = query_pairs(query_text(text));
    &&& query_of_pairs(pairs, query)
    &&& forall|i: int| 0 <= i < pairs.len() && last_before(pairs, i, pairs.len() as int)
        ==> holds_text(query, #[trigger] pairs[i].0, pairs[i].1)
}

/// `v` is what an object-form query gives for the value `input`: an array
/// or object becomes a present string (its compact JSON text) with its meta
/// kept; anything else is read as a string.
pub open spec fn query_value_read(input: Annotated<Val>, v: Annotated<String>) -> bool {
    if input.0 matches Some(Val::Array(_)) || input.0 matches Some(Val::Object(_)) {
        v.0 is Some && v.1 == input.1
    } else {
        string_read(input, v)
    }
}

/// Each key of `items` holds in `query` what its last entry's value gives.
pub open spec fn query_entries_read(items: Object<Val>, query: Object<String>) -> bool {
    forall|i: int| 0 <= i < items.keys().len() && #[trigger] last_key(items.keys(), i, items.keys()[i], items.keys().len() as int)
        ==> exists|v: Annotated<String>| #[trigger] query.maps(items.keys()[i], v) && query_value_read(items.entries@[i].1, v)
}

impl Query {
    /// Parses a URL-encoded query string, one leading `?` ignored; a key
    /// that repeats keeps its last value.
    pub fn parse(text: &String) -> (r: Object<String>)
        ensures
            query_parsed(text@, r),
    {
        let chars = chars_of(text.as_str());
        let mut rest: Vec<char> = Vec::new();
        let mut i: usize = if chars.len() > 0 && chars[0] == '?' { 1 } else { 0 };
        let ghost start = i as int;
        while i < chars.len()
            invariant
                chars@ == text@,
                0 <= start <= i <= chars.len(),
                rest@ == chars@.subrange(start, i as int),
            decreases chars.len() - i,
        {
            rest.push(chars[i]);
            i = i + 1;
            proof {
                assert(rest@ =~= chars@.subrange(start, i as int));
            }
        }
        proof {
            assert(rest@ =~= query_text(text@));
        }
        let qs = string_of(&rest);
        let mut pairs = parse_query(qs.as_str());
        let ghost all = query_pairs(query_text(text@));
        let mut query: Object<String> = Object::new();
        let ghost mut j: int = 0;
        while pairs.len() > 0
            invariant
                query.wf(),
                0 <= j,
                j + pairs@.len() == all.len(),
                pairs@.map_values(|p: (String, String)| (p.0@, p.1@)) == all.subrange(j, all.len() as int),
                forall|i: int| 0 <= i < j ==> query.keys().contains(#[trigger] all[i].0),
                forall|k: Seq<char>| #[trigger] query.keys().contains(k) ==> exists|i: int|
                    0 <= i < all.len() && #[trigger] all[i].0 == k,
                forall|i: int| 0 <= i < j && last_before(all, i, j) ==> holds_text(query, #[trigger] all[i].0, all[i].1),
            decreases pairs.len(),
        {
            let ghost before = query;
            let ghost left = pairs@;
            let (key, value) = pairs.remove(0);
            proof {
                assert(left[0] == (key, value));
                assert(left.map_values(|p: (String, String)| (p.0@, p.1@))[0] == all.subrange(j, all.len() as int)[0]);
                assert(all[j].0 == key@);
                assert(pairs@ =~= left.subrange(1, left.len() as int));
                assert(pairs@.map_values(|p: (String, String)| (p.0@, p.1@)) =~= left.map_values(|p: (String, String)| (p.0@, p.1@)).subrange(1, left.len() as int));
                assert(pairs@.map_values(|p: (String, String)| (p.0@, p.1@)) =~= all.subrange(j + 1, all.len() as int));
            }
            let ghost k0 = key@;
            let ghost t0 = value@;
            let fresh = Annotated::new(value);
            let ghost v0 = fresh;
            query.insert(key, fresh);
            proof {
                assert(all[j].1 == t0);
                assert(query.maps(k0, v0));
                assert(holds_text(query, all[j].0, all[j].1));
                assert forall|i: int| 0 <= i < j + 1 && last_before(all, i, j + 1) implies holds_text(query, #[trigger] all[i].0, all[i].1) by {
                    if i < j {
                        assert(all[j].0 != all[i].0);
                        assert(last_before(all, i, j));
                        assert(holds_text(before, all[i].0, all[i].1));
                        let v = choose|v: Annotated<String>| #[trigger] before.maps(all[i].0, v) && v.0 is Some && v.0->Some_0@ == all[i].1 && v.1.blank();
                        assert(query.maps(all[i].0, v));
                    }
                }
                assert forall|k: Seq<char>| #[trigger] query.keys().contains(k) implies exists|i: int|
                    0 <= i < all.len() && #[trigger] all[i].0 == k by {
                    if k == k0 {
                        assert(all[j].0 == k);
                    } else {
                        assert(before.keys().contains(k));
                    }
                }
                assert forall|i: int| 0 <= i < j + 1 implies query.keys().contains(#[trigger] all[i].0) by {
                    if i < j {
                        assert(before.keys().contains(all[i].0));
                    }
                }
                j = j + 1;
            }
        }
        query
    }

    /// Query pairs from an object. Strings and nulls are taken as they are;
    /// an array or object, which old producers sent, becomes its compact
    /// JSON text; anything else is rejected as not a string.
    pub fn from_object(items: Object<Val>) -> (r: Object<String>)
        ensures
            r.wf(),
            same_keys(r.keys(), items.keys()),
            query_entries_read(items, r),
    {
        let mut entries = items.entries;
        let ghost all = items.entries@;
        let mut out: Object<String> = Object::new();
        let ghost mut j: int = 0;
        while entries.len() > 0
            invariant
                out.wf(),
                items.keys() == all.map_values(|e: (String, Annotated<Val>)| e.0@),
                0 <= j,
                j + entries@.len() == all.len(),
                entries@ == all.subrange(j, all.len() as int),
                forall|i: int| 0 <= i < j ==> out.keys().contains(#[trigger] items.keys()[i]),
                forall|k: Seq<char>| #[trigger] out.keys().contains(k) ==> items.keys().contains(k),
                items.entries@ == all,
                forall|i: int| 0 <= i < j && #[trigger] last_key(items.keys(), i, items.keys()[i], j)
                    ==> exists|v: Annotated<String>| #[trigger] out.maps(items.keys()[i], v) && query_value_read(items.entries@[i].1, v),
            decreases entries.len(),
        {
            let ghost before = out;
            let ghost rest = entries@;
            let (key, item) = entries.remove(0);
            proof {
                assert(rest[0] == all[j]);
                assert(items.keys()[j] == key@);
                assert(entries@ =~= all.subrange(j + 1, all.len() as int));
            }
            let ghost input = item;
            let value = match item {
                Annotated(Some(Val::Array(a)), meta) => {
                    let text = compact_data(&Val::Array(a));
                    Annotated(Some(text), meta)
                },
                Annotated(Some(Val::Object(o)), meta) => {
                    let text = compact_data(&Val::Object(o));
                    Annotated(Some(text), meta)
                },
                other => String::from_value(other),
            };
            let ghost k0 = key@;
            let ghost v0 = value;
            out.insert(key, value);
            proof {
                assert(input == items.entries@[j].1);
                assert(query_value_read(input, v0));
                assert(out.maps(k0, v0));
                assert forall|i: int| 0 <= i < j + 1 && #[trigger] last_key(items.keys(), i, items.keys()[i], j + 1)
                    implies exists|v: Annotated<String>| #[trigger] out.maps(items.keys()[i], v) && query_value_read(items.entries@[i].1, v) by {
                    if i < j {
                        assert(items.keys()[j] != items.keys()[i]);
                        assert(last_key(items.keys(), i, items.keys()[i], j));
                        let v = choose|v: Annotated<String>| #[trigger] before.maps(items.keys()[i], v) && query_value_read(items.entries@[i].1, v);
                        assert(out.maps(items.keys()[i], v));
                    } else {
                        assert(out.maps(items.keys()[i], v0));
                    }
                }
                assert forall|k: Seq<char>| #[trigger] out.keys().contains(k) implies items.keys().contains(k) by {
                    if k == k0 {
                        assert(items.keys()[j] == k);
                    } else {
                        assert(before.keys().contains(k));
                    }
                }
                assert forall|i: int| 0 <= i < j + 1 implies out.keys().contains(#[trigger] items.keys()[i]) by {
                    if i < j {
                        assert(before.keys().contains(items.keys()[i]));
                    }
                }
                j = j + 1;
            }
        }
        out
    }
}

impl FromValue for Query {
    open spec fn read_spec(value: Annotated<Val>, r: Annotated<Query>) -> bool {
        &&& value.0 matches Some(Val::String(s)) ==> (r.1 == value.1 && r.0 is Some
                    && query_parsed(s@, r.0->Some_0.0))
        &&& value.0 matches Some(Val::Object(items)) ==> (r.1 == value.1 && r.0 is Some
                    && r.0->Some_0.0.wf() && same_keys(r.0->Some_0.0.keys(), items.keys())
            && query_entries_read(items, r.0->Some_0.0))
        &&& absent_or_null(value) ==> r == Annotated::<Query>(None, value.1)
        &&& !(value.0 matches Some(Val::String(_))) && !(value.0 matches Some(Val::Object(_)))
                    && !absent_or_null(value) ==> rejected(value, r, "query-string or map"@)
    }

    /// A string is parsed as a query string, an object taken pair by pair;
    /// anything else is rejected.
    fn from_value(value: Annotated<Val>) -> (r: Annotated<Query>) {
        match value {
            Annotated(Some(Val::String(text)), meta) => Annotated(Some(Query(Query::parse(&text))), meta),
            Annotated(Some(Val::Object(items)), meta) => Annotated(Some(Query(Query::from_object(items))), meta),
            Annotated(Some(Val::Null), meta) => Annotated(None, meta),
            Annotated(None, meta) => Annotated(None, meta),
            Annotated(Some(other), meta) => reject(other, meta, "query-string or map"),
        }
    }
}


impl ToValue for Cookies {
    open spec fn write_spec(value: Annotated<Cookies>, r: Annotated<Val>) -> bool {
        &&& value.0 is None ==> (r.0 is None && r.1 == value.1)
        &&& value.0 is Some ==> <Object<String> as ToValue>::write_spec(Annotated(Some(value.0->Some_0.0), value.1), r)
    }

    fn to_value(value: Annotated<Cookies>) -> (r: Annotated<Val>) {
        let Annotated(v, meta) = value;
        match v {
            Some(x) => Object::<String>::to_value(Annotated(Some(x.0), meta)),
            None => Annotated(None, meta),
        }
    }
}

impl ToValue for Headers {
    open spec fn write_spec(value: Annotated<Headers>, r: Annotated<Val>) -> bool {
        &&& value.0 is None ==> (r.0 is None && r.1 == value.1)
        &&& value.0 is Some ==> <Object<String> as ToValue>::write_spec(Annotated(Some(value.0->Some_0.0), value.1), r)
    }

    fn to_value(value: Annotated<Headers>) -> (r: Annotated<Val>) {
        let Annotated(v, meta) = value;
        match v {
            Some(x) => Object::<String>::to_value(Annotated(Some(x.0), meta)),
            None => Annotated(None, meta),
        }
    }
}

impl ToValue for Query {
    open spec fn write_spec(value: Annotated<Query>, r: Annotated<Val>) -> bool {
        &&& value.0 is None ==> (r.0 is None && r.1 == value.1)
        &&& value.0 is Some ==> <Object<String> as ToValue>::write_spec(Annotated(Some(value.0->Some_0.0), value.1), r)
    }

    fn to_value(value: Annotated<Query>) -> (r: Annotated<Val>) {
        let Annotated(v, meta) = value;
        match v {
            Some(x) => Object::<String>::to_value(Annotated(Some(x.0), meta)),
            None => Annotated(None, meta),
        }
    }
}

/// Http request information.
#[derive(Debug, PartialEq)]
pub struct Request {
    /// URL of the request.
    pub url: Annotated<String>,
    /// HTTP request method.
    pub method: Annotated<String>,
    /// Request data in any format that makes sense.
    pub data: Annotated<Val>,
    /// URL encoded HTTP query string.
    pub query_string: Annotated<Query>,
    /// The fragment of the request URL.
    pub fragment: Annotated<String>,
    /// URL encoded contents of the Cookie header.
    pub cookies: Annotated<Cookies>,
    /// HTTP request headers.
    pub headers: Annotated<Headers>,
    /// Server environment data, such as CGI/WSGI.
    pub env: Annotated<Object<Val>>,
    /// The inferred content type of the request payload.
    pub inferred_content_type: Annotated<String>,
    /// Keys the schema does not know, kept as they came.
    pub other: Object<Val>,
}

/// Every field of `x` is absent with an empty meta, and nothing is in `other`.
pub open spec fn request_blank(x: Request) -> bool {
    &&& x.url.0 is None && x.url.1.blank()
    &&& x.method.0 is None && x.method.1.blank()
    &&& x.data.0 is None && x.data.1.blank()
    &&& x.query_string.0 is None && x.query_string.1.blank()
    &&& x.fragment.0 is None && x.fragment.1.blank()
    &&& x.cookies.0 is None && x.cookies.1.blank()
    &&& x.headers.0 is None && x.headers.1.blank()
    &&& x.env.0 is None && x.env.1.blank()
    &&& x.inferred_content_type.0 is None && x.inferred_content_type.1.blank()
    &&& x.other.entries@.len() == 0
}

/// Each field whose key is not among `keys` is absent with an empty meta.
pub open spec fn request_absent_fields(keys: Seq<Seq<char>>, x: Request) -> bool {
    &&& !keys.contains("url"@) ==> (x.url.0 is None && x.url.1.blank())
    &&& !keys.contains("method"@) ==> (x.method.0 is None && x.method.1.blank())
    &&& !keys.contains("data"@) ==> (x.data.0 is None && x.data.1.blank())
    &&& !keys.contains("query_string"@) ==> (x.query_string.0 is None && x.query_string.1.blank())
    &&& !keys.contains("fragment"@) ==> (x.fragment.0 is None && x.fragment.1.blank())
    &&& !keys.contains("cookies"@) ==> (x.cookies.0 is None && x.cookies.1.blank())
    &&& !keys.contains("headers"@) ==> (x.headers.0 is None && x.headers.1.blank())
    &&& !keys.contains("env"@) ==> (x.env.0 is None && x.env.1.blank())
    &&& !keys.contains("inferred_content_type"@) ==> (x.inferred_content_type.0 is None && x.inferred_content_type.1.blank())
}

/// Each field whose key is among those of `items` holds what reading the
/// value of the last entry with that key gives.
pub open spec fn request_read_fields(items: Object<Val>, x: Request) -> bool {
    &&& forall|i: int| 0 <= i < items.keys().len() && #[trigger] last_key(items.keys(), i, "url"@, items.keys().len() as int)
        ==> <String as FromValue>::read_spec(items.entries@[i].1, x.url)
    &&& forall|i: int| 0 <= i < items.keys().len() && #[trigger] last_key(items.keys(), i, "method"@, items.keys().len() as int)
        ==> <String as FromValue>::read_spec(items.entries@[i].1, x.method)
    &&& forall|i: int| 0 <= i < items.keys().len() && #[trigger] last_key(items.keys(), i, "data"@, items.keys().len() as int)
        ==> <Val as FromValue>::read_spec(items.entries@[i].1, x.data)
    &&& forall|i: int| 0 <= i < items.keys().len() && #[trigger] last_key(items.keys(), i, "query_string"@, items.keys().len() as int)
        ==> <Query as FromValue>::read_spec(items.entries@[i].1, x.query_string)
    &&& forall|i: int| 0 <= i < items.keys().len() && #[trigger] last_key(items.keys(), i, "fragment"@, items.keys().len() as int)
        ==> <String as FromValue>::read_spec(items.entries@[i].1, x.fragment)
    &&& forall|i: int| 0 <= i < items.keys().len() && #[trigger] last_key(items.keys(), i, "cookies"@, items.keys().len() as int)
        ==> <Cookies as FromValue>::read_spec(items.entries@[i].1, x.cookies)
    &&& forall|i: int| 0 <= i < items.keys().len() && #[trigger] last_key(items.keys(), i, "headers"@, items.keys().len() as int)
        ==> <Headers as FromValue>::read_spec(items.entries@[i].1, x.headers)
    &&& forall|i: int| 0 <= i < items.keys().len() && #[trigger] last_key(items.keys(), i, "env"@, items.keys().len() as int)
        ==> <Object<Val> as FromValue>::read_spec(items.entries@[i].1, x.env)
    &&& forall|i: int| 0 <= i < items.keys().len() && #[trigger] last_key(items.keys(), i, "inferred_content_type"@, items.keys().len() as int)
        ==> <String as FromValue>::read_spec(items.entries@[i].1, x.inferred_content_type)
}

impl Default for Request {
    fn default() -> (r: Request)
        ensures
            request_blank(r),
    {
        Request {
            url: Annotated::empty(),
            method: Annotated::empty(),
            data: Annotated::empty(),
            query_string: Annotated::empty(),
            fragment: Annotated::empty(),
            cookies: Annotated::empty(),
            headers: Annotated::empty(),
            env: Annotated::empty(),
            inferred_content_type: Annotated::empty(),
            other: Object::new(),
        }
    }
}

impl Request {
    /// Reads one entry into its field, or into `other` where the key is
    /// not one of the schema's.
    fn set_field(x: &mut Request, key: String, item: Annotated<Val>)
        requires
            old(x).other.wf(),
        ensures
            final(x).other.wf(),
            key@ != "url"@ ==> final(x).url == old(x).url,
            key@ == "url"@ ==> <String as FromValue>::read_spec(item, final(x).url),
            key@ != "method"@ ==> final(x).method == old(x).method,
            key@ == "method"@ ==> <String as FromValue>::read_spec(item, final(x).method),
            key@ != "data"@ ==> final(x).data == old(x).data,
            key@ == "data"@ ==> <Val as FromValue>::read_spec(item, final(x).data),
            key@ != "query_string"@ ==> final(x).query_string == old(x).query_string,
            key@ == "query_string"@ ==> <Query as FromValue>::read_spec(item, final(x).query_string),
            key@ != "fragment"@ ==> final(x).fragment == old(x).fragment,
            key@ == "fragment"@ ==> <String as FromValue>::read_spec(item, final(x).fragment),
            key@ != "cookies"@ ==> final(x).cookies == old(x).cookies,
            key@ == "cookies"@ ==> <Cookies as FromValue>::read_spec(item, final(x).cookies),
            key@ != "headers"@ ==> final(x).headers == old(x).headers,
            key@ == "headers"@ ==> <Headers as FromValue>::read_spec(item, final(x).headers),
            key@ != "env"@ ==> final(x).env == old(x).env,
            key@ == "env"@ ==> <Object<Val> as FromValue>::read_spec(item, final(x).env),
            key@ != "inferred_content_type"@ ==> final(x).inferred_content_type == old(x).inferred_content_type,
            key@ == "inferred_content_type"@ ==> <String as FromValue>::read_spec(item, final(x).inferred_content_type),
    {
        proof {
            reveal_strlit("url");
            assert("url"@ =~= seq!['u', 'r', 'l']);
            reveal_strlit("method");
            assert("method"@ =~= seq!['m', 'e', 't', 'h', 'o', 'd']);
            reveal_strlit("data");
            assert("data"@ =~= seq!['d', 'a', 't', 'a']);
            reveal_strlit("query_string");
            assert("query_string"@ =~= seq!['q', 'u', 'e', 'r', 'y', '_', 's', 't', 'r', 'i', 'n', 'g']);
            reveal_strlit("fragment");
            assert("fragment"@ =~= seq!['f', 'r', 'a', 'g', 'm', 'e', 'n', 't']);
            reveal_strlit("cookies");
            assert("cookies"@ =~= seq!['c', 'o', 'o', 'k', 'i', 'e', 's']);
            reveal_strlit("headers");
            assert("headers"@ =~= seq!['h', 'e', 'a', 'd', 'e', 'r', 's']);
            reveal_strlit("env");
            assert("env"@ =~= seq!['e', 'n', 'v']);
            reveal_strlit("inferred_content_type");
            assert("inferred_content_type"@ =~= seq!['i', 'n', 'f', 'e', 'r', 'r', 'e', 'd', '_', 'c', 'o', 'n', 't', 'e', 'n', 't', '_', 't', 'y', 'p', 'e']);
        }
        if same_text(key.as_str(), "url") {
            x.url = <String>::from_value(item);
        } else if same_text(key.as_str(), "method") {
            x.method = <String>::from_value(item);
        } else if same_text(key.as_str(), "data") {
            x.data = <Val>::from_value(item);
        } else if same_text(key.as_str(), "query_string") {
            x.query_string = <Query>::from_value(item);
        } else if same_text(key.as_str(), "fragment") {
            x.fragment = <String>::from_value(item);
        } else if same_text(key.as_str(), "cookies") {
            x.cookies = <Cookies>::from_value(item);
        } else if same_text(key.as_str(), "headers") {
            x.headers = <Headers>::from_value(item);
        } else if same_text(key.as_str(), "env") {
            x.env = <Object<Val>>::from_value(item);
        } else if same_text(key.as_str(), "inferred_content_type") {
            x.inferred_content_type = <String>::from_value(item);
        } else {
            x.other.push(key, item);
        }
    }

    /// Reads the fields of a record from the entries of an object: a known
    /// key through its field's own conversion, an unknown one into `other`.
    pub fn from_entries(items: Object<Val>) -> (r: Request)
        ensures
            request_absent_fields(items.keys(), r),
            request_read_fields(items, r),
            r.other.wf(),
    {
        let mut entries = items.entries;
        let ghost all = items.entries@;
        let ghost all_keys = items.keys();
        let mut x = Request::default();
        let ghost mut j: int = 0;
        while entries.len() > 0
            invariant
                x.other.wf(),
                all_keys == all.map_values(|e: (String, Annotated<Val>)| e.0@),
                0 <= j,
                j + entries@.len() == all.len(),
                entries@ == all.subrange(j, all.len() as int),
                (forall|i: int| 0 <= i < j ==> all_keys[i] != "url"@) ==> (x.url.0 is None && x.url.1.blank()),
                forall|i: int| 0 <= i < j && #[trigger] last_key(all_keys, i, "url"@, j) ==> <String as FromValue>::read_spec(all[i].1, x.url),
                (forall|i: int| 0 <= i < j ==> all_keys[i] != "method"@) ==> (x.method.0 is None && x.method.1.blank()),
                forall|i: int| 0 <= i < j && #[trigger] last_key(all_keys, i, "method"@, j) ==> <String as FromValue>::read_spec(all[i].1, x.method),
                (forall|i: int| 0 <= i < j ==> all_keys[i] != "data"@) ==> (x.data.0 is None && x.data.1.blank()),
                forall|i: int| 0 <= i < j && #[trigger] last_key(all_keys, i, "data"@, j) ==> <Val as FromValue>::read_spec(all[i].1, x.data),
                (forall|i: int| 0 <= i < j ==> all_keys[i] != "query_string"@) ==> (x.query_string.0 is None && x.query_string.1.blank()),
                forall|i: int| 0 <= i < j && #[trigger] last_key(all_keys, i, "query_string"@, j) ==> <Query as FromValue>::read_spec(all[i].1, x.query_string),
                (forall|i: int| 0 <= i < j ==> all_keys[i] != "fragment"@) ==> (x.fragment.0 is None && x.fragment.1.blank()),
                forall|i: int| 0 <= i < j && #[trigger] last_key(all_keys, i, "fragment"@, j) ==> <String as FromValue>::read_spec(all[i].1, x.fragment),
                (forall|i: int| 0 <= i < j ==> all_keys[i] != "cookies"@) ==> (x.cookies.0 is None && x.cookies.1.blank()),
                forall|i: int| 0 <= i < j && #[trigger] last_key(all_keys, i, "cookies"@, j) ==> <Cookies as FromValue>::read_spec(all[i].1, x.cookies),
                (forall|i: int| 0 <= i < j ==> all_keys[i] != "headers"@) ==> (x.headers.0 is None && x.headers.1.blank()),
                forall|i: int| 0 <= i < j && #[trigger] last_key(all_keys, i, "headers"@, j) ==> <Headers as FromValue>::read_spec(all[i].1, x.headers),
                (forall|i: int| 0 <= i < j ==> all_keys[i] != "env"@) ==> (x.env.0 is None && x.env.1.blank()),
                forall|i: int| 0 <= i < j && #[trigger] last_key(all_keys, i, "env"@, j) ==> <Object<Val> as FromValue>::read_spec(all[i].1, x.env),
                (forall|i: int| 0 <= i < j ==> all_keys[i] != "inferred_content_type"@) ==> (x.inferred_content_type.0 is None && x.inferred_content_type.1.blank()),
                forall|i: int| 0 <= i < j && #[trigger] last_key(all_keys, i, "inferred_content_type"@, j) ==> <String as FromValue>::read_spec(all[i].1, x.inferred_content_type),
            decreases entries.len(),
        {
            let ghost left = entries@;
            let (key, item) = entries.remove(0);
            proof {
                assert(left[0] == all[j]);
                assert(all[j].1 == item);
                assert(all_keys[j] == key@);
                assert(entries@ =~= all.subrange(j + 1, all.len() as int));
            }
            Request::set_field(&mut x, key, item);
            proof {{
                assert forall|i: int| 0 <= i < j + 1 && #[trigger] last_key(all_keys, i, "url"@, j + 1) implies <String as FromValue>::read_spec(all[i].1, x.url) by {
                    if i < j {
                        assert(last_key(all_keys, i, "url"@, j));
                    }
                }
                assert forall|i: int| 0 <= i < j + 1 && #[trigger] last_key(all_keys, i, "method"@, j + 1) implies <String as FromValue>::read_spec(all[i].1, x.method) by {
                    if i < j {
                        assert(last_key(all_keys, i, "method"@, j));
                    }
                }
                assert forall|i: int| 0 <= i < j + 1 && #[trigger] last_key(all_keys, i, "data"@, j + 1) implies <Val as FromValue>::read_spec(all[i].1, x.data) by {
                    if i < j {
                        assert(last_key(all_keys, i, "data"@, j));
                    }
                }
                assert forall|i: int| 0 <= i < j + 1 && #[trigger] last_key(all_keys, i, "query_string"@, j + 1) implies <Query as FromValue>::read_spec(all[i].1, x.query_string) by {
                    if i < j {
                        assert(last_key(all_keys, i, "query_string"@, j));
                    }
                }
                assert forall|i: int| 0 <= i < j + 1 && #[trigger] last_key(all_keys, i, "fragment"@, j + 1) implies <String as FromValue>::read_spec(all[i].1, x.fragment) by {
                    if i < j {
                        assert(last_key(all_keys, i, "fragment"@, j));
                    }
                }
                assert forall|i: int| 0 <= i < j + 1 && #[trigger] last_key(all_keys, i, "cookies"@, j + 1) implies <Cookies as FromValue>::read_spec(all[i].1, x.cookies) by {
                    if i < j {
                        assert(last_key(all_keys, i, "cookies"@, j));
                    }
                }
                assert forall|i: int| 0 <= i < j + 1 && #[trigger] last_key(all_keys, i, "headers"@, j + 1) implies <Headers as FromValue>::read_spec(all[i].1, x.headers) by {
                    if i < j {
                        assert(last_key(all_keys, i, "headers"@, j));
                    }
                }
                assert forall|i: int| 0 <= i < j + 1 && #[trigger] last_key(all_keys, i, "env"@, j + 1) implies <Object<Val> as FromValue>::read_spec(all[i].1, x.env) by {
                    if i < j {
                        assert(last_key(all_keys, i, "env"@, j));
                    }
                }
                assert forall|i: int| 0 <= i < j + 1 && #[trigger] last_key(all_keys, i, "inferred_content_type"@, j + 1) implies <String as FromValue>::read_spec(all[i].1, x.inferred_content_type) by {
                    if i < j {
                        assert(last_key(all_keys, i, "inferred_content_type"@, j));
                    }
                }
            }}
            proof {
                j = j + 1;
            }
        }
        x
    }
}

impl FromValue for Request {
    open spec fn read_spec(value: Annotated<Val>, r: Annotated<Request>) -> bool {
        &&& value.0 matches Some(Val::Object(items)) ==> (r.1 == value.1 && r.0 is Some
            && request_absent_fields(items.keys(), r.0->Some_0)
            && request_read_fields(items, r.0->Some_0))
        &&& absent_or_null(value) ==> r == Annotated::<Request>(None, value.1)
        &&& !(value.0 matches Some(Val::Object(_))) && !absent_or_null(value) ==> rejected(value, r, "a request"@)
    }

    /// An object is read as the record; anything else is rejected.
    fn from_value(value: Annotated<Val>) -> (r: Annotated<Request>) {
        match value {
            Annotated(Some(Val::Object(items)), meta) => Annotated(Some(Request::from_entries(items)), meta),
            Annotated(Some(Val::Null), meta) => Annotated(None, meta),
            Annotated(None, meta) => Annotated(None, meta),
            Annotated(Some(other), meta) => reject(other, meta, "a request"),
        }
    }
}

/// `out` is the object that writing `x` gives: each field under its key, in
/// declared order, each written by its own type, then the entries of `other`
/// as they are.
pub open spec fn request_written(x: Request, out: Object<Val>) -> bool {
    &&& out.entries@.len() == 9 + x.other.entries@.len()
    &&& out.entries@[0].0@ == "url"@ && <String as ToValue>::write_spec(x.url, out.entries@[0].1)
    &&& out.entries@[1].0@ == "method"@ && <String as ToValue>::write_spec(x.method, out.entries@[1].1)
    &&& out.entries@[2].0@ == "data"@ && <Val as ToValue>::write_spec(x.data, out.entries@[2].1)
    &&& out.entries@[3].0@ == "query_string"@ && <Query as ToValue>::write_spec(x.query_string, out.entries@[3].1)
    &&& out.entries@[4].0@ == "fragment"@ && <String as ToValue>::write_spec(x.fragment, out.entries@[4].1)
    &&& out.entries@[5].0@ == "cookies"@ && <Cookies as ToValue>::write_spec(x.cookies, out.entries@[5].1)
    &&& out.entries@[6].0@ == "headers"@ && <Headers as ToValue>::write_spec(x.headers, out.entries@[6].1)
    &&& out.entries@[7].0@ == "env"@ && <Object<Val> as ToValue>::write_spec(x.env, out.entries@[7].1)
    &&& out.entries@[8].0@ == "inferred_content_type"@ && <String as ToValue>::write_spec(x.inferred_content_type, out.entries@[8].1)
    &&& out.entries@.subrange(9, out.entries@.len() as int) == x.other.entries@
}

impl ToValue for Request {
    open spec fn write_spec(value: Annotated<Request>, r: Annotated<Val>) -> bool {
        &&& r.1 == value.1
        &&& value.0 is None ==> r.0 is None
        &&& value.0 is Some ==> (r.0 matches Some(Val::Object(out)) && request_written(value.0->Some_0, out))
    }

    /// The record as an object: its fields in declared order, then `other`.
    fn to_value(value: Annotated<Request>) -> (r: Annotated<Val>) {
        let Annotated(v, meta) = value;
        match v {
            Some(x) => {
                let ghost x0 = x;
                let mut entries: Vec<(String, Annotated<Val>)> = Vec::new();
                entries.push(("url".to_owned(), <String>::to_value(x.url)));
                entries.push(("method".to_owned(), <String>::to_value(x.method)));
                entries.push(("data".to_owned(), <Val>::to_value(x.data)));
                entries.push(("query_string".to_owned(), <Query>::to_value(x.query_string)));
                entries.push(("fragment".to_owned(), <String>::to_value(x.fragment)));
                entries.push(("cookies".to_owned(), <Cookies>::to_value(x.cookies)));
                entries.push(("headers".to_owned(), <Headers>::to_value(x.headers)));
                entries.push(("env".to_owned(), <Object<Val>>::to_value(x.env)));
                entries.push(("inferred_content_type".to_owned(), <String>::to_value(x.inferred_content_type)));
                let ghost declared = entries@;
                let mut extra = x.other.entries;
                entries.append(&mut extra);
                proof {
                    assert(entries@.subrange(9, entries@.len() as int) =~= x0.other.entries@);
                }
                Annotated(Some(Val::Object(Object { entries })), meta)
            },
            None => Annotated(None, meta),
        }
    }
}


/// Writing cookies whose names are distinct and reading them back gives
/// every cookie back, meta included, and no other name.
pub proof fn cookies_round_trip(c: Annotated<Cookies>, w: Annotated<Val>, r: Annotated<Cookies>)
    requires
        c.0 is Some,
        c.0->Some_0.0.wf(),
        <Cookies as ToValue>::write_spec(c, w),
        <Cookies as FromValue>::read_spec(w, r),
    ensures
        r.1 == c.1,
        r.0 is Some,
        same_keys(r.0->Some_0.0.keys(), c.0->Some_0.0.keys()),
        forall|i: int| 0 <= i < c.0->Some_0.0.entries@.len()
            ==> r.0->Some_0.0.maps(c.0->Some_0.0.keys()[i], #[trigger] c.0->Some_0.0.entries@[i].1),
{
    let o = c.0->Some_0.0;
    let out = w.0->Some_0->Object_0;
    let q = r.0->Some_0.0;
    assert forall|i: int| 0 <= i < o.entries@.len() implies q.maps(o.keys()[i], #[trigger] o.entries@[i].1) by {
        assert(out.keys()[i] == o.keys()[i]);
        assert(last_key(out.keys(), i, out.keys()[i], out.keys().len() as int));
        let v = choose|v: Annotated<String>| #[trigger] q.maps(out.keys()[i], v) && <String as FromValue>::read_spec(out.entries@[i].1, v);
        string_round_trip(o.entries@[i].1, out.entries@[i].1, v);
    }
}

/// Writing a query whose keys are distinct and reading it back gives every
/// pair back, meta included, and no other key.
pub proof fn query_round_trip(c: Annotated<Query>, w: Annotated<Val>, r: Annotated<Query>)
    requires
        c.0 is Some,
        c.0->Some_0.0.wf(),
        <Query as ToValue>::write_spec(c, w),
        <Query as FromValue>::read_spec(w, r),
    ensures
        r.1 == c.1,
        r.0 is Some,
        same_keys(r.0->Some_0.0.keys(), c.0->Some_0.0.keys()),
        forall|i: int| 0 <= i < c.0->Some_0.0.entries@.len()
            ==> r.0->Some_0.0.maps(c.0->Some_0.0.keys()[i], #[trigger] c.0->Some_0.0.entries@[i].1),
{
    let o = c.0->Some_0.0;
    let out = w.0->Some_0->Object_0;
    let q = r.0->Some_0.0;
    assert forall|i: int| 0 <= i < o.entries@.len() implies q.maps(o.keys()[i], #[trigger] o.entries@[i].1) by {
        assert(out.keys()[i] == o.keys()[i]);
        assert(last_key(out.keys(), i, out.keys()[i], out.keys().len() as int));
        let v = choose|v: Annotated<String>| #[trigger] q.maps(out.keys()[i], v) && query_value_read(out.entries@[i].1, v);
        string_round_trip(o.entries@[i].1, out.entries@[i].1, v);
    }
}

/// Writing headers whose names are distinct and already canonical, and
/// reading them back, gives every header back, meta included, and no other
/// name.
pub proof fn headers_round_trip(c: Annotated<Headers>, w: Annotated<Val>, r: Annotated<Headers>)
    requires
        c.0 is Some,
        c.0->Some_0.0.wf(),
        forall|i: int| 0 <= i < c.0->Some_0.0.keys().len()
            ==> normalized_header(#[trigger] c.0->Some_0.0.keys()[i]) == c.0->Some_0.0.keys()[i],
        <Headers as ToValue>::write_spec(c, w),
        <Headers as FromValue>::read_spec(w, r),
    ensures
        r.1 == c.1,
        r.0 is Some,
        same_keys(r.0->Some_0.0.keys(), c.0->Some_0.0.keys()),
        forall|i: int| 0 <= i < c.0->Some_0.0.entries@.len()
            ==> r.0->Some_0.0.maps(c.0->Some_0.0.keys()[i], #[trigger] c.0->Some_0.0.entries@[i].1),
{
    let o = c.0->Some_0.0;
    let out = w.0->Some_0->Object_0;
    let h = r.0->Some_0.0;
    assert forall|i: int| 0 <= i < o.entries@.len() implies h.maps(o.keys()[i], #[trigger] o.entries@[i].1) by {
        assert(out.keys()[i] == o.keys()[i]);
        assert(normalized_header(o.keys()[i]) == o.keys()[i]);
        assert forall|m: int| i < m < out.keys().len() implies normalized_header(#[trigger] out.keys()[m]) != normalized_header(out.keys()[i]) by {
            assert(normalized_header(o.keys()[m]) == o.keys()[m]);
        }
        assert(last_header(out, i, out.keys().len() as int));
        let v = choose|v: Annotated<String>| #[trigger] h.maps(normalized_header(out.keys()[i]), v) && string_read(out.entries@[i].1, v);
        string_round_trip(o.entries@[i].1, out.entries@[i].1, v);
    }
    assert forall|k: Seq<char>| #[trigger] h.keys().contains(k) implies o.keys().contains(k) by {
        let i = choose|i: int| 0 <= i < out.keys().len() && #[trigger] normalized_header(out.keys()[i]) == k;
        assert(normalized_header(o.keys()[i]) == o.keys()[i]);
    }
    assert forall|i: int| 0 <= i < o.keys().len() implies h.keys().contains(#[trigger] o.keys()[i]) by {
        assert(normalized_header(out.keys()[i]) == o.keys()[i]);
    }
}

} // verus!
