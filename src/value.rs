use vstd::prelude::*;
use crate::text::{chars_of, seq_less, str_less, string_of};

verus! {

/// The untyped JSON-like value that every record is parsed from and
/// serialized to.
#[derive(Debug, PartialEq)]
pub enum Val {
    Null,
    Bool(bool),
    I64(i64),
    U64(u64),
    /// A number that is neither a signed nor an unsigned 64-bit integer,
    /// carried through unchanged.
    Float(serde_json::Number),
    String(String),
    Array(Vec<Annotated<Val>>),
    Object(Object<Val>),
}

/// The sidecar that accompanies every field: errors, the original value that
/// was rejected, processor remarks and an original length.
#[derive(Debug)]
pub struct Meta {
    pub errors: Vec<String>,
    pub remarks: Vec<String>,
    pub original_length: Option<u64>,
    pub original_value: Option<Val>,
}

/// An optional value together with its meta.
#[derive(Debug, PartialEq)]
pub struct Annotated<T>(pub Option<T>, pub Meta);

/// A map from string keys to annotated values.
#[derive(Debug, PartialEq)]
pub struct Object<T> {
    pub entries: Vec<(String, Annotated<T>)>,
}


/// The message of an error that reports a value of the wrong kind.
pub open spec fn expected_message(expected: Seq<char>) -> Seq<char> {
    "expected "@ + expected
}

/// `new` is `old` with one more error whose message is `message`.
pub open spec fn one_more_error(old: Meta, new: Meta, message: Seq<char>) -> bool {
    &&& new.errors@.len() == old.errors@.len() + 1
    &&& new.errors@.take(old.errors@.len() as int) == old.errors@
    &&& new.errors@.last()@ == message
    &&& new.remarks == old.remarks
    &&& new.original_length == old.original_length
}

/// `new` is `old` with one more error reporting a value of the wrong kind,
/// and `value` captured as the original.
pub open spec fn one_unexpected(old: Meta, new: Meta, expected: Seq<char>, value: Val) -> bool {
    &&& one_more_error(old, new, expected_message(expected))
    &&& new.original_value == Some(value)
}

impl Meta {
    /// Holds no error, no remark and no length.
    pub open spec fn records_nothing(&self) -> bool {
        &&& self.errors@.len() == 0
        &&& self.remarks@.len() == 0
        &&& self.original_length is None
    }

    /// An empty meta.
    pub open spec fn blank(&self) -> bool {
        &&& self.records_nothing()
        &&& self.original_value is None
    }

    pub fn new() -> (r: Meta)
        ensures
            r.blank(),
    {
        Meta { errors: Vec::new(), remarks: Vec::new(), original_length: None, original_value: None }
    }

    pub fn is_empty(&self) -> (r: bool)
        ensures
            r == self.records_nothing(),
    {
        self.errors.len() == 0 && self.remarks.len() == 0 && self.original_length.is_none()
    }

    /// Appends an error; a given value becomes the captured original.
    pub fn add_error(&mut self, message: String, value: Option<Val>)
        ensures
            final(self).errors@ == old(self).errors@.push(message),
            final(self).remarks == old(self).remarks,
            final(self).original_length == old(self).original_length,
            final(self).original_value == (match value {
                Some(v) => Some(v),
                None => old(self).original_value,
            }),
    {
        self.errors.push(message);
        if value.is_some() {
            self.original_value = value;
        }
    }

    /// Records that a value of the wrong kind came where `expected` was
    /// wanted: the error `expected <expected>`, with the value captured.
    pub fn add_unexpected_value_error(&mut self, expected: &str, value: Val)
        ensures
            one_unexpected(*old(self), *final(self), expected@, value),
    {
        let mut text = chars_of("expected ");
        let mut tail = chars_of(expected);
        text.append(&mut tail);
        let message = string_of(&text);
        proof {
            assert(message@ =~= expected_message(expected@));
        }
        self.add_error(message, Some(value));
        proof {
            assert(final(self).errors@.take(old(self).errors@.len() as int) =~= old(self).errors@);
        }
    }

    pub fn set_original_value(&mut self, value: Option<Val>)
        ensures
            final(self).original_value == value,
            final(self).errors == old(self).errors,
            final(self).remarks == old(self).remarks,
            final(self).original_length == old(self).original_length,
    {
        self.original_value = value;
    }

    /// Moves the captured original value out.
    pub fn take_original_value(&mut self) -> (r: Option<Val>)
        ensures
            r == old(self).original_value,
            final(self).original_value is None,
            final(self).errors == old(self).errors,
            final(self).remarks == old(self).remarks,
            final(self).original_length == old(self).original_length,
    {
        self.original_value.take()
    }

    /// Errors and remarks of both, `self`'s first; for the single slots the
    /// later one wins where it is set.
    pub fn merge(self, other: Meta) -> (r: Meta)
        ensures
            r.errors@ == self.errors@ + other.errors@,
            r.remarks@ == self.remarks@ + other.remarks@,
            r.original_length == (if other.original_length is Some {
                other.original_length
            } else {
                self.original_length
            }),
            r.original_value == (if other.original_value is Some {
                other.original_value
            } else {
                self.original_value
            }),
    {
        let Meta { errors: mut errors, remarks: mut remarks, original_length, original_value } = self;
        let Meta {
            errors: mut more_errors,
            remarks: mut more_remarks,
            original_length: other_length,
            original_value: other_value,
        } = other;
        errors.append(&mut more_errors);
        remarks.append(&mut more_remarks);
        Meta {
            errors,
            remarks,
            original_length: if other_length.is_some() {
                other_length
            } else {
                original_length
            },
            original_value: if other_value.is_some() {
                other_value
            } else {
                original_value
            },
        }
    }
}

impl<T> Annotated<T> {
    /// A present value with an empty meta.
    pub fn new(value: T) -> (r: Annotated<T>)
        ensures
            r.0 == Some(value),
            r.1.blank(),
    {
        Annotated(Some(value), Meta::new())
    }

    /// An absent value with an empty meta.
    pub fn empty() -> (r: Annotated<T>)
        ensures
            r.0 is None,
            r.1.blank(),
    {
        Annotated(None, Meta::new())
    }

    /// An absent value whose meta holds one error.
    pub fn from_error(message: &str, value: Option<Val>) -> (r: Annotated<T>)
        ensures
            r.0 is None,
            r.1.errors@.len() == 1,
            r.1.errors@[0]@ == message@,
            r.1.remarks@.len() == 0,
            r.1.original_length is None,
            r.1.original_value == value,
    {
        let mut meta = Meta::new();
        meta.add_error(message.to_owned(), value);
        Annotated(None, meta)
    }
}

impl<T> Object<T> {
    /// The keys, in the order of the entries.
    pub open spec fn keys(&self) -> Seq<Seq<char>> {
        self.entries@.map_values(|e: (String, Annotated<T>)| e.0@)
    }

    /// No key occurs twice.
    pub open spec fn wf(&self) -> bool {
        forall|i: int, j: int|
            0 <= i < j < self.entries@.len() ==> #[trigger] self.keys()[i] != #[trigger] self.keys()[j]
    }

    /// `key` maps to `value`.
    pub open spec fn maps(&self, key: Seq<char>, value: Annotated<T>) -> bool {
        exists|i: int| 0 <= i < self.entries@.len() && self.entries@[i].0@ == key && #[trigger] self.entries@[i].1 == value
    }

    pub fn new() -> (r: Object<T>)
        ensures
            r.entries@.len() == 0,
            r.wf(),
    {
        Object { entries: Vec::new() }
    }

    pub fn len(&self) -> (r: usize)
        ensures
            r == self.entries@.len(),
    {
        self.entries.len()
    }

    /// Where `key` stands among the entries.
    pub fn position(&self, key: &String) -> (r: Option<usize>)
        ensures
            match r {
                Some(i) => i < self.entries@.len() && self.keys()[i as int] == key@,
                None => !self.keys().contains(key@),
            },
    {
        let mut i: usize = 0;
        while i < self.entries.len()
            invariant
                0 <= i <= self.entries@.len(),
                forall|j: int| 0 <= j < i ==> self.keys()[j] != key@,
            decreases self.entries.len() - i,
        {
            if self.entries[i].0.eq(key) {
                return Some(i);
            }
            i = i + 1;
        }
        None
    }

    /// Sets `key` to `value` in place where the key is present, else adds
    /// the entry at the end.
    pub fn push(&mut self, key: String, value: Annotated<T>)
        requires
            old(self).wf(),
        ensures
            final(self).wf(),
            final(self).keys().contains(key@),
            final(self).maps(key@, value),
            forall|k: Seq<char>| #[trigger] old(self).keys().contains(k) ==> final(self).keys().contains(k),
            forall|k: Seq<char>| #[trigger] final(self).keys().contains(k) ==> k == key@ || old(self).keys().contains(k),
            forall|k: Seq<char>, v: Annotated<T>| #[trigger] old(self).maps(k, v) && k != key@ ==> final(self).maps(k, v),
            old(self).keys().contains(key@) ==> exists|i: int|
                0 <= i < old(self).entries@.len() && old(self).keys()[i] == key@
                    && final(self).entries@ == old(self).entries@.update(i, (key, value)),
            !old(self).keys().contains(key@) ==> final(self).entries@ == old(self).entries@.push((key, value)),
    {
        match self.position(&key) {
            Some(i) => {
                let ghost kv = (key, value);
                self.entries.set(i, (key, value));
                proof {
                    assert(final(self).keys() =~= old(self).keys());
                    assert(self.entries@[i as int] == kv);
                    assert(self.keys()[i as int] == kv.0@);
                    assert(self.entries@[i as int].1 == kv.1);
                    assert(self.maps(kv.0@, kv.1));
                    assert forall|k: Seq<char>, v: Annotated<T>| #[trigger] old(self).maps(k, v) && k != kv.0@ implies self.maps(k, v) by {
                        let j = choose|j: int| 0 <= j < old(self).entries@.len() && old(self).entries@[j].0@ == k && #[trigger] old(self).entries@[j].1 == v;
                        assert(old(self).keys()[j] == k);
                        assert(self.entries@[j] == old(self).entries@[j]);
                    }
                }
            },
            None => {
                let ghost kv = (key, value);
                self.entries.push((key, value));
                proof {
                    assert(final(self).keys() =~= old(self).keys().push(kv.0@));
                    let n = old(self).entries@.len() as int;
                    assert(self.entries@[n] == kv);
                    assert(self.keys()[n] == kv.0@);
                    assert(self.entries@[n].1 == kv.1);
                    assert(self.maps(kv.0@, kv.1));
                    assert forall|k: Seq<char>| #[trigger] old(self).keys().contains(k) implies self.keys().contains(k) by {
                        let j = choose|j: int| 0 <= j < old(self).keys().len() && old(self).keys()[j] == k;
                        assert(self.keys()[j] == k);
                    }
                    assert forall|k: Seq<char>| #[trigger] self.keys().contains(k) implies k == kv.0@ || old(self).keys().contains(k) by {
                        let j = choose|j: int| 0 <= j < self.keys().len() && self.keys()[j] == k;
                        if j < n {
                            assert(old(self).keys()[j] == k);
                        }
                    }
                    assert forall|k: Seq<char>, v: Annotated<T>| #[trigger] old(self).maps(k, v) && k != kv.0@ implies self.maps(k, v) by {
                        let j = choose|j: int| 0 <= j < old(self).entries@.len() && old(self).entries@[j].0@ == k && #[trigger] old(self).entries@[j].1 == v;
                        assert(self.entries@[j] == old(self).entries@[j]);
                    }
                }
            },
        }
    }

    /// Sets `key` to `value` in place where the key is present, else adds
    /// the entry before the first key that does not come before it, so that
    /// an object built by `insert` alone has its keys in ascending order.
    pub fn insert(&mut self, key: String, value: Annotated<T>)
        requires
            old(self).wf(),
        ensures
            final(self).wf(),
            final(self).keys().contains(key@),
            final(self).maps(key@, value),
            forall|k: Seq<char>| #[trigger] old(self).keys().contains(k) ==> final(self).keys().contains(k),
            forall|k: Seq<char>| #[trigger] final(self).keys().contains(k) ==> k == key@ || old(self).keys().contains(k),
            forall|k: Seq<char>, v: Annotated<T>| #[trigger] old(self).maps(k, v) && k != key@ ==> final(self).maps(k, v),
            old(self).keys().contains(key@) ==> exists|i: int|
                0 <= i < old(self).entries@.len() && old(self).keys()[i] == key@
                    && final(self).entries@ == old(self).entries@.update(i, (key, value)),
            !old(self).keys().contains(key@) ==> exists|p: int|
                0 <= p <= old(self).entries@.len()
                    && final(self).entries@ == old(self).entries@.insert(p, (key, value))
                    && (forall|j: int| 0 <= j < p ==> seq_less(#[trigger] old(self).keys()[j], key@))
                    && (p < old(self).entries@.len() ==> !seq_less(old(self).keys()[p], key@)),
    {
        match self.position(&key) {
            Some(i) => {
                let ghost kv = (key, value);
                self.entries.set(i, (key, value));
                proof {
                    assert(final(self).keys() =~= old(self).keys());
                    assert(self.entries@[i as int] == kv);
                    assert(self.keys()[i as int] == kv.0@);
                    assert(self.entries@[i as int].1 == kv.1);
                    assert(self.maps(kv.0@, kv.1));
                    assert forall|k: Seq<char>, v: Annotated<T>| #[trigger] old(self).maps(k, v) && k != kv.0@ implies self.maps(k, v) by {
                        let j = choose|j: int| 0 <= j < old(self).entries@.len() && old(self).entries@[j].0@ == k && #[trigger] old(self).entries@[j].1 == v;
                        assert(old(self).keys()[j] == k);
                        assert(self.entries@[j] == old(self).entries@[j]);
                    }
                }
            },
            None => {
                let mut p: usize = 0;
                while p < self.entries.len() && str_less(self.entries[p].0.as_str(), key.as_str())
                    invariant
                        0 <= p <= self.entries@.len(),
                        forall|j: int| 0 <= j < p ==> seq_less(#[trigger] self.keys()[j], key@),
                    decreases self.entries.len() - p,
                {
                    p = p + 1;
                }
                let ghost kv = (key, value);
                self.entries.insert(p, (key, value));
                proof {
                    assert(final(self).keys() =~= old(self).keys().insert(p as int, kv.0@));
                    assert(self.entries@[p as int] == kv);
                    assert(self.keys()[p as int] == kv.0@);
                    assert(self.entries@[p as int].1 == kv.1);
                    assert(self.maps(kv.0@, kv.1));
                    assert forall|k: Seq<char>| #[trigger] old(self).keys().contains(k) implies self.keys().contains(k) by {
                        let j = choose|j: int| 0 <= j < old(self).keys().len() && old(self).keys()[j] == k;
                        if j < p {
                            assert(self.keys()[j] == k);
                        } else {
                            assert(self.keys()[j + 1] == k);
                        }
                    }
                    assert forall|k: Seq<char>| #[trigger] self.keys().contains(k) implies k == kv.0@ || old(self).keys().contains(k) by {
                        let j = choose|j: int| 0 <= j < self.keys().len() && self.keys()[j] == k;
                        if j < p {
                            assert(old(self).keys()[j] == k);
                        } else if j > p {
                            assert(old(self).keys()[j - 1] == k);
                        }
                    }
                    assert forall|k: Seq<char>, v: Annotated<T>| #[trigger] old(self).maps(k, v) && k != kv.0@ implies self.maps(k, v) by {
                        let j = choose|j: int| 0 <= j < old(self).entries@.len() && old(self).entries@[j].0@ == k && #[trigger] old(self).entries@[j].1 == v;
                        if j < p {
                            assert(self.entries@[j] == old(self).entries@[j]);
                        } else {
                            assert(self.entries@[j + 1] == old(self).entries@[j]);
                        }
                    }
                }
            },
        }
    }
}

impl<T> Default for Object<T> {
    fn default() -> (r: Object<T>)
        ensures
            r.entries@.len() == 0,
    {
        Object::new()
    }
}

/// Two string lists hold the same strings in the same order.
fn same_strings(a: &Vec<String>, b: &Vec<String>) -> (r: bool)
    ensures
        r == (a.deep_view() == b.deep_view()),
{
    if a.len() != b.len() {
        proof {
            assert(a.deep_view().len() != b.deep_view().len());
        }
        return false;
    }
    let mut i: usize = 0;
    while i < a.len()
        invariant
            a.len() == b.len(),
            0 <= i <= a.len(),
            forall|j: int| 0 <= j < i ==> a@[j]@ == b@[j]@,
        decreases a.len() - i,
    {
        if a[i] != b[i] {
            proof {
                assert(a.deep_view()[i as int] != b.deep_view()[i as int]);
            }
            return false;
        }
        i = i + 1;
    }
    proof {
        assert(a.deep_view() =~= b.deep_view());
    }
    true
}

/// Metas are compared by what they record: errors, remarks and length. The
/// captured original value is a diagnostic aid and takes no part.
impl PartialEq for Meta {
    fn eq(&self, other: &Meta) -> (r: bool) {
        same_strings(&self.errors, &other.errors) && same_strings(&self.remarks, &other.remarks)
            && self.original_length == other.original_length
    }
}

impl vstd::std_specs::cmp::PartialEqSpecImpl for Meta {
    open spec fn obeys_eq_spec() -> bool {
        true
    }

    open spec fn eq_spec(&self, other: &Meta) -> bool {
        &&& self.errors.deep_view() == other.errors.deep_view()
        &&& self.remarks.deep_view() == other.remarks.deep_view()
        &&& self.original_length == other.original_length
    }
}

} // verus!
