use vstd::prelude::*;

verus! {

/// What `char::to_uppercase` yields for a character.
pub uninterp spec fn upper_of(c: char) -> Seq<char>;

/// Relies on `char::to_uppercase`: the uppercase mapping of `c`, one or more
/// characters, which depends on `c` alone.
#[verifier::external_body]
fn uppercase(c: char) -> (r: Vec<char>)
    ensures
        r@ == upper_of(c),
        r@.len() >= 1,
{
    c.to_uppercase().collect()
}

/// Relies on `String::from_iter` over characters: the string of exactly
/// those characters.
#[verifier::external_body]
pub(crate) fn string_of(chars: &Vec<char>) -> (r: String)
    ensures
        r@ == chars@,
{
    chars.iter().collect()
}

/// The characters of a string.
pub fn chars_of(s: &str) -> (r: Vec<char>)
    ensures
        r@ == s@,
{
    let n = s.unicode_len();
    let mut out: Vec<char> = Vec::new();
    let mut i: usize = 0;
    while i < n
        invariant
            n == s@.len(),
            0 <= i <= n,
            out@ == s@.subrange(0, i as int),
        decreases n - i,
    {
        out.push(s.get_char(i));
        i = i + 1;
        proof {
            assert(out@ =~= s@.subrange(0, i as int));
        }
    }
    proof {
        assert(out@ =~= s@);
    }
    out
}

/// Header normalization of `s`, where `start` says whether `s` begins a
/// dash-separated segment: the first character of each segment is replaced
/// by its uppercase mapping, everything else is kept.
pub open spec fn normalize_from(s: Seq<char>, start: bool) -> Seq<char>
    decreases s.len(),
{
    if s.len() == 0 {
        Seq::empty()
    } else if s[0] == '-' {
        seq!['-'] + normalize_from(s.drop_first(), true)
    } else if start {
        upper_of(s[0]) + normalize_from(s.drop_first(), false)
    } else {
        seq![s[0]] + normalize_from(s.drop_first(), false)
    }
}

/// The canonical form of a header name: split on `-`, capitalize the first
/// character of each segment, rejoin. Empty segments stay empty, so leading,
/// trailing and repeated dashes survive.
pub open spec fn normalized_header(s: Seq<char>) -> Seq<char> {
    normalize_from(s, true)
}

/// The uppercase mapping of `c` contains no dash and begins with a
/// character that is its own uppercase mapping.
pub open spec fn upper_stable(c: char) -> bool {
    let u = upper_of(c);
    &&& u.len() >= 1
    &&& upper_of(u[0]) == seq![u[0]]
    &&& forall|i: int| 0 <= i < u.len() ==> u[i] != '-'
}

/// Inside a segment, text without dashes is copied as it is.
pub proof fn lemma_normalize_copies(t: Seq<char>, r: Seq<char>)
    requires
        forall|i: int| 0 <= i < t.len() ==> t[i] != '-',
    ensures
        normalize_from(t + r, false) == t + normalize_from(r, false),
    decreases t.len(),
{
    if t.len() > 0 {
        assert((t + r).drop_first() =~= t.drop_first() + r);
        lemma_normalize_copies(t.drop_first(), r);
        assert(seq![t[0]] + (t.drop_first() + normalize_from(r, false)) =~= t + normalize_from(r, false));
    } else {
        assert(t + r =~= r);
        assert(t + normalize_from(r, false) =~= normalize_from(r, false));
    }
}

/// Normalizing a header name twice gives what normalizing it once gives,
/// where the uppercase mapping of each of its characters is stable.
pub proof fn lemma_normalize_idempotent(s: Seq<char>, start: bool)
    requires
        forall|i: int| 0 <= i < s.len() && s[i] != '-' ==> upper_stable(#[trigger] s[i]),
    ensures
        normalize_from(normalize_from(s, start), start) == normalize_from(s, start),
    decreases s.len(),
{
    if s.len() > 0 {
        let tail = s.drop_first();
        assert forall|i: int| 0 <= i < tail.len() && tail[i] != '-' implies upper_stable(#[trigger] tail[i]) by {
            assert(tail[i] == s[i + 1]);
        }
        if s[0] == '-' {
            let x = normalize_from(tail, true);
            lemma_normalize_idempotent(tail, true);
            assert((seq!['-'] + x).drop_first() =~= x);
            assert((seq!['-'] + x)[0] == '-');
        } else if start {
            let u = upper_of(s[0]);
            assert(upper_stable(s[0]));
            let x = normalize_from(tail, false);
            lemma_normalize_idempotent(tail, false);
            assert((u + x)[0] == u[0]);
            assert((u + x).drop_first() =~= u.drop_first() + x);
            lemma_normalize_copies(u.drop_first(), x);
            assert(seq![u[0]] + (u.drop_first() + x) =~= u + x);
        } else {
            let x = normalize_from(tail, false);
            lemma_normalize_idempotent(tail, false);
            assert((seq![s[0]] + x).drop_first() =~= x);
            assert((seq![s[0]] + x)[0] == s[0]);
        }
    }
}

/// Header normalization is idempotent: the canonical form of a canonical
/// name is that name, for names whose characters have stable uppercase
/// mappings.
pub proof fn normalize_header_idempotent(s: Seq<char>)
    requires
        forall|i: int| 0 <= i < s.len() && s[i] != '-' ==> upper_stable(#[trigger] s[i]),
    ensures
        normalized_header(normalized_header(s)) == normalized_header(s),
{
    lemma_normalize_idempotent(s, true);
}

/// Brings a header name into its canonical case.
pub fn normalize_header(key: &str) -> (r: String)
    ensures
        r@ == normalized_header(key@),
{
    let chars = chars_of(key);
    let mut out: Vec<char> = Vec::new();
    let mut start = true;
    let mut i: usize = 0;
    proof {
        assert(chars@.subrange(0, chars@.len() as int) =~= chars@);
        assert(out@ + normalize_from(chars@, true) =~= normalize_from(chars@, true));
    }
    while i < chars.len()
        invariant
            chars@ == key@,
            0 <= i <= chars.len(),
            normalized_header(key@) == out@ + normalize_from(chars@.subrange(i as int, chars@.len() as int), start),
        decreases chars.len() - i,
    {
        let c = chars[i];
        let ghost rest = chars@.subrange(i as int, chars@.len() as int);
        proof {
            assert(rest.drop_first() =~= chars@.subrange(i + 1, chars@.len() as int));
        }
        if c == '-' {
            out.push('-');
            start = true;
        } else if start {
            let up = uppercase(c);
            let mut j: usize = 0;
            let ghost before = out@;
            while j < up.len()
                invariant
                    0 <= j <= up.len(),
                    out@ == before + up@.subrange(0, j as int),
                decreases up.len() - j,
            {
                out.push(up[j]);
                j = j + 1;
                proof {
                    assert(out@ =~= before + up@.subrange(0, j as int));
                }
            }
            proof {
                assert(up@.subrange(0, up@.len() as int) =~= up@);
            }
            start = false;
        } else {
            out.push(c);
        }
        i = i + 1;
        proof {
            assert(out@ + normalize_from(chars@.subrange(i as int, chars@.len() as int), start)
                =~= normalized_header(key@));
        }
    }
    proof {
        assert(chars@.subrange(i as int, chars@.len() as int) =~= Seq::<char>::empty());
        assert(out@ + Seq::<char>::empty() =~= out@);
    }
    string_of(&out)
}

/// Whether two strings hold the same characters.
pub fn same_text(a: &str, b: &str) -> (r: bool)
    ensures
        r == (a@ == b@),
{
    let x = chars_of(a);
    let y = chars_of(b);
    if x.len() != y.len() {
        return false;
    }
    let mut i: usize = 0;
    while i < x.len()
        invariant
            x@ == a@,
            y@ == b@,
            x.len() == y.len(),
            0 <= i <= x.len(),
            forall|j: int| 0 <= j < i ==> x@[j] == y@[j],
        decreases x.len() - i,
    {
        if x[i] != y[i] {
            return false;
        }
        i = i + 1;
    }
    proof {
        assert(x@ =~= y@);
    }
    true
}

/// `a` comes strictly before `b` in code-point order, the order of `str`'s
/// `Ord`.
pub open spec fn seq_less(a: Seq<char>, b: Seq<char>) -> bool
    decreases a.len(),
{
    if b.len() == 0 {
        false
    } else if a.len() == 0 {
        true
    } else if a[0] != b[0] {
        (a[0] as u32) < (b[0] as u32)
    } else {
        seq_less(a.drop_first(), b.drop_first())
    }
}

/// Whether `a` comes strictly before `b` in code-point order.
pub fn str_less(a: &str, b: &str) -> (r: bool)
    ensures
        r == seq_less(a@, b@),
{
    let x = chars_of(a);
    let y = chars_of(b);
    let mut i: usize = 0;
    proof {
        assert(x@.subrange(0, x@.len() as int) =~= x@);
        assert(y@.subrange(0, y@.len() as int) =~= y@);
    }
    while i < x.len() && i < y.len() && x[i] == y[i]
        invariant
            x@ == a@,
            y@ == b@,
            0 <= i <= x.len(),
            i <= y.len(),
            seq_less(a@, b@) == seq_less(x@.subrange(i as int, x@.len() as int), y@.subrange(i as int, y@.len() as int)),
        decreases x.len() - i,
    {
        proof {
            let xs = x@.subrange(i as int, x@.len() as int);
            let ys = y@.subrange(i as int, y@.len() as int);
            assert(xs.drop_first() =~= x@.subrange(i + 1, x@.len() as int));
            assert(ys.drop_first() =~= y@.subrange(i + 1, y@.len() as int));
        }
        i = i + 1;
    }
    proof {
        assert(x@.subrange(0, x@.len() as int) =~= x@);
        assert(y@.subrange(0, y@.len() as int) =~= y@);
    }
    if i == y.len() {
        false
    } else if i == x.len() {
        true
    } else {
        (x[i] as u32) < (y[i] as u32)
    }
}

} // verus!
