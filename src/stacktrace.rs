use vstd::prelude::*;
use crate::convert::{absent_or_null, last_key, reject, rejected, FromValue, ToValue};
use crate::text::{chars_of, same_text, string_of};
use crate::value::{Annotated, Meta, Object, Val};

verus! {

/// The value of a hexadecimal digit, either case.
pub open spec fn hex_digit(c: char) -> Option<nat> {
    if '0' <= c && c <= '9' {
        Some((c as nat - '0' as nat) as nat)
    } else if 'a' <= c && c <= 'f' {
        Some((c as nat - 'a' as nat + 10) as nat)
    } else if 'A' <= c && c <= 'F' {
        Some((c as nat - 'A' as nat + 10) as nat)
    } else {
        None
    }
}

/// The number that a string of hexadecimal digits writes.
pub open spec fn hex_number(s: Seq<char>) -> Option<nat>
    decreases s.len(),
{
    if s.len() == 0 {
        Some(0)
    } else {
        match (hex_number(s.drop_last()), hex_digit(s.last())) {
            (Some(a), Some(d)) => Some(a * 16 + d),
            _ => None,
        }
    }
}

/// The address that an address string writes: `0x` or `0X`, then one or
/// more hexadecimal digits whose number fits in 64 bits.
pub open spec fn address_of_text(s: Seq<char>) -> Option<u64> {
    if s.len() > 2 && s[0] == '0' && (s[1] == 'x' || s[1] == 'X') {
        match hex_number(s.skip(2)) {
            Some(n) => if n <= u64::MAX {
                Some(n as u64)
            } else {
                None
            },
            None => None,
        }
    } else {
        None
    }
}

/// The lowercase hexadecimal digit of a number below sixteen.
pub open spec fn digit_char(d: nat) -> char {
    if d < 10 {
        ((d + 48) as u8) as char
    } else {
        ((d + 87) as u8) as char
    }
}

/// The lowercase hexadecimal digits of `n`, without leading zeros.
pub open spec fn hex_digits(n: nat) -> Seq<char>
    decreases n,
{
    if n < 16 {
        seq![digit_char(n)]
    } else {
        hex_digits(n / 16) + seq![digit_char(n % 16)]
    }
}

/// The wire form of an address: `0x` and its lowercase digits.
pub open spec fn address_text(n: u64) -> Seq<char> {
    seq!['0', 'x'] + hex_digits(n as nat)
}

fn digit_value(c: char) -> (r: Option<u64>)
    ensures
        r matches Some(d) ==> hex_digit(c) == Some(d as nat),
        r is None ==> hex_digit(c) is None,
{
    if '0' <= c && c <= '9' {
        Some((c as u32 - '0' as u32) as u64)
    } else if 'a' <= c && c <= 'f' {
        Some((c as u32 - 'a' as u32 + 10) as u64)
    } else if 'A' <= c && c <= 'F' {
        Some((c as u32 - 'A' as u32 + 10) as u64)
    } else {
        None
    }
}

fn digit_of(d: u64) -> (r: char)
    requires
        d < 16,
    ensures
        r == digit_char(d as nat),
{
    if d < 10 {
        ((d as u8) + 48u8) as char
    } else {
        ((d as u8) + 87u8) as char
    }
}

/// Reads an address string.
pub fn parse_address(text: &str) -> (r: Option<u64>)
    ensures
        r == address_of_text(text@),
{
    let s = chars_of(text);
    if !(s.len() > 2 && s[0] == '0' && (s[1] == 'x' || s[1] == 'X')) {
        return None;
    }
    let ghost digits = s@.skip(2);
    let mut n: u64 = 0;
    let mut i: usize = 2;
    proof {
        assert(digits.take(0) =~= Seq::<char>::empty());
    }
    while i < s.len()
        invariant
            s@ == text@,
            digits == s@.skip(2),
            2 <= i <= s.len(),
            hex_number(digits.take(i - 2)) == Some(n as nat),
        decreases s.len() - i,
    {
        proof {
            assert(digits.take(i - 1).drop_last() =~= digits.take(i - 2));
            assert(digits.take(i - 1).last() == s@[i as int]);
        }
        let d = match digit_value(s[i]) {
            Some(d) => d,
            None => {
                proof {
                    assert(hex_number(digits.take(i - 1)) is None);
                    lemma_hex_none_extends(digits, (i - 1) as int);
                    assert(digits.take(digits.len() as int) =~= digits);
                }
                return None;
            },
        };
        let times = n.checked_mul(16);
        let next = match times {
            Some(t) => t.checked_add(d),
            None => None,
        };
        match next {
            Some(m) => {
                n = m;
            },
            None => {
                proof {
                    lemma_hex_grows(digits, (i - 1) as int);
                    assert(digits.take(digits.len() as int) =~= digits);
                }
                return None;
            },
        }
        i = i + 1;
    }
    proof {
        assert(digits.take(i - 2) =~= digits);
    }
    Some(n)
}

/// Once a prefix holds a non-digit, every longer prefix does.
proof fn lemma_hex_none_extends(s: Seq<char>, k: int)
    requires
        0 <= k <= s.len(),
        hex_number(s.take(k)) is None,
    ensures
        hex_number(s) is None,
    decreases s.len() - k,
{
    if k < s.len() {
        assert(s.take(k + 1).drop_last() =~= s.take(k));
        lemma_hex_none_extends(s, k + 1);
    } else {
        assert(s.take(k) =~= s);
    }
}

/// A longer prefix never writes a smaller number, and one more digit takes
/// the number past the previous one times sixteen.
proof fn lemma_hex_grows(s: Seq<char>, k: int)
    requires
        0 <= k <= s.len(),
        hex_number(s.take(k)) matches Some(n) && n > u64::MAX,
    ensures
        !(hex_number(s) matches Some(n) && n <= u64::MAX),
    decreases s.len() - k,
{
    if k < s.len() {
        assert(s.take(k + 1).drop_last() =~= s.take(k));
        if hex_number(s.take(k + 1)) is None {
            lemma_hex_none_extends(s, k + 1);
        } else {
            lemma_hex_grows(s, k + 1);
        }
    } else {
        assert(s.take(k) =~= s);
    }
}

/// Writes an address in its wire form.
pub fn address_string(n: u64) -> (r: String)
    ensures
        r@ == address_text(n),
{
    let mut digits: Vec<char> = Vec::new();
    let mut rest: u64 = n;
    while rest >= 16
        invariant
            hex_digits(n as nat) == hex_digits(rest as nat) + digits@,
        decreases rest,
    {
        let d = rest % 16;
        digits.insert(0, digit_of(d));
        proof {
            assert(hex_digits(rest as nat) == hex_digits((rest / 16) as nat) + seq![digit_char((rest % 16) as nat)]);
            assert(hex_digits(n as nat) =~= hex_digits((rest / 16) as nat) + digits@);
        }
        rest = rest / 16;
    }
    digits.insert(0, digit_of(rest));
    digits.insert(0, 'x');
    digits.insert(0, '0');
    proof {
        assert(digits@ =~= address_text(n));
    }
    string_of(&digits)
}

/// A digit's character reads back as the digit.
proof fn lemma_digit_reads_back(d: nat)
    requires
        d < 16,
    ensures
        hex_digit(digit_char(d)) == Some(d),
{
    let c = digit_char(d);
    if d < 10 {
        assert(c as nat == d + 48);
    } else {
        assert(c as nat == d + 87);
    }
}

/// The digits of a number read back as that number.
proof fn lemma_hex_reads_back(n: nat)
    ensures
        hex_number(hex_digits(n)) == Some(n),
        hex_digits(n).len() >= 1,
    decreases n,
{
    if n < 16 {
        let s = hex_digits(n);
        assert(s.drop_last() =~= Seq::<char>::empty());
        assert(s.last() == digit_char(n));
        lemma_digit_reads_back(n);
        assert(hex_number(s.drop_last()) == Some(0nat));
        assert(hex_number(s) == Some(0 * 16 + n));
    } else {
        lemma_hex_reads_back(n / 16);
        let s = hex_digits(n);
        assert(s.drop_last() =~= hex_digits(n / 16));
        assert(s.last() == digit_char(n % 16));
        lemma_digit_reads_back(n % 16);
        assert(hex_number(s.drop_last()) == Some(n / 16));
        assert(hex_digit(s.last()) == Some(n % 16));
        assert(hex_number(s) == Some((n / 16) * 16 + n % 16));
        assert(n == (n / 16) * 16 + n % 16) by (nonlinear_arith);
    }
}

/// An address string reads back as its address.
pub proof fn address_text_reads_back(n: u64)
    ensures
        address_of_text(address_text(n)) == Some(n),
{
    lemma_hex_reads_back(n as nat);
    assert(address_text(n).skip(2) =~= hex_digits(n as nat));
}

/// `r` is what reading `value` as an address gives.
pub open spec fn address_read(value: Annotated<Val>, r: Annotated<Addr>, expected: Seq<char>) -> bool {
    &&& !absent_or_null(value) && address_of_val(value.0->Some_0) is Some ==> r == Annotated(
        Some(Addr(address_of_val(value.0->Some_0)->Some_0)),
        value.1,
    )
    &&& absent_or_null(value) ==> r == Annotated::<Addr>(None, value.1)
    &&& !absent_or_null(value) && address_of_val(value.0->Some_0) is None ==> rejected(value, r, expected)
}

/// `r` is what writing the address field `value` gives.
pub open spec fn address_written(value: Annotated<Addr>, r: Annotated<Val>) -> bool {
    &&& r.1 == value.1
    &&& value.0 matches Some(a) ==> (r.0 matches Some(Val::String(s)) && s@ == address_text(a.0))
    &&& value.0 is None ==> r.0 is None
}

/// Writing an address field and reading it back gives the field unchanged,
/// meta included.
pub proof fn address_round_trip(v: Annotated<Addr>, w: Annotated<Val>, r: Annotated<Addr>)
    requires
        address_written(v, w),
        address_read(w, r, "an address"@),
    ensures
        r == v,
{
    if let Some(a) = v.0 {
        address_text_reads_back(a.0);
    }
}

/// An address in memory, written as a `0x`-prefixed lowercase hex string.
#[derive(Debug, PartialEq, Eq, Structural)]
pub struct Addr(pub u64);

/// A register value, written as a `0x`-prefixed lowercase hex string.
#[derive(Debug, PartialEq, Eq, Structural)]
pub struct RegVal(pub u64);

/// The number an address is read from: a non-negative integer, or an
/// address string.
pub open spec fn address_of_val(v: Val) -> Option<u64> {
    match v {
        Val::U64(u) => Some(u),
        Val::I64(i) => if i >= 0 {
            Some(i as u64)
        } else {
            None
        },
        Val::String(s) => address_of_text(s@),
        _ => None,
    }
}

/// Reads the number of an address.
fn address_from(value: Annotated<Val>, expected: &str) -> (r: Annotated<u64>)
    ensures
        !absent_or_null(value) && address_of_val(value.0->Some_0) is Some ==> r == Annotated(
            Some(address_of_val(value.0->Some_0)->Some_0),
            value.1,
        ),
        absent_or_null(value) ==> r == Annotated::<u64>(None, value.1),
        !absent_or_null(value) && address_of_val(value.0->Some_0) is None ==> rejected(value, r, expected@),
{
    match value {
        Annotated(Some(Val::Null), meta) => Annotated(None, meta),
        Annotated(None, meta) => Annotated(None, meta),
        Annotated(Some(Val::U64(u)), meta) => Annotated(Some(u), meta),
        Annotated(Some(Val::I64(i)), meta) => {
            if i >= 0 {
                Annotated(Some(i as u64), meta)
            } else {
                reject(Val::I64(i), meta, expected)
            }
        },
        Annotated(Some(Val::String(s)), meta) => {
            match parse_address(s.as_str()) {
                Some(n) => Annotated(Some(n), meta),
                None => reject(Val::String(s), meta, expected),
            }
        },
        Annotated(Some(other), meta) => reject(other, meta, expected),
    }
}

impl FromValue for Addr {
    open spec fn read_spec(value: Annotated<Val>, r: Annotated<Addr>) -> bool {
        &&& address_read(value, r, "an address"@)
    }

    fn from_value(value: Annotated<Val>) -> (r: Annotated<Addr>) {
        let Annotated(v, meta) = address_from(value, "an address");
        match v {
            Some(n) => Annotated(Some(Addr(n)), meta),
            None => Annotated(None, meta),
        }
    }
}

impl FromValue for RegVal {
    open spec fn read_spec(value: Annotated<Val>, r: Annotated<RegVal>) -> bool {
        &&& !absent_or_null(value) && address_of_val(value.0->Some_0) is Some ==> r == Annotated(
            Some(RegVal(address_of_val(value.0->Some_0)->Some_0)),
            value.1,
        )
        &&& absent_or_null(value) ==> r == Annotated::<RegVal>(None, value.1)
        &&& !absent_or_null(value) && address_of_val(value.0->Some_0) is None ==> rejected(value, r, "a register value"@)
    }

    fn from_value(value: Annotated<Val>) -> (r: Annotated<RegVal>) {
        let Annotated(v, meta) = address_from(value, "a register value");
        match v {
            Some(n) => Annotated(Some(RegVal(n)), meta),
            None => Annotated(None, meta),
        }
    }
}

impl ToValue for Addr {
    open spec fn write_spec(value: Annotated<Addr>, r: Annotated<Val>) -> bool {
        &&& address_written(value, r)
    }

    fn to_value(value: Annotated<Addr>) -> (r: Annotated<Val>) {
        let Annotated(v, meta) = value;
        match v {
            Some(a) => Annotated(Some(Val::String(address_string(a.0))), meta),
            None => Annotated(None, meta),
        }
    }
}

impl ToValue for RegVal {
    open spec fn write_spec(value: Annotated<RegVal>, r: Annotated<Val>) -> bool {
        &&& r.1 == value.1
        &&& value.0 matches Some(a) ==> (r.0 matches Some(Val::String(s)) && s@ == address_text(a.0))
        &&& value.0 is None ==> r.0 is None
    }

    fn to_value(value: Annotated<RegVal>) -> (r: Annotated<Val>) {
        let Annotated(v, meta) = value;
        match v {
            Some(a) => Annotated(Some(Val::String(address_string(a.0))), meta),
            None => Annotated(None, meta),
        }
    }
}

/// Information about a single stacktrace frame.
#[derive(Debug, PartialEq)]
pub struct Frame {
    /// Name of the frame's function. This might include the name of a class.
    pub function: Annotated<String>,
    /// Potentially mangled name of the symbol as it appears in an executable.
    pub symbol: Annotated<String>,
    /// Name of the module the frame is contained in.
    pub module: Annotated<String>,
    /// Name of the package that contains the frame.
    pub package: Annotated<String>,
    /// The source file name (basename only).
    pub filename: Annotated<String>,
    /// Absolute path to the source file.
    pub abs_path: Annotated<String>,
    /// Line number within the source file.
    pub line: Annotated<u64>,
    /// Column number within the source file.
    pub column: Annotated<u64>,
    /// Source code leading up to the current line.
    pub pre_lines: Annotated<Vec<Annotated<String>>>,
    /// Source code of the current line.
    pub current_line: Annotated<String>,
    /// Source code of the lines after the current line.
    pub post_lines: Annotated<Vec<Annotated<String>>>,
    /// Override whether this frame should be considered in-app.
    pub in_app: Annotated<bool>,
    /// Local variables in a convenient format.
    pub vars: Annotated<Object<Val>>,
    /// Start address of the containing code module (image).
    pub image_addr: Annotated<Addr>,
    /// Absolute address of the frame's CPU instruction.
    pub instruction_addr: Annotated<Addr>,
    /// Start address of the frame's function.
    pub symbol_addr: Annotated<Addr>,
    /// How much the instruction address can be trusted, for native crashes.
    pub trust: Annotated<String>,
    /// Keys the schema does not know, kept as they came.
    pub other: Object<Val>,
}

/// Every field of `x` is absent with an empty meta, and nothing is in `other`.
pub open spec fn frame_blank(x: Frame) -> bool {
    &&& x.function.0 is None && x.function.1.blank()
    &&& x.symbol.0 is None && x.symbol.1.blank()
    &&& x.module.0 is None && x.module.1.blank()
    &&& x.package.0 is None && x.package.1.blank()
    &&& x.filename.0 is None && x.filename.1.blank()
    &&& x.abs_path.0 is None && x.abs_path.1.blank()
    &&& x.line.0 is None && x.line.1.blank()
    &&& x.column.0 is None && x.column.1.blank()
    &&& x.pre_lines.0 is None && x.pre_lines.1.blank()
    &&& x.current_line.0 is None && x.current_line.1.blank()
    &&& x.post_lines.0 is None && x.post_lines.1.blank()
    &&& x.in_app.0 is None && x.in_app.1.blank()
    &&& x.vars.0 is None && x.vars.1.blank()
    &&& x.image_addr.0 is None && x.image_addr.1.blank()
    &&& x.instruction_addr.0 is None && x.instruction_addr.1.blank()
    &&& x.symbol_addr.0 is None && x.symbol_addr.1.blank()
    &&& x.trust.0 is None && x.trust.1.blank()
    &&& x.other.entries@.len() == 0
}

/// Each field whose key is not among `keys` is absent with an empty meta.
pub open spec fn frame_absent_fields(keys: Seq<Seq<char>>, x: Frame) -> bool {
    &&& !keys.contains("function"@) ==> (x.function.0 is None && x.function.1.blank())
    &&& !keys.contains("symbol"@) ==> (x.symbol.0 is None && x.symbol.1.blank())
    &&& !keys.contains("module"@) ==> (x.module.0 is None && x.module.1.blank())
    &&& !keys.contains("package"@) ==> (x.package.0 is None && x.package.1.blank())
    &&& !keys.contains("filename"@) ==> (x.filename.0 is None && x.filename.1.blank())
    &&& !keys.contains("abs_path"@) ==> (x.abs_path.0 is None && x.abs_path.1.blank())
    &&& !keys.contains("lineno"@) ==> (x.line.0 is None && x.line.1.blank())
    &&& !keys.contains("colno"@) ==> (x.column.0 is None && x.column.1.blank())
    &&& !keys.contains("pre_context"@) ==> (x.pre_lines.0 is None && x.pre_lines.1.blank())
    &&& !keys.contains("context_line"@) ==> (x.current_line.0 is None && x.current_line.1.blank())
    &&& !keys.contains("post_context"@) ==> (x.post_lines.0 is None && x.post_lines.1.blank())
    &&& !keys.contains("in_app"@) ==> (x.in_app.0 is None && x.in_app.1.blank())
    &&& !keys.contains("vars"@) ==> (x.vars.0 is None && x.vars.1.blank())
    &&& !keys.contains("image_addr"@) ==> (x.image_addr.0 is None && x.image_addr.1.blank())
    &&& !keys.contains("instruction_addr"@) ==> (x.instruction_addr.0 is None && x.instruction_addr.1.blank())
    &&& !keys.contains("symbol_addr"@) ==> (x.symbol_addr.0 is None && x.symbol_addr.1.blank())
    &&& !keys.contains("trust"@) ==> (x.trust.0 is None && x.trust.1.blank())
}

/// Each field whose key is among those of `items` holds what reading the
/// value of the last entry with that key gives.
pub open spec fn frame_read_fields(items: Object<Val>, x: Frame) -> bool {
    &&& forall|i: int| 0 <= i < items.keys().len() && #[trigger] last_key(items.keys(), i, "function"@, items.keys().len() as int)
        ==> <String as FromValue>::read_spec(items.entries@[i].1, x.function)
    &&& forall|i: int| 0 <= i < items.keys().len() && #[trigger] last_key(items.keys(), i, "symbol"@, items.keys().len() as int)
        ==> <String as FromValue>::read_spec(items.entries@[i].1, x.symbol)
    &&& forall|i: int| 0 <= i < items.keys().len() && #[trigger] last_key(items.keys(), i, "module"@, items.keys().len() as int)
        ==> <String as FromValue>::read_spec(items.entries@[i].1, x.module)
    &&& forall|i: int| 0 <= i < items.keys().len() && #[trigger] last_key(items.keys(), i, "package"@, items.keys().len() as int)
        ==> <String as FromValue>::read_spec(items.entries@[i].1, x.package)
    &&& forall|i: int| 0 <= i < items.keys().len() && #[trigger] last_key(items.keys(), i, "filename"@, items.keys().len() as int)
        ==> <String as FromValue>::read_spec(items.entries@[i].1, x.filename)
    &&& forall|i: int| 0 <= i < items.keys().len() && #[trigger] last_key(items.keys(), i, "abs_path"@, items.keys().len() as int)
        ==> <String as FromValue>::read_spec(items.entries@[i].1, x.abs_path)
    &&& forall|i: int| 0 <= i < items.keys().len() && #[trigger] last_key(items.keys(), i, "lineno"@, items.keys().len() as int)
        ==> <u64 as FromValue>::read_spec(items.entries@[i].1, x.line)
    &&& forall|i: int| 0 <= i < items.keys().len() && #[trigger] last_key(items.keys(), i, "colno"@, items.keys().len() as int)
        ==> <u64 as FromValue>::read_spec(items.entries@[i].1, x.column)
    &&& forall|i: int| 0 <= i < items.keys().len() && #[trigger] last_key(items.keys(), i, "pre_context"@, items.keys().len() as int)
        ==> <Vec<Annotated<String>> as FromValue>::read_spec(items.entries@[i].1, x.pre_lines)
    &&& forall|i: int| 0 <= i < items.keys().len() && #[trigger] last_key(items.keys(), i, "context_line"@, items.keys().len() as int)
        ==> <String as FromValue>::read_spec(items.entries@[i].1, x.current_line)
    &&& forall|i: int| 0 <= i < items.keys().len() && #[trigger] last_key(items.keys(), i, "post_context"@, items.keys().len() as int)
        ==> <Vec<Annotated<String>> as FromValue>::read_spec(items.entries@[i].1, x.post_lines)
    &&& forall|i: int| 0 <= i < items.keys().len() && #[trigger] last_key(items.keys(), i, "in_app"@, items.keys().len() as int)
        ==> <bool as FromValue>::read_spec(items.entries@[i].1, x.in_app)
    &&& forall|i: int| 0 <= i < items.keys().len() && #[trigger] last_key(items.keys(), i, "vars"@, items.keys().len() as int)
        ==> <Object<Val> as FromValue>::read_spec(items.entries@[i].1, x.vars)
    &&& forall|i: int| 0 <= i < items.keys().len() && #[trigger] last_key(items.keys(), i, "image_addr"@, items.keys().len() as int)
        ==> <Addr as FromValue>::read_spec(items.entries@[i].1, x.image_addr)
    &&& forall|i: int| 0 <= i < items.keys().len() && #[trigger] last_key(items.keys(), i, "instruction_addr"@, items.keys().len() as int)
        ==> <Addr as FromValue>::read_spec(items.entries@[i].1, x.instruction_addr)
    &&& forall|i: int| 0 <= i < items.keys().len() && #[trigger] last_key(items.keys(), i, "symbol_addr"@, items.keys().len() as int)
        ==> <Addr as FromValue>::read_spec(items.entries@[i].1, x.symbol_addr)
    &&& forall|i: int| 0 <= i < items.keys().len() && #[trigger] last_key(items.keys(), i, "trust"@, items.keys().len() as int)
        ==> <String as FromValue>::read_spec(items.entries@[i].1, x.trust)
}

impl Default for Frame {
    fn default() -> (r: Frame)
        ensures
            frame_blank(r),
    {
        Frame {
            function: Annotated::empty(),
            symbol: Annotated::empty(),
            module: Annotated::empty(),
            package: Annotated::empty(),
            filename: Annotated::empty(),
            abs_path: Annotated::empty(),
            line: Annotated::empty(),
            column: Annotated::empty(),
            pre_lines: Annotated::empty(),
            current_line: Annotated::empty(),
            post_lines: Annotated::empty(),
            in_app: Annotated::empty(),
            vars: Annotated::empty(),
            image_addr: Annotated::empty(),
            instruction_addr: Annotated::empty(),
            symbol_addr: Annotated::empty(),
            trust: Annotated::empty(),
            other: Object::new(),
        }
    }
}

impl Frame {
    /// Reads one entry into its field, or into `other` where the key is
    /// not one of the schema's.
    fn set_field(x: &mut Frame, key: String, item: Annotated<Val>)
        requires
            old(x).other.wf(),
        ensures
            final(x).other.wf(),
            key@ != "function"@ ==> final(x).function == old(x).function,
            key@ == "function"@ ==> <String as FromValue>::read_spec(item, final(x).function),
            key@ != "symbol"@ ==> final(x).symbol == old(x).symbol,
            key@ == "symbol"@ ==> <String as FromValue>::read_spec(item, final(x).symbol),
            key@ != "module"@ ==> final(x).module == old(x).module,
            key@ == "module"@ ==> <String as FromValue>::read_spec(item, final(x).module),
            key@ != "package"@ ==> final(x).package == old(x).package,
            key@ == "package"@ ==> <String as FromValue>::read_spec(item, final(x).package),
            key@ != "filename"@ ==> final(x).filename == old(x).filename,
            key@ == "filename"@ ==> <String as FromValue>::read_spec(item, final(x).filename),
            key@ != "abs_path"@ ==> final(x).abs_path == old(x).abs_path,
            key@ == "abs_path"@ ==> <String as FromValue>::read_spec(item, final(x).abs_path),
            key@ != "lineno"@ ==> final(x).line == old(x).line,
            key@ == "lineno"@ ==> <u64 as FromValue>::read_spec(item, final(x).line),
            key@ != "colno"@ ==> final(x).column == old(x).column,
            key@ == "colno"@ ==> <u64 as FromValue>::read_spec(item, final(x).column),
            key@ != "pre_context"@ ==> final(x).pre_lines == old(x).pre_lines,
            key@ == "pre_context"@ ==> <Vec<Annotated<String>> as FromValue>::read_spec(item, final(x).pre_lines),
            key@ != "context_line"@ ==> final(x).current_line == old(x).current_line,
            key@ == "context_line"@ ==> <String as FromValue>::read_spec(item, final(x).current_line),
            key@ != "post_context"@ ==> final(x).post_lines == old(x).post_lines,
            key@ == "post_context"@ ==> <Vec<Annotated<String>> as FromValue>::read_spec(item, final(x).post_lines),
            key@ != "in_app"@ ==> final(x).in_app == old(x).in_app,
            key@ == "in_app"@ ==> <bool as FromValue>::read_spec(item, final(x).in_app),
            key@ != "vars"@ ==> final(x).vars == old(x).vars,
            key@ == "vars"@ ==> <Object<Val> as FromValue>::read_spec(item, final(x).vars),
            key@ != "image_addr"@ ==> final(x).image_addr == old(x).image_addr,
            key@ == "image_addr"@ ==> <Addr as FromValue>::read_spec(item, final(x).image_addr),
            key@ != "instruction_addr"@ ==> final(x).instruction_addr == old(x).instruction_addr,
            key@ == "instruction_addr"@ ==> <Addr as FromValue>::read_spec(item, final(x).instruction_addr),
            key@ != "symbol_addr"@ ==> final(x).symbol_addr == old(x).symbol_addr,
            key@ == "symbol_addr"@ ==> <Addr as FromValue>::read_spec(item, final(x).symbol_addr),
            key@ != "trust"@ ==> final(x).trust == old(x).trust,
            key@ == "trust"@ ==> <String as FromValue>::read_spec(item, final(x).trust),
    {
        proof {
            reveal_strlit("function");
            assert("function"@ =~= seq!['f', 'u', 'n', 'c', 't', 'i', 'o', 'n']);
            reveal_strlit("symbol");
            assert("symbol"@ =~= seq!['s', 'y', 'm', 'b', 'o', 'l']);
            reveal_strlit("module");
            assert("module"@ =~= seq!['m', 'o', 'd', 'u', 'l', 'e']);
            reveal_strlit("package");
            assert("package"@ =~= seq!['p', 'a', 'c', 'k', 'a', 'g', 'e']);
            reveal_strlit("filename");
            assert("filename"@ =~= seq!['f', 'i', 'l', 'e', 'n', 'a', 'm', 'e']);
            reveal_strlit("abs_path");
            assert("abs_path"@ =~= seq!['a', 'b', 's', '_', 'p', 'a', 't', 'h']);
            reveal_strlit("lineno");
            assert("lineno"@ =~= seq!['l', 'i', 'n', 'e', 'n', 'o']);
            reveal_strlit("colno");
            assert("colno"@ =~= seq!['c', 'o', 'l', 'n', 'o']);
            reveal_strlit("pre_context");
            assert("pre_context"@ =~= seq!['p', 'r', 'e', '_', 'c', 'o', 'n', 't', 'e', 'x', 't']);
            reveal_strlit("context_line");
            assert("context_line"@ =~= seq!['c', 'o', 'n', 't', 'e', 'x', 't', '_', 'l', 'i', 'n', 'e']);
            reveal_strlit("post_context");
            assert("post_context"@ =~= seq!['p', 'o', 's', 't', '_', 'c', 'o', 'n', 't', 'e', 'x', 't']);
            reveal_strlit("in_app");
            assert("in_app"@ =~= seq!['i', 'n', '_', 'a', 'p', 'p']);
            reveal_strlit("vars");
            assert("vars"@ =~= seq!['v', 'a', 'r', 's']);
            reveal_strlit("image_addr");
            assert("image_addr"@ =~= seq!['i', 'm', 'a', 'g', 'e', '_', 'a', 'd', 'd', 'r']);
            reveal_strlit("instruction_addr");
            assert("instruction_addr"@ =~= seq!['i', 'n', 's', 't', 'r', 'u', 'c', 't', 'i', 'o', 'n', '_', 'a', 'd', 'd', 'r']);
            reveal_strlit("symbol_addr");
            assert("symbol_addr"@ =~= seq!['s', 'y', 'm', 'b', 'o', 'l', '_', 'a', 'd', 'd', 'r']);
            reveal_strlit("trust");
            assert("trust"@ =~= seq!['t', 'r', 'u', 's', 't']);
        }
        if same_text(key.as_str(), "function") {
            x.function = <String>::from_value(item);
        } else if same_text(key.as_str(), "symbol") {
            x.symbol = <String>::from_value(item);
        } else if same_text(key.as_str(), "module") {
            x.module = <String>::from_value(item);
        } else if same_text(key.as_str(), "package") {
            x.package = <String>::from_value(item);
        } else if same_text(key.as_str(), "filename") {
            x.filename = <String>::from_value(item);
        } else if same_text(key.as_str(), "abs_path") {
            x.abs_path = <String>::from_value(item);
        } else if same_text(key.as_str(), "lineno") {
            x.line = <u64>::from_value(item);
        } else if same_text(key.as_str(), "colno") {
            x.column = <u64>::from_value(item);
        } else if same_text(key.as_str(), "pre_context") {
            x.pre_lines = <Vec<Annotated<String>>>::from_value(item);
        } else if same_text(key.as_str(), "context_line") {
            x.current_line = <String>::from_value(item);
        } else if same_text(key.as_str(), "post_context") {
            x.post_lines = <Vec<Annotated<String>>>::from_value(item);
        } else if same_text(key.as_str(), "in_app") {
            x.in_app = <bool>::from_value(item);
        } else if same_text(key.as_str(), "vars") {
            x.vars = <Object<Val>>::from_value(item);
        } else if same_text(key.as_str(), "image_addr") {
            x.image_addr = <Addr>::from_value(item);
        } else if same_text(key.as_str(), "instruction_addr") {
            x.instruction_addr = <Addr>::from_value(item);
        } else if same_text(key.as_str(), "symbol_addr") {
            x.symbol_addr = <Addr>::from_value(item);
        } else if same_text(key.as_str(), "trust") {
            x.trust = <String>::from_value(item);
        } else {
            x.other.push(key, item);
        }
    }

    /// Reads the fields of a record from the entries of an object: a known
    /// key through its field's own conversion, an unknown one into `other`.
    pub fn from_entries(items: Object<Val>) -> (r: Frame)
        ensures
            frame_absent_fields(items.keys(), r),
            frame_read_fields(items, r),
            r.other.wf(),
    {
        let mut entries = items.entries;
        let ghost all = items.entries@;
        let ghost all_keys = items.keys();
        let mut x = Frame::default();
        let ghost mut j: int = 0;
        while entries.len() > 0
            invariant
                x.other.wf(),
                all_keys == all.map_values(|e: (String, Annotated<Val>)| e.0@),
                0 <= j,
                j + entries@.len() == all.len(),
                entries@ == all.subrange(j, all.len() as int),
                (forall|i: int| 0 <= i < j ==> all_keys[i] != "function"@) ==> (x.function.0 is None && x.function.1.blank()),
                forall|i: int| 0 <= i < j && #[trigger] last_key(all_keys, i, "function"@, j) ==> <String as FromValue>::read_spec(all[i].1, x.function),
                (forall|i: int| 0 <= i < j ==> all_keys[i] != "symbol"@) ==> (x.symbol.0 is None && x.symbol.1.blank()),
                forall|i: int| 0 <= i < j && #[trigger] last_key(all_keys, i, "symbol"@, j) ==> <String as FromValue>::read_spec(all[i].1, x.symbol),
                (forall|i: int| 0 <= i < j ==> all_keys[i] != "module"@) ==> (x.module.0 is None && x.module.1.blank()),
                forall|i: int| 0 <= i < j && #[trigger] last_key(all_keys, i, "module"@, j) ==> <String as FromValue>::read_spec(all[i].1, x.module),
                (forall|i: int| 0 <= i < j ==> all_keys[i] != "package"@) ==> (x.package.0 is None && x.package.1.blank()),
                forall|i: int| 0 <= i < j && #[trigger] last_key(all_keys, i, "package"@, j) ==> <String as FromValue>::read_spec(all[i].1, x.package),
                (forall|i: int| 0 <= i < j ==> all_keys[i] != "filename"@) ==> (x.filename.0 is None && x.filename.1.blank()),
                forall|i: int| 0 <= i < j && #[trigger] last_key(all_keys, i, "filename"@, j) ==> <String as FromValue>::read_spec(all[i].1, x.filename),
                (forall|i: int| 0 <= i < j ==> all_keys[i] != "abs_path"@) ==> (x.abs_path.0 is None && x.abs_path.1.blank()),
                forall|i: int| 0 <= i < j && #[trigger] last_key(all_keys, i, "abs_path"@, j) ==> <String as FromValue>::read_spec(all[i].1, x.abs_path),
                (forall|i: int| 0 <= i < j ==> all_keys[i] != "lineno"@) ==> (x.line.0 is None && x.line.1.blank()),
                forall|i: int| 0 <= i < j && #[trigger] last_key(all_keys, i, "lineno"@, j) ==> <u64 as FromValue>::read_spec(all[i].1, x.line),
                (forall|i: int| 0 <= i < j ==> all_keys[i] != "colno"@) ==> (x.column.0 is None && x.column.1.blank()),
                forall|i: int| 0 <= i < j && #[trigger] last_key(all_keys, i, "colno"@, j) ==> <u64 as FromValue>::read_spec(all[i].1, x.column),
                (forall|i: int| 0 <= i < j ==> all_keys[i] != "pre_context"@) ==> (x.pre_lines.0 is None && x.pre_lines.1.blank()),
                forall|i: int| 0 <= i < j && #[trigger] last_key(all_keys, i, "pre_context"@, j) ==> <Vec<Annotated<String>> as FromValue>::read_spec(all[i].1, x.pre_lines),
                (forall|i: int| 0 <= i < j ==> all_keys[i] != "context_line"@) ==> (x.current_line.0 is None && x.current_line.1.blank()),
                forall|i: int| 0 <= i < j && #[trigger] last_key(all_keys, i, "context_line"@, j) ==> <String as FromValue>::read_spec(all[i].1, x.current_line),
                (forall|i: int| 0 <= i < j ==> all_keys[i] != "post_context"@) ==> (x.post_lines.0 is None && x.post_lines.1.blank()),
                forall|i: int| 0 <= i < j && #[trigger] last_key(all_keys, i, "post_context"@, j) ==> <Vec<Annotated<String>> as FromValue>::read_spec(all[i].1, x.post_lines),
                (forall|i: int| 0 <= i < j ==> all_keys[i] != "in_app"@) ==> (x.in_app.0 is None && x.in_app.1.blank()),
                forall|i: int| 0 <= i < j && #[trigger] last_key(all_keys, i, "in_app"@, j) ==> <bool as FromValue>::read_spec(all[i].1, x.in_app),
                (forall|i: int| 0 <= i < j ==> all_keys[i] != "vars"@) ==> (x.vars.0 is None && x.vars.1.blank()),
                forall|i: int| 0 <= i < j && #[trigger] last_key(all_keys, i, "vars"@, j) ==> <Object<Val> as FromValue>::read_spec(all[i].1, x.vars),
                (forall|i: int| 0 <= i < j ==> all_keys[i] != "image_addr"@) ==> (x.image_addr.0 is None && x.image_addr.1.blank()),
                forall|i: int| 0 <= i < j && #[trigger] last_key(all_keys, i, "image_addr"@, j) ==> <Addr as FromValue>::read_spec(all[i].1, x.image_addr),
                (forall|i: int| 0 <= i < j ==> all_keys[i] != "instruction_addr"@) ==> (x.instruction_addr.0 is None && x.instruction_addr.1.blank()),
                forall|i: int| 0 <= i < j && #[trigger] last_key(all_keys, i, "instruction_addr"@, j) ==> <Addr as FromValue>::read_spec(all[i].1, x.instruction_addr),
                (forall|i: int| 0 <= i < j ==> all_keys[i] != "symbol_addr"@) ==> (x.symbol_addr.0 is None && x.symbol_addr.1.blank()),
                forall|i: int| 0 <= i < j && #[trigger] last_key(all_keys, i, "symbol_addr"@, j) ==> <Addr as FromValue>::read_spec(all[i].1, x.symbol_addr),
                (forall|i: int| 0 <= i < j ==> all_keys[i] != "trust"@) ==> (x.trust.0 is None && x.trust.1.blank()),
                forall|i: int| 0 <= i < j && #[trigger] last_key(all_keys, i, "trust"@, j) ==> <String as FromValue>::read_spec(all[i].1, x.trust),
            decreases entries.len(),
        {
            let ghost left = entries@;
            let (key, item) = entries.remove(0);
            proof {
                assert(left[0] == all[j]);
                assert(all[j].1 == item);
                assert(all_keys[j] == key@);
                assert(entries@ =~= all.subrange(j + 1, all.len() as int));
            }
            Frame::set_field(&mut x, key, item);
            proof {{
                assert forall|i: int| 0 <= i < j + 1 && #[trigger] last_key(all_keys, i, "function"@, j + 1) implies <String as FromValue>::read_spec(all[i].1, x.function) by {
                    if i < j {
                        assert(last_key(all_keys, i, "function"@, j));
                    }
                }
                assert forall|i: int| 0 <= i < j + 1 && #[trigger] last_key(all_keys, i, "symbol"@, j + 1) implies <String as FromValue>::read_spec(all[i].1, x.symbol) by {
                    if i < j {
                        assert(last_key(all_keys, i, "symbol"@, j));
                    }
                }
                assert forall|i: int| 0 <= i < j + 1 && #[trigger] last_key(all_keys, i, "module"@, j + 1) implies <String as FromValue>::read_spec(all[i].1, x.module) by {
                    if i < j {
                        assert(last_key(all_keys, i, "module"@, j));
                    }
                }
                assert forall|i: int| 0 <= i < j + 1 && #[trigger] last_key(all_keys, i, "package"@, j + 1) implies <String as FromValue>::read_spec(all[i].1, x.package) by {
                    if i < j {
                        assert(last_key(all_keys, i, "package"@, j));
                    }
                }
                assert forall|i: int| 0 <= i < j + 1 && #[trigger] last_key(all_keys, i, "filename"@, j + 1) implies <String as FromValue>::read_spec(all[i].1, x.filename) by {
                    if i < j {
                        assert(last_key(all_keys, i, "filename"@, j));
                    }
                }
                assert forall|i: int| 0 <= i < j + 1 && #[trigger] last_key(all_keys, i, "abs_path"@, j + 1) implies <String as FromValue>::read_spec(all[i].1, x.abs_path) by {
                    if i < j {
                        assert(last_key(all_keys, i, "abs_path"@, j));
                    }
                }
                assert forall|i: int| 0 <= i < j + 1 && #[trigger] last_key(all_keys, i, "lineno"@, j + 1) implies <u64 as FromValue>::read_spec(all[i].1, x.line) by {
                    if i < j {
                        assert(last_key(all_keys, i, "lineno"@, j));
                    }
                }
                assert forall|i: int| 0 <= i < j + 1 && #[trigger] last_key(all_keys, i, "colno"@, j + 1) implies <u64 as FromValue>::read_spec(all[i].1, x.column) by {
                    if i < j {
                        assert(last_key(all_keys, i, "colno"@, j));
                    }
                }
                assert forall|i: int| 0 <= i < j + 1 && #[trigger] last_key(all_keys, i, "pre_context"@, j + 1) implies <Vec<Annotated<String>> as FromValue>::read_spec(all[i].1, x.pre_lines) by {
                    if i < j {
                        assert(last_key(all_keys, i, "pre_context"@, j));
                    }
                }
                assert forall|i: int| 0 <= i < j + 1 && #[trigger] last_key(all_keys, i, "context_line"@, j + 1) implies <String as FromValue>::read_spec(all[i].1, x.current_line) by {
                    if i < j {
                        assert(last_key(all_keys, i, "context_line"@, j));
                    }
                }
                assert forall|i: int| 0 <= i < j + 1 && #[trigger] last_key(all_keys, i, "post_context"@, j + 1) implies <Vec<Annotated<String>> as FromValue>::read_spec(all[i].1, x.post_lines) by {
                    if i < j {
                        assert(last_key(all_keys, i, "post_context"@, j));
                    }
                }
                assert forall|i: int| 0 <= i < j + 1 && #[trigger] last_key(all_keys, i, "in_app"@, j + 1) implies <bool as FromValue>::read_spec(all[i].1, x.in_app) by {
                    if i < j {
                        assert(last_key(all_keys, i, "in_app"@, j));
                    }
                }
                assert forall|i: int| 0 <= i < j + 1 && #[trigger] last_key(all_keys, i, "vars"@, j + 1) implies <Object<Val> as FromValue>::read_spec(all[i].1, x.vars) by {
                    if i < j {
                        assert(last_key(all_keys, i, "vars"@, j));
                    }
                }
                assert forall|i: int| 0 <= i < j + 1 && #[trigger] last_key(all_keys, i, "image_addr"@, j + 1) implies <Addr as FromValue>::read_spec(all[i].1, x.image_addr) by {
                    if i < j {
                        assert(last_key(all_keys, i, "image_addr"@, j));
                    }
                }
                assert forall|i: int| 0 <= i < j + 1 && #[trigger] last_key(all_keys, i, "instruction_addr"@, j + 1) implies <Addr as FromValue>::read_spec(all[i].1, x.instruction_addr) by {
                    if i < j {
                        assert(last_key(all_keys, i, "instruction_addr"@, j));
                    }
                }
                assert forall|i: int| 0 <= i < j + 1 && #[trigger] last_key(all_keys, i, "symbol_addr"@, j + 1) implies <Addr as FromValue>::read_spec(all[i].1, x.symbol_addr) by {
                    if i < j {
                        assert(last_key(all_keys, i, "symbol_addr"@, j));
                    }
                }
                assert forall|i: int| 0 <= i < j + 1 && #[trigger] last_key(all_keys, i, "trust"@, j + 1) implies <String as FromValue>::read_spec(all[i].1, x.trust) by {
                    if i < j {
                        assert(last_key(all_keys, i, "trust"@, j));
                    }
                }
            }}
            proof {
                j = j + 1;
            }
        }
        x
    }
}

impl FromValue for Frame {
    open spec fn read_spec(value: Annotated<Val>, r: Annotated<Frame>) -> bool {
        &&& value.0 matches Some(Val::Object(items)) ==> (r.1 == value.1 && r.0 is Some
            && frame_absent_fields(items.keys(), r.0->Some_0)
            && frame_read_fields(items, r.0->Some_0))
        &&& absent_or_null(value) ==> r == Annotated::<Frame>(None, value.1)
        &&& !(value.0 matches Some(Val::Object(_))) && !absent_or_null(value) ==> rejected(value, r, "a frame"@)
    }

    /// An object is read as the record; anything else is rejected.
    fn from_value(value: Annotated<Val>) -> (r: Annotated<Frame>) {
        match value {
            Annotated(Some(Val::Object(items)), meta) => Annotated(Some(Frame::from_entries(items)), meta),
            Annotated(Some(Val::Null), meta) => Annotated(None, meta),
            Annotated(None, meta) => Annotated(None, meta),
            Annotated(Some(other), meta) => reject(other, meta, "a frame"),
        }
    }
}

/// `out` is the object that writing `x` gives: each field under its key, in
/// declared order, each written by its own type, then the entries of `other`
/// as they are.
pub open spec fn frame_written(x: Frame, out: Object<Val>) -> bool {
    &&& out.entries@.len() == 17 + x.other.entries@.len()
    &&& out.entries@[0].0@ == "function"@ && <String as ToValue>::write_spec(x.function, out.entries@[0].1)
    &&& out.entries@[1].0@ == "symbol"@ && <String as ToValue>::write_spec(x.symbol, out.entries@[1].1)
    &&& out.entries@[2].0@ == "module"@ && <String as ToValue>::write_spec(x.module, out.entries@[2].1)
    &&& out.entries@[3].0@ == "package"@ && <String as ToValue>::write_spec(x.package, out.entries@[3].1)
    &&& out.entries@[4].0@ == "filename"@ && <String as ToValue>::write_spec(x.filename, out.entries@[4].1)
    &&& out.entries@[5].0@ == "abs_path"@ && <String as ToValue>::write_spec(x.abs_path, out.entries@[5].1)
    &&& out.entries@[6].0@ == "lineno"@ && <u64 as ToValue>::write_spec(x.line, out.entries@[6].1)
    &&& out.entries@[7].0@ == "colno"@ && <u64 as ToValue>::write_spec(x.column, out.entries@[7].1)
    &&& out.entries@[8].0@ == "pre_context"@ && <Vec<Annotated<String>> as ToValue>::write_spec(x.pre_lines, out.entries@[8].1)
    &&& out.entries@[9].0@ == "context_line"@ && <String as ToValue>::write_spec(x.current_line, out.entries@[9].1)
    &&& out.entries@[10].0@ == "post_context"@ && <Vec<Annotated<String>> as ToValue>::write_spec(x.post_lines, out.entries@[10].1)
    &&& out.entries@[11].0@ == "in_app"@ && <bool as ToValue>::write_spec(x.in_app, out.entries@[11].1)
    &&& out.entries@[12].0@ == "vars"@ && <Object<Val> as ToValue>::write_spec(x.vars, out.entries@[12].1)
    &&& out.entries@[13].0@ == "image_addr"@ && <Addr as ToValue>::write_spec(x.image_addr, out.entries@[13].1)
    &&& out.entries@[14].0@ == "instruction_addr"@ && <Addr as ToValue>::write_spec(x.instruction_addr, out.entries@[14].1)
    &&& out.entries@[15].0@ == "symbol_addr"@ && <Addr as ToValue>::write_spec(x.symbol_addr, out.entries@[15].1)
    &&& out.entries@[16].0@ == "trust"@ && <String as ToValue>::write_spec(x.trust, out.entries@[16].1)
    &&& out.entries@.subrange(17, out.entries@.len() as int) == x.other.entries@
}

impl ToValue for Frame {
    open spec fn write_spec(value: Annotated<Frame>, r: Annotated<Val>) -> bool {
        &&& r.1 == value.1
        &&& value.0 is None ==> r.0 is None
        &&& value.0 is Some ==> (r.0 matches Some(Val::Object(out)) && frame_written(value.0->Some_0, out))
    }

    /// The record as an object: its fields in declared order, then `other`.
    fn to_value(value: Annotated<Frame>) -> (r: Annotated<Val>) {
        let Annotated(v, meta) = value;
        match v {
            Some(x) => {
                let ghost x0 = x;
                let mut entries: Vec<(String, Annotated<Val>)> = Vec::new();
                entries.push(("function".to_owned(), <String>::to_value(x.function)));
                entries.push(("symbol".to_owned(), <String>::to_value(x.symbol)));
                entries.push(("module".to_owned(), <String>::to_value(x.module)));
                entries.push(("package".to_owned(), <String>::to_value(x.package)));
                entries.push(("filename".to_owned(), <String>::to_value(x.filename)));
                entries.push(("abs_path".to_owned(), <String>::to_value(x.abs_path)));
                entries.push(("lineno".to_owned(), <u64>::to_value(x.line)));
                entries.push(("colno".to_owned(), <u64>::to_value(x.column)));
                entries.push(("pre_context".to_owned(), <Vec<Annotated<String>>>::to_value(x.pre_lines)));
                entries.push(("context_line".to_owned(), <String>::to_value(x.current_line)));
                entries.push(("post_context".to_owned(), <Vec<Annotated<String>>>::to_value(x.post_lines)));
                entries.push(("in_app".to_owned(), <bool>::to_value(x.in_app)));
                entries.push(("vars".to_owned(), <Object<Val>>::to_value(x.vars)));
                entries.push(("image_addr".to_owned(), <Addr>::to_value(x.image_addr)));
                entries.push(("instruction_addr".to_owned(), <Addr>::to_value(x.instruction_addr)));
                entries.push(("symbol_addr".to_owned(), <Addr>::to_value(x.symbol_addr)));
                entries.push(("trust".to_owned(), <String>::to_value(x.trust)));
                let ghost declared = entries@;
                let mut extra = x.other.entries;
                entries.append(&mut extra);
                proof {
                    assert(entries@.subrange(17, entries@.len() as int) =~= x0.other.entries@);
                }
                Annotated(Some(Val::Object(Object { entries })), meta)
            },
            None => Annotated(None, meta),
        }
    }
}

/// A stacktrace: its frames and register values.
#[derive(Debug, PartialEq)]
pub struct Stacktrace {
    /// The frames, required and not empty.
    pub frames: Annotated<Vec<Annotated<Frame>>>,
    /// Register values of the thread (top frame).
    pub registers: Annotated<Object<RegVal>>,
    /// Keys the schema does not know, kept as they came.
    pub other: Object<Val>,
}

/// Every field of `x` is absent with an empty meta, and nothing is in `other`.
pub open spec fn stacktrace_blank(x: Stacktrace) -> bool {
    &&& x.frames.0 is None && x.frames.1.blank()
    &&& x.registers.0 is None && x.registers.1.blank()
    &&& x.other.entries@.len() == 0
}

/// Each field whose key is not among `keys` is absent with an empty meta.
pub open spec fn stacktrace_absent_fields(keys: Seq<Seq<char>>, x: Stacktrace) -> bool {
    &&& !keys.contains("frames"@) ==> (x.frames.0 is None && x.frames.1.errors@.len() == 1 && x.frames.1.errors@[0]@ == "value required"@)
    &&& !keys.contains("registers"@) ==> (x.registers.0 is None && x.registers.1.blank())
}

/// Each field whose key is among those of `items` holds what reading the
/// value of the last entry with that key gives.
pub open spec fn stacktrace_read_fields(items: Object<Val>, x: Stacktrace) -> bool {
    &&& forall|i: int| 0 <= i < items.keys().len() && #[trigger] last_key(items.keys(), i, "frames"@, items.keys().len() as int)
        ==> exists|v: Annotated<Vec<Annotated<Frame>>>| #[trigger] <Vec<Annotated<Frame>> as FromValue>::read_spec(items.entries@[i].1, v)
            && if (v.0 is None && v.1.records_nothing() && v.1.original_value is None) || (v.0 matches Some(f) && f@.len() == 0) {
                x.frames.0 is None && x.frames.1.errors@.len() == 1 && x.frames.1.errors@[0]@ == "value required"@
            } else {
                x.frames == v
            }
    &&& forall|i: int| 0 <= i < items.keys().len() && #[trigger] last_key(items.keys(), i, "registers"@, items.keys().len() as int)
        ==> <Object<RegVal> as FromValue>::read_spec(items.entries@[i].1, x.registers)
}

impl Default for Stacktrace {
    fn default() -> (r: Stacktrace)
        ensures
            stacktrace_blank(r),
    {
        Stacktrace {
            frames: Annotated::empty(),
            registers: Annotated::empty(),
            other: Object::new(),
        }
    }
}

impl Stacktrace {
    /// Reads one entry into its field, or into `other` where the key is
    /// not one of the schema's.
    fn set_field(x: &mut Stacktrace, key: String, item: Annotated<Val>)
        requires
            old(x).other.wf(),
        ensures
            final(x).other.wf(),
            key@ != "frames"@ ==> final(x).frames == old(x).frames,
            key@ == "frames"@ ==> <Vec<Annotated<Frame>> as FromValue>::read_spec(item, final(x).frames),
            key@ != "registers"@ ==> final(x).registers == old(x).registers,
            key@ == "registers"@ ==> <Object<RegVal> as FromValue>::read_spec(item, final(x).registers),
    {
        proof {
            reveal_strlit("frames");
            assert("frames"@ =~= seq!['f', 'r', 'a', 'm', 'e', 's']);
            reveal_strlit("registers");
            assert("registers"@ =~= seq!['r', 'e', 'g', 'i', 's', 't', 'e', 'r', 's']);
        }
        if same_text(key.as_str(), "frames") {
            x.frames = <Vec<Annotated<Frame>>>::from_value(item);
        } else if same_text(key.as_str(), "registers") {
            x.registers = <Object<RegVal>>::from_value(item);
        } else {
            x.other.push(key, item);
        }
    }

    /// Reads the fields of a record from the entries of an object: a known
    /// key through its field's own conversion, an unknown one into `other`.
    pub fn from_entries(items: Object<Val>) -> (r: Stacktrace)
        ensures
            stacktrace_absent_fields(items.keys(), r),
            stacktrace_read_fields(items, r),
            r.frames.0 matches Some(f) ==> f@.len() > 0,
            r.other.wf(),
    {
        let mut entries = items.entries;
        let ghost all = items.entries@;
        let ghost all_keys = items.keys();
        let mut x = Stacktrace::default();
        let ghost mut j: int = 0;
        while entries.len() > 0
            invariant
                x.other.wf(),
                all_keys == all.map_values(|e: (String, Annotated<Val>)| e.0@),
                0 <= j,
                j + entries@.len() == all.len(),
                entries@ == all.subrange(j, all.len() as int),
                (forall|i: int| 0 <= i < j ==> all_keys[i] != "frames"@) ==> (x.frames.0 is None && x.frames.1.blank()),
                forall|i: int| 0 <= i < j && #[trigger] last_key(all_keys, i, "frames"@, j) ==> <Vec<Annotated<Frame>> as FromValue>::read_spec(all[i].1, x.frames),
                (forall|i: int| 0 <= i < j ==> all_keys[i] != "registers"@) ==> (x.registers.0 is None && x.registers.1.blank()),
                forall|i: int| 0 <= i < j && #[trigger] last_key(all_keys, i, "registers"@, j) ==> <Object<RegVal> as FromValue>::read_spec(all[i].1, x.registers),
            decreases entries.len(),
        {
            let ghost left = entries@;
            let (key, item) = entries.remove(0);
            proof {
                assert(left[0] == all[j]);
                assert(all[j].1 == item);
                assert(all_keys[j] == key@);
                assert(entries@ =~= all.subrange(j + 1, all.len() as int));
            }
            Stacktrace::set_field(&mut x, key, item);
            proof {{
                assert forall|i: int| 0 <= i < j + 1 && #[trigger] last_key(all_keys, i, "frames"@, j + 1) implies <Vec<Annotated<Frame>> as FromValue>::read_spec(all[i].1, x.frames) by {
                    if i < j {
                        assert(last_key(all_keys, i, "frames"@, j));
                    }
                }
                assert forall|i: int| 0 <= i < j + 1 && #[trigger] last_key(all_keys, i, "registers"@, j + 1) implies <Object<RegVal> as FromValue>::read_spec(all[i].1, x.registers) by {
                    if i < j {
                        assert(last_key(all_keys, i, "registers"@, j));
                    }
                }
            }}
            proof {
                j = j + 1;
            }
        }
        let missing = x.frames.0.is_none() && x.frames.1.is_empty() && x.frames.1.original_value.is_none();
        if missing {
            x.frames = Annotated::from_error("value required", None);
        }
        let empty = match &x.frames.0 {
            Some(items) => items.len() == 0,
            None => false,
        };
        if empty {
            let mut meta = Meta::new();
            meta.add_error("value required".to_owned(), None);
            x.frames = Annotated(None, meta);
        }
        x
    }
}

impl FromValue for Stacktrace {
    open spec fn read_spec(value: Annotated<Val>, r: Annotated<Stacktrace>) -> bool {
        &&& value.0 matches Some(Val::Object(items)) ==> (r.1 == value.1 && r.0 is Some
            && stacktrace_absent_fields(items.keys(), r.0->Some_0)
            && stacktrace_read_fields(items, r.0->Some_0)
            && (r.0->Some_0.frames.0 matches Some(f) ==> f@.len() > 0))
        &&& absent_or_null(value) ==> r == Annotated::<Stacktrace>(None, value.1)
        &&& !(value.0 matches Some(Val::Object(_))) && !absent_or_null(value) ==> rejected(value, r, "a stacktrace"@)
    }

    /// An object is read as the record; anything else is rejected.
    fn from_value(value: Annotated<Val>) -> (r: Annotated<Stacktrace>) {
        match value {
            Annotated(Some(Val::Object(items)), meta) => Annotated(Some(Stacktrace::from_entries(items)), meta),
            Annotated(Some(Val::Null), meta) => Annotated(None, meta),
            Annotated(None, meta) => Annotated(None, meta),
            Annotated(Some(other), meta) => reject(other, meta, "a stacktrace"),
        }
    }
}

/// `out` is the object that writing `x` gives: each field under its key, in
/// declared order, each written by its own type, then the entries of `other`
/// as they are.
pub open spec fn stacktrace_written(x: Stacktrace, out: Object<Val>) -> bool {
    &&& out.entries@.len() == 2 + x.other.entries@.len()
    &&& out.entries@[0].0@ == "frames"@ && <Vec<Annotated<Frame>> as ToValue>::write_spec(x.frames, out.entries@[0].1)
    &&& out.entries@[1].0@ == "registers"@ && <Object<RegVal> as ToValue>::write_spec(x.registers, out.entries@[1].1)
    &&& out.entries@.subrange(2, out.entries@.len() as int) == x.other.entries@
}

impl ToValue for Stacktrace {
    open spec fn write_spec(value: Annotated<Stacktrace>, r: Annotated<Val>) -> bool {
        &&& r.1 == value.1
        &&& value.0 is None ==> r.0 is None
        &&& value.0 is Some ==> (r.0 matches Some(Val::Object(out)) && stacktrace_written(value.0->Some_0, out))
    }

    /// The record as an object: its fields in declared order, then `other`.
    fn to_value(value: Annotated<Stacktrace>) -> (r: Annotated<Val>) {
        let Annotated(v, meta) = value;
        match v {
            Some(x) => {
                let ghost x0 = x;
                let mut entries: Vec<(String, Annotated<Val>)> = Vec::new();
                entries.push(("frames".to_owned(), <Vec<Annotated<Frame>>>::to_value(x.frames)));
                entries.push(("registers".to_owned(), <Object<RegVal>>::to_value(x.registers)));
                let ghost declared = entries@;
                let mut extra = x.other.entries;
                entries.append(&mut extra);
                proof {
                    assert(entries@.subrange(2, entries@.len() as int) =~= x0.other.entries@);
                }
                Annotated(Some(Val::Object(Object { entries })), meta)
            },
            None => Annotated(None, meta),
        }
    }
}


} // verus!
