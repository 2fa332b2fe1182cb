//! Parses the value tokens of `INSERT ... VALUES` into the representation that a text-protocol
//! query result has: every column, whatever its declared type, is either NULL or raw bytes. Rows
//! of a dump and rows of the database can then be compared byte for byte, with no coercion by
//! column type. What is left to do is to undo the escaping of SQL literals, which borrows from the
//! dump wherever there is nothing to undo.

use std::borrow::Cow;

use vstd::prelude::*;
use vstd::slice::{slice_subrange, slice_to_vec};

use crate::bytes::{
    ascii, ascii_bytes, eq_ci, eq_ignore_ascii_case, trim, trim_ascii, BACKSLASH, BACKTICK, DIGIT_0,
    DIGIT_1, DOUBLE_QUOTE, SINGLE_QUOTE,
};

verus! {

/// One field of a row: SQL NULL, or the bytes of its text.
pub type Cell = Option<Vec<u8>>;

/// What one value token denotes.
#[derive(Debug, PartialEq)]
pub enum RawValue<'a> {
    Null,
    /// Unescaped string or blob content, or the text of a bare literal as it stands.
    Bytes(Cow<'a, [u8]>),
}

impl<'a> View for RawValue<'a> {
    type V = Option<Seq<u8>>;

    open spec fn view(&self) -> Option<Seq<u8>> {
        match self {
            RawValue::Null => None,
            RawValue::Bytes(b) => Some(b@),
        }
    }
}

impl<'a> Clone for RawValue<'a> {
    fn clone(&self) -> (r: Self)
        ensures
            r@ == self@,
            r.borrows() == self.borrows(),
    {
        match self {
            RawValue::Null => RawValue::Null,
            RawValue::Bytes(Cow::Borrowed(b)) => RawValue::Bytes(Cow::Borrowed(b)),
            RawValue::Bytes(Cow::Owned(b)) => RawValue::Bytes(
                Cow::Owned(slice_to_vec(b.as_slice())),
            ),
        }
    }
}

/// The content of a cell.
pub open spec fn cell(c: Cell) -> Option<Seq<u8>> {
    match c {
        Some(b) => Some(b@),
        None => None,
    }
}

/// The contents of the cells of a row.
pub open spec fn cells(row: Seq<Cell>) -> Seq<Option<Seq<u8>>> {
    row.map_values(|c: Cell| cell(c))
}

/// A parameter or column value of the `mysql` driver, with its variants as the driver declares
/// them.
#[verifier::external_type_specification]
pub struct ExValue(mysql::Value);

/// The cell that a driver value is the text form of; `None` for a value of another protocol.
pub open spec fn value_cell(v: mysql::Value) -> Option<Option<Seq<u8>>> {
    match v {
        mysql::Value::NULL => Some(None),
        mysql::Value::Bytes(b) => Some(Some(b@)),
        _ => None,
    }
}

/// A cell as a driver value: NULL, or bytes whatever the type of the column.
pub fn cell_to_value(cell: Cell) -> (r: mysql::Value)
    ensures
        value_cell(r) == Some(self::cell(cell)),
{
    match cell {
        None => mysql::Value::NULL,
        Some(b) => mysql::Value::Bytes(b),
    }
}

/// The cell that a driver value is the text form of.
pub fn value_to_cell(value: mysql::Value) -> (r: Option<Cell>)
    ensures
        match value_cell(value) {
            Some(c) => r is Some && cell(r->0) == c,
            None => r is None,
        },
{
    match value {
        mysql::Value::NULL => Some(None),
        mysql::Value::Bytes(b) => Some(Some(b)),
        _ => None,
    }
}

impl<'a> RawValue<'a> {
    /// The value as a parameter of the `mysql` driver.
    pub fn into_mysql_value(self) -> (r: mysql::Value)
        ensures
            value_cell(r) == Some(self@),
    {
        cell_to_value(self.into_cell())
    }

    /// The value as a cell of a row.
    pub fn into_cell(self) -> (r: Cell)
        ensures
            cell(r) == self@,
    {
        match self {
            RawValue::Null => None,
            RawValue::Bytes(Cow::Borrowed(b)) => Some(slice_to_vec(b)),
            RawValue::Bytes(Cow::Owned(b)) => Some(b),
        }
    }

    /// The bytes are a slice of the token.
    pub open spec fn borrows(self) -> bool {
        self matches RawValue::Bytes(b) && b is Borrowed
    }
}

/// The byte that `\` followed by `c` stands for. An escape that is not listed drops the backslash
/// and keeps the byte.
#[verifier::allow_in_spec]
pub fn unescape_char(c: u8) -> u8
    returns
        (if c == 0x30 {
            0x00u8
        } else if c == 0x6e {
            0x0au8
        } else if c == 0x72 {
            0x0du8
        } else if c == 0x74 {
            0x09u8
        } else if c == 0x62 {
            0x08u8
        } else if c == 0x5a {
            0x1au8
        } else {
            c
        }),
{
    if c == 0x30 {
        0x00u8
    } else if c == 0x6e {
        0x0au8
    } else if c == 0x72 {
        0x0du8
    } else if c == 0x74 {
        0x09u8
    } else if c == 0x62 {
        0x08u8
    } else if c == 0x5a {
        0x1au8
    } else {
        c
    }
}

/// A byte that unescaping has to look at inside a span quoted with `quote`.
pub open spec fn is_special(quote: u8, b: u8) -> bool {
    b == quote || (b == BACKSLASH && quote != BACKTICK)
}

/// No byte of the span needs unescaping.
pub open spec fn is_plain(inner: Seq<u8>, quote: u8) -> bool {
    forall|i: int| 0 <= i < inner.len() ==> !is_special(quote, #[trigger] inner[i])
}

/// The content that the body of a quoted span denotes, from `i` on: `\\` takes the next byte with
/// it (not inside backticks), and a doubled quote is one quote.
pub open spec fn unescape_from(inner: Seq<u8>, quote: u8, i: int) -> Seq<u8>
    decreases inner.len() - i,
{
    if i < 0 || i >= inner.len() {
        Seq::empty()
    } else if inner[i] == BACKSLASH && quote != BACKTICK {
        if i + 1 < inner.len() {
            seq![unescape_char(inner[i + 1])] + unescape_from(inner, quote, i + 2)
        } else {
            Seq::empty()
        }
    } else if inner[i] == quote && i + 1 < inner.len() && inner[i + 1] == quote {
        seq![quote] + unescape_from(inner, quote, i + 2)
    } else {
        seq![inner[i]] + unescape_from(inner, quote, i + 1)
    }
}

/// The content that the body of a quoted span denotes.
pub open spec fn unescape(inner: Seq<u8>, quote: u8) -> Seq<u8> {
    unescape_from(inner, quote, 0)
}

/// Plain bytes denote themselves.
proof fn lemma_unescape_skip(inner: Seq<u8>, quote: u8, i: int, j: int)
    requires
        0 <= i <= j <= inner.len(),
        forall|k: int| i <= k < j ==> !is_special(quote, #[trigger] inner[k]),
    ensures
        unescape_from(inner, quote, i) == inner.subrange(i, j) + unescape_from(inner, quote, j),
    decreases j - i,
{
    if i < j {
        lemma_unescape_skip(inner, quote, i + 1, j);
        assert(inner.subrange(i, j) =~= seq![inner[i]] + inner.subrange(i + 1, j));
        assert(seq![inner[i]] + (inner.subrange(i + 1, j) + unescape_from(inner, quote, j))
            =~= inner.subrange(i, j) + unescape_from(inner, quote, j));
    } else {
        assert(inner.subrange(i, j) + unescape_from(inner, quote, j) =~= unescape_from(
            inner,
            quote,
            j,
        ));
    }
}

/// The first byte of the span that needs unescaping.
fn find_special(inner: &[u8], quote: u8) -> (r: Option<usize>)
    ensures
        match r {
            Some(i) => {
                &&& i < inner@.len()
                &&& is_special(quote, inner@[i as int])
                &&& forall|j: int| 0 <= j < i ==> !is_special(quote, #[trigger] inner@[j])
            },
            None => is_plain(inner@, quote),
        },
{
    if quote == BACKTICK {
        memchr::memchr(BACKTICK, inner)
    } else {
        memchr::memchr2(quote, BACKSLASH, inner)
    }
}

/// The content that the body of a quoted span denotes; a slice of it when nothing is escaped.
pub fn unescape_span<'a>(inner: &'a [u8], quote: u8) -> (r: Cow<'a, [u8]>)
    ensures
        r@ == unescape(inner@, quote),
        r is Borrowed <==> is_plain(inner@, quote),
{
    let first = match find_special(inner, quote) {
        Some(first) => first,
        None => {
            proof {
                lemma_unescape_skip(inner@, quote, 0, inner@.len() as int);
                assert(inner@.subrange(0, inner@.len() as int) + Seq::<u8>::empty() =~= inner@);
            }
            return Cow::Borrowed(inner);
        },
    };
    let len = inner.len();
    let mut out: Vec<u8> = Vec::with_capacity(len);
    let head = slice_subrange(inner, 0, first);
    out.extend_from_slice(head);
    assert(out@ =~= head@);
    proof {
        lemma_unescape_skip(inner@, quote, 0, first as int);
    }
    let mut i: usize = first;
    while i < len
        invariant
            len == inner@.len(),
            i <= len,
            out@ + unescape_from(inner@, quote, i as int) == unescape(inner@, quote),
        decreases len - i,
    {
        let b = inner[i];
        let ghost rest = unescape_from(inner@, quote, i as int);
        let ghost before = out@;
        if b == BACKSLASH && quote != BACKTICK {
            if i + 1 < len {
                let c = unescape_char(inner[i + 1]);
                out.push(c);
                assert(before + (seq![c] + unescape_from(inner@, quote, i + 2)) =~= before.push(c)
                    + unescape_from(inner@, quote, i + 2));
                i = i + 2;
            } else {
                i = i + 1;
            }
        } else if b == quote && i + 1 < len && inner[i + 1] == quote {
            out.push(quote);
            assert(before + (seq![quote] + unescape_from(inner@, quote, i + 2)) =~= before.push(
                quote,
            ) + unescape_from(inner@, quote, i + 2));
            i = i + 2;
        } else {
            out.push(b);
            assert(before + (seq![b] + unescape_from(inner@, quote, i + 1)) =~= before.push(b)
                + unescape_from(inner@, quote, i + 1));
            i = i + 1;
        }
    }
    assert(out@ + Seq::<u8>::empty() =~= out@);
    Cow::Owned(out)
}

/// The value of a digit of base sixteen; zero for any other byte.
#[verifier::allow_in_spec]
pub fn nibble(b: u8) -> u8
    returns
        (if 0x30 <= b && b <= 0x39 {
            (b - 0x30) as u8
        } else if 0x61 <= b && b <= 0x66 {
            (b - 0x57) as u8
        } else if 0x41 <= b && b <= 0x46 {
            (b - 0x37) as u8
        } else {
            0u8
        }),
{
    if 0x30 <= b && b <= 0x39 {
        b - 0x30
    } else if 0x61 <= b && b <= 0x66 {
        b - 0x57
    } else if 0x41 <= b && b <= 0x46 {
        b - 0x37
    } else {
        0u8
    }
}

/// The bytes that pairs of digits of base sixteen denote; an odd last digit is dropped.
pub open spec fn hex_bytes(hex: Seq<u8>) -> Seq<u8> {
    Seq::new(
        (hex.len() / 2) as nat,
        |i: int| (16 * nibble(hex[2 * i]) + nibble(hex[2 * i + 1])) as u8,
    )
}

/// The digits with a leading zero where their number is odd.
pub open spec fn even_hex(hex: Seq<u8>) -> Seq<u8> {
    if hex.len() % 2 == 1 {
        seq![DIGIT_0] + hex
    } else {
        hex
    }
}

/// Decodes pairs of digits of base sixteen.
pub fn hex_decode(hex: &[u8]) -> (r: Vec<u8>)
    ensures
        r@ == hex_bytes(hex@),
{
    let len = hex.len();
    let n = len / 2;
    let mut out: Vec<u8> = Vec::with_capacity(n);
    let mut i: usize = 0;
    while i < n
        invariant
            len == hex@.len(),
            n == len / 2,
            i <= n,
            out@ =~= hex_bytes(hex@).take(i as int),
        decreases n - i,
    {
        let high = nibble(hex[2 * i]);
        let low = nibble(hex[2 * i + 1]);
        out.push(16 * high + low);
        i = i + 1;
    }
    assert(hex_bytes(hex@).take(n as int) =~= hex_bytes(hex@));
    out
}

/// The binary digits between the quotes of `b'...'` or `B'...'`.
pub open spec fn bit_literal(raw: Seq<u8>) -> Option<Seq<u8>> {
    if raw.len() >= 3 && (raw[0] == 0x62 || raw[0] == 0x42) && raw[1] == SINGLE_QUOTE && raw.last()
        == SINGLE_QUOTE {
        Some(raw.subrange(2, raw.len() - 1))
    } else {
        None
    }
}

/// The binary digits between the quotes of `b'...'` or `B'...'`.
pub fn strip_bit_literal(raw: &[u8]) -> (r: Option<&[u8]>)
    ensures
        match bit_literal(raw@) {
            Some(bits) => r is Some && r->0@ == bits,
            None => r is None,
        },
{
    let len = raw.len();
    if len >= 3 && (raw[0] == 0x62 || raw[0] == 0x42) && raw[1] == SINGLE_QUOTE && raw[len - 1]
        == SINGLE_QUOTE {
        Some(slice_subrange(raw, 2, len - 1))
    } else {
        None
    }
}

/// The binary digit of weight `2^j` in `bits`, which has its most significant digit first.
pub open spec fn bit_at(bits: Seq<u8>, j: int) -> int {
    if 0 <= j < bits.len() && bits[bits.len() - 1 - j] == DIGIT_1 {
        1
    } else {
        0
    }
}

/// The byte of weight `256^i` in the value of `bits`.
pub open spec fn byte_at(bits: Seq<u8>, i: int) -> int {
    bit_at(bits, 8 * i) + 2 * bit_at(bits, 8 * i + 1) + 4 * bit_at(bits, 8 * i + 2) + 8 * bit_at(
        bits,
        8 * i + 3,
    ) + 16 * bit_at(bits, 8 * i + 4) + 32 * bit_at(bits, 8 * i + 5) + 64 * bit_at(bits, 8 * i + 6)
        + 128 * bit_at(bits, 8 * i + 7)
}

/// The number of bytes of a `BIT(width)` column.
pub open spec fn bit_len(width: u32) -> nat {
    if width == 0 {
        1
    } else {
        ((width + 7) / 8) as nat
    }
}

/// The value of `bits` as a `BIT(width)` column holds it: big-endian, in as many bytes as the
/// width needs, padded with zeros on the left.
pub open spec fn bit_bytes(bits: Seq<u8>, width: u32) -> Seq<u8> {
    Seq::new(bit_len(width), |k: int| byte_at(bits, bit_len(width) - 1 - k) as u8)
}

/// The binary digit of weight `2^j`.
fn digit_at(bits: &[u8], j: u64) -> (r: u8)
    ensures
        r == bit_at(bits@, j as int),
{
    let len = bits.len();
    if j < len as u64 && bits[len - 1 - j as usize] == DIGIT_1 {
        1
    } else {
        0
    }
}

/// Encodes the binary digits of a bit literal the way a `BIT(width)` column is returned.
pub fn encode_bit_value(bits: &[u8], width: u32) -> (r: Vec<u8>)
    ensures
        r@ == bit_bytes(bits@, width),
{
    let n: u32 = if width == 0 {
        1
    } else if width % 8 == 0 {
        width / 8
    } else {
        width / 8 + 1
    };
    let mut out: Vec<u8> = Vec::new();
    let mut k: u32 = 0;
    while k < n
        invariant
            n == bit_len(width),
            n <= 0x2000_0000,
            k <= n,
            out@ =~= bit_bytes(bits@, width).take(k as int),
        decreases n - k,
    {
        let i: u64 = (n - 1 - k) as u64;
        let b0 = digit_at(bits, 8 * i);
        let b1 = digit_at(bits, 8 * i + 1);
        let b2 = digit_at(bits, 8 * i + 2);
        let b3 = digit_at(bits, 8 * i + 3);
        let b4 = digit_at(bits, 8 * i + 4);
        let b5 = digit_at(bits, 8 * i + 5);
        let b6 = digit_at(bits, 8 * i + 6);
        let b7 = digit_at(bits, 8 * i + 7);
        out.push(b0 + 2 * b1 + 4 * b2 + 8 * b3 + 16 * b4 + 32 * b5 + 64 * b6 + 128 * b7);
        k = k + 1;
    }
    assert(bit_bytes(bits@, width).take(n as int) =~= bit_bytes(bits@, width));
    out
}

/// What a value token denotes, given the width of a `BIT` column: `Some(None)` is NULL, and `None`
/// is a token that is a lone quote.
pub open spec fn parse_value(raw: Seq<u8>, bit_width: Option<u32>) -> Option<Option<Seq<u8>>> {
    let t = trim(raw);
    if eq_ci(t, ascii("NULL")) {
        Some(None)
    } else if bit_width is Some && bit_literal(t) is Some {
        Some(Some(bit_bytes(bit_literal(t)->0, bit_width->0)))
    } else if t.len() > 0 && (t[0] == SINGLE_QUOTE || t[0] == DOUBLE_QUOTE) {
        if t.len() >= 2 {
            Some(Some(unescape(t.subrange(1, t.len() - 1), t[0])))
        } else {
            None
        }
    } else if t.len() > 2 && t[0] == DIGIT_0 && (t[1] == 0x78 || t[1] == 0x58) {
        Some(Some(hex_bytes(even_hex(t.skip(2)))))
    } else {
        Some(Some(t))
    }
}

/// The token denotes a slice of itself: bare text, or a quoted span with nothing to unescape.
pub open spec fn denotes_slice(raw: Seq<u8>, bit_width: Option<u32>) -> bool {
    let t = trim(raw);
    if eq_ci(t, ascii("NULL")) || (bit_width is Some && bit_literal(t) is Some) {
        false
    } else if t.len() > 0 && (t[0] == SINGLE_QUOTE || t[0] == DOUBLE_QUOTE) {
        is_plain(t.subrange(1, t.len() - 1), t[0])
    } else {
        !(t.len() > 2 && t[0] == DIGIT_0 && (t[1] == 0x78 || t[1] == 0x58))
    }
}

/// Parses one value token, or `None` when it is a lone quote.
pub fn try_parse_value_token<'a>(raw: &'a [u8], bit_width: Option<u32>) -> (r: Option<RawValue<'a>>)
    ensures
        match parse_value(raw@, bit_width) {
            Some(value) => {
                &&& r is Some
                &&& r->0@ == value
                &&& r->0.borrows() == denotes_slice(raw@, bit_width)
            },
            None => r is None,
        },
{
    let raw = trim_ascii(raw);
    let len = raw.len();
    proof {
        reveal_strlit("NULL");
    }
    if eq_ignore_ascii_case(raw, ascii_bytes("NULL")) {
        return Some(RawValue::Null);
    }
    if let Some(width) = bit_width {
        if let Some(bits) = strip_bit_literal(raw) {
            return Some(RawValue::Bytes(Cow::Owned(encode_bit_value(bits, width))));
        }
    }
    if len > 0 && (raw[0] == SINGLE_QUOTE || raw[0] == DOUBLE_QUOTE) {
        if len < 2 {
            return None;
        }
        return Some(
            RawValue::Bytes(unescape_span(slice_subrange(raw, 1, len - 1), raw[0])),
        );
    }
    if len > 2 && raw[0] == DIGIT_0 && (raw[1] == 0x78 || raw[1] == 0x58) {
        let hex = slice_subrange(raw, 2, len);
        assert(hex@ =~= raw@.skip(2));
        let bytes = if hex.len() % 2 == 1 {
            let mut padded: Vec<u8> = Vec::new();
            padded.push(DIGIT_0);
            padded.extend_from_slice(hex);
            assert(padded@ =~= even_hex(hex@));
            hex_decode(padded.as_slice())
        } else {
            hex_decode(hex)
        };
        return Some(RawValue::Bytes(Cow::Owned(bytes)));
    }
    Some(RawValue::Bytes(Cow::Borrowed(raw)))
}

/// Parses one value token. When it belongs to a `BIT(n)` column, `bit_width` is `Some(n)` and the
/// bit literals `b'1010'` and `B'1010'` are decoded; they are plain text otherwise.
pub fn parse_value_token_typed<'a>(raw: &'a [u8], bit_width: Option<u32>) -> (r: RawValue<'a>)
    requires
        parse_value(raw@, bit_width) is Some,
    ensures
        parse_value(raw@, bit_width) == Some(r@),
        r.borrows() == denotes_slice(raw@, bit_width),
{
    try_parse_value_token(raw, bit_width).unwrap()
}

/// Parses one value token of a column that is no `BIT` column.
pub fn parse_value_token<'a>(raw: &'a [u8]) -> (r: RawValue<'a>)
    requires
        parse_value(raw@, None) is Some,
    ensures
        parse_value(raw@, None) == Some(r@),
        r.borrows() == denotes_slice(raw@, None),
{
    parse_value_token_typed(raw, None)
}

} // verus!
