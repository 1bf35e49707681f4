//! Typed values and the binary row codec.
//!
//! A row is an ordered list of [`Datum`]s. The codec packs such a list
//! into one contiguous byte buffer and unpacks the inverse, given the
//! same ordered column-type list: the buffer itself is not
//! self-describing. NULL is a distinguished one-byte sentinel distinct
//! from the encoding of any present value.
//!
//! Layout per column: a presence byte (0 for NULL, 1 for a value),
//! then for numeric columns eight big-endian bytes of the value offset
//! by 2^63, and for character columns eight big-endian bytes of the
//! character count followed by four big-endian bytes per character.

use vstd::prelude::*;

use crate::types::{in_numeric_range, is_numeric, SqlType};

verus! {

/// A single typed value of a row cell.
#[derive(Debug, PartialEq)]
pub enum Datum {
    /// The NULL sentinel.
    Null,
    /// A value of a numeric column.
    Int(i64),
    /// A value of a character column.
    Str(String),
}

/// The ghost image of a [`Datum`].
pub enum DatumV {
    Null,
    Int(int),
    Str(Seq<char>),
}

impl View for Datum {
    type V = DatumV;

    open spec fn view(&self) -> DatumV {
        match self {
            Datum::Null => DatumV::Null,
            Datum::Int(v) => DatumV::Int(*v as int),
            Datum::Str(s) => DatumV::Str(s@),
        }
    }
}

impl Clone for Datum {
    fn clone(&self) -> (r: Self)
        ensures
            r@ == self@,
    {
        match self {
            Datum::Null => Datum::Null,
            Datum::Int(v) => Datum::Int(*v),
            Datum::Str(s) => Datum::Str(s.clone()),
        }
    }
}

/// The ghost image of a whole row.
pub open spec fn row_view(s: Seq<Datum>) -> Seq<DatumV> {
    s.map_values(|d: Datum| d@)
}

/// Relies on `String::push`: appends exactly the given character.
pub assume_specification[ String::push ](s: &mut String, c: char)
    ensures
        final (s)@ == old(s)@.push(c),
;

/// Relies on `char::from_u32`: returns a character exactly for Unicode
/// scalar values, and that character casts back to the argument.
pub assume_specification[ char::from_u32 ](u: u32) -> (r: Option<char>)
    ensures
        r is Some <==> vstd::utf8::is_scalar(u),
        r matches Some(c) ==> c as u32 == u,
;

/// 256 raised to the given power: the count of byte strings of that width.
pub open spec fn pow256(w: nat) -> nat
    decreases w,
{
    if w == 0 {
        1
    } else {
        256 * pow256((w - 1) as nat)
    }
}

/// The big-endian bytes of a value, at the given width.
pub open spec fn be_bytes(v: int, w: nat) -> Seq<u8>
    decreases w,
{
    if w == 0 {
        Seq::empty()
    } else {
        be_bytes(v / 256, (w - 1) as nat) + seq![(v % 256) as u8]
    }
}

/// The value that big-endian bytes denote.
pub open spec fn be_value(b: Seq<u8>) -> int
    decreases b.len(),
{
    if b.len() == 0 {
        0
    } else {
        be_value(b.drop_last()) * 256 + b.last()
    }
}

pub proof fn lemma_pow256_8()
    ensures
        pow256(8) == 0x10000000000000000,
{
    reveal_with_fuel(pow256, 9);
}

pub proof fn lemma_pow256_increases(w1: nat, w2: nat)
    requires
        w1 <= w2,
    ensures
        pow256(w1) <= pow256(w2),
    decreases w2,
{
    if w1 < w2 {
        lemma_pow256_increases(w1, (w2 - 1) as nat);
    }
}

pub proof fn lemma_be_bytes_len(v: int, w: nat)
    ensures
        be_bytes(v, w).len() == w,
    decreases w,
{
    if w > 0 {
        lemma_be_bytes_len(v / 256, (w - 1) as nat);
    }
}

/// Decoding the big-endian bytes of an in-range value gives it back.
pub proof fn lemma_be_roundtrip(v: int, w: nat)
    requires
        0 <= v < pow256(w),
    ensures
        be_value(be_bytes(v, w)) == v,
    decreases w,
{
    if w > 0 {
        let rest = be_bytes(v / 256, (w - 1) as nat);
        lemma_be_bytes_len(v / 256, (w - 1) as nat);
        assert(be_bytes(v, w).drop_last() =~= rest);
        assert(v / 256 < pow256((w - 1) as nat)) by {
            if v / 256 >= pow256((w - 1) as nat) {
                assert(256 * (v / 256) >= 256 * pow256((w - 1) as nat));
            }
        }
        lemma_be_roundtrip(v / 256, (w - 1) as nat);
    }
}

/// Every byte string denotes an in-range value and is its encoding.
pub proof fn lemma_be_inverse(b: Seq<u8>)
    ensures
        0 <= be_value(b) < pow256(b.len()),
        be_bytes(be_value(b), b.len()) == b,
    decreases b.len(),
{
    if b.len() > 0 {
        let front = b.drop_last();
        lemma_be_inverse(front);
        let x = be_value(front);
        let d = b.last() as int;
        let v = x * 256 + d;
        assert(x * 256 + d < pow256(b.len())) by {
            assert(x <= pow256(front.len()) - 1);
            assert(x * 256 <= (pow256(front.len()) - 1) * 256);
        }
        assert(x * 256 >= 0) by {
            assert(x >= 0);
        }
        assert(v / 256 == x && v % 256 == d) by {
            assert(v == 256 * x + d);
        }
        assert(be_bytes(v, b.len()) =~= b);
    }
}

/// Appends the big-endian bytes of the value at the given width.
fn push_be(out: &mut Vec<u8>, v: u64, w: usize)
    ensures
        final (out)@ == old(out)@ + be_bytes(v as int, w as nat),
    decreases w,
{
    if w == 0 {
        proof {
            assert(out@ =~= out@ + be_bytes(v as int, 0));
        }
        return ;
    }
    push_be(out, v / 256, w - 1);
    out.push((v % 256) as u8);
    proof {
        assert(out@ =~= old(out)@ + be_bytes(v as int, w as nat));
    }
}

/// Reads a big-endian value of the given width at the given offset.
fn read_be(bytes: &Vec<u8>, off: usize, w: usize) -> (r: u64)
    requires
        off + w <= bytes@.len(),
        w <= 8,
    ensures
        r as int == be_value(bytes@.subrange(off as int, off + w as int)),
{
    let n = bytes.len();
    let mut acc: u64 = 0;
    let mut i: usize = 0;
    while i < w
        invariant
            0 <= i <= w,
            w <= 8,
            n == bytes@.len(),
            off + w <= n,
            acc as int == be_value(bytes@.subrange(off as int, off + i as int)),
            acc < pow256(i as nat),
        decreases w - i,
    {
        proof {
            reveal_with_fuel(pow256, 9);
            lemma_pow256_increases(i as nat, 7);
            assert(bytes@.subrange(off as int, off + i + 1).drop_last() =~= bytes@.subrange(
                off as int,
                off + i as int,
            ));
        }
        acc = acc * 256 + (bytes[off + i] as u64);
        i = i + 1;
    }
    proof {
        lemma_pow256_increases(w as nat, 8);
    }
    acc
}

/// Whether a code point is a Unicode scalar value, over plain integers.
pub open spec fn scalar_ok(u: int) -> bool {
    0 <= u <= 0x10FFFF && !(0xD800 <= u <= 0xDFFF)
}

/// The encoding of a character sequence: four big-endian bytes each.
pub open spec fn spec_encode_chars(s: Seq<char>) -> Seq<u8>
    decreases s.len(),
{
    if s.len() == 0 {
        Seq::empty()
    } else {
        be_bytes(s[0] as u32 as int, 4) + spec_encode_chars(s.drop_first())
    }
}

/// Decodes the given count of characters from the front of the buffer.
pub open spec fn spec_decode_chars(b: Seq<u8>, cnt: nat) -> Option<Seq<char>>
    decreases cnt,
{
    if cnt == 0 {
        Some(Seq::empty())
    } else if b.len() < 4 {
        None
    } else {
        let u = be_value(b.take(4));
        if !scalar_ok(u) {
            None
        } else {
            match spec_decode_chars(b.skip(4), (cnt - 1) as nat) {
                None => None,
                Some(rest) => Some(seq![(u as u32) as char] + rest),
            }
        }
    }
}

/// Whether a datum is storable under a column type.
pub open spec fn datum_fits(d: DatumV, t: SqlType) -> bool {
    match d {
        DatumV::Null => true,
        DatumV::Int(v) => is_numeric(t) && in_numeric_range(t, v),
        DatumV::Str(s) => match t {
            SqlType::Char(n) => s.len() <= n,
            SqlType::VarChar(n) => s.len() <= n,
            _ => false,
        },
    }
}

/// Whether a whole row is storable under a column-type list.
pub open spec fn row_fits(row: Seq<DatumV>, types: Seq<SqlType>) -> bool {
    row.len() == types.len() && forall|i: int|
        0 <= i < row.len() ==> datum_fits(#[trigger] row[i], types[i])
}

/// The encoding of one datum under its column type.
pub open spec fn spec_encode_datum(d: DatumV, t: SqlType) -> Seq<u8> {
    match d {
        DatumV::Null => seq![0u8],
        DatumV::Int(v) => seq![1u8] + be_bytes(v + 0x8000000000000000, 8),
        DatumV::Str(s) => seq![1u8] + be_bytes(s.len() as int, 8) + spec_encode_chars(s),
    }
}

/// The encoding of a whole row under its column-type list.
pub open spec fn spec_encode_row(row: Seq<DatumV>, types: Seq<SqlType>) -> Seq<u8>
    decreases row.len(),
{
    if row.len() == 0 {
        Seq::empty()
    } else {
        spec_encode_datum(row[0], types[0]) + spec_encode_row(
            row.drop_first(),
            types.drop_first(),
        )
    }
}

/// Decodes one datum from the front of the buffer under its column type,
/// yielding the datum and the count of bytes consumed.
pub open spec fn spec_decode_datum(b: Seq<u8>, t: SqlType) -> Option<(DatumV, int)> {
    if b.len() < 1 {
        None
    } else if b[0] == 0 {
        Some((DatumV::Null, 1))
    } else if b[0] != 1 {
        None
    } else if is_numeric(t) {
        if b.len() < 9 {
            None
        } else {
            let v = be_value(b.subrange(1, 9)) - 0x8000000000000000;
            if in_numeric_range(t, v) {
                Some((DatumV::Int(v), 9))
            } else {
                None
            }
        }
    } else {
        let limit: int = match t {
            SqlType::Char(n) => n as int,
            SqlType::VarChar(n) => n as int,
            _ => 0,
        };
        if b.len() < 9 {
            None
        } else {
            let cnt = be_value(b.subrange(1, 9));
            if cnt > limit {
                None
            } else {
                match spec_decode_chars(b.skip(9), cnt as nat) {
                    None => None,
                    Some(s) => Some((DatumV::Str(s), 9 + 4 * cnt)),
                }
            }
        }
    }
}

/// Decodes a whole row; the buffer must be consumed exactly.
pub open spec fn spec_decode_row(b: Seq<u8>, types: Seq<SqlType>) -> Option<Seq<DatumV>>
    decreases types.len(),
{
    if types.len() == 0 {
        if b.len() == 0 {
            Some(Seq::empty())
        } else {
            None
        }
    } else {
        match spec_decode_datum(b, types[0]) {
            None => None,
            Some((d, k)) => match spec_decode_row(b.skip(k), types.drop_first()) {
                None => None,
                Some(rest) => Some(seq![d] + rest),
            },
        }
    }
}

pub proof fn lemma_encode_chars_len(s: Seq<char>)
    ensures
        spec_encode_chars(s).len() == 4 * s.len(),
    decreases s.len(),
{
    if s.len() > 0 {
        lemma_be_bytes_len(s[0] as u32 as int, 4);
        lemma_encode_chars_len(s.drop_first());
    }
}

/// Decoding an encoded character sequence, whatever follows it, gives the
/// sequence back.
proof fn lemma_chars_roundtrip(s: Seq<char>, suffix: Seq<u8>)
    ensures
        spec_decode_chars(spec_encode_chars(s) + suffix, s.len()) == Some(s),
    decreases s.len(),
{
    if s.len() > 0 {
        let c = s[0];
        let u = c as u32 as int;
        let b = spec_encode_chars(s) + suffix;
        lemma_be_bytes_len(u, 4);
        assert(b.take(4) =~= be_bytes(u, 4));
        assert(0 <= u < pow256(4)) by {
            reveal_with_fuel(pow256, 5);
            vstd::utf8::char_is_scalar(c);
        }
        lemma_be_roundtrip(u, 4);
        assert(scalar_ok(u)) by {
            vstd::utf8::char_is_scalar(c);
        }
        assert((u as u32) as char == c) by {
            vstd::utf8::char_u32_cast(c, c as u32);
        }
        assert(b.skip(4) =~= spec_encode_chars(s.drop_first()) + suffix);
        lemma_chars_roundtrip(s.drop_first(), suffix);
        assert(seq![(u as u32) as char] + s.drop_first() =~= s);
    }
}

/// A decoded character sequence re-encodes to exactly the bytes read.
proof fn lemma_chars_inverse(b: Seq<u8>, cnt: nat)
    requires
        spec_decode_chars(b, cnt) is Some,
    ensures
        4 * cnt <= b.len(),
        spec_decode_chars(b, cnt) matches Some(s) ==> s.len() == cnt && spec_encode_chars(s)
            == b.take(4 * (cnt as int)),
    decreases cnt,
{
    if cnt == 0 {
        assert(b.take(0) =~= Seq::<u8>::empty());
    } else {
        let u = be_value(b.take(4));
        let s = spec_decode_chars(b, cnt)->Some_0;
        lemma_chars_inverse(b.skip(4), (cnt - 1) as nat);
        let rest = spec_decode_chars(b.skip(4), (cnt - 1) as nat)->Some_0;
        assert(s == seq![(u as u32) as char] + rest);
        assert(s.drop_first() =~= rest);
        assert(s[0] == (u as u32) as char);
        assert(s[0] as u32 == u as u32);
        assert(u as u32 as int == u) by {
            reveal_with_fuel(pow256, 5);
            lemma_be_inverse(b.take(4));
        }
        assert(be_bytes(s[0] as u32 as int, 4) == b.take(4)) by {
            lemma_be_inverse(b.take(4));
            assert(be_bytes(be_value(b.take(4)), b.take(4).len()) == b.take(4));
        }
        assert(b.skip(4).take(4 * (cnt - 1)) =~= b.take(4 * (cnt as int)).skip(4));
        assert(spec_encode_chars(s) =~= b.take(4) + b.skip(4).take(4 * (cnt - 1)));
        assert(b.take(4) + b.take(4 * (cnt as int)).skip(4) =~= b.take(4 * (cnt as int)));
    }
}

/// Decoding an encoded datum, whatever follows it, gives the datum and
/// its encoded length back.
proof fn lemma_datum_roundtrip(d: DatumV, t: SqlType, suffix: Seq<u8>)
    requires
        datum_fits(d, t),
    ensures
        spec_decode_datum(spec_encode_datum(d, t) + suffix, t) == Some(
            (d, spec_encode_datum(d, t).len() as int),
        ),
{
    let e = spec_encode_datum(d, t);
    let b = e + suffix;
    match d {
        DatumV::Null => {
            assert(b[0] == 0);
        },
        DatumV::Int(v) => {
            let biased = v + 0x8000000000000000;
            lemma_be_bytes_len(biased, 8);
            assert(b[0] == 1);
            assert(b.subrange(1, 9) =~= be_bytes(biased, 8));
            lemma_pow256_8();
            lemma_be_roundtrip(biased, 8);
            assert(e.len() == 9);
        },
        DatumV::Str(s) => {
            let limit: int = match t {
                SqlType::Char(n) => n as int,
                SqlType::VarChar(n) => n as int,
                _ => 0,
            };
            assert(s.len() <= limit);
            lemma_be_bytes_len(s.len() as int, 8);
            lemma_encode_chars_len(s);
            assert(b[0] == 1);
            assert(b.subrange(1, 9) =~= be_bytes(s.len() as int, 8));
            lemma_pow256_8();
            assert(limit < 0x10000000000000000);
            lemma_be_roundtrip(s.len() as int, 8);
            assert(b.skip(9) =~= spec_encode_chars(s) + suffix);
            lemma_chars_roundtrip(s, suffix);
            assert(e.len() == 9 + 4 * s.len());
        },
    }
}

/// A decoded datum fits its type and re-encodes to exactly the bytes read.
proof fn lemma_datum_inverse(b: Seq<u8>, t: SqlType)
    requires
        spec_decode_datum(b, t) is Some,
    ensures
        spec_decode_datum(b, t) matches Some((d, k)) ==> 0 <= k <= b.len() && datum_fits(d, t)
            && spec_encode_datum(d, t) == b.take(k),
{
    let (d, k) = spec_decode_datum(b, t)->Some_0;
    if b[0] == 0 {
        assert(spec_encode_datum(d, t) =~= b.take(1));
    } else if is_numeric(t) {
        let v = be_value(b.subrange(1, 9)) - 0x8000000000000000;
        lemma_be_inverse(b.subrange(1, 9));
        lemma_pow256_8();
        assert(be_bytes(v + 0x8000000000000000, 8) == b.subrange(1, 9));
        assert(spec_encode_datum(d, t) =~= b.take(9));
    } else {
        let cnt = be_value(b.subrange(1, 9));
        lemma_be_inverse(b.subrange(1, 9));
        let s = spec_decode_chars(b.skip(9), cnt as nat)->Some_0;
        lemma_chars_inverse(b.skip(9), cnt as nat);
        assert(be_bytes(cnt, 8) == b.subrange(1, 9));
        assert(spec_encode_chars(s) == b.skip(9).take(4 * cnt));
        assert(b.skip(9).take(4 * cnt) =~= b.subrange(9, 9 + 4 * cnt));
        assert(spec_encode_datum(d, t) =~= b.take(9 + 4 * cnt));
    }
}

/// Round trip: decoding the encoding of a fitting row gives the row back.
pub proof fn lemma_decode_encode(row: Seq<DatumV>, types: Seq<SqlType>)
    requires
        row_fits(row, types),
    ensures
        spec_decode_row(spec_encode_row(row, types), types) == Some(row),
    decreases row.len(),
{
    if row.len() == 0 {
        assert(spec_encode_row(row, types).len() == 0);
    } else {
        let e0 = spec_encode_datum(row[0], types[0]);
        let rest = spec_encode_row(row.drop_first(), types.drop_first());
        lemma_datum_roundtrip(row[0], types[0], rest);
        let b = spec_encode_row(row, types);
        assert(b == e0 + rest);
        assert(b.skip(e0.len() as int) =~= rest);
        assert(row_fits(row.drop_first(), types.drop_first())) by {
            assert(forall|i: int|
                0 <= i < row.len() - 1 ==> #[trigger] row.drop_first()[i] == row[i + 1]
                    && types.drop_first()[i] == types[i + 1]);
        }
        lemma_decode_encode(row.drop_first(), types.drop_first());
        assert(seq![row[0]] + row.drop_first() =~= row);
    }
}

/// Byte-level inverse: a buffer that decodes re-encodes to itself, and
/// the decoded row fits the types.
pub proof fn lemma_encode_decode(b: Seq<u8>, types: Seq<SqlType>)
    requires
        spec_decode_row(b, types) is Some,
    ensures
        spec_decode_row(b, types) matches Some(row) ==> row_fits(row, types) && spec_encode_row(
            row,
            types,
        ) == b,
    decreases types.len(),
{
    let row = spec_decode_row(b, types)->Some_0;
    if types.len() == 0 {
        assert(spec_encode_row(row, types) =~= b);
    } else {
        let (d, k) = spec_decode_datum(b, types[0])->Some_0;
        lemma_datum_inverse(b, types[0]);
        lemma_encode_decode(b.skip(k), types.drop_first());
        let rest = spec_decode_row(b.skip(k), types.drop_first())->Some_0;
        assert(row == seq![d] + rest);
        assert(row.drop_first() =~= rest);
        assert(row[0] == d);
        assert(spec_encode_row(row, types) == spec_encode_datum(d, types[0]) + spec_encode_row(
            rest,
            types.drop_first(),
        ));
        assert(b.take(k) + b.skip(k) =~= b);
        assert(forall|i: int|
            0 <= i < row.len() ==> #[trigger] datum_fits(row[i], types[i]) == if i == 0 {
                datum_fits(d, types[0])
            } else {
                datum_fits(rest[i - 1], types.drop_first()[i - 1])
            });
    }
}

/// Appends the encoding of one datum under its column type.
fn encode_datum(d: &Datum, t: &SqlType, out: &mut Vec<u8>)
    requires
        datum_fits(d@, *t),
    ensures
        final (out)@ == old(out)@ + spec_encode_datum(d@, *t),
{
    match d {
        Datum::Null => {
            out.push(0);
            proof {
                assert(out@ =~= old(out)@ + spec_encode_datum(d@, *t));
            }
        },
        Datum::Int(v) => {
            out.push(1);
            let biased: u64 = ((*v as i128) + 0x8000000000000000i128) as u64;
            push_be(out, biased, 8);
            proof {
                assert(out@ =~= old(out)@ + spec_encode_datum(d@, *t));
            }
        },
        Datum::Str(s) => {
            out.push(1);
            let n = s.as_str().unicode_len();
            push_be(out, n as u64, 8);
            encode_chars(s.as_str(), 0, n, out);
            proof {
                assert(s@.skip(0) =~= s@);
                assert(out@ =~= old(out)@ + spec_encode_datum(d@, *t));
            }
        },
    }
}

/// Appends four big-endian bytes for each character from the index on.
fn encode_chars(s: &str, i: usize, n: usize, out: &mut Vec<u8>)
    requires
        i <= n,
        n == s@.len(),
    ensures
        final (out)@ == old(out)@ + spec_encode_chars(s@.skip(i as int)),
    decreases n - i,
{
    if i == n {
        proof {
            assert(out@ =~= out@ + spec_encode_chars(s@.skip(i as int)));
        }
        return ;
    }
    let c = s.get_char(i);
    push_be(out, (c as u32) as u64, 4);
    encode_chars(s, i + 1, n, out);
    proof {
        assert(s@.skip(i as int).drop_first() =~= s@.skip(i + 1));
        assert(s@.skip(i as int)[0] == s@[i as int]);
        assert(out@ =~= old(out)@ + spec_encode_chars(s@.skip(i as int)));
    }
}

/// Decodes the given count of characters starting at the offset, also
/// returning the offset just past them.
fn decode_chars(bytes: &Vec<u8>, off: usize, cnt: u64) -> (r: Option<(String, usize)>)
    requires
        off <= bytes@.len(),
    ensures
        match r {
            Some(p) => spec_decode_chars(bytes@.skip(off as int), cnt as nat) == Some(p.0@)
                && p.1 == off + 4 * (cnt as int) && p.1 <= bytes@.len(),
            None => spec_decode_chars(bytes@.skip(off as int), cnt as nat) is None,
        },
    decreases cnt,
{
    if cnt == 0 {
        let empty = String::new();
        proof {
            assert(empty@ =~= Seq::<char>::empty());
        }
        return Some((empty, off));
    }
    if bytes.len() - off < 4 {
        return None;
    }
    let wide = read_be(bytes, off, 4);
    proof {
        assert(bytes@.skip(off as int).take(4) =~= bytes@.subrange(off as int, off + 4));
        reveal_with_fuel(pow256, 5);
        lemma_be_inverse(bytes@.subrange(off as int, off + 4));
    }
    let u = wide as u32;
    match char::from_u32(u) {
        None => {
            return None;
        },
        Some(c) => {
            match decode_chars(bytes, off + 4, cnt - 1) {
                None => {
                    proof {
                        assert(bytes@.skip(off as int).skip(4) =~= bytes@.skip(off + 4));
                    }
                    return None;
                },
                Some(p) => {
                    let (rest, end) = p;
                    let mut s = String::new();
                    s.push(c);
                    s.append(rest.as_str());
                    proof {
                        vstd::utf8::char_u32_cast(c, u);
                        assert(bytes@.skip(off as int).skip(4) =~= bytes@.skip(off + 4));
                        let uv = be_value(bytes@.skip(off as int).take(4));
                        assert(s@ =~= seq![(uv as u32) as char] + rest@);
                    }
                    return Some((s, end));
                },
            }
        },
    }
}

/// Decodes one datum starting at the offset, returning it and the offset
/// just past it.
fn decode_datum(bytes: &Vec<u8>, off: usize, t: &SqlType) -> (r: Option<(Datum, usize)>)
    requires
        off <= bytes@.len(),
    ensures
        match r {
            Some(p) => off < p.1 <= bytes@.len() && spec_decode_datum(
                bytes@.skip(off as int),
                *t,
            ) == Some((p.0@, p.1 - off)),
            None => spec_decode_datum(bytes@.skip(off as int), *t) is None,
        },
{
    if bytes.len() == off {
        return None;
    }
    let tag = bytes[off];
    if tag == 0 {
        return Some((Datum::Null, off + 1));
    }
    if tag != 1 {
        return None;
    }
    match t {
        SqlType::SmallInt | SqlType::Integer | SqlType::BigInt => {
            if bytes.len() - off < 9 {
                return None;
            }
            let biased = read_be(bytes, off + 1, 8);
            proof {
                assert(bytes@.skip(off as int).subrange(1, 9) =~= bytes@.subrange(
                    off + 1,
                    off + 9,
                ));
            }
            let v: i64 = ((biased as i128) - 0x8000000000000000i128) as i64;
            let ok = match t {
                SqlType::SmallInt => -32768 <= v && v <= 32767,
                SqlType::Integer => -2147483648 <= v && v <= 2147483647,
                _ => true,
            };
            if ok {
                Some((Datum::Int(v), off + 9))
            } else {
                None
            }
        },
        SqlType::Char(limit) | SqlType::VarChar(limit) => {
            if bytes.len() - off < 9 {
                return None;
            }
            let cnt = read_be(bytes, off + 1, 8);
            proof {
                assert(bytes@.skip(off as int).subrange(1, 9) =~= bytes@.subrange(
                    off + 1,
                    off + 9,
                ));
            }
            if cnt > *limit {
                return None;
            }
            match decode_chars(bytes, off + 9, cnt) {
                None => {
                    proof {
                        assert(bytes@.skip(off as int).skip(9) =~= bytes@.skip(off + 9));
                    }
                    None
                },
                Some(p) => {
                    let (s, end) = p;
                    proof {
                        assert(bytes@.skip(off as int).skip(9) =~= bytes@.skip(off + 9));
                    }
                    Some((Datum::Str(s), end))
                },
            }
        },
    }
}

/// Decodes the row suffix from the offset on, against the type suffix
/// from the type index on; the buffer must be consumed exactly.
fn decode_row_from(bytes: &Vec<u8>, off: usize, types: &Vec<SqlType>, ti: usize) -> (r: Option<
    Vec<Datum>,
>)
    requires
        off <= bytes@.len(),
        ti <= types@.len(),
    ensures
        match r {
            Some(v) => spec_decode_row(bytes@.skip(off as int), types@.skip(ti as int)) == Some(
                row_view(v@),
            ),
            None => spec_decode_row(bytes@.skip(off as int), types@.skip(ti as int)) is None,
        },
    decreases types@.len() - ti,
{
    if ti == types.len() {
        if off == bytes.len() {
            let empty: Vec<Datum> = Vec::new();
            proof {
                assert(row_view(empty@) =~= Seq::<DatumV>::empty());
            }
            return Some(empty);
        }
        return None;
    }
    match decode_datum(bytes, off, &types[ti]) {
        None => None,
        Some(p) => {
            let (d, end) = p;
            proof {
                assert(bytes@.skip(off as int).skip(end - off) =~= bytes@.skip(end as int));
                assert(types@.skip(ti as int).drop_first() =~= types@.skip(ti + 1));
                assert(types@.skip(ti as int)[0] == types@[ti as int]);
            }
            match decode_row_from(bytes, end, types, ti + 1) {
                None => None,
                Some(mut rest) => {
                    let ghost prev = rest@;
                    rest.insert(0, d);
                    proof {
                        assert(row_view(rest@) =~= seq![d@] + row_view(prev));
                    }
                    Some(rest)
                },
            }
        },
    }
}

/// One contiguous byte buffer: a stored key or a packed row value.
#[derive(Debug)]
pub struct Binary {
    data: Vec<u8>,
}

impl View for Binary {
    type V = Seq<u8>;

    closed spec fn view(&self) -> Seq<u8> {
        self.data@
    }
}

impl Clone for Binary {
    fn clone(&self) -> (r: Self)
        ensures
            r@ == self@,
    {
        Binary { data: self.data.clone() }
    }
}

impl Binary {
    /// Wraps raw bytes unchanged.
    pub fn with_data(data: Vec<u8>) -> (r: Binary)
        ensures
            r@ == data@,
    {
        Binary { data }
    }

    /// Packs an ordered row of datums under its column-type list.
    pub fn pack(record: &Vec<Datum>, types: &Vec<SqlType>) -> (r: Binary)
        requires
            row_fits(row_view(record@), types@),
        ensures
            r@ == spec_encode_row(row_view(record@), types@),
    {
        let mut out: Vec<u8> = Vec::new();
        let mut i: usize = 0;
        while i < record.len()
            invariant
                0 <= i <= record@.len(),
                row_fits(row_view(record@), types@),
                out@ == spec_encode_row_prefix(row_view(record@), types@, i as int),
            decreases record@.len() - i,
        {
            proof {
                assert(row_view(record@)[i as int] == record@[i as int]@);
            }
            encode_datum(&record[i], &types[i], &mut out);
            proof {
                lemma_encode_row_prefix_step(row_view(record@), types@, i as int);
            }
            i = i + 1;
        }
        proof {
            lemma_encode_row_prefix_all(row_view(record@), types@);
        }
        Binary { data: out }
    }

    /// Unpacks a packed row under the same ordered column-type list.
    pub fn unpack(&self, types: &Vec<SqlType>) -> (r: Option<Vec<Datum>>)
        ensures
            match r {
                Some(v) => spec_decode_row(self@, types@) == Some(row_view(v@)),
                None => spec_decode_row(self@, types@) is None,
            },
    {
        let r = decode_row_from(&self.data, 0, types, 0);
        proof {
            assert(self.data@.skip(0) =~= self.data@);
            assert(types@.skip(0) =~= types@);
        }
        r
    }

    /// The raw bytes.
    pub fn bytes(&self) -> (r: &Vec<u8>)
        ensures
            r@ == self@,
    {
        &self.data
    }
}

/// The encoding of the first `i` columns of a row.
pub open spec fn spec_encode_row_prefix(row: Seq<DatumV>, types: Seq<SqlType>, i: int) -> Seq<u8> {
    spec_encode_row(row.take(i), types.take(i))
}

proof fn lemma_encode_row_shift(row: Seq<DatumV>, types: Seq<SqlType>, i: int)
    requires
        0 <= i <= row.len(),
        row.len() <= types.len(),
    ensures
        spec_encode_row(row, types) == spec_encode_row_prefix(row, types, i) + spec_encode_row(
            row.skip(i),
            types.skip(i),
        ),
    decreases i,
{
    if i == 0 {
        assert(row.take(0) =~= Seq::<DatumV>::empty());
        assert(row.skip(0) =~= row);
        assert(types.skip(0) =~= types);
        assert(spec_encode_row_prefix(row, types, 0) + spec_encode_row(row, types) =~=
        spec_encode_row(row, types));
    } else {
        lemma_encode_row_shift(row, types, i - 1);
        let a = row.skip(i - 1);
        let b = types.skip(i - 1);
        assert(a[0] == row[i - 1] && b[0] == types[i - 1]);
        assert(a.drop_first() =~= row.skip(i));
        assert(b.drop_first() =~= types.skip(i));
        assert(spec_encode_row(a, b) == spec_encode_datum(row[i - 1], types[i - 1])
            + spec_encode_row(row.skip(i), types.skip(i)));
        lemma_encode_row_prefix_grow(row, types, i);
        assert((spec_encode_row_prefix(row, types, i - 1) + spec_encode_datum(
            row[i - 1],
            types[i - 1],
        )) + spec_encode_row(row.skip(i), types.skip(i)) =~= spec_encode_row_prefix(row, types, i)
            + spec_encode_row(row.skip(i), types.skip(i)));
        assert(spec_encode_row_prefix(row, types, i - 1) + (spec_encode_datum(
            row[i - 1],
            types[i - 1],
        ) + spec_encode_row(row.skip(i), types.skip(i))) =~= (spec_encode_row_prefix(
            row,
            types,
            i - 1,
        ) + spec_encode_datum(row[i - 1], types[i - 1])) + spec_encode_row(
            row.skip(i),
            types.skip(i),
        ));
    }
}

proof fn lemma_encode_row_prefix_grow(row: Seq<DatumV>, types: Seq<SqlType>, i: int)
    requires
        0 < i <= row.len(),
        row.len() <= types.len(),
    ensures
        spec_encode_row_prefix(row, types, i) == spec_encode_row_prefix(row, types, i - 1)
            + spec_encode_datum(row[i - 1], types[i - 1]),
    decreases i,
{
    if i == 1 {
        assert(row.take(1) =~= seq![row[0]]);
        assert(row.take(0) =~= Seq::<DatumV>::empty());
        assert(seq![row[0]].drop_first() =~= Seq::<DatumV>::empty());
        assert(spec_encode_row(seq![row[0]].drop_first(), types.take(1).drop_first()).len() == 0);
        assert(spec_encode_row_prefix(row, types, 0) + spec_encode_datum(row[0], types[0]) =~=
        spec_encode_datum(row[0], types[0]) + spec_encode_row(
            seq![row[0]].drop_first(),
            types.take(1).drop_first(),
        ));
        assert(row.take(1)[0] == row[0] && types.take(1)[0] == types[0]);
    } else {
        lemma_encode_row_prefix_grow(row.drop_first(), types.drop_first(), i - 1);
        assert(row.take(i).drop_first() =~= row.drop_first().take(i - 1));
        assert(row.take(i - 1).drop_first() =~= row.drop_first().take(i - 2));
        assert(types.take(i).drop_first() =~= types.drop_first().take(i - 1));
        assert(types.take(i - 1).drop_first() =~= types.drop_first().take(i - 2));
        assert(row.take(i)[0] == row[0] && types.take(i)[0] == types[0]);
        assert(row.take(i - 1)[0] == row[0] && types.take(i - 1)[0] == types[0]);
        assert(row.drop_first()[i - 2] == row[i - 1]);
        assert(types.drop_first()[i - 2] == types[i - 1]);
        assert(spec_encode_row(row.take(i), types.take(i)) == spec_encode_datum(row[0], types[0])
            + spec_encode_row(row.drop_first().take(i - 1), types.drop_first().take(i - 1)));
        assert((spec_encode_datum(row[0], types[0]) + spec_encode_row(
            row.drop_first().take(i - 2),
            types.drop_first().take(i - 2),
        )) + spec_encode_datum(row[i - 1], types[i - 1]) =~= spec_encode_datum(row[0], types[0]) + (
        spec_encode_row(row.drop_first().take(i - 2), types.drop_first().take(i - 2))
            + spec_encode_datum(row[i - 1], types[i - 1])));
    }
}

proof fn lemma_encode_row_prefix_step(row: Seq<DatumV>, types: Seq<SqlType>, i: int)
    requires
        0 <= i < row.len(),
        row.len() <= types.len(),
    ensures
        spec_encode_row_prefix(row, types, i + 1) == spec_encode_row_prefix(row, types, i)
            + spec_encode_datum(row[i], types[i]),
{
    lemma_encode_row_prefix_grow(row, types, i + 1);
}

proof fn lemma_encode_row_prefix_all(row: Seq<DatumV>, types: Seq<SqlType>)
    requires
        row.len() == types.len(),
    ensures
        spec_encode_row_prefix(row, types, row.len() as int) == spec_encode_row(row, types),
{
    assert(row.take(row.len() as int) =~= row);
    assert(types.take(types.len() as int) =~= types);
}

/// The big-endian eight-byte key image of a row counter.
pub fn key_bytes(k: u64) -> (r: Vec<u8>)
    ensures
        r@ == be_bytes(k as int, 8),
{
    let mut out: Vec<u8> = Vec::new();
    push_be(&mut out, k, 8);
    proof {
        assert(out@ =~= be_bytes(k as int, 8));
    }
    out
}

pub open spec fn spec_digit(d: int) -> char {
    ((48 + d) as u32) as char
}

/// The canonical decimal digits of a non-negative value.
pub open spec fn dec_text(v: nat) -> Seq<char>
    decreases v,
{
    if v < 10 {
        seq![spec_digit(v as int)]
    } else {
        dec_text((v / 10) as nat) + seq![spec_digit((v % 10) as int)]
    }
}

/// The canonical decimal text of a value, with a leading minus sign when
/// negative.
pub open spec fn spec_int_text(v: int) -> Seq<char> {
    if v < 0 {
        seq!['-'] + dec_text((-v) as nat)
    } else {
        dec_text(v as nat)
    }
}

/// The text a datum shows as in query results.
pub open spec fn spec_datum_text(d: DatumV) -> Seq<char> {
    match d {
        DatumV::Null => "NULL"@,
        DatumV::Int(v) => spec_int_text(v),
        DatumV::Str(s) => s,
    }
}

fn digit_char(d: u64) -> (r: char)
    requires
        d < 10,
    ensures
        r == spec_digit(d as int),
{
    match char::from_u32(48 + (d as u32)) {
        Some(c) => {
            proof {
                vstd::utf8::char_u32_cast(c, (48 + d) as u32);
            }
            c
        },
        None => {
            proof {
                assert(false);
            }
            ' '
        },
    }
}

fn u64_text(v: u64) -> (r: String)
    ensures
        r@ == dec_text(v as nat),
    decreases v,
{
    let c = digit_char(v % 10);
    if v < 10 {
        let mut s = String::new();
        s.push(c);
        proof {
            assert(s@ =~= seq![spec_digit(v as int)]);
        }
        s
    } else {
        let mut s = u64_text(v / 10);
        s.push(c);
        proof {
            assert(s@ =~= dec_text((v / 10) as nat) + seq![spec_digit((v % 10) as int)]);
        }
        s
    }
}

impl Datum {
    /// Renders the datum as query results print it.
    pub fn to_text(&self) -> (r: String)
        ensures
            r@ == spec_datum_text(self@),
    {
        match self {
            Datum::Null => String::from_str("NULL"),
            Datum::Str(s) => s.clone(),
            Datum::Int(v) => {
                if *v < 0 {
                    let mag: u64 = (-(*v as i128)) as u64;
                    let mut s = String::from_str("-");
                    let digits = u64_text(mag);
                    s.append(digits.as_str());
                    proof {
                        reveal_strlit("-");
                        assert(s@ =~= seq!['-'] + dec_text(mag as nat));
                    }
                    s
                } else {
                    u64_text(*v as u64)
                }
            },
        }
    }

}



/// Reads the value that up to eight big-endian bytes denote.
pub fn be_value_of(bytes: &Vec<u8>) -> (r: u64)
    requires
        bytes@.len() <= 8,
    ensures
        r as int == be_value(bytes@),
{
    let r = read_be(bytes, 0, bytes.len());
    proof {
        assert(bytes@.subrange(0, bytes@.len() as int) =~= bytes@);
    }
    r
}

} // verus!
