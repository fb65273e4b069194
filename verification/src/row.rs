//! One row of the data set, a hash and how often it was seen, as text and as
//! a binary record.

use byteorder::{LittleEndian, ReadBytesExt, WriteBytesExt};
use vstd::prelude::*;
use vstd::slice::slice_subrange;
use vstd::string::StringSliceAdditionalSpecFns;
use vstd::utf8::{is_leading_byte_width_1, partial_valid_utf8, partial_valid_utf8_extend_ascii_block, valid_utf8};
use crate::num::{format_decimal, lemma_parse_format_decimal, parse_decimal, spec_decimal, spec_parse_decimal};
use crate::text::{copy_range, find_byte, lemma_find_byte, position_from, COLON, NEWLINE};

verus! {

/// A decoded record holds a hash of at most this many bytes.
pub const MAX_HASH_LEN: usize = 40;

/// A hash and its count.
#[derive(Debug)]
pub struct MyStruct {
    pub count: u32,
    pub hash: Vec<u8>,
}

/// A row as a mathematical value.
pub ghost struct Row {
    pub hash: Seq<u8>,
    pub count: u32,
}

impl View for MyStruct {
    type V = Row;

    open spec fn view(&self) -> Row {
        Row { hash: self.hash@, count: self.count }
    }
}

/// Why a line is no row.
#[derive(Debug, Clone, Copy, PartialEq, Eq, Structural)]
pub enum RowError {
    /// The line has no `:`.
    MissingColon,
    /// What follows the first `:` is no number that fits 32 bits.
    BadCount,
}

/// The four bytes of `n`, least significant first.
pub open spec fn le_bytes(n: u32) -> Seq<u8> {
    seq![
        (n % 256) as u8,
        ((n / 256) % 256) as u8,
        ((n / 65536) % 256) as u8,
        (n / 16777216) as u8,
    ]
}

/// The number whose four bytes, least significant first, `b` starts with.
pub open spec fn le_value(b: Seq<u8>) -> u32
    recommends
        b.len() >= 4,
{
    (b[0] + 256 * b[1] + 65536 * b[2] + 16777216 * b[3]) as u32
}

/// The binary record of a row: one byte of length, the hash, the count in
/// four bytes. The length byte wraps at 256.
pub open spec fn spec_encode(r: Row) -> Seq<u8> {
    seq![(r.hash.len() % 256) as u8] + r.hash + le_bytes(r.count)
}

/// The row that `bytes` starts with and how many bytes it takes. There is none
/// where the bytes run out, where the length byte is over `MAX_HASH_LEN`, and
/// where the hash is no well-formed UTF-8.
pub open spec fn spec_decode(bytes: Seq<u8>) -> Option<(Row, nat)> {
    if bytes.len() < 1 {
        None
    } else {
        let n = bytes[0] as int;
        if n > MAX_HASH_LEN || bytes.len() < n + 5 || !valid_utf8(bytes.subrange(1, n + 1)) {
            None
        } else {
            Some(
                (
                    Row {
                        hash: bytes.subrange(1, n + 1),
                        count: le_value(bytes.subrange(n + 1, n + 5)),
                    },
                    (n + 5) as nat,
                ),
            )
        }
    }
}

/// A row that decoding gives back as it was.
pub open spec fn encodable(r: Row) -> bool {
    r.hash.len() <= MAX_HASH_LEN && valid_utf8(r.hash)
}

/// The byte is a hexadecimal digit, in either case.
pub open spec fn is_hex(b: u8) -> bool {
    (48 <= b <= 57) || (65 <= b <= 70) || (97 <= b <= 102)
}

/// A row of the data set: its hash is 32 or 40 hexadecimal digits.
pub open spec fn valid_row(r: Row) -> bool {
    &&& (r.hash.len() == 32 || r.hash.len() == 40)
    &&& forall|i: int| 0 <= i < r.hash.len() ==> is_hex(#[trigger] r.hash[i])
}

/// What a line of text, without its line end, parses to: the hash is what
/// stands before the first `:`, the count what stands after it.
pub open spec fn spec_parse_row(line: Seq<u8>) -> Result<Row, RowError> {
    let i = find_byte(line, COLON) as int;
    if i >= line.len() {
        Err(RowError::MissingColon)
    } else {
        match spec_parse_decimal(line.skip(i + 1), u32::MAX as nat) {
            Some(v) => Ok(Row { hash: line.take(i), count: v as u32 }),
            None => Err(RowError::BadCount),
        }
    }
}

/// The line of text of a row, with its line end.
pub open spec fn spec_line(r: Row) -> Seq<u8> {
    r.hash + seq![COLON] + spec_decimal(r.count as nat) + seq![NEWLINE]
}

/// byteorder's `WriteBytesExt::write_u8` on a `Vec<u8>`: the byte is appended.
#[verifier::external_body]
fn push_u8(out: &mut Vec<u8>, n: u8)
    ensures
        final(out)@ == old(out)@.push(n),
{
    let _ = out.write_u8(n);
}

/// byteorder's `WriteBytesExt::write_u32` with `LittleEndian` on a `Vec<u8>`:
/// the four bytes of `n` are appended, least significant first.
#[verifier::external_body]
fn push_u32_le(out: &mut Vec<u8>, n: u32)
    ensures
        final(out)@ == old(out)@ + le_bytes(n),
{
    let _ = out.write_u32::<LittleEndian>(n);
}

/// byteorder's `ReadBytesExt::read_u32` with `LittleEndian` on a byte slice:
/// the number in the first four bytes, least significant first, or nothing
/// where there are fewer than four.
#[verifier::external_body]
fn read_u32_le(src: &[u8]) -> (r: Option<u32>)
    ensures
        r == if src@.len() >= 4 { Some(le_value(src@)) } else { None },
{
    let mut reader: &[u8] = src;
    reader.read_u32::<LittleEndian>().ok()
}

/// std's `core::str::from_utf8`, asked only whether it succeeds: it does on
/// well-formed UTF-8 and on nothing else.
#[verifier::external_body]
fn is_utf8(bytes: &[u8]) -> (ok: bool)
    ensures
        ok == valid_utf8(bytes@),
{
    core::str::from_utf8(bytes).is_ok()
}

impl MyStruct {
    /// Parses one line of text, without its line end.
    pub fn from_bytes(line: &[u8]) -> (r: Result<MyStruct, RowError>)
        ensures
            match spec_parse_row(line@) {
                Ok(row) => r.is_ok() && r.unwrap()@ == row,
                Err(e) => r.is_err() && r.unwrap_err() == e,
            },
    {
        let i = position_from(line, 0, COLON);
        assert(line@.skip(0) =~= line@);
        if i >= line.len() {
            return Err(RowError::MissingColon);
        }
        let tail = slice_subrange(line, i + 1, line.len());
        assert(tail@ =~= line@.skip(i + 1));
        match parse_decimal(tail, 0xFFFF_FFFF) {
            Some(v) => {
                let hash = copy_range(line, 0, i);
                assert(hash@ =~= line@.take(i as int));
                Ok(MyStruct { count: v as u32, hash })
            },
            None => Err(RowError::BadCount),
        }
    }

    /// Parses one line of text, without its line end.
    pub fn from_str(s: &str) -> (r: Result<MyStruct, RowError>)
        ensures
            match spec_parse_row(s.spec_bytes()) {
                Ok(row) => r.is_ok() && r.unwrap()@ == row,
                Err(e) => r.is_err() && r.unwrap_err() == e,
            },
    {
        MyStruct::from_bytes(s.as_bytes())
    }

    /// The line of text of this row, with its line end.
    pub fn to_line(&self) -> (line: Vec<u8>)
        ensures
            line@ == spec_line(self@),
    {
        let mut line: Vec<u8> = Vec::new();
        line.extend_from_slice(self.hash.as_slice());
        line.push(COLON);
        let digits = format_decimal(self.count as u64);
        line.extend_from_slice(digits.as_slice());
        line.push(NEWLINE);
        assert(line@ =~= spec_line(self@));
        line
    }

    /// Appends the binary record of this row to `write`.
    pub fn encode(&self, write: &mut Vec<u8>)
        ensures
            final(write)@ == old(write)@ + spec_encode(self@),
    {
        let ghost before = write@;
        push_u8(write, (self.hash.len() % 256) as u8);
        write.extend_from_slice(self.hash.as_slice());
        push_u32_le(write, self.count);
        assert(write@ =~= before + spec_encode(self@));
    }

    /// Reads the row that `read` starts with, and says how many bytes it took.
    pub fn decode(read: &[u8]) -> (r: Option<(MyStruct, usize)>)
        ensures
            match spec_decode(read@) {
                Some((row, used)) => r.is_some() && r.unwrap().0@ == row && r.unwrap().1 == used,
                None => r.is_none(),
            },
    {
        if read.len() < 1 {
            return None;
        }
        let hash_len: usize = read[0] as usize;
        if hash_len > MAX_HASH_LEN || read.len() < hash_len + 5 {
            return None;
        }
        let hash = copy_range(read, 1, hash_len + 1);
        let tail = slice_subrange(read, hash_len + 1, hash_len + 5);
        let count = read_u32_le(tail);
        if !is_utf8(hash.as_slice()) {
            return None;
        }
        Some((MyStruct { count: count.unwrap(), hash }, hash_len + 5))
    }
}

/// Decoding the record of a row gives the row back, and takes the whole record.
pub proof fn lemma_decode_encode(r: Row)
    requires
        encodable(r),
    ensures
        spec_decode(spec_encode(r)) == Some((r, spec_encode(r).len())),
{
    let bytes = spec_encode(r);
    let n = r.hash.len() as int;
    let c = r.count;
    assert(bytes[0] == n);
    assert(bytes.subrange(1, n + 1) =~= r.hash);
    assert(bytes.subrange(n + 1, n + 5) =~= le_bytes(c));
    assert(le_value(le_bytes(c)) == c);
}

/// A row of the data set is one that decoding gives back as it was.
pub proof fn lemma_valid_row_encodable(r: Row)
    requires
        valid_row(r),
    ensures
        encodable(r),
{
    let h = r.hash;
    assert forall|i: int| 0 <= 0 <= i < h.len() <= h.len() implies #[trigger] is_leading_byte_width_1(
        h[i],
    ) by {
        assert(is_hex(h[i]));
    }
    assert(h.subrange(0, 0) =~= Seq::<u8>::empty());
    assert(partial_valid_utf8(h, 0));
    partial_valid_utf8_extend_ascii_block(h, 0, h.len() as int);
    assert(h.subrange(0, h.len() as int) =~= h);
}

/// Decoding the record of a row of the data set gives the row back.
pub proof fn lemma_round_trip(r: Row)
    requires
        valid_row(r),
    ensures
        spec_decode(spec_encode(r)) == Some((r, spec_encode(r).len())),
{
    lemma_valid_row_encodable(r);
    lemma_decode_encode(r);
}

/// The line of a row of the data set, taken without its line end, parses back
/// to the row.
pub proof fn lemma_parse_line_valid_row(r: Row)
    requires
        valid_row(r),
    ensures
        spec_parse_row(spec_line(r).drop_last()) == Ok::<Row, RowError>(r),
{
    assert forall|j: int| 0 <= j < r.hash.len() implies r.hash[j] != COLON by {
        assert(is_hex(r.hash[j]));
    }
    lemma_parse_line(r);
}

/// Parsing the line of a row, taken without its line end, gives the row back,
/// as long as the hash holds no `:`.
pub proof fn lemma_parse_line(r: Row)
    requires
        forall|j: int| 0 <= j < r.hash.len() ==> r.hash[j] != COLON,
    ensures
        spec_parse_row(spec_line(r).drop_last()) == Ok::<Row, RowError>(r),
{
    let line = spec_line(r).drop_last();
    let n = r.hash.len() as int;
    assert(line =~= r.hash + seq![COLON] + spec_decimal(r.count as nat));
    lemma_find_byte(line, COLON, n);
    assert(line.skip(n + 1) =~= spec_decimal(r.count as nat));
    assert(line.take(n) =~= r.hash);
    lemma_parse_format_decimal(r.count as nat, u32::MAX as nat);
}

} // verus!
