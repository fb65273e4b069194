//! What the frequency sort decides before it reads its rows.

use vstd::prelude::*;
use crate::download::{lossy_text, utf8_lossy};
use crate::text::{find_byte, lemma_find_byte, lemma_find_byte_bounds, position_from, COLON, NEWLINE};

verus! {

/// An input of fewer bytes holds no full row.
pub const MIN_INPUT_BYTES: u64 = 60;

/// How many rows one sorted segment holds at most.
pub const SEGMENT_ROWS: usize = 11_640_000;

/// The length of an NTLM hash in hexadecimal.
pub const NTLM_HEX_LEN: usize = 32;

/// The length of a SHA-1 hash in hexadecimal.
pub const SHA1_HEX_LEN: usize = 40;

/// Why an input cannot be sorted.
#[derive(Debug, Clone, Copy, PartialEq, Eq, Structural)]
pub enum SortError {
    /// The input is under `MIN_INPUT_BYTES` long.
    FileTooSmall,
    /// The first line has no `:`.
    NoColon,
    /// The hash of the first line has neither of the two known lengths.
    BadHashLength,
}

/// What a sort run starts from.
#[derive(Debug, Clone, Copy, PartialEq, Eq, Structural)]
pub struct SortPlan {
    /// The length of every hash of the input.
    pub hash_size: usize,
    /// About how many rows the input holds.
    pub rows_in_file: u64,
    /// How many steps the progress display counts: each row is read once and
    /// written once.
    pub progress_length: u64,
}

/// The hash length that the start of the input shows: the length of what
/// stands before the first `:` of the first line.
pub open spec fn spec_hash_len(text: Seq<u8>) -> Result<usize, SortError> {
    let first_line = text.take(find_byte(text, NEWLINE) as int);
    let i = find_byte(first_line, COLON);
    if i >= first_line.len() {
        Err(SortError::NoColon)
    } else if i == NTLM_HEX_LEN || i == SHA1_HEX_LEN {
        Ok(i as usize)
    } else {
        Err(SortError::BadHashLength)
    }
}

/// The plan for an input of `input_byte_size` bytes whose start reads `text`.
pub open spec fn spec_plan(input_byte_size: u64, text: Seq<u8>) -> Result<SortPlan, SortError> {
    if input_byte_size < MIN_INPUT_BYTES {
        Err(SortError::FileTooSmall)
    } else {
        match spec_hash_len(text) {
            Err(e) => Err(e),
            Ok(h) => Ok(
                SortPlan {
                    hash_size: h,
                    rows_in_file: (input_byte_size as int / (h + 7)) as u64,
                    progress_length: (2 * (input_byte_size as int / (h + 7))) as u64,
                },
            ),
        }
    }
}

/// Finds the hash length in the text that the input starts with.
pub fn hash_size_of(text: &[u8]) -> (r: Result<usize, SortError>)
    ensures
        r == spec_hash_len(text@),
{
    let end = position_from(text, 0, NEWLINE);
    let colon = position_from(text, 0, COLON);
    proof {
        let s = text@;
        assert(s.skip(0) =~= s);
        let first_line = s.take(end as int);
        lemma_find_byte_bounds(s, COLON);
        if colon < end {
            assert forall|j: int| 0 <= j < colon implies first_line[j] != COLON by {
                assert(first_line[j] == s[j]);
            }
            assert(first_line[colon as int] == s[colon as int]);
            lemma_find_byte(first_line, COLON, colon as int);
        } else {
            assert forall|j: int| 0 <= j < end implies first_line[j] != COLON by {
                assert(first_line[j] == s[j]);
            }
            lemma_find_byte(first_line, COLON, end as int);
        }
    }
    if colon >= end {
        Err(SortError::NoColon)
    } else if colon == NTLM_HEX_LEN || colon == SHA1_HEX_LEN {
        Ok(colon)
    } else {
        Err(SortError::BadHashLength)
    }
}

/// Makes the plan from the input's size and the text that it starts with.
pub fn plan_sort(input_byte_size: u64, text: &[u8]) -> (r: Result<SortPlan, SortError>)
    ensures
        r == spec_plan(input_byte_size, text@),
{
    if input_byte_size < MIN_INPUT_BYTES {
        return Err(SortError::FileTooSmall);
    }
    match hash_size_of(text) {
        Err(e) => Err(e),
        Ok(h) => {
            let row_size: u64 = (h + 7) as u64;
            let rows: u64 = input_byte_size / row_size;
            assert(rows * 2 <= input_byte_size) by {
                assert(row_size == 39 || row_size == 47);
            }
            Ok(SortPlan { hash_size: h, rows_in_file: rows, progress_length: rows * 2 })
        },
    }
}

/// Checks the input before any row is read and makes the plan of the run:
/// `head` is what the input starts with, read as text the lossy way.
pub fn run_sort(input_byte_size: u64, head: &[u8]) -> (r: Result<SortPlan, SortError>)
    ensures
        r == spec_plan(input_byte_size, utf8_lossy(head@)),
{
    let text = lossy_text(head);
    plan_sort(input_byte_size, text.as_slice())
}

} // verus!
