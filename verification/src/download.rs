//! One range request: its address, its retry rule, and how the response body
//! becomes the text that is written.

use vstd::prelude::*;
use vstd::string::StringSliceAdditionalSpecFns;
use vstd::utf8::valid_utf8;
use crate::consts::HIBP_ROOT;
use crate::text::{copy_range, find_byte, lemma_find_byte, lemma_find_byte_bounds, position_from, CARRIAGE_RETURN, NEWLINE};

verus! {

/// How often a failed request is tried again.
pub const MAX_RETRIES: u32 = 5;

/// How long to wait before a request is tried again, in milliseconds.
pub const RETRY_DELAY_MS: u64 = 100;

/// How long one request may take, in seconds.
pub const REQUEST_TIMEOUT_SECS: u64 = 5;

/// What the address ends with when NTLM hashes are asked for.
pub const NTLM_QUERY: &'static str = "?mode=ntlm";

/// The upper-case hexadecimal digit of `d`.
pub open spec fn hex_digit(d: nat) -> u8
    recommends
        d < 16,
{
    if d < 10 {
        (48 + d) as u8
    } else {
        (55 + d) as u8
    }
}

/// Sixteen to the power `k`.
pub open spec fn pow16(k: nat) -> nat
    decreases k,
{
    if k == 0 {
        1
    } else {
        16 * pow16((k - 1) as nat)
    }
}

/// A power of sixteen is at least one.
pub proof fn lemma_pow16_positive(k: nat)
    ensures
        pow16(k) >= 1,
    decreases k,
{
    if k > 0 {
        lemma_pow16_positive((k - 1) as nat);
    }
}

/// How many hexadecimal digits a key is written with: five, or as many as it needs.
pub open spec fn hex_width(n: u32) -> nat {
    if n < 0x10_0000 {
        5
    } else if n < 0x100_0000 {
        6
    } else if n < 0x1000_0000 {
        7
    } else {
        8
    }
}

/// A key in upper-case hexadecimal, padded with zeros to five digits.
pub open spec fn spec_key_hex(n: u32) -> Seq<u8> {
    Seq::new(
        hex_width(n),
        |i: int| hex_digit((n as nat / pow16((hex_width(n) - 1 - i) as nat)) % 16),
    )
}

/// Writes a key in upper-case hexadecimal, padded with zeros to five digits.
pub fn key_hex(n: u32) -> (r: Vec<u8>)
    ensures
        r@ == spec_key_hex(n),
{
    let width: usize = if n < 0x10_0000 {
        5
    } else if n < 0x100_0000 {
        6
    } else if n < 0x1000_0000 {
        7
    } else {
        8
    };
    let mut unit: u32 = if width == 5 {
        0x1_0000
    } else if width == 6 {
        0x10_0000
    } else if width == 7 {
        0x100_0000
    } else {
        0x1000_0000
    };
    assert(unit == pow16((width - 1) as nat)) by {
        reveal_with_fuel(pow16, 9);
    }
    let mut r: Vec<u8> = Vec::new();
    let mut i: usize = 0;
    while i < width
        invariant
            i <= width,
            width == hex_width(n),
            i < width ==> unit == pow16((width - 1 - i) as nat),
            r@.len() == i,
            forall|j: int| 0 <= j < i ==> r@[j] == spec_key_hex(n)[j],
        decreases width - i,
    {
        proof {
            lemma_pow16_positive((width - 1 - i) as nat);
        }
        let d: u32 = (n / unit) % 16;
        let c: u8 = if d < 10 { 48 + (d as u8) } else { 55 + (d as u8) };
        r.push(c);
        if i + 1 < width {
            assert(pow16((width - 1 - i) as nat) == 16 * pow16((width - 2 - i) as nat));
            unit = unit / 16;
        }
        i = i + 1;
    }
    assert(r@ =~= spec_key_hex(n));
    r
}

/// The address of the request for a key.
pub open spec fn spec_request_url(n: u32, ntlm: bool) -> Seq<u8> {
    HIBP_ROOT.spec_bytes() + spec_key_hex(n) + if ntlm {
        NTLM_QUERY.spec_bytes()
    } else {
        Seq::empty()
    }
}

/// The address of the request for a key, as bytes.
pub fn request_url(n: u32, ntlm: bool) -> (url: Vec<u8>)
    ensures
        url@ == spec_request_url(n, ntlm),
{
    let mut url: Vec<u8> = Vec::new();
    url.extend_from_slice(HIBP_ROOT.as_bytes());
    let key = key_hex(n);
    url.extend_from_slice(key.as_slice());
    if ntlm {
        url.extend_from_slice(NTLM_QUERY.as_bytes());
    }
    assert(url@ =~= spec_request_url(n, ntlm));
    url
}

/// Whether the cache status that a response carries, if it carries one, says
/// that the cache answered: it is exactly `HIT`.
pub fn is_cache_hit(status: Option<&[u8]>) -> (hit: bool)
    ensures
        hit == (status.is_some() && status.unwrap()@ == seq![72u8, 73u8, 84u8]),
{
    match status {
        Some(v) => {
            let hit = v.len() == 3 && v[0] == 72 && v[1] == 73 && v[2] == 84;
            assert(hit == (v@ =~= seq![72u8, 73u8, 84u8]));
            hit
        },
        None => false,
    }
}

/// What to do after one attempt of a request.
#[derive(Debug, Clone, Copy, PartialEq, Eq, Structural)]
pub enum NextStep {
    /// The body is there: go on with it.
    Finish,
    /// Wait, then try again with the retries that are left.
    RetryAfter { delay_ms: u64, retries_left: u32 },
    /// Out of retries: the error ends the run.
    GiveUp,
}

/// Decides what follows an attempt that succeeded or failed with `retries`
/// retries still unused. The request and the reading of its body fail alike.
pub fn after_attempt(retries: u32, succeeded: bool) -> (step: NextStep)
    ensures
        succeeded ==> step == NextStep::Finish,
        !succeeded && retries == 0 ==> step == NextStep::GiveUp,
        !succeeded && retries > 0 ==> step == (NextStep::RetryAfter {
            delay_ms: RETRY_DELAY_MS,
            retries_left: (retries - 1) as u32,
        }),
{
    if succeeded {
        NextStep::Finish
    } else if retries == 0 {
        NextStep::GiveUp
    } else {
        NextStep::RetryAfter { delay_ms: RETRY_DELAY_MS, retries_left: retries - 1 }
    }
}

/// Which of the finished tasks decides the run: the first that failed, if any did.
pub fn first_failure(succeeded: &[bool]) -> (r: Option<usize>)
    ensures
        match r {
            Some(i) => i < succeeded@.len() && !succeeded@[i as int] && forall|j: int|
                0 <= j < i ==> succeeded@[j],
            None => forall|j: int| 0 <= j < succeeded@.len() ==> succeeded@[j],
        },
{
    let mut i: usize = 0;
    while i < succeeded.len()
        invariant
            i <= succeeded@.len(),
            forall|j: int| 0 <= j < i ==> succeeded@[j],
        decreases succeeded@.len() - i,
    {
        if !succeeded[i] {
            return Some(i);
        }
        i = i + 1;
    }
    None
}

/// How many requests may be in flight at once: `workers` times `multiplier`,
/// where that fits the machine word.
pub fn concurrent_requests(workers: usize, multiplier: usize) -> (r: Option<usize>)
    ensures
        r == if workers * multiplier <= usize::MAX {
            Some((workers * multiplier) as usize)
        } else {
            None
        },
{
    if multiplier == 0 {
        assert(workers * multiplier == 0) by (nonlinear_arith)
            requires
                multiplier == 0,
        ;
        return Some(0);
    }
    if workers > usize::MAX / multiplier {
        assert(workers * multiplier > usize::MAX) by (nonlinear_arith)
            requires
                multiplier > 0,
                workers > usize::MAX / multiplier,
        ;
        return None;
    }
    assert(workers * multiplier <= usize::MAX) by (nonlinear_arith)
        requires
            multiplier > 0,
            workers <= usize::MAX / multiplier,
    ;
    Some(workers * multiplier)
}

/// A line without the carriage return that ends it, if one does.
pub open spec fn strip_cr(line: Seq<u8>) -> Seq<u8> {
    if line.len() > 0 && line.last() == CARRIAGE_RETURN {
        line.drop_last()
    } else {
        line
    }
}

/// The lines of `text`, each behind `prefix` and ended by a line feed. A line
/// ends at a line feed, or at a carriage return and a line feed; the last line
/// may end with the text, and an empty last line does not count.
pub open spec fn spec_annotate(prefix: Seq<u8>, text: Seq<u8>) -> Seq<u8>
    decreases text.len(),
{
    if text.len() == 0 {
        Seq::empty()
    } else {
        let i = find_byte(text, NEWLINE) as int;
        if i >= text.len() {
            prefix + text + seq![NEWLINE]
        } else {
            prefix + strip_cr(text.take(i)) + seq![NEWLINE] + spec_annotate(
                prefix,
                text.skip(i + 1),
            )
        }
    }
}

/// `s` is made of lines that each start with `prefix` and end with a line feed.
pub open spec fn lines_start_with(prefix: Seq<u8>, s: Seq<u8>) -> bool
    decreases s.len(),
{
    if s.len() == 0 {
        true
    } else {
        let i = find_byte(s, NEWLINE) as int;
        if i >= s.len() {
            false
        } else {
            prefix.is_prefix_of(s.take(i)) && lines_start_with(prefix, s.skip(i + 1))
        }
    }
}

/// Every line of the annotated text starts with the prefix, as long as the
/// prefix holds no line feed.
pub proof fn lemma_annotated_lines(prefix: Seq<u8>, text: Seq<u8>)
    requires
        forall|j: int| 0 <= j < prefix.len() ==> prefix[j] != NEWLINE,
    ensures
        lines_start_with(prefix, spec_annotate(prefix, text)),
    decreases text.len(),
{
    if text.len() > 0 {
        let i = find_byte(text, NEWLINE) as int;
        lemma_find_byte_bounds(text, NEWLINE);
        let out = spec_annotate(prefix, text);
        let line = if i >= text.len() {
            text
        } else {
            strip_cr(text.take(i))
        };
        let rest = if i >= text.len() {
            Seq::<u8>::empty()
        } else {
            spec_annotate(prefix, text.skip(i + 1))
        };
        assert(out =~= prefix + line + seq![NEWLINE] + rest);
        let at: int = (prefix.len() + line.len()) as int;
        assert forall|j: int| 0 <= j < at implies out[j] != NEWLINE by {
            if j >= prefix.len() {
                assert(out[j] == line[j - prefix.len()]);
                assert(line[j - prefix.len()] == text[j - prefix.len()]);
            }
        }
        assert(out[at] == NEWLINE);
        lemma_find_byte(out, NEWLINE, at);
        assert(prefix =~= out.take(at).subrange(0, prefix.len() as int));
        assert(prefix.is_prefix_of(out.take(at)));
        assert(out.skip(at + 1) =~= rest);
        if i < text.len() {
            lemma_annotated_lines(prefix, text.skip(i + 1));
        }
        assert(lines_start_with(prefix, rest));
        assert(find_byte(out, NEWLINE) == at && at < out.len());
    }
}

/// No digit of a key is a line feed.
pub proof fn lemma_key_hex_digits(n: u32)
    ensures
        forall|j: int| 0 <= j < spec_key_hex(n).len() ==> spec_key_hex(n)[j] != NEWLINE,
{
}

/// Every line of what is handed on for a key, for a single output file,
/// starts with the digits of that key.
pub proof fn lemma_lines_carry_key(n: u32, body: Seq<u8>)
    ensures
        lines_start_with(spec_key_hex(n), spec_annotate(spec_key_hex(n), utf8_lossy(body))),
{
    lemma_key_hex_digits(n);
    lemma_annotated_lines(spec_key_hex(n), utf8_lossy(body));
}

/// Puts `prefix` before each line of `text` and ends each line with a line feed.
pub fn annotate_lines(prefix: &[u8], text: &[u8]) -> (out: Vec<u8>)
    ensures
        out@ == spec_annotate(prefix@, text@),
{
    let n: usize = text.len();
    let mut out: Vec<u8> = Vec::new();
    let mut pos: usize = 0;
    assert(text@.skip(0) =~= text@);
    while pos < n
        invariant
            pos <= n,
            n == text@.len(),
            out@ + spec_annotate(prefix@, text@.skip(pos as int)) == spec_annotate(prefix@, text@),
        decreases n - pos,
    {
        let ghost rest = text@.skip(pos as int);
        let ghost done = out@;
        let end = position_from(text, pos, NEWLINE);
        out.extend_from_slice(prefix);
        if end >= n {
            let line = copy_range(text, pos, n);
            out.extend_from_slice(line.as_slice());
            out.push(NEWLINE);
            proof {
                assert(line@ =~= rest);
                assert(text@.skip(n as int).len() == 0);
                assert(out@ =~= done + spec_annotate(prefix@, rest));
                assert(out@ + spec_annotate(prefix@, text@.skip(n as int)) =~= out@);
            }
            pos = n;
        } else {
            let stop: usize = if end > pos && text[end - 1] == CARRIAGE_RETURN {
                end - 1
            } else {
                end
            };
            let line = copy_range(text, pos, stop);
            out.extend_from_slice(line.as_slice());
            out.push(NEWLINE);
            proof {
                let i = end - pos;
                assert(rest.take(i) =~= text@.subrange(pos as int, end as int));
                assert(line@ =~= strip_cr(rest.take(i)));
                assert(rest.skip(i + 1) =~= text@.skip(end + 1));
                assert(out@ + spec_annotate(prefix@, text@.skip(end + 1)) =~= done
                    + spec_annotate(prefix@, rest));
            }
            pos = end + 1;
        }
    }
    assert(text@.skip(n as int).len() == 0);
    assert(out@ + Seq::<u8>::empty() =~= out@);
    out
}

/// The text that std's `String::from_utf8_lossy` makes of bytes, as its UTF-8
/// bytes.
pub uninterp spec fn utf8_lossy(bytes: Seq<u8>) -> Seq<u8>;

/// std's `String::from_utf8_lossy`, its result taken as bytes: well-formed
/// UTF-8 comes back unchanged; what becomes of anything else goes by the
/// name `utf8_lossy`.
#[verifier::external_body]
pub(crate) fn lossy_text(body: &[u8]) -> (text: Vec<u8>)
    ensures
        text@ == utf8_lossy(body@),
        valid_utf8(body@) ==> text@ == body@,
{
    String::from_utf8_lossy(body).into_owned().into_bytes()
}

/// What is handed on for a key once its response body is there: for a single
/// output file the body as text, each line behind the key's five digits; for
/// one file per key the body as it came.
pub fn download_prefix(n: u32, body: &[u8], single_file: bool) -> (r: (u32, Vec<u8>))
    ensures
        r.0 == n,
        single_file ==> r.1@ == spec_annotate(spec_key_hex(n), utf8_lossy(body@)),
        !single_file ==> r.1@ == body@,
{
    if single_file {
        let key = key_hex(n);
        let text = lossy_text(body);
        (n, annotate_lines(key.as_slice(), text.as_slice()))
    } else {
        let raw = copy_range(body, 0, body.len());
        assert(raw@ =~= body@);
        (n, raw)
    }
}

} // verus!
