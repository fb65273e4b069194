//! The sequencing buffer: results arrive in any order and leave in ascending
//! key order, a gap-free run at a time.

use std::collections::VecDeque;
use vstd::prelude::*;
use vstd::seq_lib::*;
use crate::download::{key_hex, spec_key_hex};

verus! {

/// One fetched range: its key and its payload.
pub type ChannelData = (u32, Vec<u8>);

/// The buffer is flushed as soon as it holds this many results.
pub const FLUSH_THRESHOLD: usize = 1024;

/// Keys never decrease along `s`.
pub open spec fn sorted_by_key(s: Seq<ChannelData>) -> bool {
    forall|i: int, j: int| 0 <= i <= j < s.len() ==> s[i].0 <= s[j].0
}

/// Each key of `s` is at most one more than the key before it.
pub open spec fn gap_free(s: Seq<ChannelData>) -> bool {
    forall|i: int| 0 < i < s.len() ==> (#[trigger] s[i]).0 <= s[i - 1].0 + 1
}

/// No two entries of `s` have the same key.
pub open spec fn distinct_keys(s: Seq<ChannelData>) -> bool {
    forall|i: int, j: int| 0 <= i < j < s.len() ==> s[i].0 != s[j].0
}

/// How a flush pass splits the buffer `before` into what it emits and what it
/// keeps. Emitted and kept, one after the other, are the buffer in ascending key
/// order. A pass that insists on contiguity emits the longest gap-free run from
/// the smallest key on; any other pass emits everything.
pub open spec fn flush_result(
    before: Seq<ChannelData>,
    only_contiguous: bool,
    emitted: Seq<ChannelData>,
    after: Seq<ChannelData>,
) -> bool {
    &&& (emitted + after).to_multiset() == before.to_multiset()
    &&& emitted.len() + after.len() == before.len()
    &&& sorted_by_key(emitted + after)
    &&& if only_contiguous {
        &&& gap_free(emitted)
        &&& (before.len() > 0 ==> emitted.len() > 0)
        &&& (after.len() > 0 ==> emitted.len() > 0 && after[0].0 > emitted.last().0 + 1)
    } else {
        after.len() == 0
    }
}

/// How one arrival changes the buffer `before` and what it emits: below the
/// threshold the result is only kept, at the threshold a pass that insists on
/// contiguity runs.
pub open spec fn add_result(
    before: Seq<ChannelData>,
    item: ChannelData,
    emitted: Seq<ChannelData>,
    after: Seq<ChannelData>,
) -> bool {
    if before.len() + 1 < FLUSH_THRESHOLD {
        emitted.len() == 0 && after == before.push(item)
    } else {
        flush_result(before.push(item), true, emitted, after)
    }
}

/// `sort_unstable_by_key` of std's slices, on the key of each entry: the
/// entries are kept, each as often as before, and stand in ascending key order
/// afterwards. The order among equal keys is left open.
#[verifier::external_body]
fn sort_by_key(files: &mut Vec<ChannelData>)
    ensures
        final(files)@.to_multiset() == old(files)@.to_multiset(),
        sorted_by_key(final(files)@),
{
    files.sort_unstable_by_key(|v| v.0);
}

/// Why an output path cannot be written to.
#[derive(Debug, Clone, Copy, PartialEq, Eq, Structural)]
pub enum SinkError {
    /// The path is a directory that holds something already.
    DirectoryNotEmpty,
}

/// One write that a result asks for.
#[derive(Debug)]
pub enum Emission {
    /// Add the bytes to the end of the one output file.
    Append { content: Vec<u8> },
    /// Make a file of this name in the output directory, with these bytes.
    CreateFile { name: Vec<u8>, content: Vec<u8> },
}

/// Holds the results that have arrived and not left yet, and knows whether
/// they go to one file or to a file each.
#[derive(Debug)]
pub struct BufferedStringWriter {
    files: Vec<ChannelData>,
    single_file: bool,
}

impl View for BufferedStringWriter {
    type V = Seq<ChannelData>;

    closed spec fn view(&self) -> Seq<ChannelData> {
        self.files@
    }
}

impl BufferedStringWriter {
    /// Whether the results go to one file.
    pub closed spec fn single_file(&self) -> bool {
        self.single_file
    }

    /// An empty buffer.
    pub fn new(single_file: bool) -> (w: Self)
        ensures
            w@.len() == 0,
            w.single_file() == single_file,
    {
        BufferedStringWriter { files: Vec::with_capacity(FLUSH_THRESHOLD), single_file }
    }

    /// An empty buffer for the output path, of which the caller has found out
    /// whether it exists, whether it is a directory, and whether that
    /// directory holds anything. An existing directory takes a file for each
    /// key and has to be empty; anything else is written as one file.
    pub fn from_file(exists: bool, is_dir: bool, has_entries: bool) -> (r: Result<Self, SinkError>)
        ensures
            exists && is_dir && has_entries ==> r.is_err() && r.unwrap_err()
                == SinkError::DirectoryNotEmpty,
            !(exists && is_dir && has_entries) ==> r.is_ok() && r.unwrap()@.len() == 0
                && r.unwrap().single_file() == !(exists && is_dir),
    {
        if exists && is_dir {
            if has_entries {
                return Err(SinkError::DirectoryNotEmpty);
            }
            Ok(BufferedStringWriter::new(false))
        } else {
            Ok(BufferedStringWriter::new(true))
        }
    }

    /// Whether the results go to one file.
    pub fn is_single_file(&self) -> (b: bool)
        ensures
            b == self.single_file(),
    {
        self.single_file
    }

    /// The write that an emitted result asks for: its payload as it is, at
    /// the end of the one file or in a file named by the key's five digits.
    pub fn emission(&self, item: ChannelData) -> (e: Emission)
        ensures
            self.single_file() ==> e == (Emission::Append { content: item.1 }),
            !self.single_file() ==> (e matches Emission::CreateFile { name, content }
                && name@ == spec_key_hex(item.0) && content == item.1),
    {
        if self.single_file {
            Emission::Append { content: item.1 }
        } else {
            Emission::CreateFile { name: key_hex(item.0), content: item.1 }
        }
    }

    /// How many results are buffered.
    pub fn len(&self) -> (n: usize)
        ensures
            n == self@.len(),
    {
        self.files.len()
    }

    /// Takes one result in and returns what has to be written now, in order.
    pub fn add_file(&mut self, item: ChannelData) -> (emitted: Vec<ChannelData>)
        ensures
            add_result(old(self)@, item, emitted@, final(self)@),
            final(self).single_file() == old(self).single_file(),
    {
        self.files.push(item);
        if self.files.len() < FLUSH_THRESHOLD {
            return Vec::new();
        }
        self.flush(true)
    }

    /// Runs one flush pass and returns what has to be written now, in order.
    pub fn flush(&mut self, only_contiguous: bool) -> (emitted: Vec<ChannelData>)
        ensures
            flush_result(old(self)@, only_contiguous, emitted@, final(self)@),
            final(self).single_file() == old(self).single_file(),
    {
        let ghost before = self.files@;
        sort_by_key(&mut self.files);
        let ghost sorted = self.files@;
        proof {
            before.to_multiset_ensures();
            sorted.to_multiset_ensures();
        }
        let n: usize = self.files.len();
        let mut run: usize = n;
        if only_contiguous && n > 0 {
            run = 1;
            while run < n && self.files[run].0 - self.files[run - 1].0 <= 1
                invariant
                    1 <= run <= n,
                    n == sorted.len(),
                    self.files@ == sorted,
                    sorted_by_key(sorted),
                    gap_free(sorted.take(run as int)),
                decreases n - run,
            {
                proof {
                    let longer = sorted.take(run + 1);
                    assert forall|i: int| 0 < i < longer.len() implies (#[trigger] longer[i]).0
                        <= longer[i - 1].0 + 1 by {
                        if i < run {
                            assert(sorted.take(run as int)[i] == longer[i]);
                            assert(sorted.take(run as int)[i - 1] == longer[i - 1]);
                        }
                    }
                }
                run = run + 1;
            }
        }
        let mut emitted = self.files.split_off(run);
        core::mem::swap(&mut self.files, &mut emitted);
        proof {
            assert(emitted@ =~= sorted.take(run as int));
            assert(self.files@ =~= sorted.skip(run as int));
            assert(emitted@ + self.files@ =~= sorted);
            if only_contiguous && run < n {
                assert(self.files@[0] == sorted[run as int]);
                assert(emitted@.last() == sorted[run - 1]);
            }
        }
        emitted
    }
}

/// Keys strictly increase along `s`.
pub open spec fn strictly_ascending(s: Seq<ChannelData>) -> bool {
    forall|i: int, j: int| 0 <= i < j < s.len() ==> s[i].0 < s[j].0
}

/// The parts of `parts`, one after the other.
pub open spec fn concat_all(parts: Seq<Seq<ChannelData>>) -> Seq<ChannelData>
    decreases parts.len(),
{
    if parts.len() == 0 {
        Seq::empty()
    } else {
        concat_all(parts.drop_last()) + parts.last()
    }
}

/// A run step by step. `buffers[i]` is the buffer before the `i`-th arrival,
/// `writes[i]` what that arrival made the buffer emit. The buffer starts
/// empty, and after the last arrival one more pass drains it: `writes` ends
/// with what that pass emits.
pub open spec fn run_trace(
    arrivals: Seq<ChannelData>,
    buffers: Seq<Seq<ChannelData>>,
    writes: Seq<Seq<ChannelData>>,
) -> bool {
    let n = arrivals.len() as int;
    &&& buffers.len() == n + 1
    &&& writes.len() == n + 1
    &&& buffers[0].len() == 0
    &&& forall|i: int|
        0 <= i < n ==> add_result(#[trigger] buffers[i], arrivals[i], writes[i], buffers[i + 1])
    &&& flush_result(buffers[n], false, writes[n], Seq::empty())
}

/// The first `arrivals.len()` steps of a run are steps of the buffer.
#[verifier::opaque]
spec fn steps_hold(
    arrivals: Seq<ChannelData>,
    buffers: Seq<Seq<ChannelData>>,
    writes: Seq<Seq<ChannelData>>,
) -> bool {
    forall|i: int|
        0 <= i < arrivals.len() ==> add_result(
            #[trigger] buffers[i],
            arrivals[i],
            writes[i],
            buffers[i + 1],
        )
}

/// One more step of the buffer extends a run.
proof fn lemma_steps_extend(
    arrivals: Seq<ChannelData>,
    buffers: Seq<Seq<ChannelData>>,
    writes: Seq<Seq<ChannelData>>,
    item: ChannelData,
    emitted: Seq<ChannelData>,
    after: Seq<ChannelData>,
)
    requires
        buffers.len() == arrivals.len() + 1,
        writes.len() == arrivals.len(),
        steps_hold(arrivals, buffers, writes),
        add_result(buffers.last(), item, emitted, after),
    ensures
        steps_hold(arrivals.push(item), buffers.push(after), writes.push(emitted)),
{
    reveal(steps_hold);
    let a2 = arrivals.push(item);
    let b2 = buffers.push(after);
    let w2 = writes.push(emitted);
    assert forall|i: int| 0 <= i < a2.len() implies add_result(
        #[trigger] b2[i],
        a2[i],
        w2[i],
        b2[i + 1],
    ) by {
        if i < arrivals.len() {
            assert(add_result(buffers[i], arrivals[i], writes[i], buffers[i + 1]));
        }
    }
}

/// The steps of the buffer and the pass that drains it make a run.
proof fn lemma_trace_complete(
    arrivals: Seq<ChannelData>,
    buffers: Seq<Seq<ChannelData>>,
    writes: Seq<Seq<ChannelData>>,
    last: Seq<ChannelData>,
)
    requires
        buffers.len() == arrivals.len() + 1,
        writes.len() == arrivals.len(),
        buffers[0].len() == 0,
        steps_hold(arrivals, buffers, writes),
        flush_result(buffers.last(), false, last, Seq::empty()),
    ensures
        run_trace(arrivals, buffers, writes.push(last)),
        concat_all(writes.push(last)) == concat_all(writes) + last,
{
    reveal(steps_hold);
    let w2 = writes.push(last);
    assert(w2.drop_last() =~= writes);
    assert forall|i: int| 0 <= i < arrivals.len() implies add_result(
        #[trigger] buffers[i],
        arrivals[i],
        w2[i],
        buffers[i + 1],
    ) by {
        assert(add_result(buffers[i], arrivals[i], writes[i], buffers[i + 1]));
    }
}

/// `out` is what some run over `arrivals` writes, from first to last.
pub open spec fn written_by_run(arrivals: Seq<ChannelData>, out: Seq<ChannelData>) -> bool {
    exists|buffers: Seq<Seq<ChannelData>>, writes: Seq<Seq<ChannelData>>|
        run_trace(arrivals, buffers, writes) && out == concat_all(writes)
}

/// What holds of everything a run writes for the results `arrivals`: every
/// result once, and in ascending key order as long as the run never had to
/// flush before the last result was in.
pub open spec fn run_output(arrivals: Seq<ChannelData>, out: Seq<ChannelData>) -> bool {
    &&& out.to_multiset() == arrivals.to_multiset()
    &&& (arrivals.len() <= FLUSH_THRESHOLD ==> sorted_by_key(out))
}

/// Every key of `earlier` is at most every key of `later`.
pub open spec fn all_before(earlier: Seq<ChannelData>, later: Seq<ChannelData>) -> bool {
    forall|j: int, k: int| 0 <= j < earlier.len() && 0 <= k < later.len() ==> earlier[j].0 <= later[k].0
}

/// What one step of the buffer keeps true: nothing is lost, nothing is
/// written before the threshold, and the first flush writes in ascending
/// order and only keys below those it keeps.
proof fn lemma_step_laws(
    seen: Seq<ChannelData>,
    written: Seq<ChannelData>,
    before: Seq<ChannelData>,
    item: ChannelData,
    emitted: Seq<ChannelData>,
    after: Seq<ChannelData>,
)
    requires
        add_result(before, item, emitted, after),
        written.to_multiset().add(before.to_multiset()) == seen.to_multiset(),
        seen.len() < FLUSH_THRESHOLD ==> written.len() == 0 && before.len() == seen.len(),
    ensures
        (written + emitted).to_multiset().add(after.to_multiset()) == seen.push(
            item,
        ).to_multiset(),
        seen.len() + 1 < FLUSH_THRESHOLD ==> (written + emitted).len() == 0 && after.len()
            == seen.len() + 1,
        seen.len() < FLUSH_THRESHOLD ==> sorted_by_key(written + emitted) && all_before(
            written + emitted,
            after,
        ),
{
    broadcast use vstd::multiset::group_multiset_axioms;

    before.to_multiset_ensures();
    seen.to_multiset_ensures();
    lemma_multiset_commutative(written, emitted);
    lemma_multiset_commutative(emitted, after);
    let out = written + emitted;
    if before.len() + 1 < FLUSH_THRESHOLD {
        assert(out =~= written);
        assert(emitted + after =~= before.push(item));
    } else if seen.len() < FLUSH_THRESHOLD {
        assert(out =~= emitted);
        assert forall|i: int, j: int| 0 <= i <= j < emitted.len() implies emitted[i].0
            <= emitted[j].0 by {
            assert((emitted + after)[i] == emitted[i]);
            assert((emitted + after)[j] == emitted[j]);
        }
        assert forall|j: int, k: int| 0 <= j < emitted.len() && 0 <= k < after.len() implies emitted[j].0
            <= after[k].0 by {
            assert((emitted + after)[j] == emitted[j]);
            assert((emitted + after)[emitted.len() + k] == after[k]);
        }
    }
    let mo = written.to_multiset();
    let me = emitted.to_multiset();
    let mf = after.to_multiset();
    assert(me.add(mf) =~= before.to_multiset().insert(item));
    assert(mo.add(me).add(mf) =~= mo.add(me.add(mf)));
    assert(mo.add(before.to_multiset().insert(item)) =~= mo.add(before.to_multiset()).insert(item));
    assert(out.to_multiset().add(mf) =~= seen.push(item).to_multiset());
}

/// What the first `k` steps of a run keep true, of what they have written
/// and of the buffer that they leave.
proof fn lemma_prefix_laws(
    arrivals: Seq<ChannelData>,
    buffers: Seq<Seq<ChannelData>>,
    writes: Seq<Seq<ChannelData>>,
    k: int,
)
    requires
        buffers.len() == arrivals.len() + 1,
        writes.len() >= arrivals.len(),
        buffers[0].len() == 0,
        steps_hold(arrivals, buffers, writes),
        0 <= k <= arrivals.len(),
    ensures
        concat_all(writes.take(k)).to_multiset().add(buffers[k].to_multiset()) == arrivals.take(
            k,
        ).to_multiset(),
        k < FLUSH_THRESHOLD ==> concat_all(writes.take(k)).len() == 0 && buffers[k].len() == k,
        k <= FLUSH_THRESHOLD ==> sorted_by_key(concat_all(writes.take(k))) && all_before(
            concat_all(writes.take(k)),
            buffers[k],
        ),
    decreases k,
{
    if k == 0 {
        let nothing = Seq::<ChannelData>::empty();
        assert(writes.take(0) =~= Seq::<Seq<ChannelData>>::empty());
        assert(arrivals.take(0) =~= nothing);
        assert(buffers[0] =~= nothing);
        assert(nothing + nothing =~= nothing);
        lemma_multiset_commutative(nothing, nothing);
    } else {
        lemma_prefix_laws(arrivals, buffers, writes, k - 1);
        assert(add_result(buffers[k - 1], arrivals[k - 1], writes[k - 1], buffers[k])) by {
            reveal(steps_hold);
        }
        assert(writes.take(k).drop_last() =~= writes.take(k - 1));
        assert(writes.take(k).last() == writes[k - 1]);
        assert(arrivals.take(k) =~= arrivals.take(k - 1).push(arrivals[k - 1]));
        lemma_step_laws(
            arrivals.take(k - 1),
            concat_all(writes.take(k - 1)),
            buffers[k - 1],
            arrivals[k - 1],
            writes[k - 1],
            buffers[k],
        );
    }
}

/// Whatever a run writes, it writes every result once; and it writes in
/// ascending key order where no more results arrive than the buffer holds
/// before its first flush.
pub proof fn lemma_run_laws(arrivals: Seq<ChannelData>, out: Seq<ChannelData>)
    requires
        written_by_run(arrivals, out),
    ensures
        run_output(arrivals, out),
{
    let (buffers, writes) = choose|buffers: Seq<Seq<ChannelData>>, writes: Seq<Seq<ChannelData>>|
        run_trace(arrivals, buffers, writes) && out == concat_all(writes);
    let n = arrivals.len() as int;
    assert(steps_hold(arrivals, buffers, writes)) by {
        reveal(steps_hold);
    }
    lemma_prefix_laws(arrivals, buffers, writes, n);
    let written = concat_all(writes.take(n));
    let buffer = buffers[n];
    let last = writes[n];
    assert(writes.drop_last() =~= writes.take(n));
    assert(out == written + last);
    assert(arrivals.take(n) =~= arrivals);
    assert(last + Seq::<ChannelData>::empty() =~= last);
    lemma_multiset_commutative(written, last);
    buffer.to_multiset_ensures();
    last.to_multiset_ensures();
    if n <= FLUSH_THRESHOLD {
        assert forall|i: int, j: int| 0 <= i <= j < out.len() implies out[i].0 <= out[j].0 by {
            if j < written.len() {
            } else if i >= written.len() {
            } else {
                let x = last[j - written.len()];
                assert(last.contains(x));
                assert(last.to_multiset().count(x) > 0);
                assert(buffer.to_multiset().count(x) > 0);
                assert(buffer.contains(x));
            }
        }
    }
}

/// One step of a run whose results arrive in ascending key order: what has
/// been written stays in ascending order and below what the buffer keeps.
proof fn lemma_step_ascending(
    seen: Seq<ChannelData>,
    written: Seq<ChannelData>,
    before: Seq<ChannelData>,
    item: ChannelData,
    emitted: Seq<ChannelData>,
    after: Seq<ChannelData>,
)
    requires
        add_result(before, item, emitted, after),
        written.to_multiset().add(before.to_multiset()) == seen.to_multiset(),
        sorted_by_key(written),
        all_before(written, before),
        forall|j: int| 0 <= j < seen.len() ==> seen[j].0 <= item.0,
    ensures
        sorted_by_key(written + emitted),
        all_before(written + emitted, after),
{
    broadcast use vstd::multiset::group_multiset_axioms;

    seen.to_multiset_ensures();
    written.to_multiset_ensures();
    let pushed = before.push(item);
    let both = emitted + after;
    pushed.to_multiset_ensures();
    both.to_multiset_ensures();
    assert(both.to_multiset() == pushed.to_multiset()) by {
        if before.len() + 1 < FLUSH_THRESHOLD {
            assert(both =~= pushed);
        }
    }
    assert(emitted.len() > 0 ==> sorted_by_key(both));
    assert forall|j: int| 0 <= j < written.len() implies written[j].0 <= item.0 by {
        let x = written[j];
        assert(written.contains(x));
        assert(written.to_multiset().count(x) > 0);
        assert(seen.to_multiset().count(x) > 0);
        assert(seen.contains(x));
    }
    assert forall|j: int, k: int| 0 <= j < written.len() && 0 <= k < both.len() implies written[j].0
        <= both[k].0 by {
        let x = both[k];
        assert(both.contains(x));
        assert(both.to_multiset().count(x) > 0);
        assert(pushed.to_multiset().count(x) > 0);
        assert(pushed.contains(x));
        let i = choose|i: int| 0 <= i < pushed.len() && pushed[i] == x;
        if i < before.len() {
            assert(before[i] == x);
        }
    }
    let out = written + emitted;
    assert forall|i: int, j: int| 0 <= i <= j < out.len() implies out[i].0 <= out[j].0 by {
        if j < written.len() {
        } else if i >= written.len() {
            assert(both[i - written.len()] == out[i]);
            assert(both[j - written.len()] == out[j]);
        } else {
            assert(both[j - written.len()] == out[j]);
        }
    }
    assert forall|j: int, k: int| 0 <= j < out.len() && 0 <= k < after.len() implies out[j].0
        <= after[k].0 by {
        assert(both[emitted.len() + k] == after[k]);
        if j >= written.len() {
            assert(both[j - written.len()] == out[j]);
        }
    }
}

/// The first `k` steps of a run whose results arrive in ascending key order
/// write in ascending order, and only keys below those the buffer keeps.
proof fn lemma_prefix_ascending(
    arrivals: Seq<ChannelData>,
    buffers: Seq<Seq<ChannelData>>,
    writes: Seq<Seq<ChannelData>>,
    k: int,
)
    requires
        buffers.len() == arrivals.len() + 1,
        writes.len() >= arrivals.len(),
        buffers[0].len() == 0,
        steps_hold(arrivals, buffers, writes),
        sorted_by_key(arrivals),
        0 <= k <= arrivals.len(),
    ensures
        sorted_by_key(concat_all(writes.take(k))),
        all_before(concat_all(writes.take(k)), buffers[k]),
    decreases k,
{
    if k == 0 {
        assert(writes.take(0) =~= Seq::<Seq<ChannelData>>::empty());
    } else {
        lemma_prefix_ascending(arrivals, buffers, writes, k - 1);
        lemma_prefix_laws(arrivals, buffers, writes, k - 1);
        assert(add_result(buffers[k - 1], arrivals[k - 1], writes[k - 1], buffers[k])) by {
            reveal(steps_hold);
        }
        assert(writes.take(k).drop_last() =~= writes.take(k - 1));
        assert(writes.take(k).last() == writes[k - 1]);
        let seen = arrivals.take(k - 1);
        assert forall|j: int| 0 <= j < seen.len() implies seen[j].0 <= arrivals[k - 1].0 by {
            assert(seen[j] == arrivals[j]);
        }
        lemma_step_ascending(
            seen,
            concat_all(writes.take(k - 1)),
            buffers[k - 1],
            arrivals[k - 1],
            writes[k - 1],
            buffers[k],
        );
    }
}

/// Results that arrive in ascending key order are written in ascending key
/// order, however many they are; with no key twice they are written in the
/// very order of their arrival.
pub proof fn lemma_ascending_arrivals(arrivals: Seq<ChannelData>, out: Seq<ChannelData>)
    requires
        sorted_by_key(arrivals),
        written_by_run(arrivals, out),
    ensures
        sorted_by_key(out),
        strictly_ascending(arrivals) ==> out == arrivals,
{
    let (buffers, writes) = choose|buffers: Seq<Seq<ChannelData>>, writes: Seq<Seq<ChannelData>>|
        run_trace(arrivals, buffers, writes) && out == concat_all(writes);
    let n = arrivals.len() as int;
    assert(steps_hold(arrivals, buffers, writes)) by {
        reveal(steps_hold);
    }
    lemma_prefix_ascending(arrivals, buffers, writes, n);
    lemma_run_laws(arrivals, out);
    let written = concat_all(writes.take(n));
    let buffer = buffers[n];
    let last = writes[n];
    assert(writes.drop_last() =~= writes.take(n));
    assert(out == written + last);
    assert(last + Seq::<ChannelData>::empty() =~= last);
    buffer.to_multiset_ensures();
    last.to_multiset_ensures();
    assert forall|i: int, j: int| 0 <= i <= j < out.len() implies out[i].0 <= out[j].0 by {
        if j < written.len() {
        } else if i >= written.len() {
        } else {
            let x = last[j - written.len()];
            assert(last.contains(x));
            assert(last.to_multiset().count(x) > 0);
            assert(buffer.to_multiset().count(x) > 0);
            assert(buffer.contains(x));
        }
    }
    if strictly_ascending(arrivals) {
        lemma_ascending_order_is_unique(arrivals, out);
    }
}

/// Runs the buffer over everything that arrives on `rx`, front first, and ends
/// with a pass that drains it. Returns what is written, in order.
pub fn writer_task(rx: VecDeque<ChannelData>) -> (out: Vec<ChannelData>)
    ensures
        written_by_run(rx@, out@),
        run_output(rx@, out@),
{
    let mut rx = rx;
    let ghost all = rx@;
    let ghost mut consumed: Seq<ChannelData> = Seq::empty();
    let ghost mut buffers: Seq<Seq<ChannelData>> = seq![Seq::empty()];
    let ghost mut writes: Seq<Seq<ChannelData>> = Seq::empty();
    let mut file = BufferedStringWriter::new(true);
    let mut out: Vec<ChannelData> = Vec::new();
    proof {
        reveal(steps_hold);
        assert(consumed + rx@ =~= all);
    }
    while rx.len() > 0
        invariant
            consumed + rx@ == all,
            buffers.len() == consumed.len() + 1,
            writes.len() == consumed.len(),
            buffers[0].len() == 0,
            buffers.last() == file@,
            steps_hold(consumed, buffers, writes),
            out@ == concat_all(writes),
        decreases rx@.len(),
    {
        let ghost r0 = rx@;
        let item = rx.pop_front().unwrap();
        let mut emitted = file.add_file(item);
        let ghost e = emitted@;
        out.append(&mut emitted);
        proof {
            lemma_steps_extend(consumed, buffers, writes, item, e, file@);
            assert(consumed.push(item) + rx@ =~= consumed + r0);
            assert(writes.push(e).drop_last() =~= writes);
            consumed = consumed.push(item);
            buffers = buffers.push(file@);
            writes = writes.push(e);
        }
    }
    let mut last = file.flush(false);
    let ghost l = last@;
    out.append(&mut last);
    proof {
        assert(consumed =~= all);
        assert(file@ =~= Seq::<ChannelData>::empty());
        lemma_trace_complete(all, buffers, writes, l);
        assert(run_trace(all, buffers, writes.push(l)) && out@ == concat_all(writes.push(l)));
        lemma_run_laws(all, out@);
    }
    out
}

/// There is one ascending order: a sequence whose keys strictly increase
/// equals every sequence of the same results whose keys never decrease.
pub proof fn lemma_ascending_order_is_unique(a: Seq<ChannelData>, b: Seq<ChannelData>)
    requires
        strictly_ascending(a),
        sorted_by_key(b),
        a.to_multiset() == b.to_multiset(),
    ensures
        a == b,
    decreases a.len(),
{
    a.to_multiset_ensures();
    b.to_multiset_ensures();
    if a.len() == 0 {
        assert(a =~= b);
    } else {
        let x = a.last();
        let y = b.last();
        assert(a.contains(x));
        assert(b.contains(y));
        assert(a.to_multiset().count(x) > 0 && b.to_multiset().count(x) > 0);
        assert(b.to_multiset().count(y) > 0 && a.to_multiset().count(y) > 0);
        assert(b.contains(x));
        assert(a.contains(y));
        let m = choose|m: int| 0 <= m < b.len() && b[m] == x;
        let p = choose|p: int| 0 <= p < a.len() && a[p] == y;
        assert(b[m].0 <= b[b.len() - 1].0);
        assert(p == a.len() - 1) by {
            if p < a.len() - 1 {
                assert(a[p].0 < a[a.len() - 1].0);
            }
        }
        let a1 = a.drop_last();
        let b1 = b.drop_last();
        a1.to_multiset_ensures();
        b1.to_multiset_ensures();
        assert(a =~= a1.push(x));
        assert(b =~= b1.push(x));
        assert(a1.to_multiset() =~= a.to_multiset().remove(x));
        assert(b1.to_multiset() =~= b.to_multiset().remove(x));
        lemma_ascending_order_is_unique(a1, b1);
    }
}

/// Results with pairwise different keys, brought into ascending key order,
/// have strictly increasing keys.
pub proof fn lemma_sorted_distinct_is_strict(arrivals: Seq<ChannelData>, out: Seq<ChannelData>)
    requires
        distinct_keys(arrivals),
        out.to_multiset() == arrivals.to_multiset(),
        sorted_by_key(out),
    ensures
        strictly_ascending(out),
{
    arrivals.to_multiset_ensures();
    out.to_multiset_ensures();
    assert(arrivals.no_duplicates());
    arrivals.lemma_multiset_has_no_duplicates();
    out.lemma_multiset_has_no_duplicates_conv();
    assert forall|i: int, j: int| 0 <= i < j < out.len() implies out[i].0 < out[j].0 by {
        if out[i].0 == out[j].0 {
            assert(out.contains(out[i]));
            assert(out.contains(out[j]));
            assert(out.to_multiset().count(out[i]) > 0 && out.to_multiset().count(out[j]) > 0);
            assert(arrivals.to_multiset().count(out[i]) > 0);
            assert(arrivals.to_multiset().count(out[j]) > 0);
            assert(arrivals.contains(out[i]));
            assert(arrivals.contains(out[j]));
            let p = choose|p: int| 0 <= p < arrivals.len() && arrivals[p] == out[i];
            let q = choose|q: int| 0 <= q < arrivals.len() && arrivals[q] == out[j];
            assert(p == q);
        }
    }
}

/// Two runs over the same results, no key twice, that both write in ascending
/// key order write the same sequence, however the results arrived.
pub proof fn lemma_ascending_runs_agree(
    first: Seq<ChannelData>,
    second: Seq<ChannelData>,
    out_first: Seq<ChannelData>,
    out_second: Seq<ChannelData>,
)
    requires
        first.to_multiset() == second.to_multiset(),
        distinct_keys(first),
        written_by_run(first, out_first),
        written_by_run(second, out_second),
        sorted_by_key(out_first),
        sorted_by_key(out_second),
    ensures
        out_first == out_second,
        strictly_ascending(out_first),
{
    lemma_run_laws(first, out_first);
    lemma_run_laws(second, out_second);
    lemma_sorted_distinct_is_strict(first, out_first);
    lemma_ascending_order_is_unique(out_first, out_second);
}

/// The order of arrival does not show in what is written: two runs of at most
/// `FLUSH_THRESHOLD` results, the same results in two orders and no key twice,
/// write the same sequence, and its keys strictly increase.
pub proof fn lemma_arrival_order_is_irrelevant(
    first: Seq<ChannelData>,
    second: Seq<ChannelData>,
    out_first: Seq<ChannelData>,
    out_second: Seq<ChannelData>,
)
    requires
        first.to_multiset() == second.to_multiset(),
        distinct_keys(first),
        first.len() <= FLUSH_THRESHOLD,
        written_by_run(first, out_first),
        written_by_run(second, out_second),
    ensures
        out_first == out_second,
        strictly_ascending(out_first),
{
    first.to_multiset_ensures();
    second.to_multiset_ensures();
    lemma_run_laws(first, out_first);
    lemma_run_laws(second, out_second);
    lemma_ascending_runs_agree(first, second, out_first, out_second);
}

} // verus!
