//! Per-file follow state: the read offset, the buffered partial line, and
//! the decisions of each poll (truncation, delete/recreate, what to read).

use vstd::prelude::*;
use crate::lines::{
    decode_lossy, find_sep, lemma_find_sep_at, lemma_rest_has_no_sep, lemma_split_append,
    lemma_split_no_sep, lossy_utf8, pieces, rest, CR, NL,
};
use crate::lines::views;
use vstd::utf8::{decode_utf8, valid_utf8};

verus! {

/// Where a newly attached file starts being read.
#[derive(Clone, Copy, Debug, PartialEq, Eq, Structural)]
pub enum StartMode {
    /// Print the last `n` lines, then follow from the current end.
    StartupBacklog(usize),
    /// Read the whole current contents, then follow.
    FromBeginning,
    /// Skip the current contents and follow from the current end.
    FromCurrentEnd,
}

/// The follow state of one file.
pub struct FollowState {
    path: String,
    offset: u64,
    pending: Vec<u8>,
    unavailable: bool,
}

/// The mathematical model of a `FollowState`.
pub struct FollowModel {
    pub path: Seq<char>,
    /// Byte offset up to which the file has been read.
    pub offset: u64,
    /// Bytes read after the last newline, not yet emitted.
    pub pending: Seq<u8>,
    /// Whether the last attempt to reach the file failed.
    pub unavailable: bool,
}

impl View for FollowState {
    type V = FollowModel;

    closed spec fn view(&self) -> FollowModel {
        FollowModel {
            path: self.path@,
            offset: self.offset,
            pending: self.pending@,
            unavailable: self.unavailable,
        }
    }
}

/// A line's bytes without one trailing carriage return.
pub open spec fn strip_cr(line: Seq<u8>) -> Seq<u8> {
    if line.len() > 0 && line.last() == CR {
        line.drop_last()
    } else {
        line
    }
}

/// The text emitted for one line of bytes.
pub open spec fn line_text(line: Seq<u8>) -> Seq<char> {
    lossy_utf8(strip_cr(line))
}

/// The lines emitted for the buffered bytes `all`: each newline-terminated
/// line, and, when `flush` is set, the unterminated rest if it is not empty.
pub open spec fn ingest_lines(all: Seq<u8>, flush: bool) -> Seq<Seq<char>> {
    let done = pieces(all, NL).map_values(|l: Seq<u8>| line_text(l));
    let r = rest(all, NL);
    if flush && r.len() > 0 {
        done.push(line_text(r))
    } else {
        done
    }
}

/// The bytes of each line emitted for `all`, before decoding: each
/// newline-terminated line and, when `flush` is set, the nonempty
/// unterminated rest, without one trailing carriage return.
pub open spec fn ingest_raw_lines(all: Seq<u8>, flush: bool) -> Seq<Seq<u8>> {
    let done = pieces(all, NL).map_values(|l: Seq<u8>| strip_cr(l));
    let r = rest(all, NL);
    if flush && r.len() > 0 {
        done.push(strip_cr(r))
    } else {
        done
    }
}

/// Every emitted line whose bytes are well-formed UTF-8 is exactly their
/// decoded text.
pub open spec fn valid_lines_decoded(raw: Seq<Seq<u8>>, out: Seq<Seq<char>>) -> bool {
    &&& out.len() == raw.len()
    &&& forall|k: int| 0 <= k < out.len() && valid_utf8(raw[k]) ==> #[trigger] out[k] == decode_utf8(raw[k])
}

/// The bytes that stay buffered after ingesting `all`.
pub open spec fn ingest_pending(all: Seq<u8>, flush: bool) -> Seq<u8> {
    if flush {
        Seq::empty()
    } else {
        rest(all, NL)
    }
}

/// The model after a reset: offset zero, nothing buffered.
pub open spec fn reset_model(m: FollowModel) -> FollowModel {
    FollowModel { offset: 0, pending: Seq::empty(), ..m }
}

impl FollowState {
    /// A state for `path` that has read up to `offset`, with nothing buffered.
    pub fn new(path: String, offset: u64) -> (s: Self)
        ensures
            s@ == (FollowModel { path: path@, offset, pending: Seq::empty(), unavailable: false }),
    {
        FollowState { path, offset, pending: Vec::new(), unavailable: false }
    }

    /// The path being followed.
    pub fn path(&self) -> (p: &str)
        ensures
            p@ == self@.path,
    {
        self.path.as_str()
    }

    /// The byte offset up to which the file has been read.
    pub fn offset(&self) -> (o: u64)
        ensures
            o == self@.offset,
    {
        self.offset
    }

    /// How many bytes of an unterminated line are buffered.
    pub fn pending_len(&self) -> (n: usize)
        ensures
            n == self@.pending.len(),
    {
        self.pending.len()
    }

    /// Whether the file, now `len` bytes long, has shrunk below the offset.
    pub fn truncation_detected(&self, len: u64) -> (t: bool)
        ensures
            t == (len < self@.offset),
    {
        len < self.offset
    }

    /// Forgets the offset and the buffered bytes after a truncation.
    pub fn reset_for_truncation(&mut self)
        ensures
            final(self)@ == reset_model(old(self)@),
    {
        self.offset = 0;
        self.pending = Vec::new();
    }

    /// Forgets the offset and the buffered bytes: a file that disappeared
    /// and reappeared is read as a fresh file, from its beginning.
    pub fn reset_for_reopen(&mut self)
        ensures
            final(self)@ == reset_model(old(self)@),
    {
        self.offset = 0;
        self.pending = Vec::new();
    }

    /// Appends `bytes` to the buffer and emits every complete line; with
    /// `flush_partial`, an unterminated rest is emitted too. Each line loses
    /// its newline and one carriage return before it, and is decoded lossily.
    pub fn ingest(&mut self, bytes: &[u8], flush_partial: bool) -> (out: Vec<String>)
        ensures
            views(out@) == ingest_lines(old(self)@.pending + bytes@, flush_partial),
            final(self)@ == (FollowModel {
                pending: ingest_pending(old(self)@.pending + bytes@, flush_partial),
                ..old(self)@
            }),
            forall|k: int| 0 <= k < final(self)@.pending.len() ==> final(self)@.pending[k] != NL,
            valid_lines_decoded(ingest_raw_lines(old(self)@.pending + bytes@, flush_partial), views(out@)),
    {
        let ghost before = self.pending@;
        let mut i: usize = 0;
        while i < bytes.len()
            invariant
                0 <= i <= bytes@.len(),
                self.pending@ == before + bytes@.take(i as int),
                self.path == old(self).path,
                self.offset == old(self).offset,
                self.unavailable == old(self).unavailable,
            decreases bytes@.len() - i,
        {
            self.pending.push(bytes[i]);
            i = i + 1;
            assert(self.pending@ =~= before + bytes@.take(i as int));
        }
        assert(bytes@.take(bytes@.len() as int) =~= bytes@);
        let ghost all = self.pending@;
        let n = self.pending.len();
        let mut out: Vec<String> = Vec::new();
        let mut start: usize = 0;
        let mut j: usize = 0;
        assert(all.take(0) =~= Seq::<u8>::empty());
        proof { lemma_split_no_sep(Seq::<u8>::empty(), NL); }
        while j < n
            invariant
                n == all.len(),
                self.pending@ == all,
                self.path == old(self).path,
                self.offset == old(self).offset,
                self.unavailable == old(self).unavailable,
                0 <= start <= j <= n,
                forall|k: int| start <= k < j ==> all[k] != NL,
                rest(all.take(start as int), NL) == Seq::<u8>::empty(),
                views(out@) == pieces(all.take(start as int), NL).map_values(|l: Seq<u8>| line_text(l)),
                valid_lines_decoded(pieces(all.take(start as int), NL).map_values(|l: Seq<u8>| strip_cr(l)), views(out@)),
            decreases n - j,
        {
            if self.pending[j] == NL {
                let mut end = j;
                if end > start && self.pending[end - 1] == CR {
                    end = end - 1;
                }
                let text = decode_lossy(&self.pending.as_slice()[start..end]);
                let ghost line = all.subrange(start as int, j as int);
                proof {
                    let x = all.take(start as int);
                    let mid = all.subrange(start as int, j + 1);
                    lemma_split_append(x, mid, NL);
                    assert(x + mid =~= all.take(j + 1));
                    assert(Seq::<u8>::empty() + mid =~= mid);
                    lemma_find_sep_at(mid, NL, j - start);
                    assert(mid.take(j - start) =~= line);
                    assert(mid.skip(j - start + 1) =~= Seq::<u8>::empty());
                    lemma_split_no_sep(Seq::<u8>::empty(), NL);
                    assert(find_sep(mid, NL) == j - start);
                    assert(pieces(mid, NL) =~= seq![line]);
                    assert(rest(mid, NL) == Seq::<u8>::empty());
                    assert(all.subrange(start as int, end as int) =~= strip_cr(line));
                }
                let ghost old_out = out@;
                let ghost old_start = start;
                out.push(text);
                start = j + 1;
                proof {
                    assert(views(out@) =~= views(old_out).push(line_text(line)));
                    let f = |l: Seq<u8>| strip_cr(l);
                    assert(pieces(all.take(start as int), NL) =~= pieces(all.take(old_start as int), NL).push(line));
                    assert(pieces(all.take(start as int), NL).map_values(f)
                        =~= pieces(all.take(old_start as int), NL).map_values(f).push(strip_cr(line)));
                    assert(views(out@) == views(old_out).push(text@));
                }
            }
            j = j + 1;
        }
        proof {
            let x = all.take(start as int);
            let y = all.skip(start as int);
            lemma_split_no_sep(y, NL);
            lemma_split_append(x, y, NL);
            assert(x + y =~= all);
            assert(Seq::<u8>::empty() + y =~= y);
            assert(pieces(x, NL) + Seq::<Seq<u8>>::empty() =~= pieces(x, NL));
        }
        if flush_partial && start < n {
            let mut end = n;
            if end > start && self.pending[end - 1] == CR {
                end = end - 1;
            }
            let text = decode_lossy(&self.pending.as_slice()[start..end]);
            proof {
                assert(all.subrange(start as int, end as int) =~= strip_cr(all.skip(start as int)));
            }
            let ghost old_out = out@;
            out.push(text);
            self.pending = Vec::new();
            proof {
                assert(views(out@) =~= views(old_out).push(line_text(all.skip(start as int))));
                let f = |l: Seq<u8>| strip_cr(l);
                assert(pieces(all, NL).map_values(f) == pieces(all.take(start as int), NL).map_values(f));
                assert(ingest_raw_lines(all, flush_partial) =~= pieces(all.take(start as int), NL).map_values(f).push(strip_cr(all.skip(start as int))));
                assert(views(out@) == views(old_out).push(text@));
            }
        } else {
            let tail = self.pending.split_off(start);
            if flush_partial {
                self.pending = Vec::new();
            } else {
                self.pending = tail;
            }
            proof {
                assert(all.subrange(start as int, n as int) =~= all.skip(start as int));
                lemma_rest_has_no_sep(all, NL);
                let f = |l: Seq<u8>| strip_cr(l);
                assert(pieces(all, NL).map_values(f) == pieces(all.take(start as int), NL).map_values(f));
                assert(ingest_raw_lines(all, flush_partial) =~= pieces(all.take(start as int), NL).map_values(f));
            }
        }
        out
    }

    /// Records that the file could not be reached. Returns whether this is
    /// news, that is whether a notice is due: only the first failure in a
    /// row is reported.
    pub fn mark_unavailable(&mut self) -> (report: bool)
        ensures
            report == !old(self)@.unavailable,
            final(self)@ == unavailable_model(old(self)@),
    {
        let report = !self.unavailable;
        self.unavailable = true;
        report
    }

    /// Takes in the file's current length `len` at the start of a poll: a
    /// file that was unavailable is read afresh, a file shorter than the
    /// offset is treated as truncated. Returns where to read from, if the
    /// file has grown past the offset.
    pub fn observe_len(&mut self, len: u64) -> (plan: PollPlan)
        ensures
            final(self)@ == observed_model(old(self)@, len),
            plan == poll_plan(old(self)@, len),
    {
        if self.unavailable {
            self.reset_for_reopen();
            self.unavailable = false;
        }
        if self.truncation_detected(len) {
            self.reset_for_truncation();
        }
        if len <= self.offset {
            PollPlan::Idle
        } else {
            PollPlan::ReadFrom(self.offset)
        }
    }

    /// Completes a poll that read `buf` from the current offset (where
    /// `observe_len` planned the read): the offset moves past exactly the
    /// bytes read, also when the file grew after its length was taken, and
    /// the complete lines of the buffer are emitted.
    pub fn complete_read(&mut self, buf: &[u8]) -> (out: Vec<String>)
        requires
            old(self)@.offset + buf@.len() <= u64::MAX,
        ensures
            views(out@) == ingest_lines(old(self)@.pending + buf@, false),
            final(self)@ == read_model(old(self)@, buf@),
            valid_lines_decoded(ingest_raw_lines(old(self)@.pending + buf@, false), views(out@)),
    {
        self.offset = self.offset + buf.len() as u64;
        self.ingest(buf, false)
    }

    /// The state a worker starts with. `observed_len` is the file's length
    /// when it was read at start (with the backlog, or for `FromCurrentEnd`),
    /// `None` when the file could not be read then.
    pub fn initialize(path: String, start_mode: StartMode, observed_len: Option<u64>) -> (s: Self)
        ensures
            s@ == initial_model(path@, start_mode, observed_len),
    {
        let mut state = FollowState::new(path, 0);
        match start_mode {
            StartMode::StartupBacklog(_) | StartMode::FromCurrentEnd => match observed_len {
                Some(len) => {
                    state.offset = len;
                },
                None => {
                    state.unavailable = true;
                },
            },
            StartMode::FromBeginning => {},
        }
        state
    }
}

/// What a poll does once it knows the file's length.
#[derive(Clone, Copy, Debug, PartialEq, Eq, Structural)]
pub enum PollPlan {
    /// Nothing new to read.
    Idle,
    /// Read from this offset to the end.
    ReadFrom(u64),
}

/// The model after a failed attempt to reach the file.
pub open spec fn unavailable_model(m: FollowModel) -> FollowModel {
    FollowModel { unavailable: true, ..m }
}

/// The model after the file was seen at `len` bytes: a reappeared file is
/// reset, then a file shorter than the offset is reset.
pub open spec fn observed_model(m: FollowModel, len: u64) -> FollowModel {
    let m1 = if m.unavailable {
        FollowModel { unavailable: false, ..reset_model(m) }
    } else {
        m
    };
    if len < m1.offset {
        reset_model(m1)
    } else {
        m1
    }
}

/// What to read once the file was seen at `len` bytes.
pub open spec fn poll_plan(m: FollowModel, len: u64) -> PollPlan {
    let m2 = observed_model(m, len);
    if len <= m2.offset {
        PollPlan::Idle
    } else {
        PollPlan::ReadFrom(m2.offset)
    }
}

/// The model after the bytes `buf` were read from the offset: the offset
/// moves past them and their complete lines leave the buffer.
pub open spec fn read_model(m: FollowModel, buf: Seq<u8>) -> FollowModel {
    FollowModel {
        offset: (m.offset + buf.len()) as u64,
        pending: ingest_pending(m.pending + buf, false),
        ..m
    }
}

/// The model a worker starts with.
pub open spec fn initial_model(path: Seq<char>, mode: StartMode, observed: Option<u64>) -> FollowModel {
    let fresh = FollowModel { path, offset: 0, pending: Seq::empty(), unavailable: false };
    match mode {
        StartMode::FromBeginning => fresh,
        _ => match observed {
            Some(len) => FollowModel { offset: len, ..fresh },
            None => FollowModel { unavailable: true, ..fresh },
        },
    }
}

/// Reading in two steps emits what reading in one step emits: ingesting
/// `a` and then `b` gives the lines of ingesting `a + b` at once, and
/// leaves the same bytes buffered. So however the appended bytes are cut
/// into reads, every line is emitted once, in order.
pub proof fn lemma_ingest_in_two_steps(pending: Seq<u8>, a: Seq<u8>, b: Seq<u8>, flush: bool)
    ensures
        ingest_lines(pending + a, false) + ingest_lines(ingest_pending(pending + a, false) + b, flush)
            == ingest_lines(pending + a + b, flush),
        ingest_pending(ingest_pending(pending + a, false) + b, flush)
            == ingest_pending(pending + a + b, flush),
{
    let x = pending + a;
    lemma_split_append(x, b, NL);
    let f = |l: Seq<u8>| line_text(l);
    assert((pieces(x, NL) + pieces(rest(x, NL) + b, NL)).map_values(f) =~= pieces(x, NL).map_values(f)
        + pieces(rest(x, NL) + b, NL).map_values(f));
    assert(ingest_lines(x, false) + ingest_lines(rest(x, NL) + b, flush) =~= ingest_lines(x + b, flush));
}

/// A partial line stays buffered until its newline arrives: bytes without
/// a newline, added to a buffer without one, emit nothing and are kept.
pub proof fn lemma_partial_line_waits(pending: Seq<u8>, bytes: Seq<u8>)
    requires
        forall|k: int| 0 <= k < pending.len() ==> pending[k] != NL,
        forall|k: int| 0 <= k < bytes.len() ==> bytes[k] != NL,
    ensures
        ingest_lines(pending + bytes, false) == Seq::<Seq<char>>::empty(),
        ingest_pending(pending + bytes, false) == pending + bytes,
{
    let all = pending + bytes;
    assert forall|k: int| 0 <= k < all.len() implies all[k] != NL by {
        if k < pending.len() {
            assert(all[k] == pending[k]);
        } else {
            assert(all[k] == bytes[k - pending.len()]);
        }
    }
    lemma_split_no_sep(all, NL);
    assert(ingest_lines(all, false) =~= Seq::<Seq<char>>::empty());
}

/// A file that shrank below the offset is read again from its start, with
/// nothing left buffered from before.
pub proof fn lemma_truncation_restarts(m: FollowModel, len: u64)
    requires
        !m.unavailable,
        len < m.offset,
    ensures
        observed_model(m, len) == reset_model(m),
        poll_plan(m, len) == (if len == 0 { PollPlan::Idle } else { PollPlan::ReadFrom(0) }),
{
}

/// A file that was unavailable and is seen again is a fresh file: it is
/// read from its start, with nothing left buffered from before.
pub proof fn lemma_reappearance_restarts(m: FollowModel, len: u64)
    requires
        m.unavailable,
    ensures
        observed_model(m, len) == (FollowModel { unavailable: false, ..reset_model(m) }),
        poll_plan(m, len) == (if len == 0 { PollPlan::Idle } else { PollPlan::ReadFrom(0) }),
{
}

/// A file that stays unreachable is reported once: after one failure, the
/// next failure calls for no notice, and it stays unavailable.
pub proof fn lemma_unavailable_reported_once(m: FollowModel)
    ensures
        unavailable_model(m).unavailable,
        unavailable_model(unavailable_model(m)) == unavailable_model(m),
{
}

/// No byte is read twice: after a read, the next poll of a file that has
/// not shrunk reads from exactly where that read ended, however much the
/// file grew while it was read.
pub proof fn lemma_next_read_follows_last(m: FollowModel, buf: Seq<u8>, len: u64)
    requires
        !m.unavailable,
        m.offset + buf.len() <= u64::MAX,
        len >= m.offset + buf.len(),
    ensures
        poll_plan(read_model(m, buf), len) == (if len == m.offset + buf.len() {
            PollPlan::Idle
        } else {
            PollPlan::ReadFrom((m.offset + buf.len()) as u64)
        }),
        observed_model(read_model(m, buf), len) == read_model(m, buf),
{
}

/// Each appended line is emitted exactly once: a read of `d1` (however far
/// the file grew past the length seen before it), then a poll that finds
/// the file grown further and reads `d2` from where the first read ended,
/// emit together the lines of reading `d1 + d2` at once, and leave the
/// same offset and buffer; no byte of `d1` is read again.
pub proof fn lemma_reads_emit_each_line_once(m: FollowModel, d1: Seq<u8>, d2: Seq<u8>, len: u64)
    requires
        !m.unavailable,
        m.offset + d1.len() + d2.len() <= u64::MAX,
        len > m.offset + d1.len(),
    ensures
        poll_plan(read_model(m, d1), len) == PollPlan::ReadFrom((m.offset + d1.len()) as u64),
        ingest_lines(m.pending + d1, false) + ingest_lines(read_model(m, d1).pending + d2, false)
            == ingest_lines(m.pending + (d1 + d2), false),
        read_model(observed_model(read_model(m, d1), len), d2) == read_model(m, d1 + d2),
{
    lemma_next_read_follows_last(m, d1, len);
    lemma_ingest_in_two_steps(m.pending, d1, d2, false);
    assert(m.pending + d1 + d2 =~= m.pending + (d1 + d2));
}

/// A file that grew is read from exactly where the last read ended.
pub proof fn lemma_growth_reads_from_offset(m: FollowModel, len: u64)
    requires
        !m.unavailable,
        m.offset < len,
    ensures
        observed_model(m, len) == m,
        poll_plan(m, len) == PollPlan::ReadFrom(m.offset),
{
}

} // verus!
