//! Last-N backlog extraction: text splitting and the backward chunk scan
//! that finds the start of the last lines of a file.

use vstd::prelude::*;
use vstd::utf8::{decode_utf8, valid_utf8};
use crate::lines::{
    count_of, decode_lossy, find_sep, lacks, lemma_count_append, lemma_find_sep, lemma_lossy_split,
    lemma_rest_nonempty, lemma_split_append, lemma_split_push, lossy_keeps_newlines, lossy_utf8,
    pieces, push_char, rest, split_terminated, views, NL,
};

verus! {

/// `s` without all of its trailing carriage returns.
pub open spec fn trim_cr(s: Seq<char>) -> Seq<char>
    decreases s.len(),
{
    if s.len() > 0 && s.last() == '\r' {
        trim_cr(s.drop_last())
    } else {
        s
    }
}

/// The lines of a text: split at `'\n'` (a final newline opens no empty
/// line), each with its trailing carriage returns removed.
pub open spec fn text_lines(text: Seq<char>) -> Seq<Seq<char>> {
    split_terminated(text, '\n').map_values(|l: Seq<char>| trim_cr(l))
}

/// The lines of a byte sequence: split at newline bytes (a final newline
/// opens no empty line), each piece decoded lossily and without its
/// trailing carriage returns.
pub open spec fn byte_lines(b: Seq<u8>) -> Seq<Seq<char>> {
    split_terminated(b, NL).map_values(|l: Seq<u8>| trim_cr(lossy_utf8(l)))
}

/// Every line whose bytes in `raw` are well-formed UTF-8 is exactly their
/// decoded text without its trailing carriage returns.
pub open spec fn valid_lines_trimmed(raw: Seq<Seq<u8>>, out: Seq<Seq<char>>) -> bool {
    &&& out.len() == raw.len()
    &&& forall|k: int| 0 <= k < out.len() && valid_utf8(raw[k]) ==> #[trigger] out[k] == trim_cr(decode_utf8(raw[k]))
}

/// `trim_cr` keeps a prefix that does not end with a carriage return.
proof fn lemma_trim_cr_prefix(s: Seq<char>)
    ensures
        trim_cr(s).len() <= s.len(),
        trim_cr(s) == s.take(trim_cr(s).len() as int),
        trim_cr(s).len() == 0 || trim_cr(s).last() != '\r',
    decreases s.len(),
{
    if s.len() > 0 && s.last() == '\r' {
        lemma_trim_cr_prefix(s.drop_last());
        assert(s.drop_last().take(trim_cr(s).len() as int) =~= s.take(trim_cr(s).len() as int));
    } else {
        assert(s.take(s.len() as int) =~= s);
    }
}

/// Splitting the lossy text of `b` into lines is splitting `b` at its
/// newline bytes and decoding each line: there are as many lines as
/// newline bytes, one more when `b` ends without one, and no line holds a
/// newline or ends with a carriage return.
pub proof fn lemma_byte_lines(b: Seq<u8>, text: Seq<char>)
    requires
        lossy_keeps_newlines(b, text),
    ensures
        text_lines(text) == byte_lines(b),
        byte_lines(b).len() == count_of(b, NL) + (if b.len() > 0 && b.last() != NL { 1int } else { 0int }),
        forall|i: int| 0 <= i < byte_lines(b).len() ==> lacks(#[trigger] byte_lines(b)[i], '\n')
            && (byte_lines(b)[i].len() == 0 || byte_lines(b)[i].last() != '\r'),
        valid_lines_trimmed(split_terminated(b, NL), byte_lines(b)),
{
    lemma_lossy_split(b);
    lemma_pieces_count(b, NL);
    lemma_rest_nonempty(b, NL);
    let g = |l: Seq<u8>| lossy_utf8(l);
    let st = split_terminated(b, NL);
    assert(split_terminated(text, '\n') =~= st.map_values(g));
    assert(text_lines(text) =~= byte_lines(b));
    assert forall|i: int| 0 <= i < byte_lines(b).len() implies lacks(#[trigger] byte_lines(b)[i], '\n')
        && (byte_lines(b)[i].len() == 0 || byte_lines(b)[i].last() != '\r') by {
        let l = lossy_utf8(st[i]);
        if i < pieces(b, NL).len() {
            assert(st[i] == pieces(b, NL)[i]);
        } else {
            assert(st[i] == rest(b, NL));
        }
        assert(lacks(l, '\n'));
        assert(valid_utf8(st[i]) ==> l == decode_utf8(st[i]));
        lemma_trim_cr_prefix(l);
        assert(byte_lines(b)[i] == trim_cr(l));
        assert forall|j: int| 0 <= j < trim_cr(l).len() implies trim_cr(l)[j] != '\n' by {
            assert(trim_cr(l)[j] == l[j]);
        }
    }
}

/// `k` carriage returns.
pub open spec fn crs(k: nat) -> Seq<char> {
    Seq::new(k, |i: int| '\r')
}

proof fn lemma_trim_crs(p: Seq<char>, k: nat)
    requires
        p.len() == 0 || p.last() != '\r',
    ensures
        trim_cr(p + crs(k)) == p,
    decreases k,
{
    if k == 0 {
        assert(p + crs(0) =~= p);
    } else {
        assert((p + crs(k)).drop_last() =~= p + crs((k - 1) as nat));
        lemma_trim_crs(p, (k - 1) as nat);
    }
}

/// Splits `bytes` into lines: decoded lossily as UTF-8, split at each
/// newline (a final newline opens no empty line), each line without its
/// trailing carriage returns. `include_final_partial` changes nothing: a
/// final line without newline is always included.
pub fn split_lines(bytes: &[u8], include_final_partial: bool) -> (lines: Vec<String>)
    ensures
        views(lines@) == text_lines(lossy_utf8(bytes@)),
        views(lines@) == byte_lines(bytes@),
        lines@.len() == count_of(bytes@, NL) + (if bytes@.len() > 0 && bytes@.last() != NL { 1int } else { 0int }),
        forall|i: int| 0 <= i < lines@.len() ==> lacks(#[trigger] lines@[i]@, '\n')
            && (lines@[i]@.len() == 0 || lines@[i]@.last() != '\r'),
        valid_lines_trimmed(split_terminated(bytes@, NL), views(lines@)),
        valid_utf8(bytes@) ==> views(lines@) == text_lines(decode_utf8(bytes@)),
{
    broadcast use vstd::string::group_string_axioms;
    let text = decode_lossy(bytes);
    let ghost t = text@;
    proof {
        lemma_byte_lines(bytes@, t);
    }
    let mut lines: Vec<String> = Vec::new();
    let mut piece = String::new();
    let mut held_cr = String::new();
    let mut seen: Ghost<Seq<char>> = Ghost(Seq::empty());
    assert(t.take(0) =~= Seq::<char>::empty());
    for c in it: text.as_str().chars()
        invariant
            it.seq() == t,
            seen@ == t.take(it.index()),
            views(lines@) == pieces(seen@, '\n').map_values(|l: Seq<char>| trim_cr(l)),
            rest(seen@, '\n') == piece@ + held_cr@,
            held_cr@ == crs(held_cr@.len()),
            piece@.len() == 0 || piece@.last() != '\r',
    {
        proof {
            lemma_split_push(seen@, c, '\n');
            assert(t.take(it.index() + 1) =~= seen@.push(c));
        }
        if c == '\n' {
            let ghost old_lines = lines@;
            let ghost line = piece@;
            proof {
                lemma_trim_crs(piece@, held_cr@.len());
                assert(trim_cr(rest(seen@, '\n')) == line);
            }
            lines.push(piece);
            piece = String::new();
            held_cr = String::new();
            proof {
                assert(views(lines@) =~= views(old_lines).push(line));
                assert(pieces(seen@.push(c), '\n').map_values(|l: Seq<char>| trim_cr(l)) =~=
                    pieces(seen@, '\n').map_values(|l: Seq<char>| trim_cr(l)).push(line));
                assert(held_cr@ =~= crs(0));
            }
        } else if c == '\r' {
            push_char(&mut held_cr, c);
            assert(held_cr@ =~= crs(held_cr@.len()));
        } else {
            piece.append(held_cr.as_str());
            held_cr = String::new();
            push_char(&mut piece, c);
            assert(held_cr@ =~= crs(0));
            assert(rest(seen@.push(c), '\n') =~= piece@ + held_cr@);
        }
        proof {
            seen@ = seen@.push(c);
        }
    }
    proof {
        assert(seen@ =~= t);
        lemma_trim_crs(piece@, held_cr@.len());
    }
    if !piece.as_str().is_empty() || !held_cr.as_str().is_empty() {
        let ghost old_lines = lines@;
        let ghost line = piece@;
        lines.push(piece);
        proof {
            assert(trim_cr(rest(t, '\n')) == line);
            assert(views(lines@) =~= views(old_lines).push(line));
            assert(split_terminated(t, '\n') == pieces(t, '\n').push(rest(t, '\n')));
            assert(text_lines(t) =~= pieces(t, '\n').map_values(|l: Seq<char>| trim_cr(l)).push(line));
        }
    } else {
        proof {
            assert(piece@ + held_cr@ =~= Seq::<char>::empty());
        }
    }
    proof {
        assert forall|i: int| 0 <= i < lines@.len() implies lacks(#[trigger] lines@[i]@, '\n')
            && (lines@[i]@.len() == 0 || lines@[i]@.last() != '\r') by {
            assert(views(lines@)[i] == lines@[i]@);
            assert(byte_lines(bytes@)[i] == lines@[i]@);
        }
    }
    lines
}

/// Bytes read per step of the backward scan.
pub const CHUNK_SIZE: u64 = 8 * 1024;

/// The last `n` items of `s` (all of them when there are fewer).
pub open spec fn take_last<A>(s: Seq<A>, n: nat) -> Seq<A> {
    if n < s.len() {
        s.skip(s.len() - n)
    } else {
        s
    }
}

/// Chunks read back to front, joined in file order.
pub open spec fn joined_rev(chunks: Seq<Seq<u8>>) -> Seq<u8>
    decreases chunks.len(),
{
    if chunks.len() == 0 {
        Seq::empty()
    } else {
        chunks.last() + joined_rev(chunks.drop_last())
    }
}

/// The model of a backward scan over a file of `len` bytes: everything
/// from `offset` to the end has been read into `data`.
pub struct TailModel {
    pub len: u64,
    pub lines: nat,
    pub offset: u64,
    pub data: Seq<u8>,
}

/// The size of the next chunk to read before `offset`.
pub open spec fn chunk_size(offset: u64) -> u64 {
    if offset < CHUNK_SIZE {
        offset
    } else {
        CHUNK_SIZE
    }
}

/// The next chunk a scan reads, as (start, size): none once the start of
/// the file is reached or more than `lines` newlines have been read.
pub open spec fn next_chunk_of(m: TailModel) -> Option<(u64, usize)> {
    if m.offset > 0 && count_of(m.data, NL) <= m.lines {
        Some(((m.offset - chunk_size(m.offset)) as u64, chunk_size(m.offset) as usize))
    } else {
        None
    }
}

/// The bytes of the scanned region that are turned into lines: when the
/// byte before the region is known and is not a newline, the region starts
/// inside a line, and that partial first line is dropped.
pub open spec fn kept_bytes(data: Seq<u8>, prev: Option<u8>) -> Seq<u8> {
    match prev {
        Some(b) => if b != NL && find_sep(data, NL) < data.len() {
            data.skip(find_sep(data, NL) + 1int)
        } else {
            data
        },
        None => data,
    }
}

/// The lines a finished scan yields: the last `lines` lines of the kept bytes.
pub open spec fn backlog_of(data: Seq<u8>, prev: Option<u8>, lines: nat) -> Seq<Seq<char>> {
    take_last(byte_lines(kept_bytes(data, prev)), lines)
}

/// A backward scan of a file for its last lines. The caller reads each
/// chunk that `next_chunk` asks for and hands it to `push_chunk`; once
/// `next_chunk` asks for nothing, it reads the byte before `offset` (if
/// any) and calls `finish`.
pub struct TailScan {
    len: u64,
    lines: usize,
    offset: u64,
    newlines: u64,
    chunks: Vec<Vec<u8>>,
}

impl View for TailScan {
    type V = TailModel;

    closed spec fn view(&self) -> TailModel {
        TailModel {
            len: self.len,
            lines: self.lines as nat,
            offset: self.offset,
            data: joined_rev(self.chunks@.map_values(|c: Vec<u8>| c@)),
        }
    }
}

impl TailScan {
    /// The invariant of a scan: the region read spans `offset` to the end,
    /// and `newlines` counts its newlines.
    pub closed spec fn wf(&self) -> bool {
        &&& self.offset as int + self@.data.len() == self.len
        &&& self.newlines == count_of(self@.data, NL)
    }

    /// A scan of a file of `len` bytes for its last `lines` lines.
    pub fn new(len: u64, lines: usize) -> (s: Self)
        ensures
            s.wf(),
            s@ == (TailModel { len, lines: lines as nat, offset: len, data: Seq::empty() }),
    {
        let s = TailScan { len, lines, offset: len, newlines: 0, chunks: Vec::new() };
        assert(s.chunks@.map_values(|c: Vec<u8>| c@) =~= Seq::<Seq<u8>>::empty());
        s
    }

    /// The offset from which everything has been read.
    pub fn offset(&self) -> (o: u64)
        ensures
            o == self@.offset,
    {
        self.offset
    }

    /// The next chunk to read, as (start, size), or `None` when the scan
    /// has read enough.
    pub fn next_chunk(&self) -> (next: Option<(u64, usize)>)
        requires
            self.wf(),
        ensures
            next == next_chunk_of(self@),
    {
        if self.offset > 0 && self.newlines <= self.lines as u64 {
            let size = if self.offset < CHUNK_SIZE { self.offset } else { CHUNK_SIZE };
            Some((self.offset - size, size as usize))
        } else {
            None
        }
    }

    /// Takes in the chunk that `next_chunk` asked for.
    pub fn push_chunk(&mut self, chunk: Vec<u8>)
        requires
            old(self).wf(),
            next_chunk_of(old(self)@) matches Some((_, size)) && chunk@.len() == size,
        ensures
            final(self).wf(),
            final(self)@ == (TailModel {
                offset: (old(self)@.offset - chunk@.len()) as u64,
                data: chunk@ + old(self)@.data,
                ..old(self)@
            }),
    {
        let ghost old_chunks = self.chunks@.map_values(|c: Vec<u8>| c@);
        let ghost old_data = self@.data;
        let mut count: u64 = 0;
        let mut i: usize = 0;
        assert(chunk@.take(0) =~= Seq::<u8>::empty());
        while i < chunk.len()
            invariant
                0 <= i <= chunk@.len(),
                chunk@.len() <= CHUNK_SIZE,
                count == count_of(chunk@.take(i as int), NL),
                count <= i,
            decreases chunk@.len() - i,
        {
            assert(chunk@.take(i + 1).drop_last() =~= chunk@.take(i as int));
            if chunk[i] == NL {
                count = count + 1;
            }
            i = i + 1;
        }
        assert(chunk@.take(chunk@.len() as int) =~= chunk@);
        proof {
            lemma_count_append(chunk@, old_data, NL);
            lemma_count_le_len(old_data, NL);
        }
        self.offset = self.offset - chunk.len() as u64;
        self.newlines = self.newlines + count;
        self.chunks.push(chunk);
        proof {
            let new_chunks = self.chunks@.map_values(|c: Vec<u8>| c@);
            assert(new_chunks.drop_last() =~= old_chunks);
            assert(self@.data == chunk@ + old_data);
        }
    }

    /// The lines the scan yields, given the byte just before the region
    /// read (`None` at the start of the file).
    #[verifier::spinoff_prover]
    pub fn finish(self, prev: Option<u8>) -> (out: Vec<String>)
        requires
            self.wf(),
        ensures
            views(out@) == backlog_of(self@.data, prev, self@.lines),
            valid_lines_trimmed(take_last(split_terminated(kept_bytes(self@.data, prev), NL), self@.lines), views(out@)),
    {
        let ghost data = self@.data;
        let ghost cs = self.chunks@.map_values(|c: Vec<u8>| c@);
        let lines_wanted = self.lines;
        let mut chunks = self.chunks;
        let mut all: Vec<u8> = Vec::new();
        assert(cs.take(cs.len() as int) =~= cs);
        while chunks.len() > 0
            invariant
                chunks@.len() <= cs.len(),
                forall|q: int| 0 <= q < chunks@.len() ==> #[trigger] chunks@[q]@ == cs[q],
                joined_rev(cs) == all@ + joined_rev(cs.take(chunks@.len() as int)),
            decreases chunks@.len(),
        {
            let ghost k = chunks@.len() as int;
            let ghost before = all@;
            assert(chunks@[k - 1]@ == cs[k - 1]);
            match chunks.pop() {
                Some(mut c) => {
                    proof {
                        assert(cs.take(k).drop_last() =~= cs.take(k - 1));
                        assert(cs.take(k).last() == c@);
                    }
                    all.append(&mut c);
                    proof {
                        assert(all@ + joined_rev(cs.take(k - 1)) =~= before + joined_rev(cs.take(k)));
                    }
                },
                None => {},
            }
        }
        proof {
            assert(cs.take(0) =~= Seq::<Seq<u8>>::empty());
            assert(all@ =~= data);
        }
        let mut start: usize = 0;
        let mut skip_partial = false;
        match prev {
            Some(b) => {
                if b != NL {
                    skip_partial = true;
                }
            },
            None => {},
        }
        if skip_partial {
            let mut j: usize = 0;
            while j < all.len() && all[j] != NL
                invariant
                    0 <= j <= all@.len(),
                    all@ == data,
                    forall|q: int| 0 <= q < j ==> data[q] != NL,
                decreases all@.len() - j,
            {
                j = j + 1;
            }
            proof {
                lemma_find_sep(data, NL);
                crate::lines::lemma_find_sep_at(data, NL, j as int);
            }
            if j < all.len() {
                start = j + 1;
            }
        }
        assert(all@.subrange(start as int, all@.len() as int) =~= kept_bytes(data, prev));
        let kept = &all.as_slice()[start..all.len()];
        assert(kept@ == kept_bytes(data, prev));
        let mut lines = split_lines(kept, true);
        let n = lines.len();
        if lines_wanted < n {
            let ghost whole = lines@;
            let last = lines.split_off(n - lines_wanted);
            proof {
                assert(views(last@) =~= views(whole).skip(n - lines_wanted));
                let st = split_terminated(kept_bytes(data, prev), NL);
                assert forall|k: int| 0 <= k < views(last@).len() && valid_utf8(st.skip(n - lines_wanted)[k])
                    implies #[trigger] views(last@)[k] == trim_cr(decode_utf8(st.skip(n - lines_wanted)[k])) by {
                    assert(views(last@)[k] == views(whole)[k + n - lines_wanted]);
                    assert(st.skip(n - lines_wanted)[k] == st[k + n - lines_wanted]);
                }
            }
            last
        } else {
            lines
        }
    }
}

/// The number of newline-terminated pieces is the number of newlines.
pub proof fn lemma_pieces_count<A>(s: Seq<A>, sep: A)
    ensures
        pieces(s, sep).len() == count_of(s, sep),
    decreases s.len(),
{
    if s.len() == 0 {
        crate::lines::lemma_split_no_sep(s, sep);
    } else {
        let t = s.drop_last();
        lemma_pieces_count(t, sep);
        lemma_split_push(t, s.last(), sep);
        assert(t.push(s.last()) =~= s);
    }
}

/// A sequence without `a` counts none of it.
pub proof fn lemma_count_none<A>(s: Seq<A>, a: A)
    requires
        forall|q: int| 0 <= q < s.len() ==> s[q] != a,
    ensures
        count_of(s, a) == 0,
    decreases s.len(),
{
    if s.len() > 0 {
        lemma_count_none(s.drop_last(), a);
    }
}

/// The backward scan stops at a line boundary with enough lines: once it is
/// done (at the start of the file, or with more than `lines` newlines read
/// from `offset` on), the bytes it keeps are the file from some position
/// `k` on, where `k` is the start of the file or follows a newline, and they
/// hold at least `lines` newlines unless they are the whole file. So the
/// last `lines` newline-separated lines of the whole file are exactly the
/// last `lines` lines of the kept bytes.
#[verifier::spinoff_prover]
pub proof fn lemma_backlog_is_line_aligned(f: Seq<u8>, offset: int, lines: nat) -> (k: int)
    requires
        0 <= offset <= f.len(),
        offset == 0 || count_of(f.skip(offset), NL) > lines,
    ensures
        0 <= k <= f.len(),
        kept_bytes(f.skip(offset), if offset > 0 { Some(f[offset - 1]) } else { None }) == f.skip(k),
        k == 0 || f[k - 1] == NL,
        k == 0 || count_of(f.skip(k), NL) >= lines,
        take_last(split_terminated(f, NL), lines) == take_last(split_terminated(f.skip(k), NL), lines),
{
    let data = f.skip(offset);
    let k: int = if offset == 0 {
        0
    } else if f[offset - 1] == NL {
        offset
    } else {
        let i = find_sep(data, NL);
        lemma_find_sep(data, NL);
        if i >= data.len() {
            lemma_count_none(data, NL);
        }
        assert(i < data.len());
        assert(data.skip(i + 1int) =~= f.skip(offset + i + 1));
        let head = data.take(i + 1int);
        assert(head.drop_last() =~= data.take(i as int));
        lemma_count_none(data.take(i as int), NL);
        assert(head + data.skip(i + 1int) =~= data);
        lemma_count_append(head, data.skip(i + 1int), NL);
        offset + i + 1
    };
    if offset > 0 && f[offset - 1] == NL {
        assert(f.skip(k) =~= data);
    }
    if offset == 0 {
        assert(f.skip(0) =~= f);
    }
    if k > 0 {
        let x = f.take(k);
        let y = f.skip(k);
        assert(x + y =~= f);
        lemma_split_append(x, y, NL);
        lemma_split_push(x.drop_last(), NL, NL);
        assert(x.drop_last().push(NL) =~= x);
        assert(Seq::<u8>::empty() + y =~= y);
        lemma_pieces_count(y, NL);
        let st = split_terminated(y, NL);
        assert(split_terminated(f, NL) =~= pieces(x, NL) + st);
        assert(st.len() >= lines);
        assert((pieces(x, NL) + st).skip((pieces(x, NL) + st).len() - lines) =~= st.skip(st.len() - lines));
    }
    k
}

/// Counting never exceeds the length.
pub proof fn lemma_count_le_len<A>(s: Seq<A>, a: A)
    ensures
        count_of(s, a) <= s.len(),
    decreases s.len(),
{
    if s.len() > 0 {
        lemma_count_le_len(s.drop_last(), a);
    }
}

/// Taking the last items commutes with mapping them.
proof fn lemma_take_last_map<A, B>(s: Seq<A>, n: nat, g: spec_fn(A) -> B)
    ensures
        take_last(s.map_values(g), n) == take_last(s, n).map_values(g),
{
    assert(take_last(s.map_values(g), n) =~= take_last(s, n).map_values(g));
}

/// The backlog is the last lines of the file, whatever its bytes: once a
/// backward scan over file `f` has nothing more to read (it reached the
/// start of the file, or read more than `lines` newlines), the lines
/// `finish` yields from the bytes it read and the byte before them are
/// exactly the last `lines` lines of the whole file, split at its newline
/// bytes as `split_lines` splits it.
pub proof fn lemma_backlog_is_last_lines(f: Seq<u8>, m: TailModel)
    requires
        m.len == f.len(),
        m.offset <= f.len(),
        m.data == f.skip(m.offset as int),
        next_chunk_of(m) is None,
    ensures
        backlog_of(m.data, if m.offset > 0 { Some(f[m.offset - 1]) } else { None }, m.lines)
            == take_last(byte_lines(f), m.lines),
{
    let k = lemma_backlog_is_line_aligned(f, m.offset as int, m.lines);
    let g = |l: Seq<u8>| trim_cr(lossy_utf8(l));
    lemma_take_last_map(split_terminated(f, NL), m.lines, g);
    lemma_take_last_map(split_terminated(f.skip(k), NL), m.lines, g);
}

} // verus!
