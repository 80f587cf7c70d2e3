//! Splitting byte and character sequences at a separator, and the text
//! decoding that turns raw bytes into lines.

use vstd::prelude::*;
use vstd::utf8::{decode_utf8, valid_utf8};

verus! {

/// The newline byte.
pub const NL: u8 = 10u8;

/// The carriage-return byte.
pub const CR: u8 = 13u8;

/// Index of the first `sep` in `s`, or `s.len()` when `s` holds none.
pub open spec fn find_sep<A>(s: Seq<A>, sep: A) -> nat
    decreases s.len(),
{
    if s.len() == 0 {
        0
    } else if s[0] == sep {
        0
    } else {
        1 + find_sep(s.drop_first(), sep)
    }
}

/// The pieces of `s` that a `sep` terminates, in order, without the separators.
pub open spec fn pieces<A>(s: Seq<A>, sep: A) -> Seq<Seq<A>>
    decreases s.len(),
{
    let i = find_sep(s, sep);
    if i < s.len() {
        seq![s.take(i as int)] + pieces(s.skip(i + 1int), sep)
    } else {
        seq![]
    }
}

/// What follows the last `sep` of `s` (all of `s` when it holds none).
pub open spec fn rest<A>(s: Seq<A>, sep: A) -> Seq<A>
    decreases s.len(),
{
    let i = find_sep(s, sep);
    if i < s.len() {
        rest(s.skip(i + 1int), sep)
    } else {
        s
    }
}

/// Splitting at `sep` where a trailing separator does not open an empty
/// last piece: the terminated pieces, then the unterminated rest if it is
/// not empty.
pub open spec fn split_terminated<A>(s: Seq<A>, sep: A) -> Seq<Seq<A>> {
    let r = rest(s, sep);
    if r.len() > 0 {
        pieces(s, sep).push(r)
    } else {
        pieces(s, sep)
    }
}

/// The contents of a list of strings.
pub open spec fn views(v: Seq<String>) -> Seq<Seq<char>> {
    v.map_values(|s: String| s@)
}

/// Number of occurrences of `x` in `s`.
pub open spec fn count_of<A>(s: Seq<A>, x: A) -> nat
    decreases s.len(),
{
    if s.len() == 0 {
        0
    } else {
        (if s.last() == x { 1nat } else { 0nat }) + count_of(s.drop_last(), x)
    }
}

/// `find_sep` points at the first separator, or past the end.
pub proof fn lemma_find_sep<A>(s: Seq<A>, sep: A)
    ensures
        find_sep(s, sep) <= s.len(),
        forall|j: int| 0 <= j < find_sep(s, sep) ==> s[j] != sep,
        find_sep(s, sep) < s.len() ==> s[find_sep(s, sep) as int] == sep,
    decreases s.len(),
{
    if s.len() > 0 && s[0] != sep {
        let t = s.drop_first();
        lemma_find_sep(t, sep);
        assert forall|j: int| 0 <= j < find_sep(s, sep) implies s[j] != sep by {
            if j > 0 {
                assert(s[j] == t[j - 1]);
            }
        }
        if find_sep(s, sep) < s.len() {
            assert(s[find_sep(s, sep) as int] == t[find_sep(t, sep) as int]);
        }
    }
}

/// A position with no separator before it and a separator (or the end) at
/// it is where `find_sep` points.
pub proof fn lemma_find_sep_at<A>(s: Seq<A>, sep: A, k: int)
    requires
        0 <= k <= s.len(),
        forall|j: int| 0 <= j < k ==> s[j] != sep,
        k == s.len() || s[k] == sep,
    ensures
        find_sep(s, sep) == k,
{
    lemma_find_sep(s, sep);
}

/// Splitting a concatenation: the pieces of `x` come first, and the rest of
/// `x` is carried into `y`.
pub proof fn lemma_split_append<A>(x: Seq<A>, y: Seq<A>, sep: A)
    ensures
        pieces(x + y, sep) == pieces(x, sep) + pieces(rest(x, sep) + y, sep),
        rest(x + y, sep) == rest(rest(x, sep) + y, sep),
    decreases x.len(),
{
    let i = find_sep(x, sep);
    lemma_find_sep(x, sep);
    if i < x.len() {
        let xy = x + y;
        assert forall|j: int| 0 <= j < i implies xy[j] != sep by {
            assert(xy[j] == x[j]);
        }
        assert(xy[i as int] == x[i as int]);
        lemma_find_sep_at(xy, sep, i as int);
        assert(xy.take(i as int) =~= x.take(i as int));
        assert(xy.skip(i + 1int) =~= x.skip(i + 1int) + y);
        lemma_split_append(x.skip(i + 1int), y, sep);
        assert(pieces(x + y, sep) =~= pieces(x, sep) + pieces(rest(x, sep) + y, sep));
    } else {
        assert(pieces(x, sep) =~= Seq::<Seq<A>>::empty());
        assert(pieces(x + y, sep) =~= pieces(x, sep) + pieces(rest(x, sep) + y, sep));
    }
}

/// A sequence with no separator in it is all rest and no pieces.
pub proof fn lemma_split_no_sep<A>(s: Seq<A>, sep: A)
    requires
        forall|j: int| 0 <= j < s.len() ==> s[j] != sep,
    ensures
        pieces(s, sep) == Seq::<Seq<A>>::empty(),
        rest(s, sep) == s,
{
    lemma_find_sep_at(s, sep, s.len() as int);
}

/// Appending one element to a sequence: a separator closes the current
/// rest as a new piece; anything else extends the rest.
pub proof fn lemma_split_push<A>(s: Seq<A>, c: A, sep: A)
    ensures
        c == sep ==> pieces(s.push(c), sep) == pieces(s, sep).push(rest(s, sep))
            && rest(s.push(c), sep) == Seq::<A>::empty(),
        c != sep ==> pieces(s.push(c), sep) == pieces(s, sep)
            && rest(s.push(c), sep) == rest(s, sep).push(c),
{
    lemma_split_append(s, seq![c], sep);
    assert(s + seq![c] =~= s.push(c));
    let r = rest(s, sep);
    lemma_rest_has_no_sep(s, sep);
    let z = r + seq![c];
    if c == sep {
        lemma_find_sep_at(z, sep, r.len() as int);
        assert(z.take(r.len() as int) =~= r);
        assert(z.skip(r.len() + 1int) =~= Seq::<A>::empty());
        lemma_split_no_sep(Seq::<A>::empty(), sep);
        assert(pieces(z, sep) =~= seq![r]);
        assert(pieces(s, sep) + seq![r] =~= pieces(s, sep).push(r));
    } else {
        assert forall|j: int| 0 <= j < z.len() implies z[j] != sep by {
            if j < r.len() {
                assert(z[j] == r[j]);
            }
        }
        lemma_split_no_sep(z, sep);
        assert(pieces(s, sep) + Seq::<Seq<A>>::empty() =~= pieces(s, sep));
        assert(z =~= r.push(c));
    }
}

/// The rest after the last separator holds no separator.
pub proof fn lemma_rest_has_no_sep<A>(s: Seq<A>, sep: A)
    ensures
        forall|j: int| 0 <= j < rest(s, sep).len() ==> rest(s, sep)[j] != sep,
    decreases s.len(),
{
    let i = find_sep(s, sep);
    lemma_find_sep(s, sep);
    if i < s.len() {
        lemma_rest_has_no_sep(s.skip(i + 1int), sep);
        assert(rest(s, sep) == rest(s.skip(i + 1int), sep));
    } else {
        assert(rest(s, sep) == s);
    }
}

/// Counting over a concatenation adds up.
pub proof fn lemma_count_append<A>(x: Seq<A>, y: Seq<A>, a: A)
    ensures
        count_of(x + y, a) == count_of(x, a) + count_of(y, a),
    decreases y.len(),
{
    if y.len() == 0 {
        assert(x + y =~= x);
    } else {
        lemma_count_append(x, y.drop_last(), a);
        assert((x + y).drop_last() =~= x + y.drop_last());
    }
}

/// The characters that lossy UTF-8 decoding makes of `bytes`: every
/// well-formed scalar as it is, every ill-formed sequence as U+FFFD.
pub uninterp spec fn lossy_utf8(bytes: Seq<u8>) -> Seq<char>;

/// The lossy decoding of `b` taken line by line: the decoding of each
/// newline-terminated piece followed by `'\n'`, then that of the rest.
pub open spec fn lossy_by_lines(b: Seq<u8>) -> Seq<char>
    decreases b.len(),
{
    let i = find_sep(b, NL);
    if i < b.len() {
        lossy_utf8(b.take(i as int)) + seq!['\n'] + lossy_by_lines(b.skip(i + 1int))
    } else {
        lossy_utf8(b)
    }
}

/// `c` does not occur in `s`.
pub open spec fn lacks<A>(s: Seq<A>, c: A) -> bool {
    forall|j: int| 0 <= j < s.len() ==> s[j] != c
}

/// How lossy decoding treats newline bytes: `text` is the decoding of
/// `b` taken line by line, the decoding of a piece between newline bytes
/// holds no `'\n'` and is the decoded text when the piece is well-formed
/// UTF-8, and the decoding of the final rest is empty exactly when the
/// rest is.
pub open spec fn lossy_keeps_newlines(b: Seq<u8>, text: Seq<char>) -> bool {
    &&& text == lossy_by_lines(b)
    &&& forall|p: int| 0 <= p < pieces(b, NL).len() ==> lacks(#[trigger] lossy_utf8(pieces(b, NL)[p]), '\n')
    &&& forall|p: int| 0 <= p < pieces(b, NL).len() && valid_utf8(pieces(b, NL)[p])
        ==> #[trigger] lossy_utf8(pieces(b, NL)[p]) == decode_utf8(pieces(b, NL)[p])
    &&& lacks(lossy_utf8(rest(b, NL)), '\n')
    &&& valid_utf8(rest(b, NL)) ==> lossy_utf8(rest(b, NL)) == decode_utf8(rest(b, NL))
    &&& (lossy_utf8(rest(b, NL)).len() == 0 <==> rest(b, NL).len() == 0)
}

/// Decodes `bytes` by `String::from_utf8_lossy`.
///
/// Trusted: the result is `lossy_utf8` of the bytes, and on well-formed
/// UTF-8 it is exactly the decoded text, as std documents. Lossy decoding
/// keeps every well-formed sequence and puts one U+FFFD for each
/// ill-formed one; a newline byte is a whole one-byte scalar that can be
/// neither part of another scalar nor of an ill-formed sequence, so it is
/// decoded as `'\n'` on its own, the text between newline bytes is decoded
/// independently of the rest, its decoding holds no `'\n'` (and is its
/// decoded text when it is well-formed on its own), and nonempty
/// bytes never decode to nothing (`lossy_keeps_newlines`). What replaces
/// an ill-formed sequence otherwise is left to the name.
#[verifier::external_body]
pub(crate) fn decode_lossy(bytes: &[u8]) -> (text: String)
    ensures
        text@ == lossy_utf8(bytes@),
        valid_utf8(bytes@) ==> text@ == decode_utf8(bytes@),
        lossy_keeps_newlines(bytes@, text@),
{
    String::from_utf8_lossy(bytes).into_owned()
}

/// The pieces and the rest of the line-by-line decoding are the decodings
/// of the pieces and the rest of the bytes.
pub proof fn lemma_lossy_split(b: Seq<u8>)
    requires
        forall|p: int| 0 <= p < pieces(b, NL).len() ==> lacks(#[trigger] lossy_utf8(pieces(b, NL)[p]), '\n'),
        lacks(lossy_utf8(rest(b, NL)), '\n'),
    ensures
        pieces(lossy_by_lines(b), '\n') == pieces(b, NL).map_values(|l: Seq<u8>| lossy_utf8(l)),
        rest(lossy_by_lines(b), '\n') == lossy_utf8(rest(b, NL)),
    decreases b.len(),
{
    let i = find_sep(b, NL);
    lemma_find_sep(b, NL);
    if i < b.len() {
        let tail = b.skip(i + 1int);
        let l0 = lossy_utf8(b.take(i as int));
        assert(pieces(b, NL) == seq![b.take(i as int)] + pieces(tail, NL));
        assert(pieces(b, NL)[0] == b.take(i as int));
        assert(lacks(l0, '\n'));
        assert forall|p: int| 0 <= p < pieces(tail, NL).len() implies lacks(#[trigger] lossy_utf8(pieces(tail, NL)[p]), '\n') by {
            assert(pieces(b, NL)[p + 1] == pieces(tail, NL)[p]);
        }
        lemma_lossy_split(tail);
        let x = l0.push('\n');
        let t = lossy_by_lines(tail);
        assert(l0 + seq!['\n'] =~= x);
        lemma_split_push(l0, '\n', '\n');
        lemma_split_no_sep(l0, '\n');
        lemma_split_append(x, t, '\n');
        assert(Seq::<char>::empty() + t =~= t);
        assert(pieces(x, '\n') =~= seq![l0]);
        assert(pieces(lossy_by_lines(b), '\n') =~= pieces(b, NL).map_values(|l: Seq<u8>| lossy_utf8(l)));
    } else {
        lemma_split_no_sep(b, NL);
        lemma_split_no_sep(lossy_utf8(b), '\n');
        assert(pieces(b, NL).map_values(|l: Seq<u8>| lossy_utf8(l)) =~= Seq::<Seq<char>>::empty());
    }
}

/// A sequence has a nonempty rest exactly when it does not end with the
/// separator and is not empty.
pub proof fn lemma_rest_nonempty<A>(s: Seq<A>, sep: A)
    ensures
        rest(s, sep).len() > 0 <==> (s.len() > 0 && s.last() != sep),
{
    if s.len() == 0 {
        lemma_split_no_sep(s, sep);
    } else {
        lemma_split_push(s.drop_last(), s.last(), sep);
        assert(s.drop_last().push(s.last()) =~= s);
    }
}

/// Appends one character by `String::push`.
///
/// Trusted: the string afterwards is the old one with `c` at its end.
#[verifier::external_body]
pub(crate) fn push_char(s: &mut String, c: char)
    ensures
        final(s)@ == old(s)@.push(c),
{
    s.push(c)
}

} // verus!
