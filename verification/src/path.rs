//! Unix paths, carried as strings: their components, as `std::path` reads
//! them, and the few path operations the rest of the crate needs.

use vstd::prelude::*;
use crate::lines::{lemma_split_push, pieces, push_char, rest};

verus! {

/// A path component, as a value.
pub enum Comp {
    RootDir,
    CurDir,
    ParentDir,
    Normal(Seq<char>),
}

/// A path component.
#[derive(Debug)]
pub enum PathComponent {
    /// The leading `/`.
    RootDir,
    /// A leading `.`.
    CurDir,
    /// A `..`.
    ParentDir,
    /// A name.
    Normal(String),
}

impl View for PathComponent {
    type V = Comp;

    open spec fn view(&self) -> Comp {
        match self {
            PathComponent::RootDir => Comp::RootDir,
            PathComponent::CurDir => Comp::CurDir,
            PathComponent::ParentDir => Comp::ParentDir,
            PathComponent::Normal(s) => Comp::Normal(s@),
        }
    }
}

/// The values of a list of components.
pub open spec fn comp_views(v: Seq<PathComponent>) -> Seq<Comp> {
    v.map_values(|c: PathComponent| c@)
}

/// `"."`
pub open spec fn dot() -> Seq<char> {
    seq!['.']
}

/// `".."`
pub open spec fn dot_dot() -> Seq<char> {
    seq!['.', '.']
}

/// Whether the path starts at the root.
pub open spec fn is_absolute(s: Seq<char>) -> bool {
    s.len() > 0 && s[0] == '/'
}

/// The pieces of a path between its separators, empty ones included.
pub open spec fn path_parts(s: Seq<char>) -> Seq<Seq<char>> {
    pieces(s, '/').push(rest(s, '/'))
}

/// The components of one piece of a path: the first piece of an absolute
/// path is the root; empty pieces and `.` vanish, but for a leading `.`.
pub open spec fn part_comps(p: Seq<char>, first: bool, root: bool) -> Seq<Comp> {
    if first && root {
        seq![Comp::RootDir]
    } else if p.len() == 0 {
        seq![]
    } else if p == dot() {
        if first {
            seq![Comp::CurDir]
        } else {
            seq![]
        }
    } else if p == dot_dot() {
        seq![Comp::ParentDir]
    } else {
        seq![Comp::Normal(p)]
    }
}

/// The components of a list of pieces.
pub open spec fn comps_of_parts(parts: Seq<Seq<char>>, root: bool) -> Seq<Comp>
    decreases parts.len(),
{
    if parts.len() == 0 {
        seq![]
    } else {
        comps_of_parts(parts.drop_last(), root) + part_comps(parts.last(), parts.len() == 1, root)
    }
}

/// The components of a path, as `std::path::Path::components` yields them
/// on Unix.
pub open spec fn components(s: Seq<char>) -> Seq<Comp> {
    comps_of_parts(path_parts(s), is_absolute(s))
}

/// The names (normal components) among the components.
pub open spec fn names_of(c: Seq<Comp>) -> Seq<Seq<char>>
    decreases c.len(),
{
    if c.len() == 0 {
        seq![]
    } else {
        match c.last() {
            Comp::Normal(n) => names_of(c.drop_last()).push(n),
            _ => names_of(c.drop_last()),
        }
    }
}

/// The names of a path.
pub open spec fn path_names(s: Seq<char>) -> Seq<Seq<char>> {
    names_of(components(s))
}

/// The last component of a path, when it is a name.
pub open spec fn file_name_of(s: Seq<char>) -> Option<Seq<char>> {
    let c = components(s);
    if c.len() > 0 && c.last() is Normal {
        Some(c.last()->Normal_0)
    } else {
        None
    }
}

/// Whether two paths are equal as paths: same components.
pub open spec fn same_path(a: Seq<char>, b: Seq<char>) -> bool {
    components(a) == components(b)
}

/// Classification of a piece: 0 empty, 1 `.`, 2 `..`, 3 anything else.
pub open spec fn piece_kind(p: Seq<char>) -> u8 {
    if p.len() == 0 {
        0
    } else if p == dot() {
        1
    } else if p == dot_dot() {
        2
    } else {
        3
    }
}

proof fn lemma_piece_kind_push(p: Seq<char>, c: char)
    requires
        c != '/',
    ensures
        piece_kind(p.push(c)) == (if c == '.' {
            if piece_kind(p) == 0 {
                1u8
            } else if piece_kind(p) == 1 {
                2u8
            } else {
                3u8
            }
        } else {
            3u8
        }),
{
    let q = p.push(c);
    if p.len() == 0 {
        if c == '.' {
            assert(q =~= dot());
        } else {
            assert(q[0] != dot()[0]);
            assert(q.len() != dot_dot().len());
        }
    } else if p == dot() {
        if c == '.' {
            assert(q =~= dot_dot());
        } else {
            assert(q[1] != dot_dot()[1]);
        }
    } else if p == dot_dot() {
        assert(q.len() == 3);
    } else {
        if p.len() == 1 {
            assert(p[0] != '.') by {
                if p[0] == '.' {
                    assert(p =~= dot());
                }
            }
            assert(q[0] != '.');
            assert(q[0] != dot_dot()[0]);
        } else {
            assert(q.len() >= 3);
        }
    }
}

/// Builds the component for one completed piece.
fn emit_part(
    out: &mut Vec<PathComponent>,
    piece: String,
    kind: u8,
    first: bool,
    root: bool,
)
    requires
        kind == piece_kind(piece@),
    ensures
        comp_views(final(out)@) == comp_views(old(out)@) + part_comps(piece@, first, root),
{
    let ghost before = comp_views(out@);
    if first && root {
        out.push(PathComponent::RootDir);
    } else if kind == 0 {
    } else if kind == 1 {
        if first {
            out.push(PathComponent::CurDir);
        }
    } else if kind == 2 {
        out.push(PathComponent::ParentDir);
    } else {
        out.push(PathComponent::Normal(piece));
    }
    assert(comp_views(out@) =~= before + part_comps(piece@, first, root));
}

/// The components of `path`, as `std::path::Path::components` yields them
/// on Unix.
pub fn path_components(path: &str) -> (out: Vec<PathComponent>)
    ensures
        comp_views(out@) == components(path@),
{
    broadcast use vstd::string::group_string_axioms;
    let root = !path.is_empty() && path.get_char(0) == '/';
    let ghost t = path@;
    let mut out: Vec<PathComponent> = Vec::new();
    let mut piece = String::new();
    let mut kind: u8 = 0;
    let mut first = true;
    let mut seen: Ghost<Seq<char>> = Ghost(Seq::empty());
    assert(t.take(0) =~= Seq::<char>::empty());
    proof {
        crate::lines::lemma_split_no_sep(Seq::<char>::empty(), '/');
    }
    for c in it: path.chars()
        invariant
            it.seq() == t,
            root == is_absolute(t),
            seen@ == t.take(it.index()),
            comp_views(out@) == comps_of_parts(pieces(seen@, '/'), root),
            piece@ == rest(seen@, '/'),
            kind == piece_kind(piece@),
            first == (pieces(seen@, '/').len() == 0),
    {
        proof {
            lemma_split_push(seen@, c, '/');
            assert(t.take(it.index() + 1) =~= seen@.push(c));
        }
        if c == '/' {
            let ghost parts = pieces(seen@, '/');
            emit_part(&mut out, piece, kind, first, root);
            piece = String::new();
            kind = 0;
            first = false;
            proof {
                assert(parts.push(rest(seen@, '/')).drop_last() =~= parts);
                assert(piece@ =~= Seq::<char>::empty());
            }
        } else {
            proof {
                lemma_piece_kind_push(piece@, c);
            }
            kind = if c == '.' {
                if kind == 0 {
                    1
                } else if kind == 1 {
                    2
                } else {
                    3
                }
            } else {
                3
            };
            push_char(&mut piece, c);
        }
        proof {
            seen@ = seen@.push(c);
        }
    }
    proof {
        assert(seen@ =~= t);
        assert(path_parts(t).drop_last() =~= pieces(t, '/'));
    }
    emit_part(&mut out, piece, kind, first, root);
    out
}

/// Whether two components are equal.
pub(crate) fn comp_eq(x: &PathComponent, y: &PathComponent) -> (r: bool)
    ensures
        r == (x@ == y@),
{
    match (x, y) {
        (PathComponent::RootDir, PathComponent::RootDir) => true,
        (PathComponent::CurDir, PathComponent::CurDir) => true,
        (PathComponent::ParentDir, PathComponent::ParentDir) => true,
        (PathComponent::Normal(a), PathComponent::Normal(b)) => String::eq(a, b),
        _ => false,
    }
}

/// Whether two paths are the same path: equal components, as
/// `std::path::Path`'s `==` compares them.
pub fn paths_equal(a: &str, b: &str) -> (r: bool)
    ensures
        r == same_path(a@, b@),
{
    let ca = path_components(a);
    let cb = path_components(b);
    if ca.len() != cb.len() {
        proof {
            assert(comp_views(ca@).len() != comp_views(cb@).len());
        }
        return false;
    }
    let mut i: usize = 0;
    while i < ca.len()
        invariant
            ca@.len() == cb@.len(),
            comp_views(ca@) == components(a@),
            comp_views(cb@) == components(b@),
            0 <= i <= ca@.len(),
            forall|k: int| 0 <= k < i ==> ca@[k]@ == cb@[k]@,
        decreases ca@.len() - i,
    {
        if !comp_eq(&ca[i], &cb[i]) {
            proof {
                assert(comp_views(ca@)[i as int] != comp_views(cb@)[i as int]);
                assert(comp_views(ca@) != comp_views(cb@));
            }
            return false;
        }
        i = i + 1;
    }
    assert(comp_views(ca@) =~= comp_views(cb@));
    true
}

/// The names (normal components) of `path`, in order.
pub fn path_names_of(path: &str) -> (names: Vec<String>)
    ensures
        crate::lines::views(names@) == path_names(path@),
{
    let comps = path_components(path);
    let ghost cs = comp_views(comps@);
    let mut names: Vec<String> = Vec::new();
    let mut i: usize = 0;
    assert(cs.take(0) =~= Seq::<Comp>::empty());
    while i < comps.len()
        invariant
            cs == comp_views(comps@),
            0 <= i <= comps@.len(),
            crate::lines::views(names@) == names_of(cs.take(i as int)),
        decreases comps@.len() - i,
    {
        let ghost before = names@;
        match &comps[i] {
            PathComponent::Normal(n) => {
                names.push(n.clone());
            },
            _ => {},
        }
        proof {
            assert(cs.take(i + 1).drop_last() =~= cs.take(i as int));
            assert(crate::lines::views(names@) =~= names_of(cs.take(i + 1)));
        }
        i = i + 1;
    }
    assert(cs.take(comps@.len() as int) =~= cs);
    names
}

/// The last component of `path` when it is a name, as
/// `std::path::Path::file_name` gives it.
pub fn file_name(path: &str) -> (name: Option<String>)
    ensures
        name matches Some(n) ==> file_name_of(path@) == Some(n@),
        name is None ==> file_name_of(path@) is None,
{
    let comps = path_components(path);
    let n = comps.len();
    if n == 0 {
        return None;
    }
    proof {
        assert(comp_views(comps@).last() == comps@[n - 1]@);
    }
    match &comps[n - 1] {
        PathComponent::Normal(s) => Some(s.clone()),
        _ => None,
    }
}

/// The text of a component.
pub open spec fn comp_text(c: Comp) -> Seq<char> {
    match c {
        Comp::RootDir => seq!['/'],
        Comp::CurDir => dot(),
        Comp::ParentDir => dot_dot(),
        Comp::Normal(n) => n,
    }
}

/// A path with `t` pushed onto it, as `std::path::PathBuf::push` does on
/// Unix: an absolute `t` replaces the path, otherwise a separator is put
/// between them unless the path is empty or already ends with one.
pub open spec fn push_text(buf: Seq<char>, t: Seq<char>) -> Seq<char> {
    if is_absolute(t) {
        t
    } else if buf.len() == 0 || buf.last() == '/' {
        buf + t
    } else {
        buf + seq!['/'] + t
    }
}

/// The path built by pushing the components' texts, one by one, onto an
/// empty path.
pub open spec fn render(cs: Seq<Comp>) -> Seq<char>
    decreases cs.len(),
{
    if cs.len() == 0 {
        seq![]
    } else {
        push_text(render(cs.drop_last()), comp_text(cs.last()))
    }
}

/// The parent of a path, as `std::path::Path::parent` gives it: the path
/// without its last component, unless there is none or it is the root.
pub open spec fn parent_of(s: Seq<char>) -> Option<Seq<char>> {
    let c = components(s);
    if c.len() > 0 && !(c.last() is RootDir) {
        Some(render(c.drop_last()))
    } else {
        None
    }
}

/// The text of a component.
fn component_text(c: &PathComponent) -> (t: String)
    ensures
        t@ == comp_text(c@),
{
    match c {
        PathComponent::RootDir => {
            let t = String::from_str("/");
            proof {
                reveal_strlit("/");
            }
            t
        },
        PathComponent::CurDir => {
            let t = String::from_str(".");
            proof {
                reveal_strlit(".");
            }
            assert(t@ =~= dot());
            t
        },
        PathComponent::ParentDir => {
            let t = String::from_str("..");
            proof {
                reveal_strlit("..");
            }
            assert(t@ =~= dot_dot());
            t
        },
        PathComponent::Normal(n) => n.clone(),
    }
}

/// Whether a string ends with `/`.
fn ends_with_slash(s: &String) -> (r: bool)
    ensures
        r == (s@.len() > 0 && s@.last() == '/'),
{
    let n = s.as_str().unicode_len();
    n > 0 && s.as_str().get_char(n - 1) == '/'
}

/// Pushes `t` onto the path `buf`, as `std::path::PathBuf::push` does.
pub(crate) fn push_path(buf: &mut String, t: &String)
    ensures
        final(buf)@ == push_text(old(buf)@, t@),
{
    let absolute = !t.as_str().is_empty() && t.as_str().get_char(0) == '/';
    if absolute {
        *buf = t.clone();
    } else if buf.as_str().is_empty() || ends_with_slash(buf) {
        buf.append(t.as_str());
    } else {
        buf.append("/");
        buf.append(t.as_str());
        proof {
            reveal_strlit("/");
        }
        assert(buf@ =~= push_text(old(buf)@, t@));
    }
}

/// The path made of the first `n` of the components.
pub fn render_components(cs: &Vec<PathComponent>, n: usize) -> (path: String)
    requires
        n <= cs@.len(),
    ensures
        path@ == render(comp_views(cs@).take(n as int)),
{
    let ghost v = comp_views(cs@);
    let mut path = String::new();
    let mut i: usize = 0;
    assert(v.take(0) =~= Seq::<Comp>::empty());
    while i < n
        invariant
            n <= cs@.len(),
            v == comp_views(cs@),
            0 <= i <= n,
            path@ == render(v.take(i as int)),
        decreases n - i,
    {
        let t = component_text(&cs[i]);
        push_path(&mut path, &t);
        proof {
            assert(v.take(i + 1).drop_last() =~= v.take(i as int));
        }
        i = i + 1;
    }
    path
}

/// The parent of `path`, as `std::path::Path::parent` gives it: `None` for
/// the empty path and the root.
pub fn parent(path: &str) -> (p: Option<String>)
    ensures
        p matches Some(q) ==> parent_of(path@) == Some(q@),
        p is None ==> parent_of(path@) is None,
{
    let cs = path_components(path);
    let n = cs.len();
    if n == 0 {
        return None;
    }
    proof {
        assert(comp_views(cs@).last() == cs@[n - 1]@);
        assert(comp_views(cs@).take(n - 1) =~= comp_views(cs@).drop_last());
    }
    match &cs[n - 1] {
        PathComponent::RootDir => None,
        _ => Some(render_components(&cs, n - 1)),
    }
}

/// Lexicographic order of texts by code point (for UTF-8 text, the byte
/// order that `OsStr` compares by).
pub open spec fn chars_lt(a: Seq<char>, b: Seq<char>) -> bool
    decreases a.len(),
{
    if a.len() == 0 {
        b.len() > 0
    } else if b.len() == 0 {
        false
    } else if a[0] != b[0] {
        (a[0] as int) < (b[0] as int)
    } else {
        chars_lt(a.drop_first(), b.drop_first())
    }
}

/// The rank of a component kind in `std::path::Component`'s order.
pub open spec fn comp_rank(c: Comp) -> int {
    match c {
        Comp::RootDir => 0,
        Comp::CurDir => 1,
        Comp::ParentDir => 2,
        Comp::Normal(_) => 3,
    }
}

/// The order of components: by kind, then names by text.
pub open spec fn comp_lt(x: Comp, y: Comp) -> bool {
    match (x, y) {
        (Comp::Normal(a), Comp::Normal(b)) => chars_lt(a, b),
        _ => comp_rank(x) < comp_rank(y),
    }
}

/// Lexicographic order of component sequences.
pub open spec fn comps_lt(a: Seq<Comp>, b: Seq<Comp>) -> bool
    decreases a.len(),
{
    if a.len() == 0 {
        b.len() > 0
    } else if b.len() == 0 {
        false
    } else if a[0] != b[0] {
        comp_lt(a[0], b[0])
    } else {
        comps_lt(a.drop_first(), b.drop_first())
    }
}

/// The order of paths, as `std::path::Path` orders them: by components.
pub open spec fn path_lt(a: Seq<char>, b: Seq<char>) -> bool {
    comps_lt(components(a), components(b))
}

proof fn lemma_chars_lt_irrefl(a: Seq<char>)
    ensures
        !chars_lt(a, a),
    decreases a.len(),
{
    if a.len() > 0 {
        lemma_chars_lt_irrefl(a.drop_first());
    }
}

proof fn lemma_chars_lt_total(a: Seq<char>, b: Seq<char>)
    ensures
        a != b ==> chars_lt(a, b) || chars_lt(b, a),
        chars_lt(a, b) ==> !chars_lt(b, a),
    decreases a.len(),
{
    if a.len() == 0 && b.len() == 0 {
        assert(a =~= b);
    } else if a.len() > 0 && b.len() > 0 {
        if a[0] == b[0] {
            lemma_chars_lt_total(a.drop_first(), b.drop_first());
            if a.drop_first() == b.drop_first() {
                assert(a =~= seq![a[0]] + a.drop_first());
                assert(b =~= seq![b[0]] + b.drop_first());
            }
        }
    }
}

proof fn lemma_chars_lt_trans(a: Seq<char>, b: Seq<char>, c: Seq<char>)
    ensures
        chars_lt(a, b) && chars_lt(b, c) ==> chars_lt(a, c),
    decreases a.len(),
{
    if a.len() > 0 && b.len() > 0 && c.len() > 0 && a[0] == b[0] && b[0] == c[0] {
        lemma_chars_lt_trans(a.drop_first(), b.drop_first(), c.drop_first());
    }
}

/// The text order is a strict total order.
pub proof fn lemma_chars_lt_order(a: Seq<char>, b: Seq<char>, c: Seq<char>)
    ensures
        !chars_lt(a, a),
        chars_lt(a, b) && chars_lt(b, c) ==> chars_lt(a, c),
        a != b ==> chars_lt(a, b) || chars_lt(b, a),
        chars_lt(a, b) ==> !chars_lt(b, a),
{
    lemma_chars_lt_irrefl(a);
    lemma_chars_lt_total(a, b);
    lemma_chars_lt_trans(a, b, c);
}

/// The component order is a strict total order.
pub proof fn lemma_comp_lt_order(x: Comp, y: Comp, z: Comp)
    ensures
        !comp_lt(x, x),
        comp_lt(x, y) && comp_lt(y, z) ==> comp_lt(x, z),
        x != y ==> comp_lt(x, y) || comp_lt(y, x),
        comp_lt(x, y) ==> !comp_lt(y, x),
{
    match (x, y, z) {
        (Comp::Normal(a), Comp::Normal(b), Comp::Normal(c)) => {
            lemma_chars_lt_order(a, b, c);
        },
        (Comp::Normal(a), Comp::Normal(b), _) => {
            lemma_chars_lt_order(a, b, b);
        },
        (Comp::Normal(a), _, _) => {
            lemma_chars_lt_order(a, a, a);
        },
        (_, Comp::Normal(b), _) => {
            lemma_chars_lt_order(b, b, b);
        },
        _ => {},
    }
}

proof fn lemma_comps_lt_irrefl(a: Seq<Comp>)
    ensures
        !comps_lt(a, a),
    decreases a.len(),
{
    if a.len() > 0 {
        lemma_comps_lt_irrefl(a.drop_first());
    }
}

proof fn lemma_comps_lt_total(a: Seq<Comp>, b: Seq<Comp>)
    ensures
        a != b ==> comps_lt(a, b) || comps_lt(b, a),
        comps_lt(a, b) ==> !comps_lt(b, a),
    decreases a.len(),
{
    if a.len() == 0 && b.len() == 0 {
        assert(a =~= b);
    } else if a.len() > 0 && b.len() > 0 {
        lemma_comp_lt_order(a[0], b[0], b[0]);
        if a[0] == b[0] {
            lemma_comps_lt_total(a.drop_first(), b.drop_first());
            if a.drop_first() == b.drop_first() {
                assert(a =~= seq![a[0]] + a.drop_first());
                assert(b =~= seq![b[0]] + b.drop_first());
            }
        }
    }
}

proof fn lemma_comps_lt_trans(a: Seq<Comp>, b: Seq<Comp>, c: Seq<Comp>)
    ensures
        comps_lt(a, b) && comps_lt(b, c) ==> comps_lt(a, c),
    decreases a.len(),
{
    if a.len() > 0 && b.len() > 0 && c.len() > 0 {
        lemma_comp_lt_order(a[0], b[0], c[0]);
        lemma_comp_lt_order(a[0], c[0], b[0]);
        if a[0] == b[0] && b[0] == c[0] {
            lemma_comps_lt_trans(a.drop_first(), b.drop_first(), c.drop_first());
        }
    }
}

/// The path order is a strict total order on component sequences.
pub proof fn lemma_comps_lt_order(a: Seq<Comp>, b: Seq<Comp>, c: Seq<Comp>)
    ensures
        !comps_lt(a, a),
        comps_lt(a, b) && comps_lt(b, c) ==> comps_lt(a, c),
        a != b ==> comps_lt(a, b) || comps_lt(b, a),
        comps_lt(a, b) ==> !comps_lt(b, a),
{
    lemma_comps_lt_irrefl(a);
    lemma_comps_lt_total(a, b);
    lemma_comps_lt_trans(a, b, c);
}

/// Lexicographic comparison of texts.
fn text_less(a: &String, b: &String) -> (r: bool)
    ensures
        r == chars_lt(a@, b@),
{
    let n = a.as_str().unicode_len();
    let m = b.as_str().unicode_len();
    let mut i: usize = 0;
    assert(a@.skip(0) =~= a@);
    assert(b@.skip(0) =~= b@);
    while i < n && i < m
        invariant
            n == a@.len(),
            m == b@.len(),
            0 <= i <= n,
            i <= m,
            forall|k: int| 0 <= k < i ==> a@[k] == b@[k],
            chars_lt(a@, b@) == chars_lt(a@.skip(i as int), b@.skip(i as int)),
        decreases n - i,
    {
        let x = a.as_str().get_char(i);
        let y = b.as_str().get_char(i);
        if x != y {
            proof {
                assert(a@.skip(i as int)[0] == x);
                assert(b@.skip(i as int)[0] == y);
            }
            return (x as u32) < (y as u32);
        }
        proof {
            assert(a@.skip(i as int).drop_first() =~= a@.skip(i + 1));
            assert(b@.skip(i as int).drop_first() =~= b@.skip(i + 1));
        }
        i = i + 1;
    }
    proof {
        if i == n {
            assert(a@.skip(i as int).len() == 0);
        }
    }
    i == n && i < m
}

/// Whether a component comes before another.
fn component_less(x: &PathComponent, y: &PathComponent) -> (r: bool)
    ensures
        r == comp_lt(x@, y@),
{
    match (x, y) {
        (PathComponent::Normal(a), PathComponent::Normal(b)) => text_less(a, b),
        _ => {
            let rx: u8 = match x {
                PathComponent::RootDir => 0,
                PathComponent::CurDir => 1,
                PathComponent::ParentDir => 2,
                PathComponent::Normal(_) => 3,
            };
            let ry: u8 = match y {
                PathComponent::RootDir => 0,
                PathComponent::CurDir => 1,
                PathComponent::ParentDir => 2,
                PathComponent::Normal(_) => 3,
            };
            rx < ry
        },
    }
}

/// Whether path `a` comes before path `b`, as `std::path::Path`'s order
/// has it: components compared in turn.
pub fn path_less(a: &str, b: &str) -> (r: bool)
    ensures
        r == path_lt(a@, b@),
{
    let ca = path_components(a);
    let cb = path_components(b);
    let ghost va = comp_views(ca@);
    let ghost vb = comp_views(cb@);
    let n = ca.len();
    let m = cb.len();
    let mut i: usize = 0;
    assert(va.skip(0) =~= va);
    assert(vb.skip(0) =~= vb);
    while i < n && i < m
        invariant
            va == comp_views(ca@),
            vb == comp_views(cb@),
            va == components(a@),
            vb == components(b@),
            n == ca@.len(),
            m == cb@.len(),
            0 <= i <= n,
            i <= m,
            comps_lt(va, vb) == comps_lt(va.skip(i as int), vb.skip(i as int)),
        decreases n - i,
    {
        proof {
            assert(va.skip(i as int)[0] == ca@[i as int]@);
            assert(vb.skip(i as int)[0] == cb@[i as int]@);
        }
        if !comp_eq(&ca[i], &cb[i]) {
            return component_less(&ca[i], &cb[i]);
        }
        proof {
            assert(va.skip(i as int).drop_first() =~= va.skip(i + 1));
            assert(vb.skip(i as int).drop_first() =~= vb.skip(i + 1));
        }
        i = i + 1;
    }
    proof {
        if i == n {
            assert(va.skip(i as int).len() == 0);
        }
    }
    i == n && i < m
}

} // verus!
