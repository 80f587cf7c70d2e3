//! Watch planning: which inputs are globs, which directories to watch,
//! which new paths match the inputs, and the coordinator's decisions on
//! attaching and waking per-file workers.

use vstd::prelude::*;
use crate::cli::Config;
use crate::follow::StartMode;
use crate::output::{entry_label, fresh_label, LabelRegistry, RegistryModel};
use crate::path::{
    comp_text, comp_views, components, parent, parent_of, path_components, paths_equal,
    render, render_components, same_path, Comp, PathComponent,
};

verus! {

/// A glob metacharacter.
pub open spec fn is_magic(c: char) -> bool {
    c == '*' || c == '?' || c == '[' || c == ']'
}

/// Whether a text holds a glob metacharacter.
pub open spec fn has_magic(s: Seq<char>) -> bool {
    exists|i: int| 0 <= i < s.len() && is_magic(#[trigger] s[i])
}

/// Whether `input` holds a glob metacharacter (`*`, `?`, `[` or `]`).
pub fn has_glob_magic(input: &str) -> (r: bool)
    ensures
        r == has_magic(input@),
{
    broadcast use vstd::string::group_string_axioms;
    let ghost t = input@;
    let mut found = false;
    for c in it: input.chars()
        invariant
            it.seq() == t,
            found == exists|i: int| 0 <= i < it.index() && is_magic(#[trigger] t[i]),
    {
        if c == '*' || c == '?' || c == '[' || c == ']' {
            found = true;
        }
        proof {
            assert(c == t[it.index()]);
        }
    }
    found
}

/// Index of the first component whose text holds a metacharacter, or the
/// number of components when none does.
pub open spec fn first_magic(cs: Seq<Comp>) -> nat
    decreases cs.len(),
{
    if cs.len() == 0 {
        0
    } else if has_magic(comp_text(cs[0])) {
        0
    } else {
        1 + first_magic(cs.drop_first())
    }
}

/// An empty path stands for the current directory.
pub open spec fn or_dot(p: Seq<char>) -> Seq<char> {
    if p.len() == 0 {
        seq!['.']
    } else {
        p
    }
}

/// The anchor of a glob: the path of its components before the first one
/// with a metacharacter (`.` when there are none).
pub open spec fn anchor_of(s: Seq<char>) -> Seq<char> {
    let cs = components(s);
    or_dot(render(cs.take(first_magic(cs) as int)))
}

/// The directory watched for an input: for a glob, its anchor when the
/// anchor is a directory, else the anchor's parent; for a literal path, its
/// parent. An empty result stands for the current directory.
pub open spec fn watch_root_of(input: Seq<char>, anchor_is_dir: bool) -> Seq<char> {
    if has_magic(input) {
        let a = anchor_of(input);
        if anchor_is_dir {
            or_dot(a)
        } else {
            match parent_of(a) {
                Some(p) => or_dot(p),
                None => or_dot(a),
            }
        }
    } else {
        match parent_of(input) {
            Some(p) => or_dot(p),
            None => seq!['.'],
        }
    }
}

proof fn lemma_first_magic(cs: Seq<Comp>)
    ensures
        first_magic(cs) <= cs.len(),
        forall|j: int| 0 <= j < first_magic(cs) ==> !has_magic(comp_text(#[trigger] cs[j])),
        first_magic(cs) < cs.len() ==> has_magic(comp_text(cs[first_magic(cs) as int])),
    decreases cs.len(),
{
    if cs.len() > 0 && !has_magic(comp_text(cs[0])) {
        let t = cs.drop_first();
        lemma_first_magic(t);
        assert forall|j: int| 0 <= j < first_magic(cs) implies !has_magic(comp_text(#[trigger] cs[j])) by {
            if j > 0 {
                assert(cs[j] == t[j - 1]);
            }
        }
        if first_magic(cs) < cs.len() {
            assert(cs[first_magic(cs) as int] == t[first_magic(t) as int]);
        }
    }
}

/// Whether a component's text holds a metacharacter.
fn component_has_magic(c: &PathComponent) -> (r: bool)
    ensures
        r == has_magic(comp_text(c@)),
{
    match c {
        PathComponent::Normal(n) => has_glob_magic(n.as_str()),
        PathComponent::RootDir => {
            proof {
                assert(!is_magic(comp_text(c@)[0]));
            }
            false
        },
        PathComponent::CurDir => {
            proof {
                assert(!is_magic(comp_text(c@)[0]));
            }
            false
        },
        PathComponent::ParentDir => {
            proof {
                assert(!is_magic(comp_text(c@)[0]));
                assert(!is_magic(comp_text(c@)[1]));
            }
            false
        },
    }
}

/// An empty path stands for the current directory.
fn dot_if_empty(p: String) -> (r: String)
    ensures
        r@ == or_dot(p@),
{
    if p.as_str().is_empty() {
        let d = String::from_str(".");
        proof {
            reveal_strlit(".");
        }
        assert(d@ =~= seq!['.']);
        d
    } else {
        p
    }
}

/// The anchor of a glob pattern: its leading components that hold no
/// metacharacter, as a path (`.` when there are none).
pub fn glob_anchor(path: &str) -> (anchor: String)
    ensures
        anchor@ == anchor_of(path@),
{
    let cs = path_components(path);
    let ghost v = comp_views(cs@);
    let mut k: usize = 0;
    while k < cs.len() && !component_has_magic(&cs[k])
        invariant
            v == comp_views(cs@),
            0 <= k <= cs@.len(),
            forall|j: int| 0 <= j < k ==> !has_magic(comp_text(#[trigger] v[j])),
        decreases cs@.len() - k,
    {
        k = k + 1;
    }
    proof {
        lemma_first_magic(v);
        if k < cs@.len() {
            assert(has_magic(comp_text(v[k as int])));
        }
        assert(first_magic(v) == k);
    }
    dot_if_empty(render_components(&cs, k))
}

/// Whether a component's text is `**`.
fn is_double_star(c: &PathComponent) -> (r: bool)
    ensures
        r == (comp_text(c@) == double_star()),
{
    match c {
        PathComponent::Normal(n) => {
            let t = n.as_str();
            let r = t.unicode_len() == 2 && t.get_char(0) == '*' && t.get_char(1) == '*';
            proof {
                if r {
                    assert(n@ =~= double_star());
                }
            }
            r
        },
        _ => {
            proof {
                assert(comp_text(c@)[0] != '*' || comp_text(c@).len() != 2);
            }
            false
        },
    }
}

/// Whether a glob has wildcards in a directory component, or a `**`.
pub fn has_nested_magic(input: &str) -> (r: bool)
    ensures
        r == nested_magic(input@),
{
    let cs = path_components(input);
    let ghost v = comp_views(cs@);
    let mut k: usize = 0;
    while k < cs.len() && !component_has_magic(&cs[k])
        invariant
            v == comp_views(cs@),
            0 <= k <= cs@.len(),
            forall|j: int| 0 <= j < k ==> !has_magic(comp_text(#[trigger] v[j])),
        decreases cs@.len() - k,
    {
        k = k + 1;
    }
    proof {
        lemma_first_magic(v);
        if k < cs@.len() {
            assert(has_magic(comp_text(v[k as int])));
        }
        assert(first_magic(v) == k);
    }
    if k < cs.len() && k + 1 < cs.len() {
        true
    } else if k < cs.len() {
        is_double_star(&cs[k])
    } else {
        false
    }
}

/// A watch root with the empty path replaced by the current directory.
pub fn normalize_root(root: String) -> (r: String)
    ensures
        r@ == or_dot(root@),
{
    dot_if_empty(root)
}

/// The directory to watch for `input`. For a glob, `anchor_is_dir` tells
/// whether its anchor (`glob_anchor(input)`) is a directory.
pub fn watch_root_for_input(input: &str, anchor_is_dir: bool) -> (root: String)
    ensures
        root@ == watch_root_of(input@, anchor_is_dir),
{
    if has_glob_magic(input) {
        let anchor = glob_anchor(input);
        if anchor_is_dir {
            normalize_root(anchor)
        } else {
            match parent(anchor.as_str()) {
                Some(p) => normalize_root(p),
                None => normalize_root(anchor),
            }
        }
    } else {
        match parent(input) {
            Some(p) => normalize_root(p),
            None => {
                let d = String::from_str(".");
                proof {
                    reveal_strlit(".");
                }
                assert(d@ =~= seq!['.']);
                d
            },
        }
    }
}

#[verifier::external_type_specification]
#[verifier::external_body]
pub struct ExPatternError(glob::PatternError);

/// Whether `glob::Pattern::new` accepts a pattern.
pub uninterp spec fn glob_pattern_ok(pattern: Seq<char>) -> bool;

/// Whether a valid glob pattern matches a text, as `glob::Pattern::matches`
/// decides with the default options.
pub uninterp spec fn glob_matches(pattern: Seq<char>, text: Seq<char>) -> bool;

/// Compiles `pattern` by `glob::Pattern::new`, keeping only whether it
/// compiled. Trusted: the result is `Ok` exactly when the pattern is
/// accepted (`glob_pattern_ok`); which patterns are accepted, and the
/// error's position and message, are left to the glob crate.
#[verifier::external_body]
fn check_glob(pattern: &str) -> (r: Result<(), glob::PatternError>)
    ensures
        r is Ok <==> glob_pattern_ok(pattern@),
{
    match glob::Pattern::new(pattern) {
        Ok(_) => Ok(()),
        Err(e) => Err(e),
    }
}

/// Matches `text` against `pattern` by `glob::Pattern::matches`, after
/// compiling the pattern with `glob::Pattern::new`. Trusted: for an
/// accepted pattern the result is `glob_matches` of the two texts; a
/// pattern that does not compile matches nothing. What a pattern matches is
/// left to the name.
#[verifier::external_body]
fn pattern_matches(pattern: &str, text: &str) -> (r: bool)
    ensures
        glob_pattern_ok(pattern@) ==> r == glob_matches(pattern@, text@),
        !glob_pattern_ok(pattern@) ==> !r,
{
    match glob::Pattern::new(pattern) {
        Ok(p) => p.matches(text),
        Err(_) => false,
    }
}

/// How an input selects files.
#[derive(Debug)]
pub enum SpecKind {
    /// One path.
    Literal(String),
    /// A glob pattern.
    Glob(String),
}

/// One input, ready for matching paths found later.
#[derive(Debug)]
pub struct WatchSpec {
    pub kind: SpecKind,
    /// The directory watched for it.
    pub root: String,
    /// Whether that directory is watched with its subdirectories.
    pub recursive: bool,
}

/// The model of a watch spec.
pub struct WatchSpecModel {
    pub glob: bool,
    pub text: Seq<char>,
    pub root: Seq<char>,
    pub recursive: bool,
}

impl View for WatchSpec {
    type V = WatchSpecModel;

    open spec fn view(&self) -> WatchSpecModel {
        match &self.kind {
            SpecKind::Literal(t) => WatchSpecModel { glob: false, text: t@, root: self.root@, recursive: self.recursive },
            SpecKind::Glob(t) => WatchSpecModel { glob: true, text: t@, root: self.root@, recursive: self.recursive },
        }
    }
}

/// Why the inputs cannot be watched.
#[derive(Debug)]
pub enum WatchError {
    /// An input with glob metacharacters is not a valid pattern.
    InvalidGlob { input: String, error: glob::PatternError },
}

/// The spec an input becomes.
pub open spec fn spec_of(input: Seq<char>, anchor_is_dir: bool) -> WatchSpecModel {
    WatchSpecModel {
        glob: has_magic(input),
        text: input,
        root: watch_root_of(input, anchor_is_dir),
        recursive: recursive_of(input, anchor_is_dir),
    }
}

/// `"**"`
pub open spec fn double_star() -> Seq<char> {
    seq!['*', '*']
}

/// Whether a glob has wildcards in a directory component, or a `**`.
pub open spec fn nested_magic(input: Seq<char>) -> bool {
    let cs = components(input);
    let k = first_magic(cs);
    k + 1 < cs.len() || (k < cs.len() && comp_text(cs[k as int]) == double_star())
}

/// Whether an input's root is watched with its subdirectories: only for a
/// glob with wildcards in a directory component or a `**`, or whose anchor
/// is not a directory (so that its root lies above the anchor). Literal
/// paths and simple globs watch their directory alone.
pub open spec fn recursive_of(input: Seq<char>, anchor_is_dir: bool) -> bool {
    has_magic(input) && (!anchor_is_dir || nested_magic(input))
}

/// An input that looks like a glob but does not compile.
pub open spec fn bad_glob(input: Seq<char>) -> bool {
    has_magic(input) && !glob_pattern_ok(input)
}

/// Whether a spec matches a path. A glob matches by its pattern; a literal
/// matches when the path's key equals the key of its own path
/// (`expected_key`; keys are canonical paths where they exist).
pub open spec fn spec_matches(
    spec: WatchSpecModel,
    path: Seq<char>,
    path_key: Seq<char>,
    expected_key: Seq<char>,
) -> bool {
    if spec.glob {
        glob_pattern_ok(spec.text) && glob_matches(spec.text, path)
    } else {
        same_path(path_key, expected_key)
    }
}

impl WatchSpec {
    /// Whether this spec matches `path`, whose key is `path_key`. For a
    /// literal spec, `expected_key` is the key of the literal's path.
    pub fn matches(&self, path: &str, path_key: &str, expected_key: &str) -> (r: bool)
        ensures
            r == spec_matches(self@, path@, path_key@, expected_key@),
    {
        match &self.kind {
            SpecKind::Literal(_) => paths_equal(path_key, expected_key),
            SpecKind::Glob(pattern) => pattern_matches(pattern.as_str(), path),
        }
    }
}

/// Turns each input into a spec: a glob (when it has metacharacters) or a
/// literal path, with the directory to watch for it. `anchors_are_dirs[i]`
/// tells whether the anchor of input `i` is a directory. Fails on the first
/// input with metacharacters that is not a valid glob pattern.
pub fn parse_specs(inputs: &Vec<String>, anchors_are_dirs: &Vec<bool>) -> (r: Result<Vec<WatchSpec>, WatchError>)
    requires
        anchors_are_dirs@.len() == inputs@.len(),
    ensures
        r is Ok <==> forall|i: int| 0 <= i < inputs@.len() ==> !bad_glob(#[trigger] inputs@[i]@),
        r matches Ok(specs) ==> specs@.len() == inputs@.len() && forall|i: int| 0 <= i < inputs@.len()
            ==> #[trigger] specs@[i]@ == spec_of(inputs@[i]@, anchors_are_dirs@[i]),
        r matches Err(WatchError::InvalidGlob { input, .. }) ==> exists|k: int| 0 <= k < inputs@.len()
            && #[trigger] inputs@[k]@ == input@ && bad_glob(input@)
            && forall|j: int| 0 <= j < k ==> !bad_glob(#[trigger] inputs@[j]@),
{
    let mut specs: Vec<WatchSpec> = Vec::new();
    let mut i: usize = 0;
    while i < inputs.len()
        invariant
            anchors_are_dirs@.len() == inputs@.len(),
            0 <= i <= inputs@.len(),
            specs@.len() == i,
            forall|k: int| 0 <= k < i ==> !bad_glob(#[trigger] inputs@[k]@),
            forall|k: int| 0 <= k < i ==> #[trigger] specs@[k]@ == spec_of(inputs@[k]@, anchors_are_dirs@[k]),
        decreases inputs@.len() - i,
    {
        let input = &inputs[i];
        let magic = has_glob_magic(input.as_str());
        let kind = if magic {
            match check_glob(input.as_str()) {
                Ok(()) => SpecKind::Glob(input.clone()),
                Err(e) => {
                    return Err(WatchError::InvalidGlob { input: input.clone(), error: e });
                },
            }
        } else {
            SpecKind::Literal(input.clone())
        };
        let root = watch_root_for_input(input.as_str(), anchors_are_dirs[i]);
        let recursive = magic && (!anchors_are_dirs[i] || has_nested_magic(input.as_str()));
        specs.push(WatchSpec { kind, root, recursive });
        i = i + 1;
    }
    Ok(specs)
}

/// A path with its key: its canonical path where it has one.
#[derive(Debug)]
pub struct KeyedPath {
    pub path: String,
    pub key: String,
}

/// A path named by a filesystem event, with its key and, for each spec in
/// order, the key of that spec's literal path (any text for a glob spec).
#[derive(Debug)]
pub struct EventPath {
    pub path: String,
    pub key: String,
    pub literal_keys: Vec<String>,
}

/// A worker to start.
#[derive(Debug)]
pub struct Attachment {
    pub key: String,
    pub path: String,
    pub label: String,
    pub start_mode: StartMode,
}

/// What the coordinator does for one event path.
#[derive(Debug)]
pub enum EventAction {
    /// Wake the worker attached at this position (in order of attachment).
    Wake(usize),
    /// Start a worker.
    Attach(Attachment),
}

/// The model of an attachment.
pub struct AttachModel {
    pub key: Seq<char>,
    pub path: Seq<char>,
    pub label: Seq<char>,
    pub start_mode: StartMode,
}

/// The model of an event action.
pub enum ActionModel {
    Wake(nat),
    Attach(AttachModel),
}

impl View for Attachment {
    type V = AttachModel;

    open spec fn view(&self) -> AttachModel {
        AttachModel { key: self.key@, path: self.path@, label: self.label@, start_mode: self.start_mode }
    }
}

impl View for EventAction {
    type V = ActionModel;

    open spec fn view(&self) -> ActionModel {
        match self {
            EventAction::Wake(i) => ActionModel::Wake(*i as nat),
            EventAction::Attach(a) => ActionModel::Attach(a@),
        }
    }
}

/// The model of an event path.
pub struct EventModel {
    pub path: Seq<char>,
    pub key: Seq<char>,
    pub literal_keys: Seq<Seq<char>>,
}

impl View for EventPath {
    type V = EventModel;

    open spec fn view(&self) -> EventModel {
        EventModel {
            path: self.path@,
            key: self.key@,
            literal_keys: crate::lines::views(self.literal_keys@),
        }
    }
}

/// The model of the coordinator.
pub struct CoordModel {
    pub since_now: bool,
    pub lines: usize,
    pub specs: Seq<WatchSpecModel>,
    pub registry: RegistryModel,
    /// Keys of the files that have a worker, in order of attachment.
    pub attached: Seq<Seq<char>>,
    /// Directories being watched.
    pub roots: Seq<Seq<char>>,
}

/// Whether some path of `ks` is the same path as `k`.
pub open spec fn holds_path(ks: Seq<Seq<char>>, k: Seq<char>) -> bool {
    exists|i: int| 0 <= i < ks.len() && same_path(#[trigger] ks[i], k)
}

/// Position of the first path of `ks` that is the same path as `k`, or
/// the length when there is none.
pub open spec fn key_index(ks: Seq<Seq<char>>, k: Seq<char>) -> nat
    decreases ks.len(),
{
    if ks.len() == 0 {
        0
    } else if same_path(ks[0], k) {
        0
    } else {
        1 + key_index(ks.drop_first(), k)
    }
}

proof fn lemma_key_index(ks: Seq<Seq<char>>, k: Seq<char>)
    ensures
        key_index(ks, k) <= ks.len(),
        forall|j: int| 0 <= j < key_index(ks, k) ==> !same_path(#[trigger] ks[j], k),
        key_index(ks, k) < ks.len() ==> same_path(ks[key_index(ks, k) as int], k),
        holds_path(ks, k) <==> key_index(ks, k) < ks.len(),
    decreases ks.len(),
{
    if ks.len() > 0 && !same_path(ks[0], k) {
        let t = ks.drop_first();
        lemma_key_index(t, k);
        assert forall|j: int| 0 <= j < key_index(ks, k) implies !same_path(#[trigger] ks[j], k) by {
            if j > 0 {
                assert(ks[j] == t[j - 1]);
            }
        }
        if key_index(ks, k) < ks.len() {
            assert(ks[key_index(ks, k) as int] == t[key_index(t, k) as int]);
        }
        if holds_path(ks, k) {
            let i = choose|i: int| 0 <= i < ks.len() && same_path(#[trigger] ks[i], k);
            assert(i > 0);
            assert(t[i - 1] == ks[i]);
        }
        if holds_path(t, k) {
            let i = choose|i: int| 0 <= i < t.len() && same_path(#[trigger] t[i], k);
            assert(ks[i + 1] == t[i]);
        }
    }
}

/// No two paths of `ks` are the same path.
pub open spec fn distinct_paths(ks: Seq<Seq<char>>) -> bool {
    forall|i: int, j: int| 0 <= i < j < ks.len() ==> !same_path(#[trigger] ks[i], #[trigger] ks[j])
}

/// The label a registry gives `path`, and the registry after.
pub open spec fn allocate_model(r: RegistryModel, path: Seq<char>) -> (RegistryModel, Seq<char>) {
    match entry_label(r.entries, path) {
        Some(l) => (r, l),
        None => {
            let l = fresh_label(r.entries, r.mode, r.cwd, path);
            (RegistryModel { entries: r.entries.push((path, l)), ..r }, l)
        },
    }
}

/// Attaching `path` under `key`: nothing when a worker has that key
/// already, else a labeled attachment, with the key recorded.
pub open spec fn attach_model(m: CoordModel, path: Seq<char>, key: Seq<char>, mode: StartMode) -> (CoordModel, Option<AttachModel>) {
    if holds_path(m.attached, key) {
        (m, None)
    } else {
        let (r, label) = allocate_model(m.registry, path);
        (
            CoordModel { registry: r, attached: m.attached.push(key), ..m },
            Some(AttachModel { key, path, label, start_mode: mode }),
        )
    }
}

/// Whether some spec matches an event path.
pub open spec fn any_spec_matches(specs: Seq<WatchSpecModel>, e: EventModel) -> bool {
    exists|i: int| 0 <= i < specs.len() && spec_matches(#[trigger] specs[i], e.path, e.key, e.literal_keys[i])
}

/// One event path: a file that has a worker is woken; a new file that
/// some spec matches is attached, read from its beginning; anything else
/// is ignored.
pub open spec fn event_step(m: CoordModel, e: EventModel) -> (CoordModel, Option<ActionModel>) {
    if holds_path(m.attached, e.key) {
        (m, Some(ActionModel::Wake(key_index(m.attached, e.key))))
    } else if any_spec_matches(m.specs, e) {
        let (m2, a) = attach_model(m, e.path, e.key, StartMode::FromBeginning);
        (m2, Some(ActionModel::Attach(a.unwrap())))
    } else {
        (m, None)
    }
}

/// An optional item as a sequence of zero or one.
pub open spec fn opt_seq<A>(o: Option<A>) -> Seq<A> {
    match o {
        Some(a) => seq![a],
        None => seq![],
    }
}

/// Event paths taken in order.
pub open spec fn events_model(m: CoordModel, es: Seq<EventModel>) -> (CoordModel, Seq<ActionModel>)
    decreases es.len(),
{
    if es.len() == 0 {
        (m, seq![])
    } else {
        let (m1, acts) = events_model(m, es.drop_last());
        let (m2, a) = event_step(m1, es.last());
        (m2, acts + opt_seq(a))
    }
}

/// Paths found by a scan, taken in order: each one without a worker is
/// attached, read from its beginning.
pub open spec fn scan_model(m: CoordModel, ps: Seq<(Seq<char>, Seq<char>)>, mode: StartMode) -> (CoordModel, Seq<AttachModel>)
    decreases ps.len(),
{
    if ps.len() == 0 {
        (m, seq![])
    } else {
        let (m1, acts) = scan_model(m, ps.drop_last(), mode);
        let (m2, a) = attach_model(m1, ps.last().0, ps.last().1, mode);
        (m2, acts + opt_seq(a))
    }
}

/// The views of attachments.
pub open spec fn attach_views(v: Seq<Attachment>) -> Seq<AttachModel> {
    v.map_values(|a: Attachment| a@)
}

/// The views of actions.
pub open spec fn action_views(v: Seq<EventAction>) -> Seq<ActionModel> {
    v.map_values(|a: EventAction| a@)
}

/// The views of keyed paths.
pub open spec fn keyed_views(v: Seq<KeyedPath>) -> Seq<(Seq<char>, Seq<char>)> {
    v.map_values(|k: KeyedPath| (k.path@, k.key@))
}

/// The views of event paths.
pub open spec fn event_views(v: Seq<EventPath>) -> Seq<EventModel> {
    v.map_values(|e: EventPath| e@)
}

/// A directory to watch.
#[derive(Debug)]
pub struct WatchRoot {
    pub path: String,
    /// Whether its subdirectories are watched too.
    pub recursive: bool,
}

impl View for WatchRoot {
    type V = (Seq<char>, bool);

    open spec fn view(&self) -> (Seq<char>, bool) {
        (self.path@, self.recursive)
    }
}

/// The views of watch roots.
pub open spec fn root_views(v: Seq<WatchRoot>) -> Seq<(Seq<char>, bool)> {
    v.map_values(|r: WatchRoot| r@)
}

/// The paths of planned roots.
pub open spec fn plan_paths(m: Seq<(Seq<char>, bool)>) -> Seq<Seq<char>> {
    m.map_values(|e: (Seq<char>, bool)| e.0)
}

/// The specs' roots, each directory once (in order of first appearance),
/// watched with subdirectories when any spec with that root needs them.
pub open spec fn merge_roots(specs: Seq<WatchSpecModel>) -> Seq<(Seq<char>, bool)>
    decreases specs.len(),
{
    if specs.len() == 0 {
        seq![]
    } else {
        let m = merge_roots(specs.drop_last());
        let s = specs.last();
        let i = key_index(plan_paths(m), s.root);
        if i < m.len() {
            m.update(i as int, (m[i as int].0, m[i as int].1 || s.recursive))
        } else {
            m.push((s.root, s.recursive))
        }
    }
}

/// The components of a path without a leading `.`.
pub open spec fn norm_comps(p: Seq<char>) -> Seq<Comp> {
    let c = components(p);
    if c.len() > 0 && c[0] == Comp::CurDir {
        c.drop_first()
    } else {
        c
    }
}

/// Whether a path starts at the root.
pub open spec fn rooted(p: Seq<char>) -> bool {
    components(p).len() > 0 && components(p)[0] == Comp::RootDir
}

/// Whether `inner` lies strictly below the directory `outer` (both
/// relative, or both absolute).
pub open spec fn strictly_below(inner: Seq<char>, outer: Seq<char>) -> bool {
    let a = norm_comps(outer);
    let b = norm_comps(inner);
    &&& rooted(inner) == rooted(outer)
    &&& a.len() < b.len()
    &&& b.take(a.len() as int) == a
}

/// Whether a recursive root of the plan covers `p`.
pub open spec fn covered(all: Seq<(Seq<char>, bool)>, p: Seq<char>) -> bool {
    exists|j: int| 0 <= j < all.len() && all[j].1 && strictly_below(p, #[trigger] all[j].0)
}

/// The entries of `m` that no recursive root of `all` covers.
pub open spec fn keep_uncovered(m: Seq<(Seq<char>, bool)>, all: Seq<(Seq<char>, bool)>) -> Seq<(Seq<char>, bool)>
    decreases m.len(),
{
    if m.len() == 0 {
        seq![]
    } else {
        let t = keep_uncovered(m.drop_last(), all);
        if covered(all, m.last().0) {
            t
        } else {
            t.push(m.last())
        }
    }
}

/// The directories to watch for the specs: their roots merged, without
/// those that a recursive root above them covers.
pub open spec fn plan_roots(specs: Seq<WatchSpecModel>) -> Seq<(Seq<char>, bool)> {
    let m = merge_roots(specs);
    keep_uncovered(m, m)
}

/// The planned roots not yet watched, in order; and the watched roots after.
pub open spec fn roots_model(roots: Seq<Seq<char>>, plan: Seq<(Seq<char>, bool)>) -> (Seq<Seq<char>>, Seq<(Seq<char>, bool)>)
    decreases plan.len(),
{
    if plan.len() == 0 {
        (roots, seq![])
    } else {
        let (r1, new1) = roots_model(roots, plan.drop_last());
        let e = plan.last();
        if holds_path(r1, e.0) {
            (r1, new1)
        } else {
            (r1.push(e.0), new1.push(e))
        }
    }
}

/// A path's components without a leading `.`.
fn normalized_components(p: &str) -> (cs: Vec<PathComponent>)
    ensures
        comp_views(cs@) == norm_comps(p@),
{
    let mut cs = path_components(p);
    if cs.len() > 0 {
        let first_is_cur = match &cs[0] {
            PathComponent::CurDir => true,
            _ => false,
        };
        if first_is_cur {
            let ghost before = comp_views(cs@);
            let _ = cs.remove(0);
            assert(comp_views(cs@) =~= before.drop_first());
        }
    }
    cs
}

/// Whether `inner` lies strictly below the directory `outer`.
pub fn is_strictly_below(inner: &str, outer: &str) -> (r: bool)
    ensures
        r == strictly_below(inner@, outer@),
{
    let ci = path_components(inner);
    let co = path_components(outer);
    let abs_inner = ci.len() > 0 && match &ci[0] {
        PathComponent::RootDir => true,
        _ => false,
    };
    let abs_outer = co.len() > 0 && match &co[0] {
        PathComponent::RootDir => true,
        _ => false,
    };
    proof {
        if ci@.len() > 0 {
            assert(comp_views(ci@)[0] == ci@[0]@);
        }
        if co@.len() > 0 {
            assert(comp_views(co@)[0] == co@[0]@);
        }
    }
    if abs_inner != abs_outer {
        return false;
    }
    let a = normalized_components(outer);
    let b = normalized_components(inner);
    let ghost va = comp_views(a@);
    let ghost vb = comp_views(b@);
    if a.len() >= b.len() {
        return false;
    }
    let mut i: usize = 0;
    while i < a.len()
        invariant
            va == comp_views(a@),
            vb == comp_views(b@),
            va == norm_comps(outer@),
            vb == norm_comps(inner@),
            rooted(inner@) == rooted(outer@),
            a@.len() < b@.len(),
            0 <= i <= a@.len(),
            forall|k: int| 0 <= k < i ==> va[k] == vb[k],
        decreases a@.len() - i,
    {
        if !crate::path::comp_eq(&a[i], &b[i]) {
            proof {
                assert(vb.take(va.len() as int)[i as int] != va[i as int]);
                assert(vb.take(va.len() as int) != va);
            }
            return false;
        }
        i = i + 1;
    }
    assert(vb.take(va.len() as int) =~= va);
    true
}

/// Decides which workers to start and wake, and which directories to watch.
pub struct Coordinator {
    config: Config,
    specs: Vec<WatchSpec>,
    labels: LabelRegistry,
    attached: Vec<String>,
    watched_roots: Vec<String>,
}

impl View for Coordinator {
    type V = CoordModel;

    closed spec fn view(&self) -> CoordModel {
        CoordModel {
            since_now: self.config.since_now,
            lines: self.config.lines,
            specs: self.specs@.map_values(|s: WatchSpec| s@),
            registry: self.labels@,
            attached: crate::lines::views(self.attached@),
            roots: crate::lines::views(self.watched_roots@),
        }
    }
}

impl Coordinator {
    /// The invariant: the registry is well formed, and no file has two
    /// workers and no directory is watched twice.
    pub closed spec fn wf(&self) -> bool {
        &&& self.labels.wf()
        &&& distinct_paths(self@.attached)
        &&& distinct_paths(self@.roots)
    }

    /// A coordinator for the given specs, with no worker and nothing watched.
    pub fn new(config: Config, specs: Vec<WatchSpec>, labels: LabelRegistry) -> (c: Self)
        requires
            labels.wf(),
        ensures
            c.wf(),
            c@ == (CoordModel {
                since_now: config.since_now,
                lines: config.lines,
                specs: specs@.map_values(|s: WatchSpec| s@),
                registry: labels@,
                attached: seq![],
                roots: seq![],
            }),
    {
        let c = Coordinator { config, specs, labels, attached: Vec::new(), watched_roots: Vec::new() };
        assert(c@.attached =~= Seq::<Seq<char>>::empty());
        assert(c@.roots =~= Seq::<Seq<char>>::empty());
        c
    }

    /// How startup files start: from the current end with `since_now`,
    /// else with the backlog.
    pub fn start_mode_for_startup(&self) -> (m: StartMode)
        ensures
            m == (if self@.since_now { StartMode::FromCurrentEnd } else { StartMode::StartupBacklog(self@.lines) }),
    {
        if self.config.since_now {
            StartMode::FromCurrentEnd
        } else {
            StartMode::StartupBacklog(self.config.lines)
        }
    }

    /// How files found after startup start: from their beginning.
    pub fn start_mode_for_dynamic(&self) -> (m: StartMode)
        ensures
            m == StartMode::FromBeginning,
    {
        StartMode::FromBeginning
    }

    fn find_key(keys: &Vec<String>, key: &str) -> (r: Option<usize>)
        ensures
            r matches Some(i) ==> i as nat == key_index(crate::lines::views(keys@), key@) && i < keys@.len(),
            r is None <==> !holds_path(crate::lines::views(keys@), key@),
    {
        let ghost ks = crate::lines::views(keys@);
        proof {
            lemma_key_index(ks, key@);
        }
        let mut i: usize = 0;
        while i < keys.len()
            invariant
                ks == crate::lines::views(keys@),
                0 <= i <= keys@.len(),
                forall|j: int| 0 <= j < i ==> !same_path(#[trigger] ks[j], key@),
            decreases keys@.len() - i,
        {
            if paths_equal(keys[i].as_str(), key) {
                assert(same_path(ks[i as int], key@));
                proof {
                    lemma_key_index(ks, key@);
                    if key_index(ks, key@) < i {
                        assert(!same_path(ks[key_index(ks, key@) as int], key@));
                    }
                    if key_index(ks, key@) > i {
                        assert(!same_path(ks[i as int], key@));
                    }
                }
                return Some(i);
            }
            i = i + 1;
        }
        proof {
            if holds_path(ks, key@) {
                let j = choose|j: int| 0 <= j < ks.len() && same_path(#[trigger] ks[j], key@);
            }
        }
        None
    }

    fn holds_key(keys: &Vec<String>, key: &str) -> (r: bool)
        ensures
            r == holds_path(crate::lines::views(keys@), key@),
    {
        let ghost ks = crate::lines::views(keys@);
        let mut i: usize = 0;
        while i < keys.len()
            invariant
                ks == crate::lines::views(keys@),
                0 <= i <= keys@.len(),
                forall|j: int| 0 <= j < i ==> !same_path(#[trigger] ks[j], key@),
            decreases keys@.len() - i,
        {
            if paths_equal(keys[i].as_str(), key) {
                assert(same_path(ks[i as int], key@));
                return true;
            }
            i = i + 1;
        }
        false
    }

    fn find_root(m: &Vec<WatchRoot>, p: &str) -> (r: Option<usize>)
        ensures
            r matches Some(i) ==> i as nat == key_index(plan_paths(root_views(m@)), p@) && i < m@.len(),
            r is None ==> key_index(plan_paths(root_views(m@)), p@) == m@.len(),
    {
        let ghost ks = plan_paths(root_views(m@));
        proof {
            lemma_key_index(ks, p@);
        }
        let mut i: usize = 0;
        while i < m.len()
            invariant
                ks == plan_paths(root_views(m@)),
                ks.len() == m@.len(),
                0 <= i <= m@.len(),
                forall|j: int| 0 <= j < i ==> !same_path(#[trigger] ks[j], p@),
            decreases m@.len() - i,
        {
            assert(ks[i as int] == m@[i as int].path@);
            if paths_equal(m[i].path.as_str(), p) {
                proof {
                    lemma_key_index(ks, p@);
                    if key_index(ks, p@) < i {
                        assert(!same_path(ks[key_index(ks, p@) as int], p@));
                    }
                    if key_index(ks, p@) > i {
                        assert(!same_path(ks[i as int], p@));
                    }
                }
                return Some(i);
            }
            i = i + 1;
        }
        proof {
            lemma_key_index(ks, p@);
            if key_index(ks, p@) < ks.len() {
                assert(same_path(ks[key_index(ks, p@) as int], p@));
            }
        }
        None
    }

    /// The specs' roots merged: each directory once, recursive when any
    /// spec with that root is.
    fn merged_roots(&self) -> (m: Vec<WatchRoot>)
        ensures
            root_views(m@) == merge_roots(self@.specs),
    {
        let ghost specs = self@.specs;
        let mut m: Vec<WatchRoot> = Vec::new();
        let mut i: usize = 0;
        assert(specs.take(0) =~= Seq::<WatchSpecModel>::empty());
        assert(root_views(m@) =~= Seq::<(Seq<char>, bool)>::empty());
        while i < self.specs.len()
            invariant
                specs == self@.specs,
                0 <= i <= specs.len(),
                root_views(m@) == merge_roots(specs.take(i as int)),
            decreases specs.len() - i,
        {
            let ghost before = root_views(m@);
            proof {
                assert(specs.take(i + 1).drop_last() =~= specs.take(i as int));
                assert(specs.take(i + 1).last() == specs[i as int]);
                assert(specs[i as int] == self.specs@[i as int]@);
            }
            let spec = &self.specs[i];
            match Self::find_root(&m, spec.root.as_str()) {
                Some(k) => {
                    let path = m[k].path.clone();
                    let recursive = m[k].recursive || spec.recursive;
                    m.set(k, WatchRoot { path, recursive });
                    proof {
                        assert(root_views(m@) =~= before.update(k as int, (before[k as int].0, before[k as int].1 || spec.recursive)));
                    }
                },
                None => {
                    m.push(WatchRoot { path: spec.root.clone(), recursive: spec.recursive });
                    proof {
                        assert(root_views(m@) =~= before.push((spec.root@, spec.recursive)));
                    }
                },
            }
            i = i + 1;
        }
        assert(specs.take(specs.len() as int) =~= specs);
        m
    }

    /// The directories to start watching: the planned roots (see
    /// `plan_roots`) that are not watched yet.
    pub fn watch_roots(&mut self) -> (new_roots: Vec<WatchRoot>)
        requires
            old(self).wf(),
        ensures
            final(self).wf(),
            (final(self)@.roots, root_views(new_roots@)) == roots_model(old(self)@.roots, plan_roots(old(self)@.specs)),
            final(self)@ == (CoordModel { roots: final(self)@.roots, ..old(self)@ }),
    {
        let merged = self.merged_roots();
        let ghost all = root_views(merged@);
        let mut plan: Vec<WatchRoot> = Vec::new();
        let mut i: usize = 0;
        assert(all.take(0) =~= Seq::<(Seq<char>, bool)>::empty());
        assert(root_views(plan@) =~= Seq::<(Seq<char>, bool)>::empty());
        while i < merged.len()
            invariant
                all == root_views(merged@),
                0 <= i <= merged@.len(),
                root_views(plan@) == keep_uncovered(all.take(i as int), all),
            decreases merged@.len() - i,
        {
            let ghost before = root_views(plan@);
            proof {
                assert(all.take(i + 1).drop_last() =~= all.take(i as int));
                assert(all.take(i + 1).last() == all[i as int]);
            }
            let mut hit = false;
            let mut j: usize = 0;
            while j < merged.len()
                invariant
                    all == root_views(merged@),
                    0 <= i < merged@.len(),
                    0 <= j <= merged@.len(),
                    hit == exists|q: int| 0 <= q < j && all[q].1 && strictly_below(all[i as int].0, #[trigger] all[q].0),
                decreases merged@.len() - j,
            {
                proof {
                    assert(all[j as int] == merged@[j as int]@);
                    assert(all[i as int] == merged@[i as int]@);
                    assert(all[j as int].0 == merged@[j as int].path@);
                    assert(all[j as int].1 == merged@[j as int].recursive);
                }
                if merged[j].recursive && is_strictly_below(merged[i].path.as_str(), merged[j].path.as_str()) {
                    hit = true;
                    assert(all[j as int].1 && strictly_below(all[i as int].0, all[j as int].0));
                }
                j = j + 1;
            }
            if !hit {
                plan.push(WatchRoot { path: merged[i].path.clone(), recursive: merged[i].recursive });
                proof {
                    assert(root_views(plan@) =~= before.push(all[i as int]));
                }
            }
            i = i + 1;
        }
        assert(all.take(merged@.len() as int) =~= all);
        let ghost pv = root_views(plan@);
        let ghost roots0 = self@.roots;
        let mut new_roots: Vec<WatchRoot> = Vec::new();
        let mut k: usize = 0;
        assert(pv.take(0) =~= Seq::<(Seq<char>, bool)>::empty());
        assert(root_views(new_roots@) =~= Seq::<(Seq<char>, bool)>::empty());
        while k < plan.len()
            invariant
                self.wf(),
                pv == root_views(plan@),
                0 <= k <= plan@.len(),
                (self@.roots, root_views(new_roots@)) == roots_model(roots0, pv.take(k as int)),
                self@ == (CoordModel { roots: self@.roots, ..old(self)@ }),
            decreases plan@.len() - k,
        {
            let ghost before = self@;
            let ghost old_new = root_views(new_roots@);
            proof {
                assert(pv.take(k + 1).drop_last() =~= pv.take(k as int));
                assert(pv.take(k + 1).last() == pv[k as int]);
                assert(pv[k as int] == plan@[k as int]@);
            }
            let root = &plan[k];
            if !Self::holds_key(&self.watched_roots, root.path.as_str()) {
                self.watched_roots.push(root.path.clone());
                new_roots.push(WatchRoot { path: root.path.clone(), recursive: root.recursive });
                proof {
                    assert(crate::lines::views(self.watched_roots@) =~= before.roots.push(root.path@));
                    assert(root_views(new_roots@) =~= old_new.push(root@));
                    assert forall|a: int, b: int| 0 <= a < b < self@.roots.len() implies !same_path(#[trigger] self@.roots[a], #[trigger] self@.roots[b]) by {
                        if b == self@.roots.len() - 1 {
                            assert(self@.roots[a] == before.roots[a]);
                            if same_path(self@.roots[a], self@.roots[b]) {
                                assert(same_path(before.roots[a], root.path@));
                            }
                        } else {
                            assert(self@.roots[a] == before.roots[a]);
                            assert(self@.roots[b] == before.roots[b]);
                        }
                    }
                }
            }
            k = k + 1;
        }
        assert(pv.take(plan@.len() as int) =~= pv);
        new_roots
    }

    /// Attaches `path` under `key` with `start_mode`: `None` when a worker
    /// has that key already; otherwise its label is allocated and the key
    /// recorded.
    pub fn attach(&mut self, path: &str, key: &str, start_mode: StartMode) -> (a: Option<Attachment>)
        requires
            old(self).wf(),
        ensures
            final(self).wf(),
            (final(self)@, opt_seq(match a { Some(x) => Some(x@), None => None })) == ({
                let (m, o) = attach_model(old(self)@, path@, key@, start_mode);
                (m, opt_seq(o))
            }),
    {
        if Self::holds_key(&self.attached, key) {
            return None;
        }
        let ghost before = self@;
        let label = self.labels.allocate(path);
        self.attached.push(String::from_str(key));
        proof {
            assert(crate::lines::views(self.attached@) =~= before.attached.push(key@));
            assert(self@.registry == allocate_model(before.registry, path@).0) by {
                match entry_label(before.registry.entries, path@) {
                    Some(l) => {},
                    None => {},
                }
            }
            assert forall|a: int, b: int| 0 <= a < b < self@.attached.len() implies !same_path(#[trigger] self@.attached[a], #[trigger] self@.attached[b]) by {
                assert(self@.attached[a] == before.attached[a]);
                if b < before.attached.len() {
                    assert(self@.attached[b] == before.attached[b]);
                }
            }
        }
        Some(Attachment { key: String::from_str(key), path: String::from_str(path), label, start_mode })
    }

    /// Attaches each path in order with `start_mode`, skipping paths whose
    /// key has a worker already.
    fn attach_all(&mut self, paths: &Vec<KeyedPath>, start_mode: StartMode) -> (out: Vec<Attachment>)
        requires
            old(self).wf(),
        ensures
            final(self).wf(),
            (final(self)@, attach_views(out@)) == scan_model(old(self)@, keyed_views(paths@), start_mode),
    {
        let ghost ps = keyed_views(paths@);
        let mut out: Vec<Attachment> = Vec::new();
        let mut i: usize = 0;
        assert(ps.take(0) =~= Seq::<(Seq<char>, Seq<char>)>::empty());
        assert(attach_views(out@) =~= Seq::<AttachModel>::empty());
        while i < paths.len()
            invariant
                self.wf(),
                ps == keyed_views(paths@),
                0 <= i <= paths@.len(),
                (self@, attach_views(out@)) == scan_model(old(self)@, ps.take(i as int), start_mode),
            decreases paths@.len() - i,
        {
            proof {
                assert(ps.take(i + 1).drop_last() =~= ps.take(i as int));
                assert(ps.take(i + 1).last() == ps[i as int]);
            }
            let ghost old_out = attach_views(out@);
            let a = self.attach(paths[i].path.as_str(), paths[i].key.as_str(), start_mode);
            match a {
                Some(x) => {
                    out.push(x);
                    proof {
                        assert(attach_views(out@) =~= old_out + seq![x@]);
                    }
                },
                None => {
                    proof {
                        assert(old_out + Seq::<AttachModel>::empty() =~= old_out);
                    }
                },
            }
            i = i + 1;
        }
        assert(ps.take(paths@.len() as int) =~= ps);
        out
    }

    /// Attaches the files found at startup, in order, with the startup mode.
    pub fn attach_startup_files(&mut self, files: &Vec<KeyedPath>) -> (out: Vec<Attachment>)
        requires
            old(self).wf(),
        ensures
            final(self).wf(),
            (final(self)@, attach_views(out@)) == scan_model(
                old(self)@,
                keyed_views(files@),
                if old(self)@.since_now { StartMode::FromCurrentEnd } else { StartMode::StartupBacklog(old(self)@.lines) },
            ),
    {
        let mode = self.start_mode_for_startup();
        self.attach_all(files, mode)
    }

    /// Attaches the files a rescan of the inputs found that have no worker
    /// yet, read from their beginning.
    pub fn refresh_from_scan(&mut self, resolved: &Vec<KeyedPath>) -> (out: Vec<Attachment>)
        requires
            old(self).wf(),
        ensures
            final(self).wf(),
            (final(self)@, attach_views(out@)) == scan_model(old(self)@, keyed_views(resolved@), StartMode::FromBeginning),
    {
        let mode = self.start_mode_for_dynamic();
        self.attach_all(resolved, mode)
    }

    /// Whether some spec matches the event path.
    fn any_matches(&self, e: &EventPath) -> (r: bool)
        requires
            e.literal_keys@.len() == self.specs@.len(),
        ensures
            r == any_spec_matches(self@.specs, e@),
    {
        let ghost specs = self@.specs;
        let ghost em = e@;
        let mut i: usize = 0;
        while i < self.specs.len()
            invariant
                specs == self@.specs,
                em == e@,
                e.literal_keys@.len() == self.specs@.len(),
                0 <= i <= specs.len(),
                forall|j: int| 0 <= j < i ==> !spec_matches(#[trigger] specs[j], em.path, em.key, em.literal_keys[j]),
            decreases specs.len() - i,
        {
            proof {
                assert(specs[i as int] == self.specs@[i as int]@);
                assert(em.literal_keys[i as int] == e.literal_keys@[i as int]@);
            }
            if self.specs[i].matches(e.path.as_str(), e.key.as_str(), e.literal_keys[i].as_str()) {
                return true;
            }
            i = i + 1;
        }
        false
    }

    /// Decides on the paths of one filesystem event, in order: a file with
    /// a worker is woken; a new file that some spec matches is attached,
    /// read from its beginning; other paths are ignored.
    pub fn process_event(&mut self, paths: &Vec<EventPath>) -> (actions: Vec<EventAction>)
        requires
            old(self).wf(),
            forall|i: int| 0 <= i < paths@.len() ==> #[trigger] paths@[i].literal_keys@.len() == old(self)@.specs.len(),
        ensures
            final(self).wf(),
            (final(self)@, action_views(actions@)) == events_model(old(self)@, event_views(paths@)),
    {
        let ghost es = event_views(paths@);
        let mut actions: Vec<EventAction> = Vec::new();
        let mut i: usize = 0;
        assert(es.take(0) =~= Seq::<EventModel>::empty());
        assert(action_views(actions@) =~= Seq::<ActionModel>::empty());
        while i < paths.len()
            invariant
                self.wf(),
                es == event_views(paths@),
                self@.specs == old(self)@.specs,
                forall|i: int| 0 <= i < paths@.len() ==> #[trigger] paths@[i].literal_keys@.len() == old(self)@.specs.len(),
                0 <= i <= paths@.len(),
                (self@, action_views(actions@)) == events_model(old(self)@, es.take(i as int)),
            decreases paths@.len() - i,
        {
            proof {
                assert(es.take(i + 1).drop_last() =~= es.take(i as int));
                assert(es.take(i + 1).last() == es[i as int]);
                assert(self.specs@.len() == self@.specs.len());
            }
            let ghost old_actions = action_views(actions@);
            let ghost before = self@;
            let e = &paths[i];
            assert(es[i as int] == e@);
            let found = Self::find_key(&self.attached, e.key.as_str());
            if let Some(w) = found {
                actions.push(EventAction::Wake(w));
                proof {
                    assert(action_views(actions@) =~= old_actions + seq![ActionModel::Wake(w as nat)]);
                    assert(holds_path(self@.attached, e@.key));
                    assert(event_step(self@, es[i as int]) == (self@, Some(ActionModel::Wake(w as nat))));
                }
            } else if self.any_matches(e) {
                let mode = self.start_mode_for_dynamic();
                let a = self.attach(e.path.as_str(), e.key.as_str(), mode);
                let ghost o = attach_model(before, e.path@, e.key@, StartMode::FromBeginning).1;
                match a {
                    Some(x) => {
                        proof {
                            assert(opt_seq(Some(x@)) == opt_seq(o));
                            assert(opt_seq(Some(x@))[0] == x@);
                            assert(o is Some);
                            assert(opt_seq(o)[0] == o.unwrap());
                        }
                        actions.push(EventAction::Attach(x));
                        proof {
                            assert(action_views(actions@) =~= old_actions + seq![actions@.last()@]);
                            assert(es[i as int] == e@);
                            assert(any_spec_matches(old(self)@.specs, e@));
                            assert(!holds_path(before.attached, e@.key));
                            assert(event_step(before, es[i as int]).1 == Some(ActionModel::Attach(o.unwrap())));
                            assert(actions@.last()@ == ActionModel::Attach(x@));
                            assert(action_views(actions@) =~= old_actions + opt_seq(event_step(before, es[i as int]).1));
                        }
                    },
                    None => {
                        proof {
                            assert(!holds_path(before.attached, e@.key));
                            assert(o is Some);
                            assert(opt_seq(o).len() == 1);
                        }
                    },
                }
            } else {
                proof {
                    assert(old_actions + Seq::<ActionModel>::empty() =~= old_actions);
                }
            }
            proof {
                let st = event_step(before, es[i as int]);
                assert(self@ == st.0);
                assert(action_views(actions@) =~= old_actions + opt_seq(st.1));
                assert(events_model(old(self)@, es.take(i + 1)) == (st.0, old_actions + opt_seq(st.1)));
            }
            i = i + 1;
        }
        assert(es.take(paths@.len() as int) =~= es);
        actions
    }
}

/// A file that has a worker is only ever woken: an event for it (under
/// any path with the same key) attaches nothing and changes nothing.
pub proof fn lemma_attached_file_is_woken(m: CoordModel, e: EventModel)
    requires
        holds_path(m.attached, e.key),
    ensures
        event_step(m, e) == (m, Some(ActionModel::Wake(key_index(m.attached, e.key)))),
        same_path(m.attached[key_index(m.attached, e.key) as int], e.key),
{
    lemma_key_index(m.attached, e.key);
}

/// One file is attached at most once: after an event attaches a file, a
/// later event for the same file, seen through any spec or path, wakes
/// its worker instead of starting a second one.
pub proof fn lemma_file_attached_once(m: CoordModel, e1: EventModel, e2: EventModel)
    requires
        same_path(e1.key, e2.key),
        event_step(m, e1).1 matches Some(ActionModel::Attach(_)),
    ensures
        holds_path(event_step(m, e1).0.attached, e2.key),
        event_step(event_step(m, e1).0, e2) == (event_step(m, e1).0, Some(ActionModel::Wake(key_index(event_step(m, e1).0.attached, e2.key)))),
{
    let m1 = event_step(m, e1).0;
    assert(!holds_path(m.attached, e1.key));
    assert(m1.attached == m.attached.push(e1.key));
    assert(same_path(m1.attached[m.attached.len() as int], e2.key));
}

/// A rescan attaches nothing for a file that has a worker.
pub proof fn lemma_rescan_skips_attached(m: CoordModel, path: Seq<char>, key: Seq<char>, mode: StartMode)
    requires
        holds_path(m.attached, key),
    ensures
        attach_model(m, path, key, mode) == (m, None::<AttachModel>),
{
}

/// The keys of the attachments among actions, in order.
pub open spec fn attached_keys_of(acts: Seq<ActionModel>) -> Seq<Seq<char>>
    decreases acts.len(),
{
    if acts.len() == 0 {
        seq![]
    } else {
        match acts.last() {
            ActionModel::Attach(a) => attached_keys_of(acts.drop_last()).push(a.key),
            ActionModel::Wake(_) => attached_keys_of(acts.drop_last()),
        }
    }
}

/// Workers are numbered in order of attachment: after a scan, the
/// attached keys are the old ones followed by the keys of the new
/// attachments, in order.
pub proof fn lemma_scan_appends_keys(m: CoordModel, ps: Seq<(Seq<char>, Seq<char>)>, mode: StartMode)
    ensures
        scan_model(m, ps, mode).0.attached == m.attached + scan_model(m, ps, mode).1.map_values(|a: AttachModel| a.key),
        scan_model(m, ps, mode).0.specs == m.specs,
    decreases ps.len(),
{
    if ps.len() == 0 {
        assert(m.attached + Seq::<Seq<char>>::empty() =~= m.attached);
    } else {
        lemma_scan_appends_keys(m, ps.drop_last(), mode);
        let (m1, acts) = scan_model(m, ps.drop_last(), mode);
        let (m2, a) = attach_model(m1, ps.last().0, ps.last().1, mode);
        let f = |x: AttachModel| x.key;
        assert((acts + opt_seq(a)).map_values(f) =~= acts.map_values(f) + opt_seq(a).map_values(f));
        assert(m2.attached =~= m1.attached + opt_seq(a).map_values(f));
    }
}

/// Likewise for events: the attached keys grow by the keys of the
/// attachments among the actions, in order, and the specs stay.
pub proof fn lemma_events_append_keys(m: CoordModel, es: Seq<EventModel>)
    ensures
        events_model(m, es).0.attached == m.attached + attached_keys_of(events_model(m, es).1),
        events_model(m, es).0.specs == m.specs,
    decreases es.len(),
{
    if es.len() == 0 {
        assert(m.attached + Seq::<Seq<char>>::empty() =~= m.attached);
    } else {
        lemma_events_append_keys(m, es.drop_last());
        let (m1, acts) = events_model(m, es.drop_last());
        let (m2, a) = event_step(m1, es.last());
        match a {
            Some(ActionModel::Attach(x)) => {
                assert((acts + opt_seq(a)).drop_last() =~= acts);
                assert(m2.attached =~= m1.attached.push(x.key));
            },
            Some(ActionModel::Wake(_)) => {
                assert((acts + opt_seq(a)).drop_last() =~= acts);
            },
            None => {
                assert(acts + opt_seq(a) =~= acts);
            },
        }
    }
}

proof fn lemma_below_trans(a: Seq<char>, b: Seq<char>, c: Seq<char>)
    requires
        strictly_below(a, b),
        strictly_below(b, c),
    ensures
        strictly_below(a, c),
{
    let na = norm_comps(a);
    let nb = norm_comps(b);
    let nc = norm_comps(c);
    assert(na.take(nc.len() as int) =~= nb.take(nc.len() as int));
}

proof fn lemma_keep_uncovered(m: Seq<(Seq<char>, bool)>, all: Seq<(Seq<char>, bool)>)
    ensures
        forall|j: int| 0 <= j < m.len() && !covered(all, m[j].0) ==> keep_uncovered(m, all).contains(#[trigger] m[j]),
        forall|x: (Seq<char>, bool)| #[trigger] keep_uncovered(m, all).contains(x) ==> m.contains(x) && !covered(all, x.0),
    decreases m.len(),
{
    if m.len() > 0 {
        let t = keep_uncovered(m.drop_last(), all);
        lemma_keep_uncovered(m.drop_last(), all);
        let k = keep_uncovered(m, all);
        assert forall|j: int| 0 <= j < m.len() && !covered(all, m[j].0) implies k.contains(#[trigger] m[j]) by {
            if j < m.len() - 1 {
                assert(m.drop_last()[j] == m[j]);
                assert(t.contains(m[j]));
                let q = choose|q: int| 0 <= q < t.len() && t[q] == m[j];
                if !covered(all, m.last().0) {
                    assert(k[q] == t[q]);
                }
            } else {
                assert(k[k.len() - 1] == m[j]);
            }
        }
        assert forall|x: (Seq<char>, bool)| #[trigger] k.contains(x) implies m.contains(x) && !covered(all, x.0) by {
            let q = choose|q: int| 0 <= q < k.len() && k[q] == x;
            if q < t.len() {
                assert(t[q] == x);
                assert(t.contains(x));
                let r = choose|r: int| 0 <= r < m.drop_last().len() && m.drop_last()[r] == x;
                assert(m[r] == x);
            } else {
                assert(m[m.len() - 1] == x);
            }
        }
    }
}

proof fn lemma_uncovered_above(all: Seq<(Seq<char>, bool)>, p: Seq<char>) -> (f: int)
    requires
        covered(all, p),
    ensures
        0 <= f < all.len(),
        all[f].1,
        strictly_below(p, all[f].0),
        !covered(all, all[f].0),
    decreases norm_comps(p).len(),
{
    let g = choose|j: int| 0 <= j < all.len() && all[j].1 && strictly_below(p, #[trigger] all[j].0);
    if covered(all, all[g].0) {
        let f = lemma_uncovered_above(all, all[g].0);
        lemma_below_trans(p, all[g].0, all[f].0);
        f
    } else {
        g
    }
}

proof fn lemma_merge_roots(specs: Seq<WatchSpecModel>, i: int) -> (j: int)
    requires
        0 <= i < specs.len(),
    ensures
        0 <= j < merge_roots(specs).len(),
        same_path(merge_roots(specs)[j].0, specs[i].root),
        specs[i].recursive ==> merge_roots(specs)[j].1,
    decreases specs.len(),
{
    let m0 = merge_roots(specs.drop_last());
    let s = specs.last();
    let ks = plan_paths(m0);
    lemma_key_index(ks, s.root);
    let k = key_index(ks, s.root);
    let m = merge_roots(specs);
    if i == specs.len() - 1 {
        if k < m0.len() {
            assert(ks[k as int] == m0[k as int].0);
            k as int
        } else {
            m0.len() as int
        }
    } else {
        assert(specs.drop_last()[i] == specs[i]);
        let j0 = lemma_merge_roots(specs.drop_last(), i);
        if k < m0.len() {
            j0
        } else {
            j0
        }
    }
}

/// Every spec's directory is watched: the plan holds its root (recursive
/// when the spec needs it), or a recursive root that the spec's root lies
/// below.
pub proof fn lemma_plan_covers_every_root(specs: Seq<WatchSpecModel>, i: int) -> (k: int)
    requires
        0 <= i < specs.len(),
    ensures
        0 <= k < plan_roots(specs).len(),
        (same_path(plan_roots(specs)[k].0, specs[i].root) && (specs[i].recursive ==> plan_roots(specs)[k].1))
            || (plan_roots(specs)[k].1 && strictly_below(specs[i].root, plan_roots(specs)[k].0)),
{
    let m = merge_roots(specs);
    let plan = plan_roots(specs);
    lemma_keep_uncovered(m, m);
    let j = lemma_merge_roots(specs, i);
    if !covered(m, m[j].0) {
        assert(plan.contains(m[j]));
        let k = choose|k: int| 0 <= k < plan.len() && plan[k] == m[j];
        k
    } else {
        let f = lemma_uncovered_above(m, m[j].0);
        assert(plan.contains(m[f]));
        let k = choose|k: int| 0 <= k < plan.len() && plan[k] == m[f];
        assert(norm_comps(m[j].0) == norm_comps(specs[i].root));
        k
    }
}

/// No watched root is redundant: no planned root lies below a recursive
/// planned root.
pub proof fn lemma_plan_has_no_redundant_root(specs: Seq<WatchSpecModel>, a: int, b: int)
    requires
        0 <= a < plan_roots(specs).len(),
        0 <= b < plan_roots(specs).len(),
        plan_roots(specs)[b].1,
    ensures
        !strictly_below(plan_roots(specs)[a].0, plan_roots(specs)[b].0),
{
    let m = merge_roots(specs);
    let plan = plan_roots(specs);
    lemma_keep_uncovered(m, m);
    assert(plan.contains(plan[a]));
    assert(plan.contains(plan[b]));
    let jb = choose|q: int| 0 <= q < m.len() && m[q] == plan[b];
    if strictly_below(plan[a].0, plan[b].0) {
        assert(m[jb].1 && strictly_below(plan[a].0, m[jb].0));
        assert(covered(m, plan[a].0));
    }
}

/// A root lies below another only when both start at the root directory
/// or neither does, and the outer one's components (without a leading `.`)
/// are a proper prefix of the inner one's: an absolute directory is never
/// below a relative one, nor a relative one below an absolute one.
pub proof fn lemma_below_needs_same_kind(inner: Seq<char>, outer: Seq<char>)
    ensures
        strictly_below(inner, outer) ==> {
            &&& (components(inner).len() > 0 && components(inner)[0] == Comp::RootDir)
                == (components(outer).len() > 0 && components(outer)[0] == Comp::RootDir)
            &&& norm_comps(outer).len() < norm_comps(inner).len()
            &&& norm_comps(inner).take(norm_comps(outer).len() as int) == norm_comps(outer)
        },
{
}

/// Every spec's directory stays watched by a root of its own kind: the
/// plan holds the spec's root itself, or a recursive root that starts at
/// the root directory exactly when the spec's root does and whose
/// components are a proper prefix of the spec root's. So an absolute
/// literal's parent is never dropped in favour of a relative recursive
/// root such as `.`.
pub proof fn lemma_plan_keeps_root_kind(specs: Seq<WatchSpecModel>, i: int) -> (k: int)
    requires
        0 <= i < specs.len(),
    ensures
        0 <= k < plan_roots(specs).len(),
        (components(plan_roots(specs)[k].0).len() > 0 && components(plan_roots(specs)[k].0)[0] == Comp::RootDir)
            == (components(specs[i].root).len() > 0 && components(specs[i].root)[0] == Comp::RootDir),
        components(plan_roots(specs)[k].0) == components(specs[i].root) || {
            let a = norm_comps(plan_roots(specs)[k].0);
            let b = norm_comps(specs[i].root);
            &&& plan_roots(specs)[k].1
            &&& a.len() < b.len()
            &&& b.take(a.len() as int) == a
        },
{
    let k = lemma_plan_covers_every_root(specs, i);
    lemma_below_needs_same_kind(specs[i].root, plan_roots(specs)[k].0);
    k
}

/// A glob spec matches an event path by its pattern alone: the result is
/// whether the (valid) pattern matches the path as reported, whatever the
/// path's key and the literal keys are.
pub proof fn lemma_glob_matches_reported_path(
    spec: WatchSpecModel,
    path: Seq<char>,
    key1: Seq<char>,
    expected1: Seq<char>,
    key2: Seq<char>,
    expected2: Seq<char>,
)
    requires
        spec.glob,
    ensures
        spec_matches(spec, path, key1, expected1) == spec_matches(spec, path, key2, expected2),
        spec_matches(spec, path, key1, expected1) == (glob_pattern_ok(spec.text) && glob_matches(spec.text, path)),
{
}

/// A literal spec matches an event path by its key alone: whether the
/// path's key is the same path as the literal's key, whatever the path
/// was reported as.
pub proof fn lemma_literal_matches_key(spec: WatchSpecModel, path1: Seq<char>, path2: Seq<char>, key: Seq<char>, expected: Seq<char>)
    requires
        !spec.glob,
    ensures
        spec_matches(spec, path1, key, expected) == spec_matches(spec, path2, key, expected),
        spec_matches(spec, path1, key, expected) == (components(key) == components(expected)),
{
}

/// A new file whose reported path a valid startup glob matches is
/// attached, read from its beginning, under the path as reported.
pub proof fn lemma_new_file_matching_glob_is_attached(m: CoordModel, e: EventModel, i: int)
    requires
        0 <= i < m.specs.len(),
        m.specs[i].glob,
        glob_pattern_ok(m.specs[i].text),
        glob_matches(m.specs[i].text, e.path),
        !holds_path(m.attached, e.key),
    ensures
        event_step(m, e).1 matches Some(ActionModel::Attach(a))
            && a.path == e.path && a.key == e.key && a.start_mode == StartMode::FromBeginning,
        event_step(m, e).0.attached == m.attached.push(e.key),
{
    assert(spec_matches(m.specs[i], e.path, e.key, e.literal_keys[i]));
    assert(any_spec_matches(m.specs, e));
}

/// A path the registry already labels keeps that label when it is
/// attached, whatever its key: the attachment carries the registered
/// label and the registry is unchanged.
pub proof fn lemma_attach_keeps_registered_label(m: CoordModel, path: Seq<char>, key: Seq<char>, mode: StartMode, l: Seq<char>)
    requires
        !holds_path(m.attached, key),
        entry_label(m.registry.entries, path) == Some(l),
    ensures
        attach_model(m, path, key, mode).1 == Some(AttachModel { key, path, label: l, start_mode: mode }),
        attach_model(m, path, key, mode).0.registry == m.registry,
{
}

/// The label an attachment gets depends on its path, not on its key:
/// attaching the same path under two keys that have no worker gives the
/// same label and the same registry.
pub proof fn lemma_attach_label_ignores_key(m: CoordModel, path: Seq<char>, k1: Seq<char>, k2: Seq<char>, mode: StartMode)
    requires
        !holds_path(m.attached, k1),
        !holds_path(m.attached, k2),
    ensures
        attach_model(m, path, k1, mode).1 matches Some(a1) && attach_model(m, path, k2, mode).1 matches Some(a2)
            && a1.label == a2.label,
        attach_model(m, path, k1, mode).0.registry == attach_model(m, path, k2, mode).0.registry,
{
}

} // verus!
