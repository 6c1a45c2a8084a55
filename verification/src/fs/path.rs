//! The workspace path sandbox.
//!
//! Every file tool funnels through [`resolve_in_workspace`]: lexical
//! normalization rejects `../` escapes, and resolution of the deepest existing
//! ancestor rejects symlink redirections out of the workspace (including write
//! targets that do not exist yet). Paths are compared by whole components, so
//! `/workspace-evil` never passes a `/workspace` check.
//!
//! A path here is absolute and a list of names; the file system is asked one
//! question at a time through [`Resolution::probe`] and [`Resolution::step`].

use vstd::prelude::*;
use vstd::string::*;
use vstd::utf8::*;

use crate::bytes;

verus! {

// ---------------------------------------------------------------------------
// Paths as lists of names
// ---------------------------------------------------------------------------

/// Where the first separator stands; the length where there is none.
pub open spec fn find_slash(s: Seq<u8>) -> nat
    decreases s.len(),
{
    if s.len() == 0 || s[0] == 0x2F {
        0
    } else {
        1 + find_slash(s.drop_first())
    }
}

proof fn lemma_find_slash(s: Seq<u8>, n: int)
    requires
        0 <= n <= s.len(),
        forall|i: int| 0 <= i < n ==> s[i] != 0x2F,
        n < s.len() ==> s[n] == 0x2F,
    ensures
        find_slash(s) == n,
    decreases n,
{
    if n > 0 {
        lemma_find_slash(s.drop_first(), n - 1);
    }
}

/// Whether a part of a path says nothing: it is empty or a single dot.
pub open spec fn says_nothing(part: Seq<u8>) -> bool {
    part.len() == 0 || part == seq![0x2Eu8]
}

/// The part `head` as a list of names.
pub open spec fn as_name(head: Seq<u8>) -> Seq<Seq<u8>> {
    if says_nothing(head) {
        Seq::empty()
    } else {
        seq![head]
    }
}

/// The names that a path is made of.
pub open spec fn names(s: Seq<u8>) -> Seq<Seq<u8>>
    decreases s.len(),
{
    let n = find_slash(s);
    if n >= s.len() {
        as_name(s)
    } else {
        as_name(s.take(n as int)) + names(s.skip(n as int + 1))
    }
}

/// The name of the parent directory.
pub open spec fn parent_name() -> Seq<u8> {
    seq![0x2Eu8, 0x2Eu8]
}

fn is_parent_name(name: &[u8]) -> (r: bool)
    ensures
        r == (name@ == parent_name()),
{
    let r: bool = name.len() == 2 && name[0] == 0x2E && name[1] == 0x2E;
    assert(r ==> name@ == parent_name());
    r
}

/// The names that a path is made of.
pub fn split_names(path: &[u8]) -> (r: Vec<Vec<u8>>)
    ensures
        bytes::views(r@) == names(path@),
{
    let n: usize = path.len();
    let mut r: Vec<Vec<u8>> = Vec::new();
    let mut start: usize = 0;
    let mut i: usize = 0;
    assert(path@.skip(0) == path@);
    assert(bytes::views(r@) + names(path@) == names(path@));
    while i < n
        invariant
            n == path@.len(),
            start <= i <= n,
            forall|j: int| start <= j < i ==> path@[j] != 0x2F,
            names(path@) == bytes::views(r@) + names(path@.skip(start as int)),
        decreases n - i,
    {
        if path[i] == 0x2F {
            let ghost before = bytes::views(r@);
            push_name(&mut r, vstd::slice::slice_subrange(path, start, i));
            proof {
                let rest = path@.skip(start as int);
                lemma_find_slash(rest, i - start);
                let head = rest.take(i - start);
                assert(head == path@.subrange(start as int, i as int));
                assert(rest.skip(i - start + 1) == path@.skip(i + 1));
                let tail = names(path@.skip(i + 1));
                assert(before + (as_name(head) + tail) == bytes::views(r@) + tail);
            }
            start = i + 1;
        }
        i = i + 1;
    }
    push_name(&mut r, vstd::slice::slice_subrange(path, start, n));
    proof {
        let rest = path@.skip(start as int);
        lemma_find_slash(rest, n - start);
        assert(rest == path@.subrange(start as int, n as int));
    }
    r
}

fn push_name(r: &mut Vec<Vec<u8>>, part: &[u8])
    ensures
        bytes::views(final(r)@) == bytes::views(old(r)@) + as_name(part@),
{
    let dot: bool = part.len() == 1 && part[0] == 0x2E;
    assert(dot ==> part@ == seq![0x2Eu8]);
    if part.len() > 0 && !dot {
        r.push(bytes::copy(part));
        assert(bytes::views(r@) == bytes::views(old(r)@).push(part@));
        assert(bytes::views(r@) == bytes::views(old(r)@) + as_name(part@));
    } else {
        assert(bytes::views(r@) == bytes::views(old(r)@) + as_name(part@));
    }
}

/// The absolute path made of the names.
pub open spec fn path_text(names: Seq<Seq<u8>>) -> Seq<u8>
    decreases names.len(),
{
    if names.len() == 0 {
        seq![0x2Fu8]
    } else if names.len() == 1 {
        seq![0x2Fu8] + names[0]
    } else {
        path_text(names.drop_last()) + seq![0x2Fu8] + names.last()
    }
}

/// The absolute path made of the names.
pub fn join_names(parts: &[Vec<u8>]) -> (r: Vec<u8>)
    ensures
        r@ == path_text(bytes::views(parts@)),
{
    let n: usize = parts.len();
    let ghost all = bytes::views(parts@);
    let mut r: Vec<u8> = Vec::new();
    r.push(0x2F);
    if n == 0 {
        assert(r@ == path_text(all));
        return r;
    }
    let mut first: Vec<u8> = bytes::copy(parts[0].as_slice());
    r.append(&mut first);
    assert(all.take(1)[0] == all[0]);
    assert(r@ == path_text(all.take(1)));
    let mut i: usize = 1;
    while i < n
        invariant
            n == parts@.len(),
            all == bytes::views(parts@),
            1 <= i <= n,
            r@ == path_text(all.take(i as int)),
        decreases n - i,
    {
        let ghost before = r@;
        r.push(0x2F);
        let mut part: Vec<u8> = bytes::copy(parts[i].as_slice());
        r.append(&mut part);
        assert(all.take(i + 1).drop_last() == all.take(i as int));
        assert(r@ == before + seq![0x2Fu8] + all[i as int]);
        i = i + 1;
    }
    assert(all.take(n as int) == all);
    r
}

/// A name of a path: not empty, not a single dot, and without separator.
pub open spec fn is_name(name: Seq<u8>) -> bool {
    !says_nothing(name) && forall|i: int| 0 <= i < name.len() ==> name[i] != 0x2F
}

/// A separator between two parts splits them.
proof fn lemma_names_concat(a: Seq<u8>, b: Seq<u8>)
    ensures
        names(a + seq![0x2Fu8] + b) == names(a) + names(b),
    decreases a.len(),
{
    let s = a + seq![0x2Fu8] + b;
    let n = find_slash(a);
    lemma_find_slash_bounds(a);
    lemma_find_slash(s, n as int);
    if n >= a.len() {
        assert(s.take(n as int) == a);
        assert(s.skip(n as int + 1) == b);
    } else {
        let rest = a.skip(n as int + 1);
        lemma_names_concat(rest, b);
        assert(s.take(n as int) == a.take(n as int));
        assert(s.skip(n as int + 1) == rest + seq![0x2Fu8] + b);
        assert(as_name(a.take(n as int)) + (names(rest) + names(b)) == as_name(
            a.take(n as int),
        ) + names(rest) + names(b));
    }
}

proof fn lemma_find_slash_bounds(s: Seq<u8>)
    ensures
        find_slash(s) <= s.len(),
        forall|i: int| 0 <= i < find_slash(s) ==> s[i] != 0x2F,
        find_slash(s) < s.len() ==> s[find_slash(s) as int] == 0x2F,
    decreases s.len(),
{
    if s.len() > 0 && s[0] != 0x2F {
        let rest = s.drop_first();
        lemma_find_slash_bounds(rest);
        assert forall|i: int| 0 <= i < find_slash(s) implies s[i] != 0x2F by {
            if i > 0 {
                assert(s[i] == rest[i - 1]);
            }
        }
        if find_slash(s) < s.len() {
            assert(s[find_slash(s) as int] == rest[find_slash(rest) as int]);
        }
    }
}

/// Writing names as a path and splitting the path again gives the names.
pub proof fn names_round_trip(list: Seq<Seq<u8>>)
    requires
        forall|i: int| 0 <= i < list.len() ==> is_name(#[trigger] list[i]),
    ensures
        names(path_text(list)) == list,
    decreases list.len(),
{
    let slash = seq![0x2Fu8];
    let nothing = Seq::<u8>::empty();
    lemma_find_slash(nothing, 0);
    assert(names(nothing) == Seq::<Seq<u8>>::empty());
    if list.len() == 0 {
        lemma_names_concat(nothing, nothing);
        assert(nothing + slash + nothing == slash);
        assert(names(path_text(list)) == list);
    } else {
        let last = list.last();
        lemma_find_slash(last, last.len() as int);
        assert(names(last) == seq![last]);
        if list.len() == 1 {
            lemma_names_concat(nothing, last);
            assert(nothing + slash + last == slash + last);
            assert(names(path_text(list)) == list);
        } else {
            let front = list.drop_last();
            assert forall|i: int| 0 <= i < front.len() implies is_name(#[trigger] front[i]) by {
                assert(front[i] == list[i]);
            }
            names_round_trip(front);
            lemma_names_concat(path_text(front), last);
            assert(names(path_text(list)) == list);
        }
    }
}

// ---------------------------------------------------------------------------
// The lexical pass
// ---------------------------------------------------------------------------

/// The names with each parent step taking back the name before it. Parent
/// steps that have nothing to take back stay as names.
pub open spec fn lexical(list: Seq<Seq<u8>>) -> Seq<Seq<u8>>
    decreases list.len(),
{
    if list.len() == 0 {
        list
    } else {
        let front = lexical(list.drop_last());
        if list.last() != parent_name() {
            front.push(list.last())
        } else if front.len() > 0 && front.last() != parent_name() {
            front.drop_last()
        } else {
            front.push(parent_name())
        }
    }
}

/// Resolve parent steps lexically (no file system access).
pub fn lexical_normalize(list: &[Vec<u8>]) -> (r: Vec<Vec<u8>>)
    ensures
        bytes::views(r@) == lexical(bytes::views(list@)),
{
    let n: usize = list.len();
    let ghost all = bytes::views(list@);
    let mut r: Vec<Vec<u8>> = Vec::new();
    let mut i: usize = 0;
    assert(bytes::views(r@) == lexical(all.take(0)));
    while i < n
        invariant
            n == list@.len(),
            all == bytes::views(list@),
            i <= n,
            bytes::views(r@) == lexical(all.take(i as int)),
        decreases n - i,
    {
        let ghost before = bytes::views(r@);
        assert(all.take(i + 1).drop_last() == all.take(i as int));
        assert(all.take(i + 1).last() == list@[i as int]@);
        assert(before.len() == r@.len());
        if !is_parent_name(list[i].as_slice()) || r.len() == 0 || is_parent_name(
            r[r.len() - 1].as_slice(),
        ) {
            r.push(bytes::copy(list[i].as_slice()));
            assert(bytes::views(r@) == before.push(list@[i as int]@));
        } else {
            r.pop();
            assert(bytes::views(r@) == before.drop_last());
        }
        i = i + 1;
    }
    assert(all.take(n as int) == all);
    r
}

/// A list without the parent steps at its front: above the top of the file
/// system there is nothing.
pub open spec fn below_top(list: Seq<Seq<u8>>) -> Seq<Seq<u8>>
    decreases list.len(),
{
    if list.len() > 0 && list[0] == parent_name() {
        below_top(list.drop_first())
    } else {
        list
    }
}

/// The list without the parent steps at its front.
fn drop_parents(list: &[Vec<u8>]) -> (r: Vec<Vec<u8>>)
    ensures
        bytes::views(r@) == below_top(bytes::views(list@)),
{
    let n: usize = list.len();
    let ghost all = bytes::views(list@);
    let mut i: usize = 0;
    assert(all.skip(0) == all);
    while i < n && is_parent_name(list[i].as_slice())
        invariant
            n == list@.len(),
            all == bytes::views(list@),
            i <= n,
            below_top(all) == below_top(all.skip(i as int)),
        decreases n - i,
    {
        assert(all.skip(i as int)[0] == list@[i as int]@);
        assert(all.skip(i as int).drop_first() == all.skip(i + 1));
        i = i + 1;
    }
    let rest = vstd::slice::slice_subrange(list, i, n);
    assert(bytes::views(rest@) == all.skip(i as int));
    assert(i < n ==> all.skip(i as int)[0] == list@[i as int]@);
    bytes::copy_all(rest)
}

/// The path that a list of names leads to from the top of the file system, with
/// parent steps resolved lexically.
pub open spec fn from_top(list: Seq<Seq<u8>>) -> Seq<Seq<u8>> {
    below_top(lexical(list))
}

/// Whether a path begins with a separator.
pub open spec fn is_absolute(path: Seq<u8>) -> bool {
    path.len() > 0 && path[0] == 0x2F
}

/// The path that a request names, after the lexical pass.
pub open spec fn requested_path(root: Seq<Seq<u8>>, requested: Seq<char>) -> Seq<Seq<u8>> {
    let text = encode_utf8(requested);
    if is_absolute(text) {
        from_top(names(text))
    } else {
        from_top(root + names(text))
    }
}

/// Whether `path` is `root` or lies below it.
fn is_inside(root: &[Vec<u8>], path: &[Vec<u8>]) -> (r: bool)
    ensures
        r == bytes::views(root@).is_prefix_of(bytes::views(path@)),
{
    let n: usize = root.len();
    let ghost a = bytes::views(root@);
    let ghost b = bytes::views(path@);
    if n > path.len() {
        return false;
    }
    let mut i: usize = 0;
    while i < n
        invariant
            n == root@.len(),
            n <= path@.len(),
            a == bytes::views(root@),
            b == bytes::views(path@),
            i <= n,
            forall|k: int| 0 <= k < i ==> a[k] == b[k],
        decreases n - i,
    {
        if !bytes::same_bytes(root[i].as_slice(), path[i].as_slice()) {
            assert(a[i as int] != b.subrange(0, n as int)[i as int]);
            return false;
        }
        i = i + 1;
    }
    assert(a == b.subrange(0, n as int));
    true
}

/// A file can be named relative to the workspace or by its absolute path; both
/// are the same path.
pub proof fn relative_and_absolute_agree(root: Seq<Seq<u8>>, relative: Seq<u8>)
    requires
        forall|i: int| 0 <= i < root.len() ==> is_name(#[trigger] root[i]),
    ensures
        from_top(names(path_text(root) + seq![0x2Fu8] + relative)) == from_top(
            root + names(relative),
        ),
{
    names_round_trip(root);
    lemma_names_concat(path_text(root), relative);
}

/// Whether parent steps stand at the front of a list only.
pub open spec fn parents_lead(list: Seq<Seq<u8>>) -> bool {
    forall|i: int, j: int|
        0 <= i < j < list.len() && #[trigger] list[j] == parent_name() ==> #[trigger] list[i]
            == parent_name()
}

proof fn lemma_lexical_parents(list: Seq<Seq<u8>>)
    ensures
        parents_lead(lexical(list)),
    decreases list.len(),
{
    if list.len() > 0 {
        lemma_lexical_parents(list.drop_last());
    }
}

/// A list with parent steps at the front only is not changed.
proof fn lemma_lexical_fixed(list: Seq<Seq<u8>>)
    requires
        parents_lead(list),
    ensures
        lexical(list) == list,
    decreases list.len(),
{
    if list.len() > 0 {
        let front = list.drop_last();
        lemma_lexical_fixed(front);
        assert(list == front.push(list.last()));
        if list.last() == parent_name() && front.len() > 0 {
            assert(list[list.len() - 1] == parent_name());
            assert(list[list.len() - 2] == parent_name());
        }
    }
}

/// The lexical pass takes back every parent step that follows a name, and a
/// second pass changes nothing.
pub proof fn lexical_pass_is_final(list: Seq<Seq<u8>>)
    ensures
        parents_lead(lexical(list)),
        lexical(lexical(list)) == lexical(list),
{
    lemma_lexical_parents(list);
    lemma_lexical_fixed(lexical(list));
}

proof fn lemma_below_top(list: Seq<Seq<u8>>)
    requires
        parents_lead(list),
    ensures
        forall|i: int|
            0 <= i < below_top(list).len() ==> #[trigger] below_top(list)[i] != parent_name(),
    decreases list.len(),
{
    if list.len() > 0 && list[0] == parent_name() {
        let rest = list.drop_first();
        assert forall|i: int, j: int|
            0 <= i < j < rest.len() && #[trigger] rest[j] == parent_name() implies #[trigger] rest[i]
            == parent_name() by {
            assert(list[j + 1] == parent_name());
            assert(list[i + 1] == parent_name());
        }
        lemma_below_top(rest);
        assert(below_top(list) == below_top(rest));
    } else {
        assert(below_top(list) == list);
        assert forall|i: int| 0 <= i < list.len() implies #[trigger] list[i] != parent_name() by {
            if list[i] == parent_name() {
                assert(list[0] == parent_name());
            }
        }
    }
}

/// The path that a request names holds no parent step.
pub proof fn requested_path_has_no_parent_step(root: Seq<Seq<u8>>, requested: Seq<char>, i: int)
    requires
        0 <= i < requested_path(root, requested).len(),
    ensures
        requested_path(root, requested)[i] != parent_name(),
{
    let text = encode_utf8(requested);
    lemma_lexical_parents(names(text));
    lemma_lexical_parents(root + names(text));
    lemma_below_top(lexical(names(text)));
    lemma_below_top(lexical(root + names(text)));
}

// ---------------------------------------------------------------------------
// The symlink pass
// ---------------------------------------------------------------------------

/// How many links in a row are followed. A longer chain is followed by no
/// system call either, so it leads nowhere.
pub const MAX_LINKS: usize = 40;

/// A link without target whose way is being traced.
pub struct Link {
    /// Where the link leads.
    pub path: Vec<Vec<u8>>,
    /// How many names of that path make up the ancestor that is asked about.
    pub depth: usize,
    /// How many further links are followed.
    pub hops: usize,
}

/// A request that passed the lexical pass and waits for the file system to
/// say which of its ancestors exists.
pub struct Resolution {
    /// The workspace.
    pub root: Vec<Vec<u8>>,
    /// The requested path.
    pub path: Vec<Vec<u8>>,
    /// How many names of the path make up the ancestor that is asked about.
    pub depth: usize,
    /// The request as it was made.
    pub requested: String,
    /// The link under the name of that ancestor, while it is being traced.
    pub link: Option<Link>,
}

/// What the file system says of a path.
pub enum Answer<P> {
    /// It exists, and this is its real path.
    Real(P),
    /// There is nothing under this name.
    Missing,
    /// There is a link under this name that cannot be followed to its end. It
    /// leads here: to the text of the link, behind the real path of the
    /// directory that the link is in where that text is relative.
    Dangling(P),
}

/// What follows from an answer of the file system.
pub enum Step {
    /// Ask about the next ancestor.
    Again(Resolution),
    /// The path that the request resolves to, as a list of names.
    Found(Vec<Vec<u8>>),
    /// The request is refused, with this message.
    Refused(String),
}

pub open spec fn escape_text(requested: Seq<char>) -> Seq<char> {
    "path escapes the workspace: "@ + requested
}

fn escape_message(requested: &str) -> (r: String)
    ensures
        r@ == escape_text(requested@),
{
    let mut m: String = String::from_str("path escapes the workspace: ");
    m.append(requested);
    m
}

/// Start to resolve a user-supplied path against the workspace root, which is
/// given as an absolute path without symlinks. A request that leaves the
/// workspace lexically is refused before any file system access.
pub fn resolve_in_workspace(root: &[u8], requested: &str) -> (r: Result<Resolution, String>)
    ensures
        match r {
            Ok(resolution) => {
                &&& resolution.wf()
                &&& names(root@).is_prefix_of(requested_path(names(root@), requested@))
                &&& bytes::views(resolution.root@) == names(root@)
                &&& bytes::views(resolution.path@) == requested_path(names(root@), requested@)
                &&& resolution.depth == resolution.path@.len()
                &&& resolution.requested@ == requested@
                &&& resolution.link is None
            },
            Err(m) => {
                &&& !names(root@).is_prefix_of(requested_path(names(root@), requested@))
                &&& m@ == escape_text(requested@)
            },
        },
{
    let text: &[u8] = requested.as_bytes();
    let root_names: Vec<Vec<u8>> = split_names(root);
    let mut asked: Vec<Vec<u8>> = split_names(text);
    let ghost asked_names = bytes::views(asked@);
    let joined: Vec<Vec<u8>> = if text.len() > 0 && text[0] == 0x2F {
        asked
    } else {
        let mut joined: Vec<Vec<u8>> = bytes::copy_all(root_names.as_slice());
        let ghost front = bytes::views(joined@);
        joined.append(&mut asked);
        assert(bytes::views(joined@) == front + asked_names);
        joined
    };
    let path: Vec<Vec<u8>> = drop_parents(lexical_normalize(joined.as_slice()).as_slice());
    if !is_inside(root_names.as_slice(), path.as_slice()) {
        return Err(escape_message(requested));
    }
    let depth: usize = path.len();
    Ok(Resolution { root: root_names, path, depth, requested: requested.to_owned(), link: None })
}

/// How many names the next ancestor to ask about has, after one with `depth`
/// names that does not exist. There is none above the top of the file system,
/// nor above a parent step.
pub open spec fn next_depth(path: Seq<Seq<u8>>, depth: int) -> Option<int> {
    if depth <= 0 || path[depth - 1] == parent_name() {
        None
    } else {
        Some(depth - 1)
    }
}

/// The real path of an ancestor with the rest of the path behind it.
pub open spec fn target(path: Seq<Seq<u8>>, depth: int, actual: Seq<Seq<u8>>) -> Seq<Seq<u8>> {
    actual + path.skip(depth)
}

/// An answer with its path as a list of names.
pub open spec fn answer_names(answer: Answer<&[u8]>) -> Answer<Seq<Seq<u8>>> {
    match answer {
        Answer::Real(path) => Answer::Real(names(path@)),
        Answer::Missing => Answer::Missing,
        Answer::Dangling(path) => Answer::Dangling(names(path@)),
    }
}

/// A refusal with this message.
pub open spec fn is_refusal(step: Step, message: Seq<char>) -> bool {
    step matches Step::Refused(m) && m@ == message
}

/// The same request against the same workspace.
pub open spec fn same_request(a: Resolution, b: Resolution) -> bool {
    a.root == b.root && a.path == b.path && a.requested == b.requested
}

/// Going on with the ancestor above the one that is asked about, because nothing
/// is found under that name.
pub open spec fn goes_up(resolution: Resolution, step: Step) -> bool {
    match next_depth(bytes::views(resolution.path@), resolution.depth as int) {
        None => is_refusal(step, "cannot resolve path: "@ + resolution.requested@),
        Some(depth) => step matches Step::Again(next) && next.wf() && same_request(
            next,
            resolution,
        ) && next.depth == depth && next.link is None,
    }
}

/// Going on with a link that leads to `path` and of which the first `depth`
/// names are asked about.
pub open spec fn traces(
    resolution: Resolution,
    step: Step,
    path: Seq<Seq<u8>>,
    depth: int,
    hops: int,
) -> bool {
    &&& step matches Step::Again(next)
    &&& next.wf()
    &&& same_request(next, resolution)
    &&& next.depth == resolution.depth
    &&& next.link matches Some(link)
    &&& bytes::views(link.path@) == path
    &&& link.depth == depth
    &&& link.hops == hops
}

/// What follows from an answer to the question that a resolution asks. A link
/// that cannot be followed to its end counts as nothing where it leads into the
/// workspace, and is refused where it leads out of it.
pub open spec fn follows(
    resolution: Resolution,
    answer: Answer<Seq<Seq<u8>>>,
    step: Step,
) -> bool {
    let root = bytes::views(resolution.root@);
    let escape = escape_text(resolution.requested@);
    match resolution.link {
        None => match answer {
            Answer::Missing => goes_up(resolution, step),
            Answer::Dangling(to) => traces(
                resolution,
                step,
                to,
                to.len() as int,
                MAX_LINKS as int,
            ),
            Answer::Real(actual) => {
                let found = target(
                    bytes::views(resolution.path@),
                    resolution.depth as int,
                    actual,
                );
                if root.is_prefix_of(found) {
                    step matches Step::Found(t) && bytes::views(t@) == found
                } else {
                    is_refusal(step, escape)
                }
            },
        },
        Some(link) => {
            let path = bytes::views(link.path@);
            match answer {
                Answer::Missing => match next_depth(path, link.depth as int) {
                    None => is_refusal(step, escape),
                    Some(depth) => traces(resolution, step, path, depth, link.hops as int),
                },
                Answer::Dangling(to) => if link.hops == 0 {
                    goes_up(resolution, step)
                } else {
                    let onward = target(path, link.depth as int, to);
                    traces(resolution, step, onward, onward.len() as int, link.hops - 1)
                },
                Answer::Real(actual) => if root.is_prefix_of(
                    target(path, link.depth as int, actual),
                ) {
                    goes_up(resolution, step)
                } else {
                    is_refusal(step, escape)
                },
            }
        },
    }
}

/// The names of a real path with what is left of `path` behind them.
fn join_target(actual: &[u8], path: &[Vec<u8>], depth: usize) -> (r: Vec<Vec<u8>>)
    requires
        depth <= path@.len(),
    ensures
        bytes::views(r@) == target(bytes::views(path@), depth as int, names(actual@)),
{
    let mut r: Vec<Vec<u8>> = split_names(actual);
    let ghost front = bytes::views(r@);
    let rest = vstd::slice::slice_subrange(path, depth, path.len());
    let mut rest: Vec<Vec<u8>> = bytes::copy_all(rest);
    let ghost tail = bytes::views(rest@);
    assert(tail == bytes::views(path@).skip(depth as int));
    r.append(&mut rest);
    assert(bytes::views(r@) == front + tail);
    r
}

impl Resolution {
    /// Each ancestor is an ancestor of its path.
    pub open spec fn wf(&self) -> bool {
        &&& self.depth <= self.path@.len()
        &&& self.link matches Some(link) ==> link.depth <= link.path@.len()
    }

    /// The path that is asked about.
    pub open spec fn question(&self) -> Seq<Seq<u8>> {
        match self.link {
            Some(link) => bytes::views(link.path@).take(link.depth as int),
            None => bytes::views(self.path@).take(self.depth as int),
        }
    }

    /// The path to ask the file system about.
    pub fn probe(&self) -> (r: Vec<u8>)
        requires
            self.wf(),
        ensures
            r@ == path_text(self.question()),
    {
        let slice = match &self.link {
            Some(link) => vstd::slice::slice_subrange(link.path.as_slice(), 0, link.depth),
            None => vstd::slice::slice_subrange(self.path.as_slice(), 0, self.depth),
        };
        assert(bytes::views(slice@) == self.question());
        join_names(slice)
    }

    /// Go on with the ancestor above.
    fn up(self) -> (r: Step)
        requires
            self.wf(),
        ensures
            goes_up(self, r),
    {
        if self.depth == 0 || is_parent_name(self.path[self.depth - 1].as_slice()) {
            let mut m: String = String::from_str("cannot resolve path: ");
            m.append(self.requested.as_str());
            return Step::Refused(m);
        }
        Step::Again(
            Resolution {
                root: self.root,
                path: self.path,
                depth: self.depth - 1,
                requested: self.requested,
                link: None,
            },
        )
    }

    /// Go on with a link.
    fn trace(self, path: Vec<Vec<u8>>, depth: usize, hops: usize) -> (r: Step)
        requires
            self.wf(),
            depth <= path@.len(),
        ensures
            traces(self, r, bytes::views(path@), depth as int, hops as int),
    {
        Step::Again(
            Resolution {
                root: self.root,
                path: self.path,
                depth: self.depth,
                requested: self.requested,
                link: Some(Link { path, depth, hops }),
            },
        )
    }

    /// Refuse the request because it leads out of the workspace.
    fn refuse(self) -> (r: Step)
        ensures
            is_refusal(r, escape_text(self.requested@)),
    {
        Step::Refused(escape_message(self.requested.as_str()))
    }

    /// Go on with the file system's answer to the question.
    pub fn step(self, answer: Answer<&[u8]>) -> (r: Step)
        requires
            self.wf(),
        ensures
            follows(self, answer_names(answer), r),
    {
        match &self.link {
            None => match answer {
                Answer::Missing => self.up(),
                Answer::Dangling(to) => {
                    let path: Vec<Vec<u8>> = split_names(to);
                    let depth: usize = path.len();
                    assert(bytes::views(path@).len() == depth);
                    self.trace(path, depth, MAX_LINKS)
                },
                Answer::Real(actual) => {
                    let found: Vec<Vec<u8>> = join_target(
                        actual,
                        self.path.as_slice(),
                        self.depth,
                    );
                    if is_inside(self.root.as_slice(), found.as_slice()) {
                        Step::Found(found)
                    } else {
                        self.refuse()
                    }
                },
            },
            Some(link) => match answer {
                Answer::Missing => {
                    let depth: usize = link.depth;
                    if depth == 0 || is_parent_name(link.path[depth - 1].as_slice()) {
                        return self.refuse();
                    }
                    let path: Vec<Vec<u8>> = bytes::copy_all(link.path.as_slice());
                    let hops: usize = link.hops;
                    assert(bytes::views(path@).len() == path@.len());
                    assert(bytes::views(link.path@).len() == link.path@.len());
                    self.trace(path, depth - 1, hops)
                },
                Answer::Dangling(to) => {
                    if link.hops == 0 {
                        return self.up();
                    }
                    let hops: usize = link.hops - 1;
                    let path: Vec<Vec<u8>> = join_target(to, link.path.as_slice(), link.depth);
                    let depth: usize = path.len();
                    assert(bytes::views(path@).len() == depth);
                    self.trace(path, depth, hops)
                },
                Answer::Real(actual) => {
                    let found: Vec<Vec<u8>> = join_target(
                        actual,
                        link.path.as_slice(),
                        link.depth,
                    );
                    if is_inside(self.root.as_slice(), found.as_slice()) {
                        self.up()
                    } else {
                        self.refuse()
                    }
                },
            },
        }
    }
}

// ---------------------------------------------------------------------------
// Where a path leads
// ---------------------------------------------------------------------------

/// Whether a link leads into the workspace, on a file system that says what each
/// path is: the real path of the deepest existing ancestor of the path that it
/// leads to, with the rest behind it, lies there. Links on the way are followed
/// in turn; a chain that is too long to be followed leads nowhere, so not out of
/// the workspace either.
pub open spec fn leads_inside(
    actual: spec_fn(Seq<Seq<u8>>) -> Answer<Seq<Seq<u8>>>,
    root: Seq<Seq<u8>>,
    path: Seq<Seq<u8>>,
    depth: int,
    hops: nat,
) -> bool
    decreases hops, depth,
{
    match actual(path.take(depth)) {
        Answer::Real(answer) => root.is_prefix_of(target(path, depth, answer)),
        Answer::Missing => match next_depth(path, depth) {
            Some(d) => leads_inside(actual, root, path, d, hops),
            None => false,
        },
        Answer::Dangling(to) => hops == 0 || leads_inside(
            actual,
            root,
            target(path, depth, to),
            target(path, depth, to).len() as int,
            (hops - 1) as nat,
        ),
    }
}

/// Where a path leads on a file system that says what each path is: to the real
/// path of its deepest existing ancestor with the rest behind it, provided that
/// this lies in the workspace and that no link below it leads out of it.
pub open spec fn resolved(
    actual: spec_fn(Seq<Seq<u8>>) -> Answer<Seq<Seq<u8>>>,
    root: Seq<Seq<u8>>,
    path: Seq<Seq<u8>>,
    depth: int,
) -> Option<Seq<Seq<u8>>>
    decreases depth,
{
    match actual(path.take(depth)) {
        Answer::Real(answer) => if root.is_prefix_of(target(path, depth, answer)) {
            Some(target(path, depth, answer))
        } else {
            None
        },
        Answer::Dangling(to) => if leads_inside(
            actual,
            root,
            to,
            to.len() as int,
            MAX_LINKS as nat,
        ) {
            match next_depth(path, depth) {
                Some(d) => resolved(actual, root, path, d),
                None => None,
            }
        } else {
            None
        },
        Answer::Missing => match next_depth(path, depth) {
            Some(d) => resolved(actual, root, path, d),
            None => None,
        },
    }
}

/// Where a resolution ends, however far it has come.
pub open spec fn destination(
    actual: spec_fn(Seq<Seq<u8>>) -> Answer<Seq<Seq<u8>>>,
    resolution: Resolution,
) -> Option<Seq<Seq<u8>>> {
    let root = bytes::views(resolution.root@);
    let path = bytes::views(resolution.path@);
    let depth = resolution.depth as int;
    match resolution.link {
        None => resolved(actual, root, path, depth),
        Some(link) => if leads_inside(
            actual,
            root,
            bytes::views(link.path@),
            link.depth as int,
            link.hops as nat,
        ) {
            match next_depth(path, depth) {
                Some(d) => resolved(actual, root, path, d),
                None => None,
            }
        } else {
            None
        },
    }
}

/// Whether a step is what follows from the file system's answer to the question
/// that a resolution asks.
pub open spec fn is_answered(
    actual: spec_fn(Seq<Seq<u8>>) -> Answer<Seq<Seq<u8>>>,
    resolution: Resolution,
    step: Step,
) -> bool {
    follows(resolution, actual(resolution.question()), step)
}

/// Whether asking goes on from the `i`-th resolution to the one behind it.
pub open spec fn goes_on(
    actual: spec_fn(Seq<Seq<u8>>) -> Answer<Seq<Seq<u8>>>,
    asked: Seq<Resolution>,
    i: int,
) -> bool {
    is_answered(actual, asked[i], Step::Again(asked[i + 1]))
}

/// Asking the file system step by step ends where the path leads: a path is
/// found exactly if there is one, and it is that path.
pub proof fn asking_ends_in_the_resolved_path(
    actual: spec_fn(Seq<Seq<u8>>) -> Answer<Seq<Seq<u8>>>,
    asked: Seq<Resolution>,
    end: Step,
)
    requires
        asked.len() > 0,
        asked[0].wf(),
        forall|i: int| 0 <= i < asked.len() - 1 ==> #[trigger] goes_on(actual, asked, i),
        is_answered(actual, asked.last(), end),
        !(end is Again),
    ensures
        match end {
            Step::Found(t) => destination(actual, asked[0]) == Some(bytes::views(t@)),
            _ => destination(actual, asked[0]) is None,
        },
        asked[0].link is None ==> destination(actual, asked[0]) == resolved(
            actual,
            bytes::views(asked[0].root@),
            bytes::views(asked[0].path@),
            asked[0].depth as int,
        ),
    decreases asked.len(),
{
    if asked.len() > 1 {
        assert(goes_on(actual, asked, 0));
        let rest = asked.skip(1);
        assert forall|i: int| 0 <= i < rest.len() - 1 implies #[trigger] goes_on(
            actual,
            rest,
            i,
        ) by {
            assert(goes_on(actual, asked, i + 1));
        }
        asking_ends_in_the_resolved_path(actual, rest, end);
        assert(destination(actual, asked[0]) == destination(actual, rest[0]));
    }
}

/// How many links are still to be followed; one more than there can be where
/// none is being traced.
pub open spec fn hops_left(resolution: Resolution) -> int {
    match resolution.link {
        Some(link) => link.hops as int,
        None => usize::MAX + 1,
    }
}

/// How many names of the path that a link leads to are asked about.
pub open spec fn link_depth(resolution: Resolution) -> int {
    match resolution.link {
        Some(link) => link.depth as int,
        None => 0,
    }
}

/// Asking comes to an end: with each answer there is less left to ask.
pub proof fn each_answer_comes_closer(
    resolution: Resolution,
    answer: Answer<Seq<Seq<u8>>>,
    next: Resolution,
)
    requires
        resolution.wf(),
        follows(resolution, answer, Step::Again(next)),
    ensures
        next.wf(),
        decreases_to!(
            resolution.depth,
            hops_left(resolution),
            link_depth(resolution)
            => next.depth, hops_left(next), link_depth(next)
        ),
{
}

/// A path that is resolved lies in the workspace, whatever links the file
/// system holds. It is the real path of an existing ancestor of the requested
/// path, with what is left of the request behind it, and below that ancestor
/// nothing exists, nor is there a link that leads out of the workspace.
pub proof fn resolved_path_stays_inside(
    actual: spec_fn(Seq<Seq<u8>>) -> Answer<Seq<Seq<u8>>>,
    root: Seq<Seq<u8>>,
    path: Seq<Seq<u8>>,
    depth: int,
)
    requires
        0 <= depth <= path.len(),
    ensures
        resolved(actual, root, path, depth) matches Some(t) ==> root.is_prefix_of(t) && exists|d: int|
            0 <= d <= depth && #[trigger] actual(path.take(d)) is Real && t == actual(
                path.take(d),
            )->Real_0 + path.skip(d) && forall|e: int|
                d < e <= depth ==> is_harmless(actual, root, #[trigger] path.take(e)),
    decreases depth,
{
    if !(actual(path.take(depth)) is Real) && resolved(actual, root, path, depth) is Some {
        resolved_path_stays_inside(actual, root, path, depth - 1);
        let t = resolved(actual, root, path, depth)->Some_0;
        let d = choose|d: int|
            0 <= d <= depth - 1 && #[trigger] actual(path.take(d)) is Real && t == actual(
                path.take(d),
            )->Real_0 + path.skip(d) && forall|e: int|
                d < e <= depth - 1 ==> is_harmless(actual, root, #[trigger] path.take(e));
        assert forall|e: int| d < e <= depth implies is_harmless(
            actual,
            root,
            #[trigger] path.take(e),
        ) by {
            if e < depth {
                assert(is_harmless(actual, root, path.take(e)));
            }
        }
    }
}

/// Whether nothing exists under a path but perhaps a link that leads into the
/// workspace.
pub open spec fn is_harmless(
    actual: spec_fn(Seq<Seq<u8>>) -> Answer<Seq<Seq<u8>>>,
    root: Seq<Seq<u8>>,
    path: Seq<Seq<u8>>,
) -> bool {
    match actual(path) {
        Answer::Real(_) => false,
        Answer::Missing => true,
        Answer::Dangling(to) => leads_inside(
            actual,
            root,
            to,
            to.len() as int,
            MAX_LINKS as nat,
        ),
    }
}

/// A path that is resolved holds no parent step, since real paths hold none.
pub proof fn resolved_path_has_no_parent_step(
    actual: spec_fn(Seq<Seq<u8>>) -> Answer<Seq<Seq<u8>>>,
    root: Seq<Seq<u8>>,
    path: Seq<Seq<u8>>,
    depth: int,
)
    requires
        0 <= depth <= path.len(),
        forall|i: int| depth <= i < path.len() ==> #[trigger] path[i] != parent_name(),
        forall|p: Seq<Seq<u8>>, i: int|
            #![trigger actual(p)->Real_0[i]]
            actual(p) is Real && 0 <= i < actual(p)->Real_0.len() ==> actual(p)->Real_0[i]
                != parent_name(),
    ensures
        resolved(actual, root, path, depth) matches Some(t) ==> forall|i: int|
            0 <= i < t.len() ==> #[trigger] t[i] != parent_name(),
    decreases depth,
{
    match actual(path.take(depth)) {
        Answer::Real(answer) => {
            let t = target(path, depth, answer);
            assert forall|i: int| 0 <= i < t.len() implies #[trigger] t[i] != parent_name() by {
                if i < answer.len() {
                    assert(t[i] == actual(path.take(depth))->Real_0[i]);
                } else {
                    assert(t[i] == path[i - answer.len() + depth]);
                }
            }
        },
        _ => {
            if next_depth(path, depth) is Some {
                resolved_path_has_no_parent_step(actual, root, path, depth - 1);
            }
        },
    }
}

/// What a path leads to is decided by its deepest existing ancestor, where no
/// link stands in between.
proof fn lemma_leads_inside(
    actual: spec_fn(Seq<Seq<u8>>) -> Answer<Seq<Seq<u8>>>,
    root: Seq<Seq<u8>>,
    path: Seq<Seq<u8>>,
    depth: int,
    existing: int,
    hops: nat,
)
    requires
        0 <= existing <= depth <= path.len(),
        actual(path.take(existing)) is Real,
        forall|e: int| existing < e <= depth ==> #[trigger] actual(path.take(e)) is Missing,
        forall|i: int| existing <= i < depth ==> #[trigger] path[i] != parent_name(),
    ensures
        leads_inside(actual, root, path, depth, hops) == root.is_prefix_of(
            target(path, existing, actual(path.take(existing))->Real_0),
        ),
    decreases depth,
{
    if existing < depth {
        assert(path[depth - 1] != parent_name());
        lemma_leads_inside(actual, root, path, depth - 1, existing, hops);
    }
}

/// A link to a target that does not exist yet is judged by where that target
/// would be. Where that is outside the workspace, neither the link nor anything
/// below it is found; where it is inside, the link counts as nothing.
pub proof fn link_is_judged_by_its_target(
    actual: spec_fn(Seq<Seq<u8>>) -> Answer<Seq<Seq<u8>>>,
    root: Seq<Seq<u8>>,
    path: Seq<Seq<u8>>,
    depth: int,
    link: int,
    to: Seq<Seq<u8>>,
    existing: int,
)
    requires
        0 < link <= depth <= path.len(),
        forall|i: int| 0 <= i < path.len() ==> #[trigger] path[i] != parent_name(),
        forall|e: int| link < e <= depth ==> #[trigger] actual(path.take(e)) is Missing,
        actual(path.take(link)) == Answer::Dangling(to),
        0 <= existing <= to.len(),
        actual(to.take(existing)) is Real,
        forall|e: int| existing < e <= to.len() ==> #[trigger] actual(to.take(e)) is Missing,
        forall|i: int| existing <= i < to.len() ==> #[trigger] to[i] != parent_name(),
    ensures
        resolved(actual, root, path, depth) == if root.is_prefix_of(
            target(to, existing, actual(to.take(existing))->Real_0),
        ) {
            resolved(actual, root, path, link - 1)
        } else {
            None
        },
    decreases depth,
{
    assert(path[depth - 1] != parent_name());
    if link < depth {
        link_is_judged_by_its_target(actual, root, path, depth - 1, link, to, existing);
    } else {
        lemma_leads_inside(actual, root, to, to.len() as int, existing, MAX_LINKS as nat);
    }
}

/// Where nothing that the path goes through is a link, a request inside the
/// workspace resolves to the path it names.
pub proof fn plain_path_resolves_to_itself(
    actual: spec_fn(Seq<Seq<u8>>) -> Answer<Seq<Seq<u8>>>,
    root: Seq<Seq<u8>>,
    path: Seq<Seq<u8>>,
    depth: int,
    existing: int,
)
    requires
        0 <= existing <= depth <= path.len(),
        root.is_prefix_of(path),
        actual(path.take(existing)) == Answer::Real(path.take(existing)),
        forall|e: int| existing < e <= depth ==> #[trigger] actual(path.take(e)) is Missing,
        forall|i: int| 0 <= i < path.len() ==> #[trigger] path[i] != parent_name(),
    ensures
        resolved(actual, root, path, depth) == Some(path),
    decreases depth,
{
    if depth == existing {
        assert(path.take(existing) + path.skip(existing) == path);
    } else {
        assert(path[depth - 1] != parent_name());
        plain_path_resolves_to_itself(actual, root, path, depth - 1, existing);
    }
}

// ---------------------------------------------------------------------------
// What a request names
// ---------------------------------------------------------------------------

/// A separator between two parts of a path splits them, and nothing else does:
/// a part without separators is one name, unless it is empty or a single dot.
pub proof fn separators_split_names(a: Seq<u8>, b: Seq<u8>, part: Seq<u8>)
    requires
        forall|i: int| 0 <= i < part.len() ==> #[trigger] part[i] != 0x2F,
    ensures
        names(a + seq![0x2Fu8] + b) == names(a) + names(b),
        names(part) == if part.len() == 0 || part == seq![0x2Eu8] {
            Seq::<Seq<u8>>::empty()
        } else {
            seq![part]
        },
{
    lemma_names_concat(a, b);
    lemma_find_slash(part, part.len() as int);
}

proof fn lemma_no_parents(list: Seq<Seq<u8>>)
    requires
        forall|i: int| 0 <= i < list.len() ==> #[trigger] list[i] != parent_name(),
    ensures
        from_top(list) == list,
{
    lemma_lexical_fixed(list);
    if list.len() > 0 {
        assert(list[0] != parent_name());
    }
}

/// A relative request without parent steps names the path of the root with all
/// its names behind it, whatever these names are.
pub proof fn plain_request_stands_below_the_root(root: Seq<Seq<u8>>, requested: Seq<char>)
    requires
        encode_utf8(requested).len() == 0 || encode_utf8(requested)[0] != 0x2F,
        forall|i: int| 0 <= i < root.len() ==> #[trigger] root[i] != seq![0x2Eu8, 0x2Eu8],
        forall|i: int|
            0 <= i < names(encode_utf8(requested)).len() ==> #[trigger] names(
                encode_utf8(requested),
            )[i] != seq![0x2Eu8, 0x2Eu8],
    ensures
        requested_path(root, requested) == root + names(encode_utf8(requested)),
{
    let own = names(encode_utf8(requested));
    let all = root + own;
    assert forall|i: int| 0 <= i < all.len() implies #[trigger] all[i] != parent_name() by {
        if i < root.len() {
            assert(all[i] == root[i]);
        } else {
            assert(all[i] == own[i - root.len()]);
        }
    }
    lemma_no_parents(all);
}

/// An absolute request without parent steps names its own path, whatever the
/// root is.
pub proof fn plain_absolute_request_names_itself(root: Seq<Seq<u8>>, requested: Seq<char>)
    requires
        encode_utf8(requested).len() > 0,
        encode_utf8(requested)[0] == 0x2F,
        forall|i: int|
            0 <= i < names(encode_utf8(requested)).len() ==> #[trigger] names(
                encode_utf8(requested),
            )[i] != seq![0x2Eu8, 0x2Eu8],
    ensures
        requested_path(root, requested) == names(encode_utf8(requested)),
{
    lemma_no_parents(names(encode_utf8(requested)));
}

/// A relative request, parent steps and all, and the absolute request that has
/// the root in front of it name the same path, and the root has no part in
/// what an absolute request names.
pub proof fn relative_and_absolute_requests_agree(
    root: Seq<Seq<u8>>,
    relative: Seq<char>,
    absolute: Seq<char>,
    other: Seq<Seq<u8>>,
)
    requires
        forall|i: int| 0 <= i < root.len() ==> is_name(#[trigger] root[i]),
        encode_utf8(relative).len() == 0 || encode_utf8(relative)[0] != 0x2F,
        encode_utf8(absolute) == path_text(root) + seq![0x2Fu8] + encode_utf8(relative),
    ensures
        requested_path(root, relative) == requested_path(root, absolute),
        requested_path(other, absolute) == requested_path(root, absolute),
{
    relative_and_absolute_agree(root, encode_utf8(relative));
    lemma_path_text_front(root);
}

proof fn lemma_path_text_front(list: Seq<Seq<u8>>)
    ensures
        path_text(list).len() > 0,
        path_text(list)[0] == 0x2F,
    decreases list.len(),
{
    if list.len() > 1 {
        lemma_path_text_front(list.drop_last());
    }
}

proof fn lemma_lexical_cancel(a: Seq<Seq<u8>>, name: Seq<u8>, b: Seq<Seq<u8>>)
    requires
        name != parent_name(),
    ensures
        lexical(a + seq![name, parent_name()] + b) == lexical(a + b),
    decreases b.len(),
{
    let step = seq![name, parent_name()];
    let all = a + step + b;
    if b.len() == 0 {
        assert(a + b == a);
        assert(all.drop_last() == a.push(name));
        assert(a.push(name).drop_last() == a);
        assert(lexical(a.push(name)) == lexical(a).push(name));
        assert(all.last() == parent_name());
        assert(lexical(a).push(name).drop_last() == lexical(a));
    } else {
        lemma_lexical_cancel(a, name, b.drop_last());
        assert(all.drop_last() == a + step + b.drop_last());
        assert((a + b).drop_last() == a + b.drop_last());
        assert(all.last() == b.last() && (a + b).last() == b.last());
    }
}

/// A parent step takes back the name in front of it, and only that.
pub proof fn parent_step_takes_back_one_name(
    root: Seq<Seq<u8>>,
    front: Seq<u8>,
    name: Seq<u8>,
    back: Seq<u8>,
    long: Seq<char>,
    short: Seq<char>,
)
    requires
        is_name(name),
        name != seq![0x2Eu8, 0x2Eu8],
        encode_utf8(long) == front + seq![0x2Fu8] + (name + seq![0x2Fu8] + (seq![0x2Eu8, 0x2Eu8]
            + seq![0x2Fu8] + back)),
        encode_utf8(short) == front + seq![0x2Fu8] + back,
    ensures
        requested_path(root, long) == requested_path(root, short),
{
    let parent = parent_name();
    let last = parent + seq![0x2Fu8] + back;
    lemma_names_concat(front, name + seq![0x2Fu8] + last);
    lemma_names_concat(name, last);
    lemma_names_concat(parent, back);
    lemma_names_concat(front, back);
    lemma_find_slash(name, name.len() as int);
    lemma_find_slash(parent, 2);
    assert(names(name) == seq![name]);
    assert(names(parent) == seq![parent]);
    let step = seq![name, parent];
    assert(names(encode_utf8(long)) == names(front) + step + names(back));
    lemma_lexical_cancel(names(front), name, names(back));
    lemma_lexical_cancel(root + names(front), name, names(back));
    assert(root + names(encode_utf8(long)) == root + names(front) + step + names(back));
    assert(root + names(encode_utf8(short)) == root + names(front) + names(back));
    assert(encode_utf8(long)[0] == encode_utf8(short)[0]);
}

/// A parent step at the front of a relative request takes back the last name of
/// the root, and one at the top of an absolute request changes nothing.
pub proof fn leading_parent_step_leaves_the_root(
    root: Seq<Seq<u8>>,
    up: Seq<char>,
    top: Seq<char>,
    rest: Seq<char>,
    plain: Seq<char>,
)
    requires
        root.len() > 0,
        root.last() != seq![0x2Eu8, 0x2Eu8],
        encode_utf8(rest).len() == 0 || encode_utf8(rest)[0] != 0x2F,
        encode_utf8(up) == seq![0x2Eu8, 0x2Eu8] + seq![0x2Fu8] + encode_utf8(rest),
        encode_utf8(plain) == seq![0x2Fu8] + encode_utf8(rest),
        encode_utf8(top) == seq![0x2Fu8] + encode_utf8(up),
    ensures
        requested_path(root, up) == requested_path(root.drop_last(), rest),
        requested_path(root, top) == requested_path(root, plain),
{
    let parent = parent_name();
    let nothing = Seq::<u8>::empty();
    let own = names(encode_utf8(rest));
    lemma_find_slash(parent, 2);
    lemma_find_slash(nothing, 0);
    lemma_names_concat(parent, encode_utf8(rest));
    lemma_names_concat(nothing, encode_utf8(rest));
    lemma_names_concat(nothing, encode_utf8(up));
    assert(nothing + seq![0x2Fu8] + encode_utf8(rest) == encode_utf8(plain));
    assert(nothing + seq![0x2Fu8] + encode_utf8(up) == encode_utf8(top));
    assert(names(encode_utf8(up)) == seq![parent] + own);
    assert(names(encode_utf8(plain)) == own);
    assert(names(encode_utf8(top)) == seq![parent] + own);
    lemma_lexical_cancel(root.drop_last(), root.last(), own);
    assert(root.drop_last() + seq![root.last(), parent] + own == root + (seq![parent] + own));
    lemma_top_step(own);
}

/// A parent step at the top has nothing to take back.
proof fn lemma_top_step(list: Seq<Seq<u8>>)
    ensures
        from_top(seq![parent_name()] + list) == from_top(list),
{
    lemma_lexical_parents(list);
    lemma_lexical_step(list);
    let short = lexical(list);
    let long = lexical(seq![parent_name()] + list);
    lemma_below_more(short, long);
}

/// The same list, or the same one with one more parent step in front.
spec fn is_one_more(short: Seq<Seq<u8>>, long: Seq<Seq<u8>>) -> bool {
    long == seq![parent_name()] + short
}

proof fn lemma_lexical_step(list: Seq<Seq<u8>>)
    ensures
        is_one_more(lexical(list), lexical(seq![parent_name()] + list)),
    decreases list.len(),
{
    let all = seq![parent_name()] + list;
    if list.len() == 0 {
        assert(all == seq![parent_name()]);
        assert(all.drop_last() == Seq::<Seq<u8>>::empty());
        assert(lexical(all.drop_last()) == Seq::<Seq<u8>>::empty());
        assert(lexical(list) == Seq::<Seq<u8>>::empty());
        assert(lexical(all) == Seq::<Seq<u8>>::empty().push(parent_name()));
        assert(lexical(all) == seq![parent_name()] + lexical(list));
    } else {
        let front = list.drop_last();
        lemma_lexical_step(front);
        assert(all.drop_last() == seq![parent_name()] + front);
        assert(all.last() == list.last());
        let short = lexical(front);
        let long = lexical(seq![parent_name()] + front);
        assert(long == seq![parent_name()] + short);
        if short.len() > 0 {
            assert(long.last() == short.last());
        } else {
            assert(long.last() == parent_name());
        }
        if list.last() == parent_name() && short.len() > 0 && short.last() != parent_name() {
            assert(long.drop_last() == seq![parent_name()] + short.drop_last());
        } else {
            assert(long.push(list.last()) == seq![parent_name()] + short.push(list.last()));
        }
    }
}

proof fn lemma_below_more(short: Seq<Seq<u8>>, long: Seq<Seq<u8>>)
    requires
        is_one_more(short, long),
    ensures
        below_top(long) == below_top(short),
{
    assert(long[0] == parent_name());
    assert(long.drop_first() == short);
}

/// The deepest directory that exists decides where a path leads, by where it
/// really is: the names behind it follow, and the whole has to lie inside the
/// workspace.
pub proof fn deepest_directory_decides(
    actual: spec_fn(Seq<Seq<u8>>) -> Answer<Seq<Seq<u8>>>,
    root: Seq<Seq<u8>>,
    path: Seq<Seq<u8>>,
    depth: int,
    existing: int,
    place: Seq<Seq<u8>>,
)
    requires
        0 <= existing <= depth <= path.len(),
        actual(path.take(existing)) == Answer::Real(place),
        forall|e: int| existing < e <= depth ==> #[trigger] actual(path.take(e)) is Missing,
        forall|i: int| 0 <= i < path.len() ==> #[trigger] path[i] != parent_name(),
    ensures
        resolved(actual, root, path, depth) == if root.is_prefix_of(place + path.skip(existing)) {
            Some(place + path.skip(existing))
        } else {
            None
        },
    decreases depth,
{
    if depth > existing {
        assert(path[depth - 1] != parent_name());
        deepest_directory_decides(actual, root, path, depth - 1, existing, place);
    }
}

/// In a workspace without links a relative request without parent steps leads
/// to the file that has the names of the root and then its own.
pub proof fn plain_request_leads_to_its_file(
    actual: spec_fn(Seq<Seq<u8>>) -> Answer<Seq<Seq<u8>>>,
    root: Seq<Seq<u8>>,
    requested: Seq<char>,
    existing: int,
)
    requires
        encode_utf8(requested).len() == 0 || encode_utf8(requested)[0] != 0x2F,
        forall|i: int| 0 <= i < root.len() ==> #[trigger] root[i] != seq![0x2Eu8, 0x2Eu8],
        forall|i: int|
            0 <= i < names(encode_utf8(requested)).len() ==> #[trigger] names(
                encode_utf8(requested),
            )[i] != seq![0x2Eu8, 0x2Eu8],
        0 <= existing <= root.len() + names(encode_utf8(requested)).len(),
        ({
            let path = root + names(encode_utf8(requested));
            &&& actual(path.take(existing)) == Answer::Real(path.take(existing))
            &&& forall|e: int|
                existing < e <= path.len() ==> #[trigger] actual(path.take(e)) is Missing
        }),
    ensures
        ({
            let path = requested_path(root, requested);
            resolved(actual, root, path, path.len() as int) == Some(
                root + names(encode_utf8(requested)),
            )
        }),
{
    let path = root + names(encode_utf8(requested));
    plain_request_stands_below_the_root(root, requested);
    assert forall|i: int| 0 <= i < path.len() implies #[trigger] path[i] != parent_name() by {
        requested_path_has_no_parent_step(root, requested, i);
    }
    assert(root.is_prefix_of(path));
    plain_path_resolves_to_itself(actual, root, path, path.len() as int, existing);
}

/// A path is written with one separator in front of each name and none behind
/// the last.
pub proof fn path_is_written_name_by_name(a: Seq<Seq<u8>>, b: Seq<Seq<u8>>, name: Seq<u8>)
    ensures
        path_text(Seq::empty()) == seq![0x2Fu8],
        path_text(seq![name]) == seq![0x2Fu8] + name,
        a.len() > 0 && b.len() > 0 ==> path_text(a + b) == path_text(a) + path_text(b),
    decreases b.len(),
{
    assert(seq![name][0] == name);
    if a.len() > 0 && b.len() > 0 {
        let all = a + b;
        let front = b.drop_last();
        assert(all.last() == b.last());
        assert(all.drop_last() == a + front);
        if front.len() == 0 {
            assert(a + front == a);
            assert(path_text(b) == seq![0x2Fu8] + b.last());
        } else {
            path_is_written_name_by_name(a, front, name);
        }
        assert(path_text(all) == path_text(all.drop_last()) + seq![0x2Fu8] + b.last());
        assert(path_text(all) == path_text(a) + path_text(b));
    }
}

/// A link on the way of a link is followed in turn: what it leads to, with the
/// names behind it, takes its place. A link whose way ends in a directory that
/// exists leads inside exactly where that directory, with the names behind it,
/// lies inside.
pub proof fn links_on_the_way_are_followed(
    actual: spec_fn(Seq<Seq<u8>>) -> Answer<Seq<Seq<u8>>>,
    root: Seq<Seq<u8>>,
    path: Seq<Seq<u8>>,
    depth: int,
    known: int,
    hops: nat,
)
    requires
        0 <= known <= depth <= path.len(),
        forall|e: int| known < e <= depth ==> #[trigger] actual(path.take(e)) is Missing,
        forall|i: int| 0 <= i < path.len() ==> #[trigger] path[i] != parent_name(),
    ensures
        actual(path.take(known)) matches Answer::Real(place) ==> (leads_inside(
            actual,
            root,
            path,
            depth,
            hops,
        ) <==> root.is_prefix_of(place + path.skip(known))),
        actual(path.take(known)) matches Answer::Dangling(to) ==> hops > 0 ==> (leads_inside(
            actual,
            root,
            path,
            depth,
            hops,
        ) <==> leads_inside(
            actual,
            root,
            to + path.skip(known),
            (to.len() + path.len() - known) as int,
            (hops - 1) as nat,
        )),
    decreases depth,
{
    if known < depth {
        assert(path[depth - 1] != parent_name());
        assert(actual(path.take(depth)) is Missing);
        links_on_the_way_are_followed(actual, root, path, depth - 1, known, hops);
    }
}

/// A path with a link on its way that leads nowhere yet is judged by where the
/// link leads: refused where that is outside, and otherwise resolved by what
/// stands in front of the link.
pub proof fn dangling_link_guards_the_path(
    actual: spec_fn(Seq<Seq<u8>>) -> Answer<Seq<Seq<u8>>>,
    root: Seq<Seq<u8>>,
    path: Seq<Seq<u8>>,
    depth: int,
    link: int,
    to: Seq<Seq<u8>>,
)
    requires
        0 < link <= depth <= path.len(),
        actual(path.take(link)) == Answer::Dangling(to),
        forall|e: int| link < e <= depth ==> #[trigger] actual(path.take(e)) is Missing,
        forall|i: int| 0 <= i < path.len() ==> #[trigger] path[i] != parent_name(),
    ensures
        leads_inside(actual, root, to, to.len() as int, 40) ==> resolved(
            actual,
            root,
            path,
            depth,
        ) == resolved(actual, root, path, link - 1),
        !leads_inside(actual, root, to, to.len() as int, 40) ==> resolved(
            actual,
            root,
            path,
            depth,
        ) is None,
    decreases depth,
{
    assert(path[depth - 1] != parent_name());
    if link < depth {
        assert(actual(path.take(depth)) is Missing);
        dangling_link_guards_the_path(actual, root, path, depth - 1, link, to);
    }
}

/// A refusal ends in the request, whole and as it was made, behind words that
/// are the same for every request.
pub proof fn refusal_names_the_request(a: Seq<char>, b: Seq<char>)
    ensures
        escape_text(a) == "path escapes the workspace: "@ + a,
        escape_text(a + b) == escape_text(a) + b,
{
    assert("path escapes the workspace: "@ + (a + b) == "path escapes the workspace: "@ + a + b);
}

} // verus!
