//! The diff of an edit, as the `similar` crate computes it.

use vstd::prelude::*;

use crate::chars;

verus! {

/// How long the first line of a text is with its line break, which is CRLF, CR
/// or LF; the whole text where there is none.
pub open spec fn line_len(s: Seq<char>) -> nat
    decreases s.len(),
{
    if s.len() == 0 {
        0
    } else if s.len() > 1 && s[0] == '\r' && s[1] == '\n' {
        2
    } else if s[0] == '\r' || s[0] == '\n' {
        1
    } else {
        1 + line_len(s.drop_first())
    }
}

proof fn lemma_line_len(s: Seq<char>)
    ensures
        line_len(s) <= s.len(),
        s.len() > 0 ==> line_len(s) > 0,
    decreases s.len(),
{
    if s.len() > 0 {
        lemma_line_len(s.drop_first());
    }
}

/// The lines that a diff compares, with their line breaks.
pub open spec fn diff_lines(s: Seq<char>) -> Seq<Seq<char>>
    decreases s.len(),
    via diff_lines_shrink
{
    if s.len() == 0 {
        Seq::empty()
    } else {
        seq![s.take(line_len(s) as int)] + diff_lines(s.skip(line_len(s) as int))
    }
}

#[via_fn]
proof fn diff_lines_shrink(s: Seq<char>) {
    lemma_line_len(s);
}

/// Whether the different lines of two texts can be told apart by 32-bit
/// numbers, as the diff does.
pub open spec fn diffable(old: Seq<char>, new: Seq<char>) -> bool {
    (diff_lines(old) + diff_lines(new)).to_set().len() <= u32::MAX
}

/// Where the line that begins at `from` ends.
fn line_end(s: &[char], from: usize) -> (r: usize)
    requires
        from < s@.len(),
    ensures
        r == from + line_len(s@.skip(from as int)),
        from < r <= s@.len(),
{
    let n: usize = s.len();
    let mut i: usize = from;
    proof {
        lemma_line_len(s@.skip(from as int));
    }
    while i < n && s[i] != '\r' && s[i] != '\n'
        invariant
            n == s@.len(),
            from <= i <= n,
            i + line_len(s@.skip(i as int)) == from + line_len(s@.skip(from as int)),
        decreases n - i,
    {
        assert(s@.skip(i as int).drop_first() == s@.skip(i + 1));
        i = i + 1;
    }
    if i == n {
        n
    } else if s[i] == '\r' && i + 1 < n && s[i + 1] == '\n' {
        i + 2
    } else {
        i + 1
    }
}

/// How many lines a text has.
fn count_lines(s: &[char]) -> (r: usize)
    ensures
        r == diff_lines(s@).len(),
{
    let n: usize = s.len();
    let mut count: usize = 0;
    let mut at: usize = 0;
    assert(s@.skip(0) == s@);
    while at < n
        invariant
            n == s@.len(),
            at <= n,
            count <= at,
            count + diff_lines(s@.skip(at as int)).len() == diff_lines(s@).len(),
        decreases n - at,
    {
        let end: usize = line_end(s, at);
        assert(s@.skip(at as int).skip(end - at) == s@.skip(end as int));
        count = count + 1;
        at = end;
    }
    count
}

/// The contents of a list of lines.
spec fn line_views(v: Seq<Vec<char>>) -> Seq<Seq<char>> {
    Seq::new(v.len(), |i: int| v[i]@)
}

/// Add a line to a list of different lines, unless it is there already.
fn add_line(known: &mut Vec<Vec<char>>, line: &[char])
    requires
        line_views(old(known)@).no_duplicates(),
    ensures
        line_views(final(known)@).no_duplicates(),
        line_views(final(known)@).to_set() == line_views(old(known)@).to_set().insert(line@),
{
    let n: usize = known.len();
    let ghost was = line_views(known@);
    let mut i: usize = 0;
    while i < n
        invariant
            n == known@.len(),
            *known == *old(known),
            was == line_views(known@),
            was.no_duplicates(),
            i <= n,
            forall|k: int| 0 <= k < i ==> #[trigger] was[k] != line@,
        decreases n - i,
    {
        if known[i].len() == line.len() && chars::is_match_at(known[i].as_slice(), line, 0) {
            proof {
                assert(known@[i as int]@.subrange(0, line@.len() as int) == known@[i as int]@);
                assert(was[i as int] == line@);
                assert(was.contains(line@));
                assert(was.to_set() == was.to_set().insert(line@));
            }
            return;
        }
        assert(was[i as int] != line@) by {
            if was[i as int] == line@ {
                assert(known@[i as int]@.subrange(0, line@.len() as int) == line@);
            }
        }
        i = i + 1;
    }
    known.push(vstd::slice::slice_to_vec(line));
    proof {
        let now = line_views(known@);
        assert(now == was.push(line@));
        assert forall|x: Seq<char>| now.contains(x) <==> was.contains(x) || x == line@ by {
            if was.contains(x) {
                let k = choose|k: int| 0 <= k < was.len() && was[k] == x;
                assert(now[k] == x);
            }
            if x == line@ {
                assert(now[n as int] == x);
            }
        }
        assert(now.to_set() == was.to_set().insert(line@));
    }
}

/// Add the lines of a text to a list of different lines.
fn add_lines(known: &mut Vec<Vec<char>>, s: &[char])
    requires
        line_views(old(known)@).no_duplicates(),
    ensures
        line_views(final(known)@).no_duplicates(),
        line_views(final(known)@).to_set() == line_views(old(known)@).to_set() + diff_lines(
            s@,
        ).to_set(),
{
    let n: usize = s.len();
    let ghost goal = line_views(known@).to_set() + diff_lines(s@).to_set();
    let mut at: usize = 0;
    assert(s@.skip(0) == s@);
    while at < n
        invariant
            n == s@.len(),
            at <= n,
            line_views(known@).no_duplicates(),
            line_views(known@).to_set() + diff_lines(s@.skip(at as int)).to_set() == goal,
        decreases n - at,
    {
        let end: usize = line_end(s, at);
        let ghost rest = s@.skip(at as int);
        let ghost before = line_views(known@).to_set();
        let line = vstd::slice::slice_subrange(s, at, end);
        add_line(known, line);
        proof {
            let tail = diff_lines(s@.skip(end as int));
            assert(rest.skip(end - at) == s@.skip(end as int));
            assert(rest.take(end - at) == line@);
            assert(diff_lines(rest) == seq![line@] + tail);
            assert forall|x: Seq<char>| diff_lines(rest).contains(x) <==> x == line@
                || tail.contains(x) by {
                if x == line@ {
                    assert(diff_lines(rest)[0] == x);
                }
                if tail.contains(x) {
                    let k = choose|k: int| 0 <= k < tail.len() && tail[k] == x;
                    assert(diff_lines(rest)[k + 1] == x);
                }
            }
            let left = before.insert(line@) + tail.to_set();
            let right = before + diff_lines(rest).to_set();
            assert forall|x: Seq<char>| left.contains(x) <==> right.contains(x) by {
                assert(tail.to_set().contains(x) <==> tail.contains(x));
                assert(diff_lines(rest).to_set().contains(x) <==> diff_lines(rest).contains(x));
            }
            assert(left == right);
        }
        at = end;
    }
    assert(line_views(known@).to_set() == goal);
}

/// How many different lines two texts have.
pub fn count_different_lines(old: &[char], new: &[char]) -> (r: usize)
    ensures
        r == (diff_lines(old@) + diff_lines(new@)).to_set().len(),
{
    let ghost all = diff_lines(old@) + diff_lines(new@);
    let mut known: Vec<Vec<char>> = Vec::new();
    add_lines(&mut known, old);
    add_lines(&mut known, new);
    proof {
        assert forall|x: Seq<char>| all.contains(x) <==> diff_lines(old@).contains(x)
            || diff_lines(new@).contains(x) by {
            if diff_lines(old@).contains(x) {
                let k = choose|k: int| 0 <= k < diff_lines(old@).len() && diff_lines(old@)[k] == x;
                assert(all[k] == x);
            }
            if diff_lines(new@).contains(x) {
                let k = choose|k: int| 0 <= k < diff_lines(new@).len() && diff_lines(new@)[k] == x;
                assert(all[diff_lines(old@).len() + k] == x);
            }
        }
        assert(line_views(known@).to_set() == all.to_set());
        line_views(known@).unique_seq_to_set();
    }
    known.len()
}

/// Whether two texts can be diffed. Only where they have more lines than that
/// in all, the different ones among them are counted.
pub fn can_diff(old: &str, new: &str) -> (r: bool)
    ensures
        r == diffable(old@, new@),
{
    let a: Vec<char> = chars::to_chars(old);
    let b: Vec<char> = chars::to_chars(new);
    let limit: u64 = 0xFFFF_FFFF;
    let old_count: u64 = count_lines(a.as_slice()) as u64;
    let new_count: u64 = count_lines(b.as_slice()) as u64;
    if old_count <= limit && new_count <= limit - old_count {
        proof {
            (diff_lines(old@) + diff_lines(new@)).lemma_cardinality_of_set();
        }
        return true;
    }
    count_different_lines(a.as_slice(), b.as_slice()) as u64 <= limit
}

/// What one step of a line diff does.
#[derive(Debug, Clone, Copy, PartialEq, Eq, Structural)]
pub enum Change {
    Equal,
    Delete,
    Insert,
    Replace,
}

/// The steps of the line diff from `old` to `new`: what each does, and the
/// line of `new` at which it starts.
pub uninterp spec fn diff_ops(old: Seq<char>, new: Seq<char>) -> Seq<(Change, usize)>;

/// The hunks of the unified diff from `old` to `new`, as text.
pub uninterp spec fn hunks(old: Seq<char>, new: Seq<char>, radius: nat) -> Seq<Seq<char>>;

/// `similar::TextDiff::from_lines` and `TextDiff::ops`, without a deadline:
/// the steps depend on the two texts alone, and where every step keeps lines
/// the texts are the same. A step starts at a line of `new` or at its end; a
/// text never has `usize::MAX` lines, since it takes `isize::MAX` bytes at most.
#[verifier::external_body]
pub(crate) fn line_ops(old: &str, new: &str) -> (r: Vec<(Change, usize)>)
    requires
        diffable(old@, new@),
    ensures
        r@ == diff_ops(old@, new@),
        forall|i: int| 0 <= i < r@.len() ==> (#[trigger] r@[i]).1 < usize::MAX,
        (forall|i: int| 0 <= i < r@.len() ==> (#[trigger] r@[i]).0 == Change::Equal) ==> old@
            == new@,
{
    let diff = similar::TextDiff::from_lines(old, new);
    let convert = |op: &similar::DiffOp| match *op {
        similar::DiffOp::Equal { new_index, .. } => (Change::Equal, new_index),
        similar::DiffOp::Delete { new_index, .. } => (Change::Delete, new_index),
        similar::DiffOp::Insert { new_index, .. } => (Change::Insert, new_index),
        similar::DiffOp::Replace { new_index, .. } => (Change::Replace, new_index),
    };
    diff.ops().iter().map(convert).collect()
}

/// `UnifiedDiff::iter_hunks` with `radius` lines of context, each hunk in its
/// `Display` form: the hunks depend on the two texts and the radius alone, and
/// there is one at least where the texts differ.
#[verifier::external_body]
pub(crate) fn hunk_texts(old: &str, new: &str, radius: usize) -> (r: Vec<String>)
    requires
        diffable(old@, new@),
        radius <= usize::MAX / 2,
    ensures
        chars::texts(r@) == hunks(old@, new@, radius as nat),
        old@ != new@ ==> r@.len() > 0,
{
    let diff = similar::TextDiff::from_lines(old, new);
    let mut unified = diff.unified_diff();
    unified.context_radius(radius);
    unified.iter_hunks().map(|hunk| hunk.to_string()).collect()
}

/// A patch: two header lines and the hunks, or nothing where there is no hunk.
pub open spec fn patch_text(
    hunks: Seq<Seq<char>>,
    old_name: Seq<char>,
    new_name: Seq<char>,
) -> Seq<char> {
    if hunks.len() == 0 {
        Seq::empty()
    } else {
        "--- "@ + old_name + "\n+++ "@ + new_name + "\n"@ + hunks.flatten()
    }
}

/// `UnifiedDiff` in its `Display` form, with `radius` lines of context and a
/// header that names both files: the header lines come before the first hunk,
/// and the hunks are those of `hunk_texts`.
#[verifier::external_body]
pub(crate) fn unified_patch(
    old: &str,
    new: &str,
    radius: usize,
    old_name: &str,
    new_name: &str,
) -> (r: String)
    requires
        diffable(old@, new@),
        radius <= usize::MAX / 2,
    ensures
        r@ == patch_text(hunks(old@, new@, radius as nat), old_name@, new_name@),
{
    let diff = similar::TextDiff::from_lines(old, new);
    diff.unified_diff().context_radius(radius).header(old_name, new_name).to_string()
}

/// Texts of no more characters than there are 32-bit numbers can always be
/// diffed.
pub proof fn ordinary_texts_can_be_diffed(old: Seq<char>, new: Seq<char>)
    requires
        old.len() + new.len() <= u32::MAX,
    ensures
        diffable(old, new),
{
    lemma_no_more_lines(old);
    lemma_no_more_lines(new);
    (diff_lines(old) + diff_lines(new)).lemma_cardinality_of_set();
}

proof fn lemma_no_more_lines(s: Seq<char>)
    ensures
        diff_lines(s).len() <= s.len(),
    decreases s.len(),
{
    if s.len() > 0 {
        lemma_line_len(s);
        lemma_no_more_lines(s.skip(line_len(s) as int));
    }
}

} // verus!
