//! The `edit` tool: several disjoint replacements, each matched against the
//! original file contents, applied all or not at all, with line endings and
//! the byte-order mark preserved and a diff of what changed.

pub mod diff;
pub mod matching;

use vstd::prelude::*;
use vstd::string::*;
use vstd::utf8::*;

use crate::chars;
use crate::fs::text;
use crate::order;
use crate::tools::{EditEntry, EditOutput, EditParams};

use diff::Change;
use matching::MatchError;

verus! {

/// How many bytes at the start of a file are searched for a zero byte.
pub const BINARY_SNIFF_LEN: usize = 8192;

/// How many unchanged lines the diff shows around a change.
pub const DIFF_CONTEXT_LINES: usize = 3;

// ---------------------------------------------------------------------------
// Messages
// ---------------------------------------------------------------------------

pub open spec fn not_found_text(index: nat, path: Seq<char>, total: nat) -> Seq<char> {
    if total == 1 {
        "Could not find the text in "@ + path
            + ".\nThe oldText must identify the intended text in the file."@
    } else {
        "Could not find edits["@ + chars::decimal(index) + "] in "@ + path
            + ".\nProvide a larger unique oldText block from the current file contents."@
    }
}

fn not_found_message(index: usize, path: &str, total: usize) -> (r: String)
    ensures
        r@ == not_found_text(index as nat, path@, total as nat),
{
    let mut m: String;
    if total == 1 {
        m = String::from_str("Could not find the text in ");
        m.append(path);
        m.append(".\nThe oldText must identify the intended text in the file.");
    } else {
        m = String::from_str("Could not find edits[");
        chars::push_number(&mut m, index);
        m.append("] in ");
        m.append(path);
        m.append(".\nProvide a larger unique oldText block from the current file contents.");
    }
    m
}

pub open spec fn multiple_match_text(
    index: nat,
    count: nat,
    path: Seq<char>,
    total: nat,
) -> Seq<char> {
    "Found "@ + chars::decimal(count) + " occurrences of "@ + (if total == 1 {
        "the text"@
    } else {
        "edits["@ + chars::decimal(index) + "]"@
    }) + " in "@ + path
        + ".\nEach oldText must be unique. Please provide more context to make it unique."@
}

fn multiple_match_message(index: usize, count: usize, path: &str, total: usize) -> (r: String)
    ensures
        r@ == multiple_match_text(index as nat, count as nat, path@, total as nat),
{
    let mut subject: String;
    if total == 1 {
        subject = String::from_str("the text");
    } else {
        subject = String::from_str("edits[");
        chars::push_number(&mut subject, index);
        subject.append("]");
    }
    let mut m: String = String::from_str("Found ");
    chars::push_number(&mut m, count);
    m.append(" occurrences of ");
    m.append(subject.as_str());
    m.append(" in ");
    m.append(path);
    m.append(".\nEach oldText must be unique. Please provide more context to make it unique.");
    m
}

/// The message for the edit at `index` that names no place or several.
pub open spec fn match_error_text(
    error: MatchError,
    index: nat,
    path: Seq<char>,
    total: nat,
) -> Seq<char> {
    match error {
        MatchError::NotFound => not_found_text(index, path, total),
        MatchError::Multiple(count) => multiple_match_text(index, count as nat, path, total),
    }
}

pub open spec fn overlap_text(low: nat, high: nat, path: Seq<char>) -> Seq<char> {
    "edits["@ + chars::decimal(low) + "] and edits["@ + chars::decimal(high) + "] overlap in "@
        + path + ".\nMerge them into one edit or target disjoint regions."@
}

fn overlap_message(low: usize, high: usize, path: &str) -> (r: String)
    ensures
        r@ == overlap_text(low as nat, high as nat, path@),
{
    let mut m: String = String::from_str("edits[");
    chars::push_number(&mut m, low);
    m.append("] and edits[");
    chars::push_number(&mut m, high);
    m.append("] overlap in ");
    m.append(path);
    m.append(".\nMerge them into one edit or target disjoint regions.");
    m
}

// ---------------------------------------------------------------------------
// Matching every edit against the original
// ---------------------------------------------------------------------------

/// The first edit from `i` on that does not name one place in `content`; the
/// number of edits where each does.
pub open spec fn first_unmatched(content: Seq<char>, edits: Seq<EditEntry>, i: int) -> int
    decreases edits.len() - i,
{
    if 0 <= i < edits.len() && matching::locate(content, edits[i].old_text@) is Ok {
        first_unmatched(content, edits, i + 1)
    } else {
        i
    }
}

/// The part of `content` that an edit replaces.
pub open spec fn range_of(content: Seq<char>, entry: EditEntry) -> (int, int) {
    match matching::locate(content, entry.old_text@) {
        Ok(r) => (r.0 as int, r.1 as int),
        Err(_) => (0, 0),
    }
}

/// The parts of `content` that the edits replace.
pub open spec fn ranges(content: Seq<char>, edits: Seq<EditEntry>) -> Seq<(int, int)> {
    Seq::new(edits.len(), |i: int| range_of(content, edits[i]))
}

/// Machine ranges as mathematical ones.
pub open spec fn int_pairs(v: Seq<(usize, usize)>) -> Seq<(int, int)> {
    Seq::new(v.len(), |i: int| (v[i].0 as int, v[i].1 as int))
}

/// Where each edit applies, or the first edit that does not name one place.
fn find_ranges(content: &[char], edits: &[EditEntry]) -> (r: Result<
    Vec<(usize, usize)>,
    (usize, MatchError),
>)
    requires
        forall|i: int| 0 <= i < edits@.len() ==> (#[trigger] edits@[i]).old_text@.len() > 0,
    ensures
        match r {
            Ok(found) => {
                &&& first_unmatched(content@, edits@, 0) == edits@.len()
                &&& int_pairs(found@) == ranges(content@, edits@)
                &&& forall|i: int|
                    0 <= i < found@.len() ==> (#[trigger] found@[i]).0 < found@[i].1
                        <= content@.len()
            },
            Err((index, error)) => {
                &&& index < edits@.len()
                &&& index == first_unmatched(content@, edits@, 0)
                &&& matching::locate(content@, edits@[index as int].old_text@) == Err::<
                    (usize, usize),
                    MatchError,
                >(error)
            },
        },
{
    let n: usize = edits.len();
    let mut found: Vec<(usize, usize)> = Vec::new();
    let mut i: usize = 0;
    while i < n
        invariant
            n == edits@.len(),
            i <= n,
            forall|k: int| 0 <= k < edits@.len() ==> (#[trigger] edits@[k]).old_text@.len() > 0,
            first_unmatched(content@, edits@, 0) == first_unmatched(content@, edits@, i as int),
            int_pairs(found@) == ranges(content@, edits@).take(i as int),
            forall|k: int|
                0 <= k < found@.len() ==> (#[trigger] found@[k]).0 < found@[k].1 <= content@.len(),
        decreases n - i,
    {
        let old_text: Vec<char> = chars::to_chars(edits[i].old_text.as_str());
        let m: usize = content.len();
        match matching::find_unique_range(content, old_text.as_slice()) {
            Ok(range) => {
                let ghost before = int_pairs(found@);
                found.push(range);
                proof {
                    matching::located_part_is_inside(content@, old_text@);
                    assert(int_pairs(found@) == before.push((range.0 as int, range.1 as int)));
                    assert(ranges(content@, edits@).take(i + 1) == ranges(content@, edits@).take(
                        i as int,
                    ).push(range_of(content@, edits@[i as int])));
                }
                i = i + 1;
            },
            Err(error) => {
                return Err((i, error));
            },
        }
    }
    assert(ranges(content@, edits@).take(n as int) == ranges(content@, edits@));
    Ok(found)
}

// ---------------------------------------------------------------------------
// Order and overlap
// ---------------------------------------------------------------------------

/// Where each range starts.
pub open spec fn starts(ranges: Seq<(int, int)>) -> Seq<int> {
    Seq::new(ranges.len(), |i: int| ranges[i].0)
}

/// The edits in the order in which their ranges start.
pub open spec fn start_order(ranges: Seq<(int, int)>) -> Seq<int> {
    order::stable_order(starts(ranges), ranges.len())
}

/// The edits in the order in which their ranges start.
fn order_by_start(found: &[(usize, usize)]) -> (r: Vec<usize>)
    ensures
        order::ints(r@) == start_order(int_pairs(found@)),
        r@.len() == found@.len(),
        forall|i: int| 0 <= i < r@.len() ==> #[trigger] r@[i] < found@.len(),
{
    let n: usize = found.len();
    let mut keys: Vec<u64> = Vec::with_capacity(n);
    let mut i: usize = 0;
    while i < n
        invariant
            n == found@.len(),
            i <= n,
            order::int_keys(keys@) == starts(int_pairs(found@)).take(i as int),
        decreases n - i,
    {
        let ghost before = order::int_keys(keys@);
        keys.push(found[i].0 as u64);
        proof {
            let start = found@[i as int].0 as int;
            assert(order::int_keys(keys@) == before.push(start));
            assert(starts(int_pairs(found@)).take(i + 1) == starts(int_pairs(found@)).take(
                i as int,
            ).push(start));
        }
        i = i + 1;
    }
    assert(order::int_keys(keys@) == starts(int_pairs(found@)));
    assert(order::int_keys(keys@).len() == keys@.len());
    order::order_by_key(keys.as_slice())
}

/// The first place at or after `k` in the order where an edit reaches into
/// the next one; the last place where none does.
pub open spec fn first_clash(ranges: Seq<(int, int)>, order: Seq<int>, k: int) -> int
    decreases order.len() - k,
{
    if 0 <= k && k + 1 < order.len() && ranges[order[k + 1]].0 >= ranges[order[k]].1 {
        first_clash(ranges, order, k + 1)
    } else {
        k
    }
}

/// Whether no edit reaches into the next one.
pub open spec fn no_clash(ranges: Seq<(int, int)>, order: Seq<int>) -> bool {
    first_clash(ranges, order, 0) + 1 >= order.len()
}

proof fn lemma_first_clash(ranges: Seq<(int, int)>, order: Seq<int>, k: int)
    requires
        0 <= k,
    ensures
        k <= first_clash(ranges, order, k),
        forall|i: int|
            k <= i < first_clash(ranges, order, k) ==> ranges[#[trigger] order[i + 1]].0
                >= ranges[order[i]].1,
    decreases order.len() - k,
{
    if k + 1 < order.len() && ranges[order[k + 1]].0 >= ranges[order[k]].1 {
        lemma_first_clash(ranges, order, k + 1);
    }
}

/// Where no edit reaches into the next one, each one ends before any later one
/// starts.
proof fn lemma_apart(ranges: Seq<(int, int)>, order: Seq<int>, i: int, j: int)
    requires
        no_clash(ranges, order),
        0 <= i < j < order.len(),
        forall|t: int| 0 <= t < order.len() ==> ranges[#[trigger] order[t]].0 < ranges[order[t]].1,
    ensures
        ranges[order[i]].1 <= ranges[order[j]].0,
    decreases j - i,
{
    lemma_first_clash(ranges, order, 0);
    assert(ranges[order[(j - 1) + 1]].0 >= ranges[order[j - 1]].1);
    if i < j - 1 {
        lemma_apart(ranges, order, i, j - 1);
        assert(ranges[order[j - 1]].0 < ranges[order[j - 1]].1);
    }
}

/// Edits that are accepted replace parts of the file that have nothing in
/// common.
pub proof fn accepted_edits_are_disjoint(content: Seq<char>, edits: Seq<EditEntry>, a: int, b: int)
    requires
        content.len() <= usize::MAX,
        first_unmatched(content, edits, 0) == edits.len(),
        no_clash(ranges(content, edits), start_order(ranges(content, edits))),
        0 <= a < edits.len(),
        0 <= b < edits.len(),
        a != b,
    ensures
        range_of(content, edits[a]).1 <= range_of(content, edits[b]).0 || range_of(
            content,
            edits[b],
        ).1 <= range_of(content, edits[a]).0,
{
    let all = ranges(content, edits);
    let order = start_order(all);
    order::order_is_stable(starts(all), edits.len());
    assert forall|t: int| 0 <= t < order.len() implies all[#[trigger] order[t]].0
        < all[order[t]].1 by {
        lemma_matched(content, edits, 0, order[t]);
        matching::located_part_is_inside(content, edits[order[t]].old_text@);
    }
    order::order_covers(starts(all), order, edits.len(), a);
    order::order_covers(starts(all), order, edits.len(), b);
    let i = choose|i: int| 0 <= i < order.len() && order[i] == a;
    let j = choose|j: int| 0 <= j < order.len() && order[j] == b;
    if i < j {
        lemma_apart(all, order, i, j);
    } else {
        lemma_apart(all, order, j, i);
    }
}

/// Up to the first unmatched edit every edit names one place.
proof fn lemma_matched(content: Seq<char>, edits: Seq<EditEntry>, i: int, k: int)
    requires
        0 <= i <= k < first_unmatched(content, edits, i),
    ensures
        k < edits.len(),
        matching::locate(content, edits[k].old_text@) is Ok,
    decreases k - i,
{
    if i < k {
        lemma_matched(content, edits, i + 1, k);
    }
}

// ---------------------------------------------------------------------------
// Applying the edits
// ---------------------------------------------------------------------------

/// The replacement texts, in the line-ending style of the file.
pub open spec fn replacements(edits: Seq<EditEntry>, crlf: bool) -> Seq<Seq<char>> {
    Seq::new(edits.len(), |i: int| text::adopted(edits[i].new_text@, crlf))
}

/// `content` from `at` on, with the edits of `order` from the `k`-th on applied.
pub open spec fn spliced(
    content: Seq<char>,
    ranges: Seq<(int, int)>,
    texts: Seq<Seq<char>>,
    order: Seq<int>,
    k: int,
    at: int,
) -> Seq<char>
    decreases order.len() - k,
{
    if k < 0 || k >= order.len() {
        content.skip(at)
    } else {
        content.subrange(at, ranges[order[k]].0) + texts[order[k]] + spliced(
            content,
            ranges,
            texts,
            order,
            k + 1,
            ranges[order[k]].1,
        )
    }
}

/// Ranges inside a text of length `len` that start at or after `at` and come
/// one behind the other, from the `k`-th on.
pub open spec fn in_line(
    len: nat,
    ranges: Seq<(int, int)>,
    order: Seq<int>,
    k: int,
    at: int,
) -> bool
    decreases order.len() - k,
{
    if k < 0 || k >= order.len() {
        0 <= at <= len
    } else {
        &&& 0 <= at <= ranges[order[k]].0 <= ranges[order[k]].1
        &&& in_line(len, ranges, order, k + 1, ranges[order[k]].1)
    }
}

proof fn lemma_in_line(len: nat, ranges: Seq<(int, int)>, order: Seq<int>, k: int, at: int)
    requires
        no_clash(ranges, order),
        forall|t: int|
            0 <= t < order.len() ==> 0 <= ranges[#[trigger] order[t]].0 < ranges[order[t]].1
                <= len,
        0 <= k <= order.len(),
        0 <= at <= len,
        k > 0 ==> at == ranges[order[k - 1]].1,
        k == 0 ==> at == 0,
    ensures
        in_line(len, ranges, order, k, at),
    decreases order.len() - k,
{
    if k < order.len() {
        lemma_first_clash(ranges, order, 0);
        if k > 0 {
            assert(ranges[order[(k - 1) + 1]].0 >= ranges[order[k - 1]].1);
        }
        assert(ranges[order[k]].1 <= len);
        lemma_in_line(len, ranges, order, k + 1, ranges[order[k]].1);
    }
}

/// The text with the replacements put in.
fn splice(
    content: &[char],
    found: &[(usize, usize)],
    texts: &[String],
    order: &[usize],
) -> (r: Vec<char>)
    requires
        found@.len() == texts@.len(),
        forall|i: int| 0 <= i < order@.len() ==> #[trigger] order@[i] < found@.len(),
        in_line(content@.len(), int_pairs(found@), order::ints(order@), 0, 0),
    ensures
        r@ == spliced(
            content@,
            int_pairs(found@),
            chars::texts(texts@),
            order::ints(order@),
            0,
            0,
        ),
{
    let ghost pairs = int_pairs(found@);
    let ghost news = chars::texts(texts@);
    let ghost places = order::ints(order@);
    let n: usize = order.len();
    let len: usize = content.len();
    let mut out: Vec<char> = Vec::new();
    let mut at: usize = 0;
    let mut k: usize = 0;
    let ghost all = spliced(content@, pairs, news, places, 0, 0);
    assert(out@ + all == all);
    while k < n
        invariant
            n == order@.len(),
            len == content@.len(),
            found@.len() == texts@.len(),
            pairs == int_pairs(found@),
            news == chars::texts(texts@),
            places == order::ints(order@),
            forall|i: int| 0 <= i < order@.len() ==> #[trigger] order@[i] < found@.len(),
            k <= n,
            in_line(content@.len(), pairs, places, k as int, at as int),
            all == out@ + spliced(content@, pairs, news, places, k as int, at as int),
        decreases n - k,
    {
        let index: usize = order[k];
        let (start, end) = found[index];
        proof {
            assert(places[k as int] == index);
            assert(pairs[index as int] == (start as int, end as int));
            assert(news[index as int] == texts@[index as int]@);
            lemma_in_line_end(content@.len(), pairs, places, k + 1, end as int);
        }
        let ghost before = out@;
        let mut part: Vec<char> = slice_of(content, at, start);
        let mut new_text: Vec<char> = chars::to_chars(texts[index].as_str());
        out.append(&mut part);
        out.append(&mut new_text);
        proof {
            let kept = content@.subrange(at as int, start as int);
            let tail = spliced(content@, pairs, news, places, k + 1, end as int);
            assert(out@ == before + kept + news[index as int]);
            assert(before + (kept + news[index as int] + tail) == out@ + tail);
        }
        at = end;
        k = k + 1;
    }
    let mut part: Vec<char> = slice_of(content, at, len);
    assert(part@ == content@.skip(at as int));
    out.append(&mut part);
    out
}

/// Ranges in line end inside the text.
proof fn lemma_in_line_end(len: nat, ranges: Seq<(int, int)>, order: Seq<int>, k: int, at: int)
    requires
        in_line(len, ranges, order, k, at),
    ensures
        0 <= at <= len,
    decreases order.len() - k,
{
    if 0 <= k < order.len() {
        lemma_in_line_end(len, ranges, order, k + 1, ranges[order[k]].1);
    }
}

/// A copy of the characters from `i` up to `j`.
fn slice_of(s: &[char], i: usize, j: usize) -> (r: Vec<char>)
    requires
        i <= j <= s@.len(),
    ensures
        r@ == s@.subrange(i as int, j as int),
{
    vstd::slice::slice_to_vec(vstd::slice::slice_subrange(s, i, j))
}

/// The new file contents (without the byte-order mark), or the message that
/// says why nothing is changed.
pub open spec fn edited(path: Seq<char>, edits: Seq<EditEntry>, content: Seq<char>) -> Result<
    Seq<char>,
    Seq<char>,
> {
    let unmatched = first_unmatched(content, edits, 0);
    if unmatched < edits.len() {
        Err(
            match_error_text(
                matching::locate(content, edits[unmatched].old_text@)->Err_0,
                unmatched as nat,
                path,
                edits.len(),
            ),
        )
    } else {
        let all = ranges(content, edits);
        let order = start_order(all);
        let clash = first_clash(all, order, 0);
        if clash + 1 < order.len() {
            let a = order[clash];
            let b = order[clash + 1];
            Err(
                if a < b {
                    overlap_text(a as nat, b as nat, path)
                } else {
                    overlap_text(b as nat, a as nat, path)
                },
            )
        } else {
            let new = spliced(
                content,
                all,
                replacements(edits, text::mostly_crlf(content)),
                order,
                0,
                0,
            );
            if new == content {
                Err(
                    "No changes made to "@ + path
                        + ".\nThe replacement produced identical content."@,
                )
            } else {
                Ok(new)
            }
        }
    }
}

/// The first place in the order where an edit reaches into the next one.
fn find_clash(found: &[(usize, usize)], order: &[usize]) -> (r: Option<usize>)
    requires
        forall|i: int| 0 <= i < order@.len() ==> #[trigger] order@[i] < found@.len(),
    ensures
        match r {
            Some(k) => k + 1 < order@.len() && k == first_clash(
                int_pairs(found@),
                order::ints(order@),
                0,
            ),
            None => no_clash(int_pairs(found@), order::ints(order@)),
        },
{
    let ghost pairs = int_pairs(found@);
    let ghost places = order::ints(order@);
    let n: usize = order.len();
    let mut k: usize = 0;
    while 1 < n - k
        invariant
            n == order@.len(),
            pairs == int_pairs(found@),
            places == order::ints(order@),
            forall|i: int| 0 <= i < order@.len() ==> #[trigger] order@[i] < found@.len(),
            k <= n,
            first_clash(pairs, places, 0) == first_clash(pairs, places, k as int),
        decreases n - k,
    {
        assert(places[k as int] == order@[k as int]);
        assert(places[k + 1] == order@[k + 1]);
        if found[order[k + 1]].0 < found[order[k]].1 {
            return Some(k);
        }
        k = k + 1;
    }
    None
}

/// Apply the edits to the contents of a file (without the byte-order mark).
pub fn apply(path: &str, edits: &[EditEntry], content: &str) -> (r: Result<String, String>)
    requires
        forall|i: int| 0 <= i < edits@.len() ==> (#[trigger] edits@[i]).old_text@.len() > 0,
    ensures
        match r {
            Ok(new) => edited(path@, edits@, content@) == Ok::<Seq<char>, Seq<char>>(new@),
            Err(message) => edited(path@, edits@, content@) == Err::<Seq<char>, Seq<char>>(
                message@,
            ),
        },
{
    let s: Vec<char> = chars::to_chars(content);
    let total: usize = edits.len();
    let found: Vec<(usize, usize)> = match find_ranges(s.as_slice(), edits) {
        Ok(found) => found,
        Err((index, MatchError::NotFound)) => {
            return Err(not_found_message(index, path, total));
        },
        Err((index, MatchError::Multiple(count))) => {
            return Err(multiple_match_message(index, count, path, total));
        },
    };
    let ghost pairs = int_pairs(found@);
    assert(pairs == ranges(content@, edits@));
    assert(pairs.len() == edits@.len());
    let order: Vec<usize> = order_by_start(found.as_slice());
    let ghost places = order::ints(order@);
    match find_clash(found.as_slice(), order.as_slice()) {
        Some(k) => {
            let a: usize = order[k];
            let b: usize = order[k + 1];
            assert(places[k as int] == a && places[k + 1] == b);
            return Err(
                if a < b {
                    overlap_message(a, b, path)
                } else {
                    overlap_message(b, a, path)
                },
            );
        },
        None => {},
    }
    let crlf: bool = text::is_crlf(content);
    let mut texts: Vec<String> = Vec::new();
    let mut i: usize = 0;
    while i < total
        invariant
            total == edits@.len(),
            i <= total,
            chars::texts(texts@) == replacements(edits@, crlf).take(i as int),
        decreases total - i,
    {
        let ghost before = chars::texts(texts@);
        let adopted: String = text::adopt_line_endings(edits[i].new_text.as_str(), crlf);
        texts.push(adopted);
        proof {
            assert(chars::texts(texts@) == before.push(adopted@));
            assert(replacements(edits@, crlf).take(i + 1) == replacements(edits@, crlf).take(
                i as int,
            ).push(adopted@));
        }
        i = i + 1;
    }
    proof {
        assert(chars::texts(texts@) == replacements(edits@, crlf));
        assert(chars::texts(texts@).len() == texts@.len());
        assert forall|t: int| 0 <= t < places.len() implies 0 <= pairs[#[trigger] places[t]].0
            < pairs[places[t]].1 <= content@.len() by {
            assert(places[t] == order@[t]);
            assert(pairs[places[t]] == (
                found@[places[t]].0 as int,
                found@[places[t]].1 as int,
            ));
        }
        lemma_in_line(content@.len(), pairs, places, 0, 0);
    }
    let new: Vec<char> = splice(s.as_slice(), found.as_slice(), texts.as_slice(), order.as_slice());
    let new: String = chars::from_chars(new.as_slice());
    if chars::same_text(new.as_str(), content) {
        let mut m: String = String::from_str("No changes made to ");
        m.append(path);
        m.append(".\nThe replacement produced identical content.");
        return Err(m);
    }
    Ok(new)
}

/// How far text that stands at `p` in the file moves: by what the edits from
/// the `k`-th on that end at or before `p` add or take away.
pub open spec fn shift(
    ranges: Seq<(int, int)>,
    texts: Seq<Seq<char>>,
    order: Seq<int>,
    k: int,
    p: int,
) -> int
    decreases order.len() - k,
{
    if k < 0 || k >= order.len() || ranges[order[k]].1 > p {
        0
    } else {
        texts[order[k]].len() - (ranges[order[k]].1 - ranges[order[k]].0) + shift(
            ranges,
            texts,
            order,
            k + 1,
            p,
        )
    }
}

proof fn lemma_kept(
    content: Seq<char>,
    ranges: Seq<(int, int)>,
    texts: Seq<Seq<char>>,
    order: Seq<int>,
    k: int,
    at: int,
    p: int,
)
    requires
        in_line(content.len(), ranges, order, k, at),
        0 <= k <= order.len(),
        at <= p < content.len(),
        forall|t: int|
            k <= t < order.len() ==> p < ranges[#[trigger] order[t]].0 || ranges[order[t]].1 <= p,
    ensures
        0 <= p - at + shift(ranges, texts, order, k, p) < spliced(
            content,
            ranges,
            texts,
            order,
            k,
            at,
        ).len(),
        spliced(content, ranges, texts, order, k, at)[p - at + shift(ranges, texts, order, k, p)]
            == content[p],
    decreases order.len() - k,
{
    if k < order.len() {
        let (start, end) = ranges[order[k]];
        lemma_in_line_end(content.len(), ranges, order, k + 1, end);
        let front = content.subrange(at, start) + texts[order[k]];
        let tail = spliced(content, ranges, texts, order, k + 1, end);
        assert(p < ranges[order[k]].0 || ranges[order[k]].1 <= p);
        if p < start {
            assert((front + tail)[p - at] == front[p - at]);
            assert(front[p - at] == content.subrange(at, start)[p - at]);
        } else {
            lemma_kept(content, ranges, texts, order, k + 1, end, p);
            let q = p - end + shift(ranges, texts, order, k + 1, p);
            assert((front + tail)[front.len() + q] == tail[q]);
        }
    }
}

proof fn lemma_placed(
    content: Seq<char>,
    ranges: Seq<(int, int)>,
    texts: Seq<Seq<char>>,
    order: Seq<int>,
    k: int,
    at: int,
    j: int,
)
    requires
        in_line(content.len(), ranges, order, k, at),
        0 <= k <= j < order.len(),
        forall|t: int| k <= t <= j ==> ranges[#[trigger] order[t]].0 < ranges[order[t]].1,
    ensures
        at <= ranges[order[j]].0,
        ({
            let x = ranges[order[j]].0 - at + shift(ranges, texts, order, k, ranges[order[j]].0);
            chars::matches_at(
                spliced(content, ranges, texts, order, k, at),
                texts[order[j]],
                x,
            )
        }),
    decreases j - k,
{
    let (start, end) = ranges[order[k]];
    lemma_in_line_end(content.len(), ranges, order, k + 1, end);
    let kept = content.subrange(at, start);
    let own = texts[order[k]];
    let tail = spliced(content, ranges, texts, order, k + 1, end);
    let all = spliced(content, ranges, texts, order, k, at);
    assert(all == kept + own + tail);
    assert(ranges[order[k]].0 < ranges[order[k]].1);
    if k < j {
        lemma_placed(content, ranges, texts, order, k + 1, end, j);
        let y = ranges[order[j]].0 - end + shift(
            ranges,
            texts,
            order,
            k + 1,
            ranges[order[j]].0,
        );
        let x: int = kept.len() + own.len() + y;
        let target = texts[order[j]];
        assert(all.subrange(x, x + target.len()) == tail.subrange(y, y + target.len()));
    } else {
        assert(all.subrange(start - at, start - at + own.len()) == own);
    }
}

/// Accepted edits leave every character outside the parts that they name as
/// it is; it only moves by what the edits before it add or take away.
pub proof fn edit_keeps_the_rest(
    path: Seq<char>,
    edits: Seq<EditEntry>,
    content: Seq<char>,
    p: int,
)
    requires
        content.len() <= usize::MAX,
        edited(path, edits, content) is Ok,
        0 <= p < content.len(),
        forall|i: int|
            0 <= i < edits.len() ==> p < range_of(content, #[trigger] edits[i]).0 || range_of(
                content,
                edits[i],
            ).1 <= p,
    ensures
        ({
            let all = ranges(content, edits);
            let texts = replacements(edits, text::mostly_crlf(content));
            let order = start_order(all);
            let new = edited(path, edits, content)->Ok_0;
            let q = p + shift(all, texts, order, 0, p);
            0 <= q < new.len() && new[q] == content[p]
        }),
{
    let all = ranges(content, edits);
    let order = start_order(all);
    lemma_accepted_in_line(path, edits, content);
    order::order_is_stable(starts(all), edits.len());
    assert forall|t: int| 0 <= t < order.len() implies p < all[#[trigger] order[t]].0
        || all[order[t]].1 <= p by {
        assert(all[order[t]] == range_of(content, edits[order[t]]));
    }
    lemma_kept(
        content,
        all,
        replacements(edits, text::mostly_crlf(content)),
        order,
        0,
        0,
        p,
    );
}

/// Accepted edits put each replacement text, in the file's line-ending style,
/// where the part that it replaces began, moved by what the edits before it add
/// or take away.
pub proof fn edit_puts_the_text(
    path: Seq<char>,
    edits: Seq<EditEntry>,
    content: Seq<char>,
    i: int,
)
    requires
        content.len() <= usize::MAX,
        edited(path, edits, content) is Ok,
        0 <= i < edits.len(),
    ensures
        ({
            let all = ranges(content, edits);
            let crlf = text::mostly_crlf(content);
            let texts = replacements(edits, crlf);
            let order = start_order(all);
            let start = range_of(content, edits[i]).0;
            chars::matches_at(
                edited(path, edits, content)->Ok_0,
                text::adopted(edits[i].new_text@, crlf),
                start + shift(all, texts, order, 0, start),
            )
        }),
{
    let all = ranges(content, edits);
    let texts = replacements(edits, text::mostly_crlf(content));
    let order = start_order(all);
    lemma_accepted_in_line(path, edits, content);
    order::order_is_stable(starts(all), edits.len());
    order::order_covers(starts(all), order, edits.len(), i);
    let j = choose|j: int| 0 <= j < order.len() && order[j] == i;
    lemma_placed(content, all, texts, order, 0, 0, j);
    assert(all[order[j]] == range_of(content, edits[i]));
}

proof fn lemma_accepted_in_line(path: Seq<char>, edits: Seq<EditEntry>, content: Seq<char>)
    requires
        content.len() <= usize::MAX,
        edited(path, edits, content) is Ok,
    ensures
        ({
            let all = ranges(content, edits);
            let order = start_order(all);
            &&& in_line(content.len(), all, order, 0, 0)
            &&& forall|t: int|
                0 <= t < order.len() ==> all[#[trigger] order[t]].0 < all[order[t]].1
        }),
{
    let all = ranges(content, edits);
    let order = start_order(all);
    order::order_is_stable(starts(all), edits.len());
    lemma_unmatched_bound(content, edits, 0);
    assert forall|t: int| 0 <= t < order.len() implies 0 <= all[#[trigger] order[t]].0
        < all[order[t]].1 <= content.len() by {
        lemma_matched(content, edits, 0, order[t]);
        matching::located_part_is_inside(content, edits[order[t]].old_text@);
        assert(all[order[t]] == range_of(content, edits[order[t]]));
    }
    lemma_in_line(content.len(), all, order, 0, 0);
}

proof fn lemma_unmatched_bound(content: Seq<char>, edits: Seq<EditEntry>, i: int)
    requires
        0 <= i <= edits.len(),
    ensures
        i <= first_unmatched(content, edits, i) <= edits.len(),
    decreases edits.len() - i,
{
    if i < edits.len() && matching::locate(content, edits[i].old_text@) is Ok {
        lemma_unmatched_bound(content, edits, i + 1);
    }
}

/// Two lists of the same items, both strictly rising by key, are the same.
proof fn lemma_rising_unique(keys: Seq<int>, a: Seq<int>, b: Seq<int>)
    requires
        a.len() == b.len(),
        forall|i: int, j: int|
            0 <= i < j < a.len() ==> keys[#[trigger] a[i]] < keys[#[trigger] a[j]],
        forall|i: int, j: int|
            0 <= i < j < b.len() ==> keys[#[trigger] b[i]] < keys[#[trigger] b[j]],
        forall|i: int| 0 <= i < a.len() ==> b.contains(#[trigger] a[i]),
        forall|i: int| 0 <= i < b.len() ==> a.contains(#[trigger] b[i]),
    ensures
        a == b,
    decreases a.len(),
{
    if a.len() > 0 {
        let n = a.len() - 1;
        let x = a.drop_last();
        let y = b.drop_last();
        assert(b.contains(a[n]) && a.contains(b[n]));
        let j = choose|j: int| 0 <= j < b.len() && b[j] == a[n];
        let i = choose|i: int| 0 <= i < a.len() && a[i] == b[n];
        if j < n {
            assert(keys[b[j]] < keys[b[n]]);
            if i < n {
                assert(keys[a[i]] < keys[a[n]]);
            }
        }
        assert(a[n] == b[n]);
        assert forall|k: int| 0 <= k < x.len() implies y.contains(#[trigger] x[k]) by {
            assert(b.contains(a[k]));
            let m = choose|m: int| 0 <= m < b.len() && b[m] == a[k];
            assert(keys[a[k]] < keys[a[n]]);
            assert(y[m] == x[k]);
        }
        assert forall|k: int| 0 <= k < y.len() implies x.contains(#[trigger] y[k]) by {
            assert(a.contains(b[k]));
            let m = choose|m: int| 0 <= m < a.len() && a[m] == b[k];
            assert(keys[b[k]] < keys[b[n]]);
            assert(x[m] == y[k]);
        }
        lemma_rising_unique(keys, x, y);
        assert(a == x.push(a[n]));
        assert(b == y.push(b[n]));
    } else {
        assert(a == b);
    }
}

/// Where both orders visit the same ranges, they clash at the same place.
proof fn lemma_same_clash(
    ranges: Seq<(int, int)>,
    order: Seq<int>,
    other_ranges: Seq<(int, int)>,
    other_order: Seq<int>,
    k: int,
)
    requires
        order.len() == other_order.len(),
        0 <= k,
        forall|i: int|
            0 <= i < order.len() ==> ranges[#[trigger] order[i]] == other_ranges[other_order[i]],
    ensures
        first_clash(ranges, order, k) == first_clash(other_ranges, other_order, k),
    decreases order.len() - k,
{
    if k + 1 < order.len() {
        assert(ranges[order[k]] == other_ranges[other_order[k]]);
        assert(ranges[order[k + 1]] == other_ranges[other_order[k + 1]]);
        lemma_same_clash(ranges, order, other_ranges, other_order, k + 1);
    }
}

/// Where both orders visit the same ranges and texts, the results are the same.
proof fn lemma_same_splice(
    content: Seq<char>,
    ranges: Seq<(int, int)>,
    texts: Seq<Seq<char>>,
    order: Seq<int>,
    other_ranges: Seq<(int, int)>,
    other_texts: Seq<Seq<char>>,
    other_order: Seq<int>,
    k: int,
    at: int,
)
    requires
        order.len() == other_order.len(),
        0 <= k,
        forall|i: int|
            0 <= i < order.len() ==> ranges[#[trigger] order[i]] == other_ranges[other_order[i]]
                && texts[order[i]] == other_texts[other_order[i]],
    ensures
        spliced(content, ranges, texts, order, k, at) == spliced(
            content,
            other_ranges,
            other_texts,
            other_order,
            k,
            at,
        ),
    decreases order.len() - k,
{
    if k < order.len() {
        assert(ranges[order[k]] == other_ranges[other_order[k]]);
        lemma_same_splice(
            content,
            ranges,
            texts,
            order,
            other_ranges,
            other_texts,
            other_order,
            k + 1,
            ranges[order[k]].1,
        );
    }
}

/// Edits that each name one place are all matched.
proof fn lemma_all_matched(content: Seq<char>, edits: Seq<EditEntry>, i: int)
    requires
        0 <= i <= edits.len(),
        forall|k: int|
            0 <= k < edits.len() ==> matching::locate(
                content,
                (#[trigger] edits[k]).old_text@,
            ) is Ok,
    ensures
        first_unmatched(content, edits, i) == edits.len(),
    decreases edits.len() - i,
{
    if i < edits.len() {
        assert(matching::locate(content, edits[i].old_text@) is Ok);
        lemma_all_matched(content, edits, i + 1);
    }
}

/// The order in which accepted edits are listed does not matter: each one is
/// matched against the original file, so listing them in another order gives
/// the same result.
pub proof fn listing_order_does_not_matter(
    path: Seq<char>,
    edits: Seq<EditEntry>,
    other: Seq<EditEntry>,
    place: Seq<int>,
    content: Seq<char>,
)
    requires
        content.len() <= usize::MAX,
        edited(path, edits, content) is Ok,
        other.len() == edits.len(),
        place.len() == edits.len(),
        place.no_duplicates(),
        forall|i: int|
            0 <= i < place.len() ==> 0 <= #[trigger] place[i] < edits.len() && other[i]
                == edits[place[i]],
    ensures
        edited(path, other, content) == edited(path, edits, content),
{
    let n = edits.len();
    let crlf = text::mostly_crlf(content);
    let all = ranges(content, edits);
    let texts = replacements(edits, crlf);
    let order = start_order(all);
    let all2 = ranges(content, other);
    let texts2 = replacements(other, crlf);
    let order2 = start_order(all2);
    lemma_accepted_in_line(path, edits, content);
    lemma_unmatched_bound(content, edits, 0);
    order::order_is_stable(starts(all), n);
    order::order_is_stable(starts(all2), n);
    assert forall|k: int| 0 <= k < n implies matching::locate(
        content,
        (#[trigger] other[k]).old_text@,
    ) is Ok by {
        assert(other[k] == edits[place[k]]);
        lemma_matched(content, edits, 0, place[k]);
    }
    lemma_all_matched(content, other, 0);
    assert forall|i: int| 0 <= i < n implies #[trigger] all2[i] == all[place[i]] && texts2[i]
        == texts[place[i]] by {
        assert(other[i] == edits[place[i]]);
    }
    assert forall|i: int, j: int| 0 <= i < j < n implies starts(all)[#[trigger] order[i]]
        < starts(all)[#[trigger] order[j]] by {
        lemma_apart(all, order, i, j);
        assert(all[order[i]].0 < all[order[i]].1);
    }
    let visited = Seq::new(n, |k: int| place[order2[k]]);
    assert forall|i: int, j: int| 0 <= i < j < n implies starts(all)[#[trigger] visited[i]]
        < starts(all)[#[trigger] visited[j]] by {
        assert(order::precedes(starts(all2), order2[i], order2[j]));
        assert(all2[order2[i]] == all[visited[i]]);
        assert(all2[order2[j]] == all[visited[j]]);
        assert(order2[i] != order2[j]);
        assert(place[order2[i]] != place[order2[j]]);
        if starts(all)[visited[i]] == starts(all)[visited[j]] {
            order::order_covers(starts(all), order, n, visited[i]);
            order::order_covers(starts(all), order, n, visited[j]);
            let x = choose|x: int| 0 <= x < order.len() && order[x] == visited[i];
            let y = choose|y: int| 0 <= y < order.len() && order[y] == visited[j];
            if x < y {
                assert(starts(all)[order[x]] < starts(all)[order[y]]);
            } else if y < x {
                assert(starts(all)[order[y]] < starts(all)[order[x]]);
            }
        }
    }
    assert forall|i: int| 0 <= i < n implies order.contains(#[trigger] visited[i]) by {
        order::order_covers(starts(all), order, n, visited[i]);
    }
    assert forall|i: int| 0 <= i < n implies visited.contains(#[trigger] order[i]) by {
        lemma_place_covers(place, n, order[i]);
        let k = choose|k: int| 0 <= k < n && place[k] == order[i];
        order::order_covers(starts(all2), order2, n, k);
        let m = choose|m: int| 0 <= m < order2.len() && order2[m] == k;
        assert(visited[m] == order[i]);
    }
    lemma_rising_unique(starts(all), visited, order);
    assert forall|i: int| 0 <= i < n implies all2[#[trigger] order2[i]] == all[order[i]]
        && texts2[order2[i]] == texts[order[i]] by {
        assert(visited[i] == order[i]);
    }
    lemma_same_clash(all2, order2, all, order, 0);
    lemma_same_splice(content, all2, texts2, order2, all, texts, order, 0, 0);
}

/// A list of `n` different indices below `n` holds every one of them.
proof fn lemma_place_covers(place: Seq<int>, n: nat, a: int)
    requires
        place.len() == n,
        place.no_duplicates(),
        forall|i: int| 0 <= i < place.len() ==> 0 <= #[trigger] place[i] < n,
        0 <= a < n,
    ensures
        exists|k: int| 0 <= k < n && place[k] == a,
{
    place.unique_seq_to_set();
    vstd::set_lib::lemma_int_range(0, n as int);
    assert(place.to_set().subset_of(vstd::set_lib::set_int_range(0, n as int)));
    vstd::set_lib::lemma_subset_equality(
        place.to_set(),
        vstd::set_lib::set_int_range(0, n as int),
    );
    assert(place.to_set().contains(a));
}

/// An accepted edit changes the file.
pub proof fn accepted_edit_changes_the_file(
    path: Seq<char>,
    edits: Seq<EditEntry>,
    content: Seq<char>,
)
    ensures
        edited(path, edits, content) matches Ok(new) ==> new != content,
{
}

// ---------------------------------------------------------------------------
// The tool
// ---------------------------------------------------------------------------

/// Whether a zero byte stands near the start.
pub open spec fn looks_binary(bytes: Seq<u8>) -> bool {
    exists|i: int| 0 <= i < bytes.len() && i < BINARY_SNIFF_LEN && #[trigger] bytes[i] == 0
}

/// Whether a zero byte stands near the start.
pub(crate) fn sniff_binary(bytes: &[u8]) -> (r: bool)
    ensures
        r == looks_binary(bytes@),
{
    let n: usize = bytes.len();
    let mut i: usize = 0;
    while i < n && i < BINARY_SNIFF_LEN
        invariant
            n == bytes@.len(),
            i <= n,
            forall|k: int| 0 <= k < i ==> #[trigger] bytes@[k] != 0,
        decreases n - i,
    {
        if bytes[i] == 0 {
            return true;
        }
        i = i + 1;
    }
    false
}

/// The text of the file, or the message that says why it has none.
pub open spec fn opened(path: Seq<char>, file: Option<Seq<u8>>) -> Result<Seq<char>, Seq<char>> {
    match file {
        None => Err("File not found: "@ + path),
        Some(bytes) => if looks_binary(bytes) {
            Err(path + " appears to be a binary file"@)
        } else if !valid_utf8(bytes) {
            Err(path + " is not valid UTF-8 text"@)
        } else {
            Ok(decode_utf8(bytes))
        },
    }
}

fn open(path: &str, file: Option<Vec<u8>>) -> (r: Result<String, String>)
    ensures
        match r {
            Ok(content) => opened(path@, option_view(file)) == Ok::<Seq<char>, Seq<char>>(content@),
            Err(m) => opened(path@, option_view(file)) == Err::<Seq<char>, Seq<char>>(m@),
        },
{
    match file {
        None => {
            let mut m: String = String::from_str("File not found: ");
            m.append(path);
            Err(m)
        },
        Some(bytes) => {
            if sniff_binary(bytes.as_slice()) {
                let mut m: String = path.to_owned();
                m.append(" appears to be a binary file");
                return Err(m);
            }
            match chars::decode(bytes) {
                Some(content) => Ok(content),
                None => {
                    let mut m: String = path.to_owned();
                    m.append(" is not valid UTF-8 text");
                    Err(m)
                },
            }
        },
    }
}

/// What a file holds.
pub open spec fn option_view(file: Option<Vec<u8>>) -> Option<Seq<u8>> {
    match file {
        None => None,
        Some(bytes) => Some(bytes@),
    }
}

/// What is wrong with the edits themselves, if anything.
pub open spec fn invalid_edits(edits: Seq<EditEntry>) -> Option<Seq<char>> {
    if edits.len() == 0 {
        Some("edits must contain at least one replacement"@)
    } else if exists|i: int| 0 <= i < edits.len() && (#[trigger] edits[i]).old_text@.len() == 0 {
        Some("oldText must not be empty"@)
    } else {
        None
    }
}

/// Check the edits before any file is touched.
pub fn validate(edits: &[EditEntry]) -> (r: Result<(), String>)
    ensures
        match r {
            Ok(_) => invalid_edits(edits@) is None,
            Err(m) => invalid_edits(edits@) == Some(m@),
        },
{
    let n: usize = edits.len();
    if n == 0 {
        return Err(String::from_str("edits must contain at least one replacement"));
    }
    let mut i: usize = 0;
    while i < n
        invariant
            n == edits@.len(),
            0 < n,
            i <= n,
            forall|k: int| 0 <= k < i ==> (#[trigger] edits@[k]).old_text@.len() > 0,
        decreases n - i,
    {
        if edits[i].old_text.as_str().is_empty() {
            assert(edits@[i as int].old_text@.len() == 0);
            return Err(String::from_str("oldText must not be empty"));
        }
        i = i + 1;
    }
    Ok(())
}

/// The old and the new text of the file, both without the byte-order mark, and
/// whether it has that mark; or the message that says why nothing is changed.
pub open spec fn planned(
    path: Seq<char>,
    edits: Seq<EditEntry>,
    file: Option<Seq<u8>>,
) -> Result<(bool, Seq<char>, Seq<char>), Seq<char>> {
    match invalid_edits(edits) {
        Some(m) => Err(m),
        None => match opened(path, file) {
            Err(m) => Err(m),
            Ok(whole) => match edited(path, edits, text::without_bom(whole)) {
                Err(m) => Err(m),
                Ok(new) => if diff::diffable(text::without_bom(whole), new) {
                    Ok((text::has_bom(whole), text::without_bom(whole), new))
                } else {
                    Err(path + " has too many lines to diff"@)
                },
            },
        },
    }
}

/// The line of the new file, counted from one, at which the first step that
/// is not `Equal` starts.
pub open spec fn first_changed(ops: Seq<(Change, usize)>, i: int) -> Option<u32>
    decreases ops.len() - i,
{
    if i < 0 || i >= ops.len() {
        None
    } else if ops[i].0 == Change::Equal {
        first_changed(ops, i + 1)
    } else {
        Some((ops[i].1 + 1) as u32)
    }
}

/// The first changed line, given the steps of the diff.
pub fn first_changed_line(ops: &[(Change, usize)]) -> (r: Option<u32>)
    requires
        forall|i: int| 0 <= i < ops@.len() ==> (#[trigger] ops@[i]).1 < usize::MAX,
    ensures
        r == first_changed(ops@, 0),
        r is None ==> forall|i: int| 0 <= i < ops@.len() ==> (#[trigger] ops@[i]).0 == Change::Equal,
{
    let n: usize = ops.len();
    let mut i: usize = 0;
    while i < n
        invariant
            n == ops@.len(),
            i <= n,
            forall|k: int| 0 <= k < ops@.len() ==> (#[trigger] ops@[k]).1 < usize::MAX,
            forall|k: int| 0 <= k < i ==> (#[trigger] ops@[k]).0 == Change::Equal,
            first_changed(ops@, 0) == first_changed(ops@, i as int),
        decreases n - i,
    {
        let (change, start) = ops[i];
        if change != Change::Equal {
            let line: u32 = #[verifier::truncate]
            ((start + 1) as u32);
            return Some(line);
        }
        i = i + 1;
    }
    None
}

/// The hunks one behind the other.
pub fn join_hunks(hunks: &[String]) -> (r: String)
    ensures
        r@ == chars::texts(hunks@).flatten(),
{
    let n: usize = hunks.len();
    let mut out: String = String::new();
    let mut i: usize = 0;
    let ghost all = chars::texts(hunks@);
    assert(all.take(0).flatten() == Seq::<char>::empty());
    while i < n
        invariant
            n == hunks@.len(),
            all == chars::texts(hunks@),
            i <= n,
            out@ == all.take(i as int).flatten(),
        decreases n - i,
    {
        out.append(hunks[i].as_str());
        proof {
            chars::lemma_flatten_push(all.take(i as int), all[i as int]);
            assert(all.take(i + 1) == all.take(i as int).push(all[i as int]));
        }
        i = i + 1;
    }
    assert(all.take(n as int) == all);
    out
}

/// What a successful edit reports, given the steps of the diff, its hunks and
/// the patch.
pub open spec fn reports(
    output: EditOutput,
    path: Seq<char>,
    replaced: nat,
    ops: Seq<(Change, usize)>,
    hunks: Seq<Seq<char>>,
    patch: Seq<char>,
) -> bool {
    &&& output.success
    &&& output.path@ == path
    &&& output.replacements == replaced
    &&& output.first_changed_line == first_changed(ops, 0)
    &&& output.diff@ == hunks.flatten()
    &&& output.patch@ == patch
}

/// The report of a successful edit.
pub fn report(
    path: &str,
    replaced: usize,
    ops: &[(Change, usize)],
    hunks: &[String],
    patch: String,
) -> (r: EditOutput)
    requires
        forall|i: int| 0 <= i < ops@.len() ==> (#[trigger] ops@[i]).1 < usize::MAX,
    ensures
        reports(r, path@, replaced as nat, ops@, chars::texts(hunks@), patch@),
        r.first_changed_line is None ==> forall|i: int|
            0 <= i < ops@.len() ==> (#[trigger] ops@[i]).0 == Change::Equal,
{
    EditOutput {
        success: true,
        path: path.to_owned(),
        replacements: replaced,
        first_changed_line: first_changed_line(ops),
        diff: join_hunks(hunks),
        patch,
    }
}

/// Edit a file, given what it holds (nothing where it cannot be read). Gives
/// the bytes to commit and the report, or the message that says why the file
/// stays as it is.
pub fn run(params: &EditParams, file: Option<Vec<u8>>) -> (r: Result<(Vec<u8>, EditOutput), String>)
    ensures
        match r {
            Ok((bytes, output)) => planned(
                params.path@,
                params.edits@,
                option_view(file),
            ) matches Ok((had_bom, old, new)) && {
                let hunks = diff::hunks(old, new, DIFF_CONTEXT_LINES as nat);
                &&& bytes@ == encode_utf8(text::with_bom(had_bom, new))
                &&& reports(
                    output,
                    params.path@,
                    params.edits@.len(),
                    diff::diff_ops(old, new),
                    hunks,
                    diff::patch_text(hunks, "a/"@ + params.path@, "b/"@ + params.path@),
                )
                &&& output.first_changed_line is Some
                &&& hunks.len() > 0
            },
            Err(m) => planned(params.path@, params.edits@, option_view(file)) == Err::<
                (bool, Seq<char>, Seq<char>),
                Seq<char>,
            >(m@),
        },
{
    let path: &str = params.path.as_str();
    match validate(params.edits.as_slice()) {
        Err(m) => {
            return Err(m);
        },
        Ok(_) => {},
    }
    let whole: String = match open(path, file) {
        Err(m) => {
            return Err(m);
        },
        Ok(whole) => whole,
    };
    let (had_bom, content) = text::strip_bom(whole.as_str());
    let new: String = match apply(path, params.edits.as_slice(), content) {
        Err(m) => {
            return Err(m);
        },
        Ok(new) => new,
    };
    if !diff::can_diff(content, new.as_str()) {
        let mut m: String = path.to_owned();
        m.append(" has too many lines to diff");
        return Err(m);
    }
    let bytes: Vec<u8> = text::restore_bom(had_bom, new.as_str());
    let ops: Vec<(Change, usize)> = diff::line_ops(content, new.as_str());
    let hunks: Vec<String> = diff::hunk_texts(content, new.as_str(), DIFF_CONTEXT_LINES);
    let mut old_name: String = String::from_str("a/");
    old_name.append(path);
    let mut new_name: String = String::from_str("b/");
    new_name.append(path);
    let patch: String = diff::unified_patch(
        content,
        new.as_str(),
        DIFF_CONTEXT_LINES,
        old_name.as_str(),
        new_name.as_str(),
    );
    let output: EditOutput = report(
        path,
        params.edits.len(),
        ops.as_slice(),
        hunks.as_slice(),
        patch,
    );
    assert(chars::texts(hunks@).len() == hunks@.len());
    Ok((bytes, output))
}

/// An edited file keeps its byte-order mark.
pub proof fn edit_keeps_the_mark(path: Seq<char>, edits: Seq<EditEntry>, bytes: Seq<u8>)
    ensures
        planned(path, edits, Some(bytes)) matches Ok((had_bom, _, new)) ==> had_bom
            == text::has_bom(decode_utf8(bytes)) && (had_bom ==> text::has_bom(
            text::with_bom(had_bom, new),
        )),
{
}

// ---------------------------------------------------------------------------
// What an edit amounts to
// ---------------------------------------------------------------------------

/// By how much each edit makes the file longer: the length of its replacement
/// text, in the line-ending style of the file, less that of the part that it
/// replaces.
pub open spec fn growth(content: Seq<char>, edits: Seq<EditEntry>) -> Seq<int> {
    Seq::new(
        edits.len(),
        |i: int|
            text::adopted(edits[i].new_text@, text::mostly_crlf(content)).len() - (range_of(
                content,
                edits[i],
            ).1 - range_of(content, edits[i]).0),
    )
}

/// The new text is as long as what is left of the file, with what each of the
/// edits from the `k`-th on adds.
proof fn lemma_spliced_len(
    content: Seq<char>,
    ranges: Seq<(int, int)>,
    texts: Seq<Seq<char>>,
    weights: Seq<int>,
    order: Seq<int>,
    k: int,
    at: int,
)
    requires
        in_line(content.len(), ranges, order, k, at),
        0 <= k <= order.len(),
        forall|t: int|
            0 <= t < order.len() ==> weights[#[trigger] order[t]] == texts[order[t]].len() - (
            ranges[order[t]].1 - ranges[order[t]].0),
    ensures
        spliced(content, ranges, texts, order, k, at).len() == content.len() - at
            + order::sum_along(weights, order, order.len() as int) - order::sum_along(
            weights,
            order,
            k,
        ),
    decreases order.len() - k,
{
    lemma_in_line_end(content.len(), ranges, order, k, at);
    if k < order.len() {
        let end = ranges[order[k]].1;
        lemma_in_line_end(content.len(), ranges, order, k + 1, end);
        lemma_spliced_len(content, ranges, texts, weights, order, k + 1, end);
        assert(weights[order[k]] == texts[order[k]].len() - (ranges[order[k]].1
            - ranges[order[k]].0));
    }
}

/// An edited file has no characters but the kept ones and the replacement
/// texts: it is longer by what the edits add, all of them together.
pub proof fn edited_text_has_its_length(
    path: Seq<char>,
    edits: Seq<EditEntry>,
    content: Seq<char>,
)
    requires
        content.len() <= usize::MAX,
    ensures
        edited(path, edits, content) matches Ok(new) ==> new.len() == content.len()
            + order::sum_of(growth(content, edits), edits.len()),
{
    if edited(path, edits, content) is Ok {
        let all = ranges(content, edits);
        let texts = replacements(edits, text::mostly_crlf(content));
        let order = start_order(all);
        let weights = growth(content, edits);
        lemma_accepted_in_line(path, edits, content);
        order::order_is_stable(starts(all), edits.len());
        assert forall|t: int| 0 <= t < order.len() implies weights[#[trigger] order[t]]
            == texts[order[t]].len() - (all[order[t]].1 - all[order[t]].0) by {
            assert(all[order[t]] == range_of(content, edits[order[t]]));
        }
        lemma_spliced_len(content, all, texts, weights, order, 0, 0);
        order::lemma_sum_before(starts(all), weights, order, edits.len(), edits.len() as int);
    }
}

/// One edit that names a place replaces what stands there by its text, in the
/// file's line-ending style, and keeps everything in front of it and behind
/// it; if that leaves the file as it was, nothing is changed.
pub proof fn one_edit_replaces_its_part(
    path: Seq<char>,
    entry: EditEntry,
    content: Seq<char>,
    from: usize,
    to: usize,
)
    requires
        content.len() <= usize::MAX,
        matching::locate(content, entry.old_text@) == Ok::<(usize, usize), MatchError>((from, to)),
    ensures
        ({
            let new = content.take(from as int) + text::adopted(
                entry.new_text@,
                text::mostly_crlf(content),
            ) + content.skip(to as int);
            edited(path, seq![entry], content) == if new == content {
                Err::<Seq<char>, Seq<char>>(
                    "No changes made to "@ + path
                        + ".\nThe replacement produced identical content."@,
                )
            } else {
                Ok::<Seq<char>, Seq<char>>(new)
            }
        }),
{
    let edits = seq![entry];
    let all = ranges(content, edits);
    let texts = replacements(edits, text::mostly_crlf(content));
    let order = start_order(all);
    matching::located_part_is_inside(content, entry.old_text@);
    lemma_all_matched(content, edits, 0);
    order::order_is_stable(starts(all), 1);
    assert(order.len() == 1 && order[0] == 0);
    assert(all[0] == (from as int, to as int));
    assert(spliced(content, all, texts, order, 1, to as int) == content.skip(to as int));
    let new = content.take(from as int) + texts[0] + content.skip(to as int);
    assert(content.subrange(0, from as int) == content.take(from as int));
    assert(spliced(content, all, texts, order, 0, 0) == new);
}

/// Two edits that name places one behind the other replace both and keep
/// everything in front of them, between them and behind them.
pub proof fn two_edits_replace_both_parts(
    path: Seq<char>,
    first: EditEntry,
    second: EditEntry,
    content: Seq<char>,
    a: (usize, usize),
    b: (usize, usize),
)
    requires
        content.len() <= usize::MAX,
        matching::locate(content, first.old_text@) == Ok::<(usize, usize), MatchError>(a),
        matching::locate(content, second.old_text@) == Ok::<(usize, usize), MatchError>(b),
        a.1 <= b.0,
    ensures
        ({
            let crlf = text::mostly_crlf(content);
            let new = content.take(a.0 as int) + text::adopted(first.new_text@, crlf)
                + content.subrange(a.1 as int, b.0 as int) + text::adopted(second.new_text@, crlf)
                + content.skip(b.1 as int);
            &&& new != content ==> edited(path, seq![first, second], content) == Ok::<
                Seq<char>,
                Seq<char>,
            >(new)
            &&& new != content ==> edited(path, seq![second, first], content) == Ok::<
                Seq<char>,
                Seq<char>,
            >(new)
        }),
{
    let edits = seq![first, second];
    let crlf = text::mostly_crlf(content);
    let all = ranges(content, edits);
    let texts = replacements(edits, crlf);
    let order = start_order(all);
    matching::located_part_is_inside(content, first.old_text@);
    matching::located_part_is_inside(content, second.old_text@);
    lemma_all_matched(content, edits, 0);
    order::order_is_stable(starts(all), 2);
    assert(all[0] == (a.0 as int, a.1 as int) && all[1] == (b.0 as int, b.1 as int));
    assert(order::precedes(starts(all), order[0], order[1]));
    assert(order[0] == 0 && order[1] == 1);
    assert(first_clash(all, order, 1) == 1);
    assert(first_clash(all, order, 0) == 1);
    let one = text::adopted(first.new_text@, crlf);
    let two = text::adopted(second.new_text@, crlf);
    let middle = content.subrange(a.1 as int, b.0 as int);
    let tail = content.skip(b.1 as int);
    assert(spliced(content, all, texts, order, 2, b.1 as int) == tail);
    assert(spliced(content, all, texts, order, 1, a.1 as int) == middle + two + tail);
    assert(content.subrange(0, a.0 as int) == content.take(a.0 as int));
    let new = content.take(a.0 as int) + one + middle + two + tail;
    assert(content.take(a.0 as int) + one + (middle + two + tail) == new);
    assert(spliced(content, all, texts, order, 0, 0) == new);
    if new != content {
        let other = seq![second, first];
        let place = seq![1int, 0int];
        assert(other[0] == edits[place[0]] && other[1] == edits[place[1]]);
        listing_order_does_not_matter(path, edits, other, place, content);
    }
}

proof fn lemma_clash_free(ranges: Seq<(int, int)>, order: Seq<int>, k: int)
    requires
        0 <= k < order.len() || (k == 0 && order.len() == 0),
        forall|i: int|
            0 <= i < order.len() - 1 ==> ranges[order[i + 1]].0 >= ranges[#[trigger] order[i]].1,
    ensures
        first_clash(ranges, order, k) + 1 >= order.len(),
    decreases order.len() - k,
{
    if k + 1 < order.len() {
        assert(ranges[order[k + 1]].0 >= ranges[order[k]].1);
        lemma_clash_free(ranges, order, k + 1);
    }
}

/// Edits that each name a place, no two of which have anything in common, are
/// accepted; the one other outcome is that together they leave the file as it
/// was, which they cannot where they make it longer or shorter.
pub proof fn disjoint_edits_are_accepted(
    path: Seq<char>,
    edits: Seq<EditEntry>,
    content: Seq<char>,
)
    requires
        content.len() <= usize::MAX,
        forall|i: int|
            0 <= i < edits.len() ==> matching::locate(
                content,
                (#[trigger] edits[i]).old_text@,
            ) is Ok,
        forall|i: int, j: int|
            0 <= i < j < edits.len() ==> range_of(content, #[trigger] edits[i]).1 <= range_of(
                content,
                #[trigger] edits[j],
            ).0 || range_of(content, edits[j]).1 <= range_of(content, edits[i]).0,
    ensures
        edited(path, edits, content) is Ok || edited(path, edits, content) == Err::<
            Seq<char>,
            Seq<char>,
        >("No changes made to "@ + path + ".\nThe replacement produced identical content."@),
        order::sum_of(growth(content, edits), edits.len()) != 0 ==> edited(
            path,
            edits,
            content,
        ) is Ok,
{
    let n = edits.len();
    let all = ranges(content, edits);
    let texts = replacements(edits, text::mostly_crlf(content));
    let order = start_order(all);
    let weights = growth(content, edits);
    lemma_all_matched(content, edits, 0);
    order::order_is_stable(starts(all), n);
    assert forall|t: int| 0 <= t < order.len() implies 0 <= all[#[trigger] order[t]].0
        < all[order[t]].1 <= content.len() by {
        assert(all[order[t]] == range_of(content, edits[order[t]]));
        matching::located_part_is_inside(content, edits[order[t]].old_text@);
    }
    assert forall|i: int| 0 <= i < order.len() - 1 implies all[order[i + 1]].0
        >= all[#[trigger] order[i]].1 by {
        let a = order[i];
        let b = order[i + 1];
        assert(order::precedes(starts(all), order[i], order[i + 1]));
        assert(all[a] == range_of(content, edits[a]) && all[b] == range_of(content, edits[b]));
        assert(all[order[i + 1]].0 < all[order[i + 1]].1);
        if a < b {
            assert(range_of(content, edits[a]).1 <= range_of(content, edits[b]).0 || range_of(
                content,
                edits[b],
            ).1 <= range_of(content, edits[a]).0);
        } else {
            assert(range_of(content, edits[b]).1 <= range_of(content, edits[a]).0 || range_of(
                content,
                edits[a],
            ).1 <= range_of(content, edits[b]).0);
        }
    }
    lemma_clash_free(all, order, 0);
    lemma_in_line(content.len(), all, order, 0, 0);
    assert forall|t: int| 0 <= t < order.len() implies weights[#[trigger] order[t]]
        == texts[order[t]].len() - (all[order[t]].1 - all[order[t]].0) by {
        assert(all[order[t]] == range_of(content, edits[order[t]]));
    }
    lemma_spliced_len(content, all, texts, weights, order, 0, 0);
    order::lemma_sum_before(starts(all), weights, order, n, n as int);
}

/// Edits that name parts with something in common are refused, with a message
/// that names two such edits.
pub proof fn overlapping_edits_are_refused(
    path: Seq<char>,
    edits: Seq<EditEntry>,
    content: Seq<char>,
    a: int,
    b: int,
)
    requires
        content.len() <= usize::MAX,
        forall|i: int|
            0 <= i < edits.len() ==> matching::locate(
                content,
                (#[trigger] edits[i]).old_text@,
            ) is Ok,
        0 <= a < b < edits.len(),
        range_of(content, edits[a]).0 < range_of(content, edits[b]).1,
        range_of(content, edits[b]).0 < range_of(content, edits[a]).1,
    ensures
        exists|low: int, high: int| #![trigger edits[low], edits[high]]
            0 <= low < high < edits.len() && range_of(content, edits[low]).0 < range_of(
                content,
                edits[high],
            ).1 && range_of(content, edits[high]).0 < range_of(content, edits[low]).1 && edited(
                path,
                edits,
                content,
            ) == Err::<Seq<char>, Seq<char>>(overlap_text(low as nat, high as nat, path)),
{
    let all = ranges(content, edits);
    let order = start_order(all);
    lemma_all_matched(content, edits, 0);
    if no_clash(all, order) {
        accepted_edits_are_disjoint(content, edits, a, b);
        assert(false);
    }
    order::order_is_stable(starts(all), edits.len());
    let k = first_clash(all, order, 0);
    lemma_first_clash(all, order, 0);
    lemma_clash_at(all, order, 0);
    let x = order[k];
    let y = order[k + 1];
    assert(order::precedes(starts(all), order[k], order[k + 1]));
    assert(all[x] == range_of(content, edits[x]) && all[y] == range_of(content, edits[y]));
    matching::located_part_is_inside(content, edits[x].old_text@);
    matching::located_part_is_inside(content, edits[y].old_text@);
    assert(matching::locate(content, edits[x].old_text@) is Ok);
    assert(matching::locate(content, edits[y].old_text@) is Ok);
    let low = if x < y {
        x
    } else {
        y
    };
    let high = if x < y {
        y
    } else {
        x
    };
    assert(edits[low] == edits[low] && edits[high] == edits[high]);
    assert(edited(path, edits, content) == Err::<Seq<char>, Seq<char>>(
        overlap_text(low as nat, high as nat, path),
    ));
}

proof fn lemma_clash_at(ranges: Seq<(int, int)>, order: Seq<int>, k: int)
    requires
        0 <= k,
    ensures
        first_clash(ranges, order, k) + 1 < order.len() ==> ranges[order[first_clash(
            ranges,
            order,
            k,
        ) + 1]].0 < ranges[order[first_clash(ranges, order, k)]].1,
    decreases order.len() - k,
{
    if k + 1 < order.len() && ranges[order[k + 1]].0 >= ranges[order[k]].1 {
        lemma_clash_at(ranges, order, k + 1);
    }
}

/// An edit that names no place, or several, is refused, whatever comes behind
/// it, with its number and what went wrong.
pub proof fn unmatched_edit_is_refused(
    path: Seq<char>,
    edits: Seq<EditEntry>,
    content: Seq<char>,
    k: int,
    error: MatchError,
)
    requires
        0 <= k < edits.len(),
        matching::locate(content, edits[k].old_text@) == Err::<(usize, usize), MatchError>(error),
        forall|i: int|
            0 <= i < k ==> matching::locate(content, (#[trigger] edits[i]).old_text@) is Ok,
    ensures
        edited(path, edits, content) == Err::<Seq<char>, Seq<char>>(
            match_error_text(error, k as nat, path, edits.len()),
        ),
{
    lemma_first_unmatched(content, edits, 0, k);
}

proof fn lemma_first_unmatched(content: Seq<char>, edits: Seq<EditEntry>, i: int, k: int)
    requires
        0 <= i <= k < edits.len(),
        matching::locate(content, edits[k].old_text@) is Err,
        forall|j: int|
            0 <= j < k ==> matching::locate(content, (#[trigger] edits[j]).old_text@) is Ok,
    ensures
        first_unmatched(content, edits, i) == k,
    decreases k - i,
{
    if i < k {
        assert(matching::locate(content, edits[i].old_text@) is Ok);
        lemma_first_unmatched(content, edits, i + 1, k);
    }
}

/// A text file with edits that are accepted is planned to become the edited
/// text; its byte-order mark, if it has one, is kept aside.
pub proof fn text_file_is_edited(
    path: Seq<char>,
    edits: Seq<EditEntry>,
    whole: Seq<char>,
    mark: bool,
    content: Seq<char>,
    new: Seq<char>,
)
    requires
        edits.len() > 0,
        forall|i: int| 0 <= i < edits.len() ==> (#[trigger] edits[i]).old_text@.len() > 0,
        mark ==> whole == seq!['\u{FEFF}'] + content,
        !mark ==> whole == content && (content.len() == 0 || content[0] != '\u{FEFF}'),
        forall|i: int|
            0 <= i < encode_utf8(whole).len() && i < 8192 ==> #[trigger] encode_utf8(whole)[i] != 0,
        edited(path, edits, content) == Ok::<Seq<char>, Seq<char>>(new),
        diff::diffable(content, new),
    ensures
        planned(path, edits, Some(encode_utf8(whole))) == Ok::<
            (bool, Seq<char>, Seq<char>),
            Seq<char>,
        >((mark, content, new)),
{
    assert(invalid_edits(edits) is None);
    assert(!looks_binary(encode_utf8(whole)));
    encode_utf8_valid_utf8(whole);
    encode_utf8_decode_utf8(whole);
    assert(text::without_bom(whole) == content);
    assert(text::has_bom(whole) == mark);
}

/// The first changed line is where the first step that changes anything
/// starts in the new file.
pub proof fn first_change_is_reported(ops: Seq<(Change, usize)>, k: int)
    requires
        0 <= k < ops.len(),
        ops[k].0 != Change::Equal,
        ops[k].1 < u32::MAX,
        forall|i: int| 0 <= i < k ==> (#[trigger] ops[i]).0 == Change::Equal,
    ensures
        first_changed(ops, 0) matches Some(line) && line == ops[k].1 + 1,
{
    lemma_first_changed(ops, 0, k);
}

proof fn lemma_first_changed(ops: Seq<(Change, usize)>, i: int, k: int)
    requires
        0 <= i <= k < ops.len(),
        ops[k].0 != Change::Equal,
        forall|j: int| 0 <= j < k ==> (#[trigger] ops[j]).0 == Change::Equal,
    ensures
        first_changed(ops, i) == Some((ops[k].1 + 1) as u32),
    decreases k - i,
{
    if i < k {
        assert(ops[i].0 == Change::Equal);
        lemma_first_changed(ops, i + 1, k);
    }
}

/// Nothing is changed where there are no edits, where an edit names no text,
/// where there is no file, where a zero byte stands among the first 8192 bytes,
/// and where the file is not UTF-8.
pub proof fn unfit_files_are_not_edited(path: Seq<char>, edits: Seq<EditEntry>, bytes: Seq<u8>)
    ensures
        planned(path, Seq::empty(), Some(bytes)) is Err,
        (exists|i: int| 0 <= i < edits.len() && (#[trigger] edits[i]).old_text@.len() == 0)
            ==> planned(path, edits, Some(bytes)) is Err,
        planned(path, edits, None) is Err,
        (exists|i: int| 0 <= i < bytes.len() && i < 8192 && #[trigger] bytes[i] == 0) ==> planned(
            path,
            edits,
            Some(bytes),
        ) is Err,
        !valid_utf8(bytes) ==> planned(path, edits, Some(bytes)) is Err,
{
}

/// The report says what was done: which file, how many replacements, where the
/// first change is, and the diff, which is all of its hunks.
pub proof fn report_says_what_was_done(
    output: EditOutput,
    path: Seq<char>,
    replaced: nat,
    ops: Seq<(Change, usize)>,
    hunks: Seq<Seq<char>>,
    patch: Seq<char>,
)
    requires
        reports(output, path, replaced, ops, hunks, patch),
    ensures
        output.success,
        output.path@ == path,
        output.replacements == replaced,
        output.first_changed_line == first_changed(ops, 0),
        output.diff@ == hunks.flatten(),
        output.patch@ == patch,
{
}

/// Whether `part` stands somewhere in `text`.
pub open spec fn mentions(text: Seq<char>, part: Seq<char>) -> bool {
    exists|a: Seq<char>, b: Seq<char>| text == #[trigger] (a + part + b)
}

/// A refusal names the file and, among several edits, the edits that it is
/// about, and for a text that stands in the file more than once how often.
pub proof fn refusals_name_the_edit_and_the_file(
    index: nat,
    other: nat,
    count: usize,
    path: Seq<char>,
    total: nat,
)
    ensures
        mentions(match_error_text(MatchError::NotFound, index, path, total), path),
        mentions(match_error_text(MatchError::Multiple(count), index, path, total), path),
        mentions(
            match_error_text(MatchError::Multiple(count), index, path, total),
            "Found "@ + chars::decimal(count as nat) + " occurrences of "@,
        ),
        total != 1 ==> mentions(
            match_error_text(MatchError::NotFound, index, path, total),
            "edits["@ + chars::decimal(index) + "]"@,
        ),
        total != 1 ==> mentions(
            match_error_text(MatchError::Multiple(count), index, path, total),
            "edits["@ + chars::decimal(index) + "]"@,
        ),
        mentions(overlap_text(index, other, path), path),
        mentions(
            overlap_text(index, other, path),
            "edits["@ + chars::decimal(index) + "] and edits["@ + chars::decimal(other) + "]"@,
        ),
{
    let none = Seq::<char>::empty();
    let name = "edits["@ + chars::decimal(index) + "]"@;
    let missing = match_error_text(MatchError::NotFound, index, path, total);
    let end = ".\nThe oldText must identify the intended text in the file."@;
    let larger = ".\nProvide a larger unique oldText block from the current file contents."@;
    reveal_strlit("] in ");
    reveal_strlit("]");
    reveal_strlit(" in ");
    assert("] in "@ == "]"@ + " in "@);
    if total == 1 {
        assert(missing == "Could not find the text in "@ + path + end);
    } else {
        assert(missing == "Could not find "@ + name + (" in "@ + path + larger)) by {
            reveal_strlit("Could not find edits[");
            reveal_strlit("Could not find ");
            reveal_strlit("edits[");
            assert("Could not find edits["@ == "Could not find "@ + "edits["@);
        }
        assert(missing == "Could not find "@ + name + " in "@ + path + larger);
    }
    let many = match_error_text(MatchError::Multiple(count), index, path, total);
    let found = "Found "@ + chars::decimal(count as nat) + " occurrences of "@;
    let subject = if total == 1 {
        "the text"@
    } else {
        name
    };
    let unique = ".\nEach oldText must be unique. Please provide more context to make it unique."@;
    assert(many == found + subject + " in "@ + path + unique);
    assert(many == none + found + (subject + " in "@ + path + unique));
    assert(many == found + subject + (" in "@ + path + unique));
    let clash = overlap_text(index, other, path);
    let both = "edits["@ + chars::decimal(index) + "] and edits["@ + chars::decimal(other) + "]"@;
    let merge = ".\nMerge them into one edit or target disjoint regions."@;
    reveal_strlit("] overlap in ");
    reveal_strlit(" overlap in ");
    assert("] overlap in "@ == "]"@ + " overlap in "@);
    assert(clash == both + " overlap in "@ + path + merge);
    assert(clash == none + both + (" overlap in "@ + path + merge));
}

} // verus!
