//! Output truncation: 2000 lines or 50 KiB, whichever comes first. Reading a
//! file keeps the head (files are read front to back); running a command
//! keeps the tail (errors and summaries land at the end).

use vstd::prelude::*;
use vstd::string::*;
use vstd::utf8::*;

use crate::chars;

verus! {

pub const MAX_LINES: usize = 2000;

pub const MAX_BYTES: usize = 51200;

/// The whole number nearest to `a / b`; a tie goes to the even one.
pub open spec fn round_half_even(a: nat, b: nat) -> nat {
    let q = a / b;
    let twice = 2 * (a % b);
    if twice < b || (twice == b && q % 2 == 0) {
        q
    } else {
        q + 1
    }
}

/// Distance between neighbouring double-precision numbers at `n`.
pub open spec fn double_step(n: nat) -> nat
    decreases n,
{
    if n < 0x20_0000_0000_0000 {
        1
    } else {
        2 * double_step(n / 2)
    }
}

/// The double-precision number nearest to `n`.
pub open spec fn nearest_double(n: nat) -> nat {
    round_half_even(n, double_step(n)) * double_step(n)
}

/// How many tenths of a KiB `bytes` bytes are, rounded.
pub open spec fn kb_tenths(bytes: nat) -> nat {
    round_half_even(nearest_double(bytes) * 10, 1024)
}

/// A size in KiB with one decimal.
pub open spec fn kb_text(bytes: nat) -> Seq<char> {
    chars::decimal(kb_tenths(bytes) / 10) + "."@ + chars::decimal(kb_tenths(bytes) % 10) + "KB"@
}

fn divide_half_even(a: u128, b: u128) -> (r: u128)
    requires
        0 < b,
        a < 0x1_0000_0000_0000_0000_0000_0000,
        b < 0x1_0000_0000_0000_0000_0000_0000,
    ensures
        r == round_half_even(a as nat, b as nat),
        r <= a / b + 1,
{
    let q: u128 = a / b;
    let m: u128 = a % b;
    proof {
        assert(q <= a) by (nonlinear_arith)
            requires
                q == a / b,
                0 < b,
        ;
    }
    let twice: u128 = 2 * m;
    if twice < b || (twice == b && q % 2 == 0) {
        q
    } else {
        q + 1
    }
}

fn step_at(n: u64) -> (r: u64)
    ensures
        r == double_step(n as nat),
        r == 1 || r * 0x10_0000_0000_0000 <= n,
        r >= 1,
    decreases n,
{
    if n < 0x20_0000_0000_0000 {
        1
    } else {
        let half: u64 = step_at(n / 2);
        2 * half
    }
}

/// KiB with one decimal, e.g. `50.0KB`.
pub fn format_kb(bytes: usize) -> (r: String)
    ensures
        r@ == kb_text(bytes as nat),
{
    let step: u64 = step_at(bytes as u64);
    let nearest: u128 = divide_half_even(bytes as u128, step as u128);
    proof {
        let n = bytes as int;
        let d = step as int;
        let q = nearest as int;
        assert(0 <= q * d <= n + d) by (nonlinear_arith)
            requires
                0 < d,
                0 <= n,
                0 <= q <= n / d + 1,
        ;
    }
    let value: u128 = nearest * (step as u128);
    let tenths: u128 = divide_half_even(value * 10, 1024);
    let mut text: String = chars::decimal_text((tenths / 10) as u64);
    text.append(".");
    let last: String = chars::decimal_text((tenths % 10) as u64);
    text.append(last.as_str());
    text.append("KB");
    text
}

/// Number of lines, counting a final unterminated line as a line.
pub fn count_lines(text: &str) -> (r: usize)
    ensures
        r == chars::lines(text@).len(),
{
    let s: Vec<char> = chars::to_chars(text);
    let cuts: Vec<usize> = chars::line_cuts(s.as_slice());
    cuts.len() - 1
}

// ---------------------------------------------------------------------------
// Head
// ---------------------------------------------------------------------------

/// `k` is the greatest number of leading lines, at most `max_lines`, that
/// together take no more than `max_bytes`.
pub open spec fn is_head_count(
    lines: Seq<Seq<char>>,
    max_lines: nat,
    max_bytes: nat,
    k: nat,
) -> bool {
    &&& k <= lines.len()
    &&& k <= max_lines
    &&& chars::utf8_len(lines.take(k as int).flatten()) <= max_bytes
    &&& k < lines.len() && k < max_lines ==> chars::utf8_len(lines.take(k as int + 1).flatten())
        > max_bytes
}

/// The greatest number of leading lines, at most `max_lines`, that together
/// take no more than `max_bytes`.
pub open spec fn head_count(lines: Seq<Seq<char>>, max_lines: nat, max_bytes: nat) -> nat {
    choose|k: nat| is_head_count(lines, max_lines, max_bytes, k)
}

/// The more lines, the more bytes.
proof fn lemma_lines_grow(lines: Seq<Seq<char>>, i: int, j: int)
    requires
        0 <= i <= j <= lines.len(),
    ensures
        chars::utf8_len(lines.take(i).flatten()) <= chars::utf8_len(lines.take(j).flatten()),
{
    chars::lemma_flatten_split(lines.take(j), i);
    assert(lines.take(j).take(i) == lines.take(i));
    chars::lemma_utf8_len_add(lines.take(i).flatten(), lines.take(j).skip(i).flatten());
}

/// There is only one such number.
pub proof fn lemma_head_count(lines: Seq<Seq<char>>, max_lines: nat, max_bytes: nat, k: nat)
    requires
        is_head_count(lines, max_lines, max_bytes, k),
    ensures
        head_count(lines, max_lines, max_bytes) == k,
{
    let c = head_count(lines, max_lines, max_bytes);
    assert(is_head_count(lines, max_lines, max_bytes, c));
    if c < k {
        lemma_lines_grow(lines, c as int + 1, k as int);
    } else if k < c {
        lemma_lines_grow(lines, k as int + 1, c as int);
    }
}

/// There is always such a number.
pub proof fn lemma_head_count_exists(
    lines: Seq<Seq<char>>,
    max_lines: nat,
    max_bytes: nat,
    k: nat,
)
    requires
        k <= lines.len(),
        k <= max_lines,
        chars::utf8_len(lines.take(k as int).flatten()) <= max_bytes || k == 0,
    ensures
        is_head_count(lines, max_lines, max_bytes, head_count(lines, max_lines, max_bytes)),
    decreases lines.len() - k,
{
    if k == 0 {
        assert(lines.take(0).flatten() == Seq::<char>::empty());
    }
    if k < lines.len() && k < max_lines && chars::utf8_len(lines.take(k as int + 1).flatten())
        <= max_bytes {
        lemma_head_count_exists(lines, max_lines, max_bytes, k + 1);
    } else {
        assert(is_head_count(lines, max_lines, max_bytes, k));
    }
}

/// How many lines from line `first` on fit the limits.
pub fn fitting_lines(
    s: &[char],
    cuts: &Vec<usize>,
    first: usize,
    max_lines: usize,
    max_bytes: usize,
) -> (kept: usize)
    requires
        chars::is_line_cuts(s@, cuts@),
        chars::utf8_len(s@) <= usize::MAX,
        first <= chars::lines(s@).len(),
    ensures
        is_head_count(
            chars::lines(s@).skip(first as int),
            max_lines as nat,
            max_bytes as nat,
            kept as nat,
        ),
{
    let total: usize = cuts.len() - 1;
    let ghost ls = chars::lines(s@);
    let ghost shown = ls.skip(first as int);
    let mut kept: usize = 0;
    let mut used: usize = 0;
    proof {
        assert(s@.subrange(cuts@[first as int] as int, cuts@[first as int] as int)
            == Seq::<char>::empty());
        assert(shown.take(0) == ls.subrange(first as int, first as int));
        chars::lemma_span_of_lines(s@, cuts@, first as int, first as int);
    }
    while kept < max_lines && kept < total - first
        invariant
            chars::is_line_cuts(s@, cuts@),
            chars::utf8_len(s@) <= usize::MAX,
            ls == chars::lines(s@),
            shown == ls.skip(first as int),
            total == ls.len(),
            total == cuts@.len() - 1,
            first <= total,
            kept <= total - first,
            kept <= max_lines,
            used == chars::utf8_len(
                s@.subrange(cuts@[first as int] as int, cuts@[first + kept] as int),
            ),
            shown.take(kept as int).flatten() == s@.subrange(
                cuts@[first as int] as int,
                cuts@[first + kept] as int,
            ),
            used <= max_bytes,
        ensures
            kept <= total - first,
            kept <= max_lines,
            chars::utf8_len(shown.take(kept as int).flatten()) <= max_bytes,
            kept < total - first && kept < max_lines ==> chars::utf8_len(
                shown.take(kept + 1).flatten(),
            ) > max_bytes,
        decreases total - first - kept,
    {
        let from: usize = cuts[first + kept];
        let to: usize = cuts[first + kept + 1];
        let part: usize = chars::span_len(s, from, to);
        proof {
            let a = cuts@[first as int] as int;
            chars::lemma_span_of_lines(s@, cuts@, first as int, first + kept + 1);
            assert(shown.take(kept + 1) == ls.subrange(first as int, first + kept + 1));
            chars::lemma_utf8_len_add(s@.subrange(a, from as int), s@.subrange(from as int, to as int));
            assert(s@.subrange(a, from as int) + s@.subrange(from as int, to as int) == s@.subrange(
                a,
                to as int,
            ));
            chars::lemma_utf8_len_subrange(s@, a, to as int);
        }
        if used + part > max_bytes {
            break;
        }
        used = used + part;
        kept = kept + 1;
    }
    kept
}

/// Head truncation result.
#[derive(Debug)]
pub struct Head {
    /// The kept text (whole lines only).
    pub text: String,
    /// How many leading lines were kept.
    pub kept_lines: usize,
    /// Stopped early because the byte budget would be exceeded.
    pub byte_limited: bool,
    /// Even the first line alone exceeds the byte budget.
    pub first_line_too_big: bool,
}

/// Keep the first `max_lines` lines within `max_bytes`.
pub fn take_head(text: &str, max_lines: usize, max_bytes: usize) -> (r: Head)
    ensures
        is_head_count(
            chars::lines(text@),
            max_lines as nat,
            max_bytes as nat,
            r.kept_lines as nat,
        ),
        r.text@ == chars::lines(text@).take(r.kept_lines as int).flatten(),
        r.byte_limited == (r.kept_lines < chars::lines(text@).len() && r.kept_lines < max_lines),
        r.first_line_too_big == (chars::lines(text@).len() > 0 && chars::utf8_len(
            chars::lines(text@)[0],
        ) > max_bytes),
{
    let s: Vec<char> = chars::to_chars(text);
    let cuts: Vec<usize> = chars::line_cuts(s.as_slice());
    let total: usize = cuts.len() - 1;
    let kept: usize = fitting_lines(s.as_slice(), &cuts, 0, max_lines, max_bytes);
    let end: usize = cuts[kept];
    proof {
        let ls = chars::lines(text@);
        assert(ls.skip(0) == ls);
        assert(ls.take(kept as int) == ls.subrange(0, kept as int));
        chars::lemma_span_of_lines(text@, cuts@, 0, kept as int);
    }
    let mut first_line_too_big: bool = false;
    if total > 0 {
        let first: usize = chars::span_len(s.as_slice(), 0, cuts[1]);
        proof {
            let ls = chars::lines(text@);
            chars::lemma_span_of_lines(text@, cuts@, 0, 1);
            assert(ls.subrange(0, 1) == seq![ls[0]]);
            assert(seq![ls[0]] == Seq::<Seq<char>>::empty().push(ls[0]));
            chars::lemma_flatten_push(Seq::<Seq<char>>::empty(), ls[0]);
            assert(Seq::<Seq<char>>::empty().flatten() == Seq::<char>::empty());
            assert(ls.subrange(0, 1).flatten() == ls[0]);
        }
        first_line_too_big = first > max_bytes;
    }
    Head {
        text: chars::from_chars(vstd::slice::slice_subrange(s.as_slice(), 0, end)),
        kept_lines: kept,
        byte_limited: kept < total && kept < max_lines,
        first_line_too_big,
    }
}

// ---------------------------------------------------------------------------
// Tail
// ---------------------------------------------------------------------------

/// Index of the first of the last `max_lines` lines.
pub open spec fn last_lines_start(total: nat, max_lines: nat) -> nat {
    if total > max_lines {
        (total - max_lines) as nat
    } else {
        0
    }
}

/// Of the last `max_lines` lines, those from `start` on are the most that
/// together take no more than `max_bytes`; the last line is always among them.
pub open spec fn is_tail_start(
    lines: Seq<Seq<char>>,
    max_lines: nat,
    max_bytes: nat,
    start: nat,
) -> bool {
    let low = last_lines_start(lines.len(), max_lines);
    &&& low <= start
    &&& start < lines.len() || (lines.len() == 0 && start == 0)
    &&& start > low ==> chars::utf8_len(lines.skip(start - 1).flatten()) > max_bytes
    &&& start + 1 < lines.len() ==> chars::utf8_len(lines.skip(start as int).flatten())
        <= max_bytes
}

/// `tail` is the longest end of `text` that takes no more than `max_bytes`.
pub open spec fn is_longest_end(text: Seq<char>, max_bytes: nat, tail: Seq<char>) -> bool {
    &&& tail.len() <= text.len()
    &&& tail == text.skip(text.len() - tail.len())
    &&& chars::utf8_len(tail) <= max_bytes
    &&& tail.len() < text.len() ==> chars::utf8_len(text.skip(text.len() - tail.len() - 1))
        > max_bytes
}

/// Tail truncation result.
#[derive(Debug)]
pub struct Tail {
    /// The kept text (whole lines, or the end of one giant line).
    pub text: String,
    /// 1-based line number (in the original text) of the first kept line.
    pub first_line: usize,
    /// How many lines the kept text spans.
    pub kept_lines: usize,
    /// Stopped early because of the byte budget.
    pub byte_limited: bool,
    /// The kept text begins inside a line that alone exceeded the budget.
    pub cut_mid_line: bool,
    /// Whether anything was dropped at all.
    pub truncated: bool,
}

/// What a tail of `text` under the given limits holds.
pub open spec fn is_tail(text: Seq<char>, max_lines: nat, max_bytes: nat, tail: Tail) -> bool {
    let lines = chars::lines(text);
    let low = last_lines_start(lines.len(), max_lines);
    let start = tail.first_line - 1;
    let kept = lines.skip(start).flatten();
    &&& tail.first_line >= 1
    &&& is_tail_start(lines, max_lines, max_bytes, start as nat)
    &&& tail.kept_lines == lines.len() - start
    &&& tail.cut_mid_line == (chars::utf8_len(kept) > max_bytes)
    &&& tail.byte_limited == (start > low || tail.cut_mid_line)
    &&& tail.truncated == (chars::utf8_len(text) > max_bytes || lines.len() > max_lines)
    &&& if tail.cut_mid_line {
        is_longest_end(kept, max_bytes, tail.text@)
    } else {
        tail.text@ == kept
    }
}

/// The line, counted from zero, with which the kept tail begins.
pub open spec fn tail_first(text: Seq<char>, max_lines: nat, max_bytes: nat) -> nat {
    choose|start: nat| is_tail_start(chars::lines(text), max_lines, max_bytes, start)
}

/// The kept tail: whole lines, or the longest end of a line that is too long.
pub open spec fn tail_text(text: Seq<char>, max_lines: nat, max_bytes: nat) -> Seq<char> {
    let kept = chars::lines(text).skip(
        tail_first(text, max_lines, max_bytes) as int,
    ).flatten();
    if chars::utf8_len(kept) > max_bytes {
        choose|tail: Seq<char>| is_longest_end(kept, max_bytes, tail)
    } else {
        kept
    }
}

/// Whether the byte limit decided where the tail begins.
pub open spec fn tail_byte_limited(text: Seq<char>, max_lines: nat, max_bytes: nat) -> bool {
    let lines = chars::lines(text);
    let start = tail_first(text, max_lines, max_bytes);
    start > last_lines_start(lines.len(), max_lines) || chars::utf8_len(
        lines.skip(start as int).flatten(),
    ) > max_bytes
}

/// Whether a text is longer than the limits allow.
pub open spec fn exceeds(text: Seq<char>, max_lines: nat, max_bytes: nat) -> bool {
    chars::utf8_len(text) > max_bytes || chars::lines(text).len() > max_lines
}

/// The later a part starts, the fewer bytes it has.
proof fn lemma_ends_shrink(lines: Seq<Seq<char>>, i: int, j: int)
    requires
        0 <= i <= j <= lines.len(),
    ensures
        chars::utf8_len(lines.skip(j).flatten()) <= chars::utf8_len(lines.skip(i).flatten()),
{
    chars::lemma_flatten_split(lines.skip(i), j - i);
    assert(lines.skip(i).skip(j - i) == lines.skip(j));
    chars::lemma_utf8_len_add(
        lines.skip(i).take(j - i).flatten(),
        lines.skip(j).flatten(),
    );
}

/// A text has one tail only.
pub proof fn lemma_tail(text: Seq<char>, max_lines: nat, max_bytes: nat, tail: Tail)
    requires
        is_tail(text, max_lines, max_bytes, tail),
    ensures
        tail.first_line == tail_first(text, max_lines, max_bytes) + 1,
        tail.text@ == tail_text(text, max_lines, max_bytes),
        tail.byte_limited == tail_byte_limited(text, max_lines, max_bytes),
        tail.truncated == exceeds(text, max_lines, max_bytes),
{
    let lines = chars::lines(text);
    let a = (tail.first_line - 1) as nat;
    let b = tail_first(text, max_lines, max_bytes);
    assert(is_tail_start(lines, max_lines, max_bytes, a));
    assert(is_tail_start(lines, max_lines, max_bytes, b));
    if a < b {
        lemma_ends_shrink(lines, a as int, b - 1);
    } else if b < a {
        lemma_ends_shrink(lines, b as int, a - 1);
    }
    let kept = lines.skip(a as int).flatten();
    if tail.cut_mid_line {
        let other = tail_text(text, max_lines, max_bytes);
        assert(is_longest_end(kept, max_bytes, tail.text@));
        assert(is_longest_end(kept, max_bytes, other));
        let m = tail.text@.len();
        let n = other.len();
        if m < n {
            let longer = kept.skip(kept.len() - n);
            chars::lemma_utf8_len_subrange(longer, n - m - 1, n as int);
            assert(longer.subrange(n - m - 1, n as int) == kept.skip(kept.len() - m - 1));
        } else if n < m {
            let longer = kept.skip(kept.len() - m);
            chars::lemma_utf8_len_subrange(longer, m - n - 1, m as int);
            assert(longer.subrange(m - n - 1, m as int) == kept.skip(kept.len() - n - 1));
        }
    }
}

/// A text within the limits is its own tail.
pub proof fn lemma_whole_tail(text: Seq<char>, max_lines: nat, max_bytes: nat)
    requires
        !exceeds(text, max_lines, max_bytes),
    ensures
        tail_text(text, max_lines, max_bytes) == text,
        tail_first(text, max_lines, max_bytes) == 0,
{
    let lines = chars::lines(text);
    chars::lemma_lines_rejoin(text);
    assert(lines.skip(0) == lines);
    assert(is_tail_start(lines, max_lines, max_bytes, 0));
    let start = tail_first(text, max_lines, max_bytes);
    assert(is_tail_start(lines, max_lines, max_bytes, start));
    if start > 0 {
        lemma_ends_shrink(lines, 0, start - 1);
    }
}

/// Where the longest end of `s`, from `from` on, that takes no more than
/// `max_bytes` begins.
fn longest_end(s: &[char], from: usize, max_bytes: usize) -> (at: usize)
    requires
        from <= s@.len(),
    ensures
        from <= at <= s@.len(),
        chars::utf8_len(s@.skip(at as int)) <= max_bytes,
        at > from ==> chars::utf8_len(s@.skip(at - 1)) > max_bytes,
{
    let mut at: usize = s.len();
    let mut used: usize = 0;
    proof {
        assert(s@.skip(s@.len() as int) == Seq::<char>::empty());
    }
    while at > from
        invariant
            from <= at <= s@.len(),
            used == chars::utf8_len(s@.skip(at as int)),
            used <= max_bytes,
        ensures
            from <= at <= s@.len(),
            chars::utf8_len(s@.skip(at as int)) <= max_bytes,
            at > from ==> chars::utf8_len(s@.skip(at - 1)) > max_bytes,
        decreases at,
    {
        let width: usize = chars::char_len(s[at - 1]);
        proof {
            chars::lemma_utf8_len_add(seq![s@[at - 1]], s@.skip(at as int));
            assert(seq![s@[at - 1]] + s@.skip(at as int) == s@.skip(at - 1));
        }
        if width > max_bytes - used {
            break;
        }
        used = used + width;
        at = at - 1;
    }
    at
}

/// Where the kept tail begins, and how many bytes there are from there on.
fn tail_start(
    s: &[char],
    cuts: &Vec<usize>,
    low: usize,
    max_lines: usize,
    max_bytes: usize,
) -> (r: (usize, usize))
    requires
        chars::is_line_cuts(s@, cuts@),
        chars::utf8_len(s@) <= usize::MAX,
        max_lines >= 1,
        low == last_lines_start(chars::lines(s@).len(), max_lines as nat),
    ensures
        is_tail_start(chars::lines(s@), max_lines as nat, max_bytes as nat, r.0 as nat),
        r.0 < cuts@.len(),
        chars::lines(s@).skip(r.0 as int).flatten() == s@.skip(cuts@[r.0 as int] as int),
        r.1 == chars::utf8_len(s@.skip(cuts@[r.0 as int] as int)),
{
    let total: usize = cuts.len() - 1;
    let n: usize = s.len();
    let ghost ls = chars::lines(s@);
    let mut start: usize = low;
    let mut bytes: usize = chars::span_len(s, cuts[low], n);
    proof {
        chars::lemma_span_of_lines(s@, cuts@, low as int, total as int);
        assert(ls.subrange(low as int, total as int) == ls.skip(low as int));
    }
    while bytes > max_bytes && start + 1 < total
        invariant
            chars::is_line_cuts(s@, cuts@),
            chars::utf8_len(s@) <= usize::MAX,
            n == s@.len(),
            ls == chars::lines(s@),
            total == ls.len(),
            total == cuts@.len() - 1,
            low == last_lines_start(total as nat, max_lines as nat),
            low <= start,
            start < total || (total == 0 && start == 0),
            bytes == chars::utf8_len(s@.subrange(cuts@[start as int] as int, n as int)),
            ls.skip(start as int).flatten() == s@.subrange(cuts@[start as int] as int, n as int),
            start > low ==> chars::utf8_len(ls.skip(start - 1).flatten()) > max_bytes,
        decreases total - start,
    {
        let from: usize = cuts[start];
        let to: usize = cuts[start + 1];
        let part: usize = chars::span_len(s, from, to);
        proof {
            chars::lemma_utf8_len_add(
                s@.subrange(from as int, to as int),
                s@.subrange(to as int, n as int),
            );
            assert(s@.subrange(from as int, to as int) + s@.subrange(to as int, n as int)
                == s@.subrange(from as int, n as int));
            chars::lemma_span_of_lines(s@, cuts@, start + 1, total as int);
            assert(ls.subrange(start + 1, total as int) == ls.skip(start + 1));
        }
        bytes = bytes - part;
        start = start + 1;
    }
    proof {
        let from = cuts@[start as int] as int;
        assert(s@.subrange(from, n as int) == s@.skip(from));
    }
    (start, bytes)
}

/// Keep the last `max_lines` lines within `max_bytes`; a limit of no lines
/// counts as one line.
pub fn take_tail(text: &str, max_lines: usize, max_bytes: usize) -> (r: Tail)
    ensures
        is_tail(text@, if max_lines == 0 { 1 } else { max_lines as nat }, max_bytes as nat, r),
{
    let limit: usize = if max_lines == 0 { 1 } else { max_lines };
    let s: Vec<char> = chars::to_chars(text);
    let cuts: Vec<usize> = chars::line_cuts(s.as_slice());
    let total: usize = cuts.len() - 1;
    let n: usize = s.len();
    let low: usize = if total > limit { total - limit } else { 0 };
    let whole: usize = chars::byte_len(text);
    let (start, bytes): (usize, usize) = tail_start(s.as_slice(), &cuts, low, limit, max_bytes);
    let cut_mid_line: bool = bytes > max_bytes;
    let from: usize = cuts[start];
    let at: usize = if cut_mid_line {
        longest_end(s.as_slice(), from, max_bytes)
    } else {
        from
    };
    proof {
        let kept = s@.skip(from as int);
        assert(s@.skip(at as int) == kept.skip(at - from));
        if at > from {
            assert(s@.skip(at - 1) == kept.skip(at - from - 1));
        }
        assert(s@.subrange(at as int, n as int) == s@.skip(at as int));
    }
    Tail {
        text: chars::from_chars(vstd::slice::slice_subrange(s.as_slice(), at, n)),
        first_line: start + 1,
        kept_lines: total - start,
        byte_limited: start > low || cut_mid_line,
        cut_mid_line,
        truncated: whole > max_bytes || total > limit,
    }
}

// ---------------------------------------------------------------------------
// Laws
// ---------------------------------------------------------------------------

/// A head is a beginning of the text, made of whole lines, within both
/// limits; a text within both limits is kept whole.
pub proof fn head_is_bounded_beginning(
    text: Seq<char>,
    max_lines: nat,
    max_bytes: nat,
    k: nat,
)
    requires
        is_head_count(chars::lines(text), max_lines, max_bytes, k),
    ensures
        ({
            let head = chars::lines(text).take(k as int).flatten();
            &&& head.len() <= text.len()
            &&& head == text.take(head.len() as int)
            &&& chars::utf8_len(head) <= max_bytes
            &&& k <= max_lines
            &&& chars::utf8_len(text) <= max_bytes && chars::lines(text).len() <= max_lines
                ==> head == text
        }),
{
    let lines = chars::lines(text);
    chars::lemma_lines_rejoin(text);
    chars::lemma_flatten_split(lines, k as int);
    let head = lines.take(k as int).flatten();
    assert(head == text.take(head.len() as int));
    if chars::utf8_len(text) <= max_bytes && lines.len() <= max_lines {
        if k < lines.len() {
            chars::lemma_flatten_split(lines, k as int + 1);
            let more = lines.take(k as int + 1).flatten();
            assert(more == text.subrange(0, more.len() as int));
            chars::lemma_utf8_len_subrange(text, 0, more.len() as int);
        }
        assert(lines.take(lines.len() as int) == lines);
    }
}

/// A tail is an end of the text, within the byte limit, and says that it was
/// truncated exactly when it is not the whole text.
pub proof fn tail_is_bounded_end(text: Seq<char>, max_lines: nat, max_bytes: nat, tail: Tail)
    requires
        max_lines >= 1,
        is_tail(text, max_lines, max_bytes, tail),
    ensures
        tail.text@.len() <= text.len(),
        tail.text@ == text.skip(text.len() - tail.text@.len()),
        chars::utf8_len(tail.text@) <= max_bytes,
        tail.kept_lines <= max_lines,
        !tail.truncated <==> tail.text@ == text,
{
    let lines = chars::lines(text);
    let start = tail.first_line - 1;
    let kept = lines.skip(start).flatten();
    chars::lemma_lines_rejoin(text);
    chars::lemma_flatten_split(lines, start);
    assert(kept == text.skip(text.len() - kept.len()));
    assert(tail.text@ == text.skip(text.len() - tail.text@.len()));
    if lines.len() > max_lines {
        chars::lemma_lines_not_empty(text, 0);
        assert(lines.take(start).first() == lines[0]);
        assert(lines.take(start).flatten().len() > 0);
    }
    if chars::utf8_len(text) <= max_bytes && lines.len() <= max_lines {
        if start > 0 {
            chars::lemma_flatten_split(lines, start - 1);
            let more = lines.skip(start - 1).flatten();
            assert(more == text.subrange(text.len() - more.len(), text.len() as int));
            chars::lemma_utf8_len_subrange(text, text.len() - more.len(), text.len() as int);
        }
        assert(lines.skip(0) == lines);
    }
}

/// The head is the most leading lines that fit both limits.
pub proof fn head_is_the_most_that_fits(
    lines: Seq<Seq<char>>,
    max_lines: nat,
    max_bytes: nat,
    k: nat,
)
    requires
        k <= lines.len(),
        k <= max_lines,
        encode_utf8(lines.take(k as int).flatten()).len() <= max_bytes,
        k == lines.len() || k == max_lines || encode_utf8(
            lines.take(k as int + 1).flatten(),
        ).len() > max_bytes,
    ensures
        head_count(lines, max_lines, max_bytes) == k,
        forall|c: nat| is_head_count(lines, max_lines, max_bytes, c) ==> c == k,
{
    assert(is_head_count(lines, max_lines, max_bytes, k));
    lemma_head_count(lines, max_lines, max_bytes, k);
    assert forall|c: nat| is_head_count(lines, max_lines, max_bytes, c) implies c == k by {
        lemma_head_count(lines, max_lines, max_bytes, c);
    }
}

/// There is one line only with which the kept tail can begin.
proof fn lemma_tail_first(text: Seq<char>, max_lines: nat, max_bytes: nat, start: nat)
    requires
        is_tail_start(chars::lines(text), max_lines, max_bytes, start),
    ensures
        tail_first(text, max_lines, max_bytes) == start,
        forall|s: nat| is_tail_start(chars::lines(text), max_lines, max_bytes, s) ==> s == start,
{
    let lines = chars::lines(text);
    assert forall|s: nat| is_tail_start(lines, max_lines, max_bytes, s) implies s == start by {
        if s < start {
            lemma_ends_shrink(lines, s as int, start - 1);
        } else if start < s {
            lemma_ends_shrink(lines, start as int, s - 1);
        }
    }
    assert(is_tail_start(lines, max_lines, max_bytes, tail_first(text, max_lines, max_bytes)));
}

/// The tail is the most lines at the end that fit both limits, and says so:
/// with which line it begins, how many lines it has, which limit stopped it,
/// and whether anything was left out.
pub proof fn tail_is_the_most_that_fits(
    text: Seq<char>,
    max_lines: nat,
    max_bytes: nat,
    start: nat,
)
    requires
        max_lines >= 1,
        start < chars::lines(text).len(),
        chars::lines(text).len() - start <= max_lines,
        encode_utf8(chars::lines(text).skip(start as int).flatten()).len() <= max_bytes,
        start == 0 || chars::lines(text).len() - start == max_lines || encode_utf8(
            chars::lines(text).skip(start - 1).flatten(),
        ).len() > max_bytes,
    ensures
        tail_text(text, max_lines, max_bytes) == chars::lines(text).skip(start as int).flatten(),
        tail_first(text, max_lines, max_bytes) == start,
        tail_byte_limited(text, max_lines, max_bytes) <==> start > 0 && chars::lines(text).len()
            - start < max_lines,
        exceeds(text, max_lines, max_bytes) <==> start > 0,
        forall|tail: Tail| #[trigger]
            is_tail(text, max_lines, max_bytes, tail) ==> tail.text@ == chars::lines(text).skip(
                start as int,
            ).flatten() && tail.first_line == start + 1 && tail.kept_lines == chars::lines(
                text,
            ).len() - start && !tail.cut_mid_line && (tail.byte_limited <==> start > 0
                && chars::lines(text).len() - start < max_lines) && (tail.truncated <==> start
                > 0),
{
    let lines = chars::lines(text);
    assert(is_tail_start(lines, max_lines, max_bytes, start));
    lemma_tail_first(text, max_lines, max_bytes, start);
    chars::lemma_lines_rejoin(text);
    assert(lines.skip(0) == lines);
    if start > 0 && lines.len() - start < max_lines {
        lemma_ends_shrink(lines, 0, start - 1);
    }
}

/// Where the last line alone is too long, the tail is the longest end of that
/// line that fits.
pub proof fn giant_last_line_is_cut(text: Seq<char>, max_lines: nat, max_bytes: nat, keep: nat)
    requires
        max_lines >= 1,
        chars::lines(text).len() > 0,
        encode_utf8(chars::lines(text).last()).len() > max_bytes,
        keep <= chars::lines(text).last().len(),
        encode_utf8(
            chars::lines(text).last().skip(chars::lines(text).last().len() - keep),
        ).len() <= max_bytes,
        keep < chars::lines(text).last().len() ==> encode_utf8(
            chars::lines(text).last().skip(chars::lines(text).last().len() - keep - 1),
        ).len() > max_bytes,
    ensures
        ({
            let last = chars::lines(text).last();
            let end = last.skip(last.len() - keep);
            &&& tail_text(text, max_lines, max_bytes) == end
            &&& tail_first(text, max_lines, max_bytes) == chars::lines(text).len() - 1
            &&& tail_byte_limited(text, max_lines, max_bytes)
            &&& exceeds(text, max_lines, max_bytes)
            &&& forall|tail: Tail| #[trigger]
                is_tail(text, max_lines, max_bytes, tail) ==> tail.text@ == end && tail.first_line
                    == chars::lines(text).len() && tail.kept_lines == 1 && tail.cut_mid_line
                    && tail.byte_limited && tail.truncated
        }),
{
    let lines = chars::lines(text);
    let n = lines.len() as int;
    let last = lines.last();
    let end = last.skip(last.len() - keep);
    let only = lines.skip(n - 1);
    assert(only == Seq::<Seq<char>>::empty().push(last));
    chars::lemma_flatten_push(Seq::<Seq<char>>::empty(), last);
    assert(Seq::<Seq<char>>::empty().flatten() == Seq::<char>::empty());
    assert(only.flatten() == last);
    if n > 1 {
        lemma_ends_shrink(lines, n - 2, n - 1);
    }
    assert(is_tail_start(lines, max_lines, max_bytes, (n - 1) as nat));
    lemma_tail_first(text, max_lines, max_bytes, (n - 1) as nat);
    chars::lemma_lines_rejoin(text);
    assert(lines.skip(0) == lines);
    lemma_ends_shrink(lines, 0, n - 1);
    assert(is_longest_end(last, max_bytes, end));
    let found = tail_text(text, max_lines, max_bytes);
    assert(is_longest_end(last, max_bytes, found));
    lemma_longest_end(last, max_bytes, end, found);
    assert forall|tail: Tail| #[trigger] is_tail(text, max_lines, max_bytes, tail) implies tail.text@
        == end && tail.first_line == n && tail.kept_lines == 1 && tail.cut_mid_line
        && tail.byte_limited && tail.truncated by {
        lemma_longest_end(last, max_bytes, end, tail.text@);
    }
}

/// A text has one longest end that fits.
proof fn lemma_longest_end(text: Seq<char>, max_bytes: nat, a: Seq<char>, b: Seq<char>)
    requires
        is_longest_end(text, max_bytes, a),
        is_longest_end(text, max_bytes, b),
    ensures
        a == b,
{
    let m = a.len();
    let n = b.len();
    if m < n {
        chars::lemma_utf8_len_subrange(b, n - m - 1, n as int);
        assert(b.subrange(n - m - 1, n as int) == text.skip(text.len() - m - 1));
    } else if n < m {
        chars::lemma_utf8_len_subrange(a, m - n - 1, m as int);
        assert(a.subrange(m - n - 1, m as int) == text.skip(text.len() - n - 1));
    }
}

/// A size below the limit of exact doubles is written in KiB to the nearest
/// tenth, and to the even one of two that are equally near.
pub proof fn size_is_rounded_to_tenths(bytes: nat)
    requires
        bytes < 0x20_0000_0000_0000,
    ensures
        kb_text(bytes) == chars::decimal(kb_tenths(bytes) / 10) + "."@ + chars::decimal(
            kb_tenths(bytes) % 10,
        ) + "KB"@,
        -512 <= kb_tenths(bytes) * 1024 - bytes * 10 <= 512,
        kb_tenths(bytes) * 1024 - bytes * 10 == 512 || kb_tenths(bytes) * 1024 - bytes * 10 == -512
            ==> kb_tenths(bytes) % 2 == 0,
{
    assert(double_step(bytes) == 1);
    assert(nearest_double(bytes) == bytes);
}

} // verus!
