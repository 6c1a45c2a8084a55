//! Finding the text that an edit names: an exact match first, then a match
//! after a limited normalization.

use unicode_normalization::UnicodeNormalization;
use vstd::prelude::*;

use crate::chars;
use crate::order;

verus! {

// ---------------------------------------------------------------------------
// Occurrences
// ---------------------------------------------------------------------------

/// Every place at or after `from` where `needle` stands in `s`, overlapping
/// ones too, in order.
pub open spec fn positions(s: Seq<char>, needle: Seq<char>, from: int) -> Seq<int>
    decreases s.len() - from,
{
    if from < 0 || needle.len() == 0 || from + needle.len() > s.len() {
        Seq::empty()
    } else if chars::matches_at(s, needle, from) {
        seq![from] + positions(s, needle, from + 1)
    } else {
        positions(s, needle, from + 1)
    }
}

/// All start positions where `needle` stands in `haystack`.
pub fn find_all_char_positions(haystack: &[char], needle: &[char]) -> (r: Vec<usize>)
    ensures
        order::ints(r@) == positions(haystack@, needle@, 0),
{
    let n: usize = haystack.len();
    let m: usize = needle.len();
    let mut r: Vec<usize> = Vec::new();
    if m == 0 || m > n {
        return r;
    }
    let mut at: usize = 0;
    assert(order::ints(r@) + positions(haystack@, needle@, 0) == positions(haystack@, needle@, 0));
    while at <= n - m
        invariant
            n == haystack@.len(),
            m == needle@.len(),
            0 < m <= n,
            at <= n,
            positions(haystack@, needle@, 0) == order::ints(r@) + positions(haystack@, needle@, at as int),
        decreases n - at,
    {
        if chars::is_match_at(haystack, needle, at) {
            let ghost before = order::ints(r@);
            r.push(at);
            proof {
                assert(order::ints(r@) == before.push(at as int));
                let tail = positions(haystack@, needle@, at + 1);
                assert(before + (seq![at as int] + tail) == order::ints(r@) + tail);
            }
        }
        at = at + 1;
    }
    assert(order::ints(r@) + positions(haystack@, needle@, at as int) == order::ints(r@));
    r
}

/// Each position is a match.
proof fn lemma_positions_match(s: Seq<char>, needle: Seq<char>, from: int, i: int)
    requires
        0 <= i < positions(s, needle, from).len(),
    ensures
        needle.len() > 0,
        chars::matches_at(s, needle, positions(s, needle, from)[i]),
    decreases s.len() - from,
{
    if chars::matches_at(s, needle, from) {
        if i > 0 {
            lemma_positions_match(s, needle, from + 1, i - 1);
        }
    } else {
        lemma_positions_match(s, needle, from + 1, i);
    }
}

// ---------------------------------------------------------------------------
// Normalization
// ---------------------------------------------------------------------------

/// Smart quotes, dashes and exotic spaces in their ASCII form.
pub open spec fn mapped(c: char) -> char {
    if 0x2018 <= c as u32 <= 0x201B {
        '\''
    } else if 0x201C <= c as u32 <= 0x201F {
        '"'
    } else if 0x2010 <= c as u32 <= 0x2015 || c as u32 == 0x2212 || c as u32 == 0xFE58 || c as u32
        == 0xFE63 || c as u32 == 0xFF0D {
        '-'
    } else if c as u32 == 0xA0 || 0x2000 <= c as u32 <= 0x200A || c as u32 == 0x202F || c as u32
        == 0x205F || c as u32 == 0x3000 {
        ' '
    } else {
        c
    }
}

/// Smart quotes → ASCII quotes, Unicode dashes → '-', exotic spaces → ' '.
pub fn map_char(ch: char) -> (r: char)
    ensures
        r == mapped(ch),
{
    let v: u32 = ch as u32;
    if 0x2018 <= v && v <= 0x201B {
        '\''
    } else if 0x201C <= v && v <= 0x201F {
        '"'
    } else if (0x2010 <= v && v <= 0x2015) || v == 0x2212 || v == 0xFE58 || v == 0xFE63 || v
        == 0xFF0D {
        '-'
    } else if v == 0xA0 || (0x2000 <= v && v <= 0x200A) || v == 0x202F || v == 0x205F || v
        == 0x3000 {
        ' '
    } else {
        ch
    }
}

/// Whether the last of the characters, of which there is one at least, is not a
/// space.
pub open spec fn ends_in_text(v: Seq<char>) -> bool {
    v.len() > 0 && v.last() != ' '
}

/// What the Unicode normalization form NFKC makes of one character.
pub uninterp spec fn nfkc(c: char) -> Seq<char>;

/// `UnicodeNormalization::nfkc` on a single character: the characters that
/// compatibility decomposition followed by canonical composition gives. They
/// depend on the character alone, and there is one at least. Of all entries of
/// the decomposition tables only those of the exotic spaces end in a space, so
/// no other character beyond ASCII gives text that does.
#[verifier::external_body]
fn nfkc_chars(c: char) -> (r: Vec<char>)
    ensures
        r@ == nfkc(c),
        c as u32 > 0x7F && mapped(c) == c ==> ends_in_text(r@),
{
    c.nfkc().collect()
}

/// Whether the character counts as blank within a line.
pub open spec fn blank(c: char) -> bool {
    mapped(c) == ' ' || mapped(c) == '\t'
}

/// The first place at or after `i` that is not blank.
pub open spec fn blanks_end(s: Seq<char>, i: int) -> int
    decreases s.len() - i,
{
    if 0 <= i < s.len() && blank(s[i]) {
        blanks_end(s, i + 1)
    } else {
        i
    }
}

/// How many characters the line break at `i` takes: CRLF two, CR or LF one,
/// anything else none.
pub open spec fn break_len(s: Seq<char>, i: int) -> int {
    if i + 1 < s.len() && s[i] == '\r' && s[i + 1] == '\n' {
        2
    } else if s[i] == '\r' || s[i] == '\n' {
        1
    } else {
        0
    }
}

/// What one character becomes: its ASCII form where it has one, else its
/// expansion.
pub open spec fn folded(c: char, expansion: Seq<char>) -> Seq<char> {
    if mapped(c) as u32 <= 0x7F {
        seq![mapped(c)]
    } else {
        expansion
    }
}

/// One character of a normalized text with the part of the original text,
/// `from` up to `to`, that it stands for.
pub struct Piece {
    pub ch: char,
    pub from: usize,
    pub to: usize,
}

/// The piece `c` that stands for `from` up to `to`.
pub open spec fn piece(c: char, from: int, to: int) -> Piece {
    Piece { ch: c, from: from as usize, to: to as usize }
}

/// A piece for each of the characters, all standing for `from` up to `to`.
pub open spec fn spread(v: Seq<char>, from: int, to: int) -> Seq<Piece> {
    Seq::new(v.len(), |k: int| piece(v[k], from, to))
}

/// One space for each blank from `i` up to `j`.
pub open spec fn spaces(i: int, j: int) -> Seq<Piece> {
    Seq::new(
        if i < j {
            (j - i) as nat
        } else {
            0
        },
        |k: int| piece(' ', i + k, i + k + 1),
    )
}

/// The normalized form of `s` from `i` on, where `expansions` holds what the
/// characters beyond ASCII expand to. Blanks in front of a line break belong
/// to the break, blanks at the end of the text vanish, and every other blank
/// becomes one space.
pub open spec fn pieces(s: Seq<char>, expansions: Seq<Seq<char>>, i: int) -> Seq<Piece>
    decreases s.len() - i,
    via pieces_shrink
{
    let j = blanks_end(s, i);
    if i < 0 || j >= s.len() {
        Seq::empty()
    } else if break_len(s, j) > 0 {
        seq![piece('\n', i, j + break_len(s, j))] + pieces(
            s,
            expansions,
            j + break_len(s, j),
        )
    } else {
        spaces(i, j) + spread(folded(s[j], expansions[j]), j, j + 1) + pieces(
            s,
            expansions,
            j + 1,
        )
    }
}

#[via_fn]
proof fn pieces_shrink(s: Seq<char>, expansions: Seq<Seq<char>>, i: int) {
    lemma_blanks_end(s, i);
}

proof fn lemma_blanks_end(s: Seq<char>, i: int)
    ensures
        i <= blanks_end(s, i),
        0 <= i <= s.len() ==> blanks_end(s, i) <= s.len(),
        forall|k: int| i <= k < blanks_end(s, i) ==> blank(#[trigger] s[k]),
        0 <= blanks_end(s, i) < s.len() && 0 <= i ==> !blank(s[blanks_end(s, i)]),
    decreases s.len() - i,
{
    if 0 <= i < s.len() && blank(s[i]) {
        lemma_blanks_end(s, i + 1);
    }
}

/// What the characters of `s` expand to; nothing for those with an ASCII form.
pub open spec fn nfkc_of(s: Seq<char>) -> Seq<Seq<char>> {
    Seq::new(
        s.len(),
        |i: int|
            if mapped(s[i]) as u32 <= 0x7F {
                Seq::empty()
            } else {
                nfkc(mapped(s[i]))
            },
    )
}

/// Whether no character of `s` beyond ASCII expands to nothing or to something
/// that ends in a space.
pub open spec fn expands_to_text(s: Seq<char>) -> bool {
    forall|i: int|
        0 <= i < s.len() && mapped(#[trigger] s[i]) as u32 > 0x7F ==> ends_in_text(
            nfkc(mapped(s[i])),
        )
}

/// The characters of a list of pieces.
pub open spec fn piece_chars(v: Seq<Piece>) -> Seq<char> {
    v.map_values(|p: Piece| p.ch)
}

/// The normalized form of a text.
pub open spec fn normal_form(s: Seq<char>) -> Seq<char> {
    piece_chars(pieces(s, nfkc_of(s), 0))
}

/// The contents of a list of lists.
pub open spec fn views(v: Seq<Vec<char>>) -> Seq<Seq<char>> {
    Seq::new(v.len(), |i: int| v[i]@)
}

/// A run of blanks ends where something else stands, or at the end of the text.
proof fn lemma_blanks_run(s: Seq<char>, i: int, j: int)
    requires
        0 <= i <= j <= s.len(),
        forall|k: int| i <= k < j ==> blank(#[trigger] s[k]),
        j < s.len() ==> !blank(s[j]),
    ensures
        blanks_end(s, i) == j,
    decreases j - i,
{
    if i < j {
        assert(blank(s[i]));
        lemma_blanks_run(s, i + 1, j);
    }
}

/// A normalized text: its characters, and for each of them the part of the
/// original text that it stands for.
pub struct NormalizedText {
    pub chars: Vec<char>,
    /// Per normalized character: where its part of the original begins and
    /// where it ends, counted in characters.
    pub map: Vec<(usize, usize)>,
}

impl NormalizedText {
    /// The piece at `i`.
    pub open spec fn piece_at(&self, i: int) -> Piece {
        Piece { ch: self.chars@[i], from: self.map@[i].0, to: self.map@[i].1 }
    }

    /// The pieces that the text is made of.
    pub open spec fn view(&self) -> Seq<Piece> {
        Seq::new(self.chars@.len(), |i: int| self.piece_at(i))
    }

    /// Every character has its place in the original.
    pub open spec fn wf(&self) -> bool {
        self.chars@.len() == self.map@.len()
    }

    /// One more character at the end.
    fn push(&mut self, ch: char, from: usize, to: usize)
        requires
            old(self).wf(),
        ensures
            final(self).wf(),
            final(self)@ == old(self)@.push(Piece { ch, from, to }),
    {
        self.chars.push(ch);
        self.map.push((from, to));
        assert(self@ == old(self)@.push(Piece { ch, from, to }));
    }

    /// A line break of `take` characters at `index`, with the blanks from
    /// `start` on that come before it.
    fn push_newline(&mut self, start: usize, index: usize, take: usize)
        requires
            old(self).wf(),
            index + take <= usize::MAX,
        ensures
            final(self).wf(),
            final(self)@ == old(self)@.push(piece('\n', start as int, index + take)),
    {
        self.push('\n', start, index + take);
    }

    /// One space for each blank from `i` up to `j`.
    fn push_spaces(&mut self, i: usize, j: usize)
        requires
            old(self).wf(),
            i <= j,
        ensures
            final(self).wf(),
            final(self)@ == old(self)@ + spaces(i as int, j as int),
    {
        let mut k: usize = i;
        assert(self@ == old(self)@ + spaces(i as int, i as int));
        while k < j
            invariant
                i <= k <= j,
                self.wf(),
                self@ == old(self)@ + spaces(i as int, k as int),
            decreases j - k,
        {
            self.push(' ', k, k + 1);
            assert(self@ == old(self)@ + spaces(i as int, k + 1));
            k = k + 1;
        }
    }

    /// The characters that the original character at `index` becomes.
    pub fn push_nfkc(&mut self, expansion: &[char], index: usize)
        requires
            old(self).wf(),
            index < usize::MAX,
        ensures
            final(self).wf(),
            final(self)@ == old(self)@ + spread(expansion@, index as int, index + 1),
    {
        let n: usize = expansion.len();
        let mut k: usize = 0;
        assert(self@ == old(self)@ + spread(expansion@.take(0), index as int, index + 1));
        while k < n
            invariant
                n == expansion@.len(),
                k <= n,
                index < usize::MAX,
                self.wf(),
                self@ == old(self)@ + spread(expansion@.take(k as int), index as int, index + 1),
            decreases n - k,
        {
            self.push(expansion[k], index, index + 1);
            assert(spread(expansion@.take(k + 1), index as int, index + 1) == spread(
                expansion@.take(k as int),
                index as int,
                index + 1,
            ).push(piece(expansion@[k as int], index as int, index + 1)));
            k = k + 1;
        }
        assert(expansion@.take(n as int) == expansion@);
    }

    /// Normalize a text, given what its characters beyond ASCII expand to.
    pub fn with_expansions(original: &[char], expansions: &[Vec<char>]) -> (r: Self)
        requires
            original@.len() == expansions@.len(),
        ensures
            r.wf(),
            r@ == pieces(original@, views(expansions@), 0),
    {
        let n: usize = original.len();
        let ghost s = original@;
        let ghost e = views(expansions@);
        let mut r = NormalizedText { chars: Vec::with_capacity(n), map: Vec::with_capacity(n) };
        // Blanks from `held` on wait for what follows them.
        let mut held: usize = 0;
        let mut i: usize = 0;
        assert(r@ + pieces(s, e, 0) == pieces(s, e, 0));
        while i < n
            invariant
                s == original@,
                e == views(expansions@),
                n == s.len(),
                n == expansions@.len(),
                held <= i <= n,
                forall|k: int| held <= k < i ==> blank(#[trigger] s[k]),
                r.wf(),
                pieces(s, e, 0) == r@ + pieces(s, e, held as int),
            decreases n - i,
        {
            let ghost before = r@;
            let c: char = original[i];
            let m: char = map_char(c);
            if c == '\r' || c == '\n' {
                let take: usize = if c == '\r' && i + 1 < n && original[i + 1] == '\n' {
                    2
                } else {
                    1
                };
                r.push_newline(held, i, take);
                proof {
                    lemma_blanks_run(s, held as int, i as int);
                    let tail = pieces(s, e, i + take);
                    assert(before + (seq![r@.last()] + tail) == r@ + tail);
                }
                i = i + take;
                held = i;
            } else if m == ' ' || m == '\t' {
                i = i + 1;
            } else {
                r.push_spaces(held, i);
                let ghost spaced = r@;
                if m as u32 <= 0x7F {
                    r.push(m, i, i + 1);
                    assert(r@ == spaced + spread(seq![m], i as int, i + 1));
                } else {
                    r.push_nfkc(expansions[i].as_slice(), i);
                }
                proof {
                    lemma_blanks_run(s, held as int, i as int);
                    let gap = spaces(held as int, i as int);
                    let own = spread(folded(c, e[i as int]), i as int, i + 1);
                    let tail = pieces(s, e, i + 1);
                    assert(r@ == before + gap + own);
                    assert(before + (gap + own + tail) == r@ + tail);
                }
                i = i + 1;
                held = i;
            }
        }
        proof {
            lemma_blanks_run(s, held as int, n as int);
            assert(r@ + pieces(s, e, held as int) == r@);
        }
        r
    }

    /// Normalize a text.
    pub fn new(original: &[char]) -> (r: Self)
        ensures
            r.wf(),
            r@ == pieces(original@, nfkc_of(original@), 0),
            expands_to_text(original@),
    {
        let n: usize = original.len();
        let mut expansions: Vec<Vec<char>> = Vec::with_capacity(n);
        let mut i: usize = 0;
        while i < n
            invariant
                n == original@.len(),
                i <= n,
                views(expansions@) == nfkc_of(original@).take(i as int),
                forall|k: int|
                    0 <= k < i && mapped(#[trigger] original@[k]) as u32 > 0x7F ==> ends_in_text(
                        nfkc(mapped(original@[k])),
                    ),
            decreases n - i,
        {
            let m: char = map_char(original[i]);
            let expansion: Vec<char> = if m as u32 <= 0x7F {
                Vec::new()
            } else {
                nfkc_chars(m)
            };
            let ghost before = views(expansions@);
            expansions.push(expansion);
            proof {
                assert(views(expansions@) == before.push(expansion@));
                assert(views(expansions@) == nfkc_of(original@).take(i + 1));
            }
            i = i + 1;
        }
        assert(views(expansions@) == nfkc_of(original@));
        assert(views(expansions@).len() == expansions@.len());
        NormalizedText::with_expansions(original, expansions.as_slice())
    }

    /// The part of the original text that the normalized characters from
    /// `start` up to `end` stand for.
    pub fn original_range(&self, start: usize, end: usize) -> (r: (usize, usize))
        requires
            self.wf(),
            start < end <= self@.len(),
        ensures
            r.0 == self@[start as int].from,
            r.1 == self@[end - 1].to,
    {
        (self.map[start].0, self.map[end - 1].1)
    }
}

/// Character-level normalization without position mapping, for the text that
/// is searched for. What comes out never ends in a space.
pub fn normalize_chars(input: &[char]) -> (r: Vec<char>)
    ensures
        r@ == normal_form(input@),
        r@.len() > 0 ==> r@.last() != ' ',
{
    let normalized = NormalizedText::new(input);
    assert(normalized.chars@ == piece_chars(normalized@));
    proof {
        lemma_normal(input@);
        lemma_normal_ends_in_text(input@);
    }
    normalized.chars
}

/// Pieces stand for parts of the original that lie inside it, are not empty
/// and come in order.
proof fn lemma_pieces_ordered(s: Seq<char>, expansions: Seq<Seq<char>>, i: int)
    requires
        0 <= i <= s.len() <= usize::MAX,
    ensures
        forall|k: int|
            0 <= k < pieces(s, expansions, i).len() ==> i <= (#[trigger] pieces(
                s,
                expansions,
                i,
            )[k]).from < pieces(s, expansions, i)[k].to <= s.len(),
        forall|a: int, b: int|
            0 <= a <= b < pieces(s, expansions, i).len() ==> (#[trigger] pieces(
                s,
                expansions,
                i,
            )[a]).from <= (#[trigger] pieces(s, expansions, i)[b]).from,
    decreases s.len() - i,
{
    let j = blanks_end(s, i);
    lemma_blanks_end(s, i);
    let all = pieces(s, expansions, i);
    if j >= s.len() {
    } else if break_len(s, j) > 0 {
        let next = j + break_len(s, j);
        lemma_pieces_ordered(s, expansions, next);
        let tail = pieces(s, expansions, next);
        assert forall|k: int| 0 <= k < all.len() implies i <= (#[trigger] all[k]).from < all[k].to
            <= s.len() && (k > 0 ==> all[k] == tail[k - 1]) by {
            if k > 0 {
                assert(all[k] == tail[k - 1]);
            }
        }
        assert forall|a: int, b: int| 0 <= a <= b < all.len() implies (#[trigger] all[a]).from <= (
        #[trigger] all[b]).from by {
            if a > 0 {
                assert(tail[a - 1].from <= tail[b - 1].from);
            }
        }
    } else {
        lemma_pieces_ordered(s, expansions, j + 1);
        let gap = spaces(i, j);
        let own = spread(folded(s[j], expansions[j]), j, j + 1);
        let tail = pieces(s, expansions, j + 1);
        let m: int = (gap.len() + own.len()) as int;
        assert forall|k: int| 0 <= k < all.len() implies i <= (#[trigger] all[k]).from < all[k].to
            <= s.len() by {
            if k >= m {
                assert(all[k] == tail[k - m]);
            }
        }
        assert forall|a: int, b: int| 0 <= a <= b < all.len() implies (#[trigger] all[a]).from <= (
        #[trigger] all[b]).from by {
            if a >= m {
                assert(tail[a - m].from <= tail[b - m].from);
            } else if b >= m {
                assert(all[b] == tail[b - m]);
                assert(all[a].from <= j);
            }
        }
    }
}

// ---------------------------------------------------------------------------
// The one place that an edit names
// ---------------------------------------------------------------------------

/// Why a text does not name one place.
#[derive(Debug, Clone, Copy, PartialEq, Eq, Structural)]
pub enum MatchError {
    NotFound,
    Multiple(usize),
}

/// The part of the original text that `needle` names in its normalized form.
pub open spec fn locate_in(normalized: Seq<Piece>, needle: Seq<char>) -> Result<
    (usize, usize),
    MatchError,
> {
    let hits = positions(piece_chars(normalized), needle, 0);
    if hits.len() == 0 {
        Err(MatchError::NotFound)
    } else if hits.len() == 1 {
        Ok((normalized[hits[0]].from, normalized[hits[0] + needle.len() - 1].to))
    } else {
        Err(MatchError::Multiple(hits.len() as usize))
    }
}

/// The part of `content` that `old_text` names: the one place where it stands
/// exactly, and where there is none, the one place where it stands after
/// normalization of both. Places that overlap count as several.
pub open spec fn locate(content: Seq<char>, old_text: Seq<char>) -> Result<
    (usize, usize),
    MatchError,
> {
    let exact = positions(content, old_text, 0);
    if exact.len() == 1 {
        Ok((exact[0] as usize, (exact[0] + old_text.len()) as usize))
    } else if exact.len() > 1 {
        Err(MatchError::Multiple(exact.len() as usize))
    } else {
        locate_in(pieces(content, nfkc_of(content), 0), normal_form(old_text))
    }
}

/// The part of the original text that `needle` names in a normalized text.
pub fn find_normalized(normalized: &NormalizedText, needle: &[char]) -> (r: Result<
    (usize, usize),
    MatchError,
>)
    requires
        normalized.wf(),
    ensures
        r == locate_in(normalized@, needle@),
{
    let hits: Vec<usize> = find_all_char_positions(normalized.chars.as_slice(), needle);
    let ghost all = positions(normalized.chars@, needle@, 0);
    assert(normalized.chars@ == piece_chars(normalized@));
    assert(order::ints(hits@).len() == hits@.len());
    if hits.len() == 0 {
        Err(MatchError::NotFound)
    } else if hits.len() == 1 {
        let start: usize = hits[0];
        proof {
            assert(all[0] == start);
            lemma_positions_match(normalized.chars@, needle@, 0, 0);
        }
        assert(start + needle@.len() <= normalized.chars.len());
        Ok(normalized.original_range(start, start + needle.len()))
    } else {
        Err(MatchError::Multiple(hits.len()))
    }
}

/// Locate `old_text` in `content`: an exact unique match, or a unique match
/// after normalization. Gives where the match begins and ends in `content`,
/// counted in characters. In a file with an ASCII form the match is what was
/// searched for.
pub fn find_unique_range(content: &[char], old_text: &[char]) -> (r: Result<
    (usize, usize),
    MatchError,
>)
    requires
        old_text@.len() > 0,
    ensures
        r == locate(content@, old_text@),
        r is Ok && has_ascii_form(content@) ==> is_what_was_searched(
            content@,
            old_text@,
            r->Ok_0,
        ),
{
    let exact: Vec<usize> = find_all_char_positions(content, old_text);
    let ghost all = positions(content@, old_text@, 0);
    assert(order::ints(exact@).len() == exact@.len());
    if exact.len() == 1 {
        let start: usize = exact[0];
        proof {
            assert(all[0] == start);
            lemma_positions_match(content@, old_text@, 0, 0);
        }
        assert(start + old_text@.len() <= content.len());
        proof {
            if has_ascii_form(content@) {
                located_part_is_what_was_searched(content@, old_text@);
            }
        }
        return Ok((start, start + old_text.len()));
    }
    if exact.len() > 1 {
        return Err(MatchError::Multiple(exact.len()));
    }
    let normalized = NormalizedText::new(content);
    let needle: Vec<char> = normalize_chars(old_text);
    proof {
        assert(content.len() <= usize::MAX);
        if has_ascii_form(content@) {
            located_part_is_what_was_searched(content@, old_text@);
        }
    }
    find_normalized(&normalized, needle.as_slice())
}

/// What an edit names is a non-empty part of the file.
pub proof fn located_part_is_inside(content: Seq<char>, old_text: Seq<char>)
    requires
        content.len() <= usize::MAX,
    ensures
        locate(content, old_text) matches Ok(r) ==> r.0 < r.1 <= content.len(),
{
    let exact = positions(content, old_text, 0);
    if exact.len() == 1 {
        lemma_positions_match(content, old_text, 0, 0);
    } else if exact.len() == 0 {
        let p = pieces(content, nfkc_of(content), 0);
        let needle = normal_form(old_text);
        let hits = positions(piece_chars(p), needle, 0);
        if hits.len() == 1 {
            lemma_positions_match(piece_chars(p), needle, 0, 0);
            lemma_pieces_ordered(content, nfkc_of(content), 0);
            let last = hits[0] + needle.len() - 1;
            assert(p[hits[0]].from <= p[last].from < p[last].to);
        }
    }
}

/// Every place where a text stands is among its positions.
proof fn lemma_positions_complete(s: Seq<char>, needle: Seq<char>, from: int, at: int)
    requires
        0 <= from <= at,
        needle.len() > 0,
        chars::matches_at(s, needle, at),
    ensures
        positions(s, needle, from).contains(at),
    decreases at - from,
{
    let all = positions(s, needle, from);
    if from == at {
        assert(all[0] == at);
    } else {
        lemma_positions_complete(s, needle, from + 1, at);
        let rest = positions(s, needle, from + 1);
        let k = choose|k: int| 0 <= k < rest.len() && rest[k] == at;
        if chars::matches_at(s, needle, from) {
            assert(all[k + 1] == at);
        } else {
            assert(all[k] == at);
        }
    }
}

/// Where a text stands at one place only, that place is the part it names, and
/// the part holds that text. Where it stands at two places, even overlapping
/// ones, it names none of them.
pub proof fn exact_match_is_unique(content: Seq<char>, old_text: Seq<char>, a: int, b: int)
    requires
        content.len() <= usize::MAX,
        old_text.len() > 0,
        chars::matches_at(content, old_text, a),
        chars::matches_at(content, old_text, b),
    ensures
        a != b ==> locate(content, old_text) matches Err(MatchError::Multiple(_)),
        locate(content, old_text) matches Ok(r) ==> r.0 == a && r.1 == a + old_text.len()
            && content.subrange(r.0 as int, r.1 as int) == old_text,
{
    let exact = positions(content, old_text, 0);
    lemma_positions_complete(content, old_text, 0, a);
    lemma_positions_complete(content, old_text, 0, b);
    let i = choose|i: int| 0 <= i < exact.len() && exact[i] == a;
    let j = choose|j: int| 0 <= j < exact.len() && exact[j] == b;
    assert(a != b ==> i != j);
}

// ---------------------------------------------------------------------------
// What normalization does
// ---------------------------------------------------------------------------

/// Whether nothing but blanks comes before the next line break or the end.
pub open spec fn ends_blank(s: Seq<char>) -> bool
    decreases s.len(),
{
    s.len() == 0 || (if blank(s[0]) {
        ends_blank(s.drop_first())
    } else {
        break_len(s, 0) > 0
    })
}

/// The normalized form of a text, one character after the other.
pub open spec fn normal(s: Seq<char>) -> Seq<char>
    decreases s.len(),
{
    if s.len() == 0 {
        s
    } else if blank(s[0]) {
        if ends_blank(s) {
            normal(s.drop_first())
        } else {
            seq![' '] + normal(s.drop_first())
        }
    } else if break_len(s, 0) > 0 {
        seq!['\n'] + normal(s.skip(break_len(s, 0)))
    } else {
        folded(s[0], nfkc(mapped(s[0]))) + normal(s.drop_first())
    }
}

/// As many spaces.
spec fn blanks(n: int) -> Seq<char> {
    Seq::new(
        if n > 0 {
            n as nat
        } else {
            0
        },
        |k: int| ' ',
    )
}

/// A run of blanks that is followed by something else becomes as many spaces,
/// and one at the end of a line or of the text vanishes.
proof fn lemma_normal_run(s: Seq<char>, g: int)
    requires
        0 <= g <= s.len(),
        forall|k: int| 0 <= k < g ==> blank(#[trigger] s[k]),
        g < s.len() ==> !blank(s[g]),
    ensures
        ends_blank(s) == (g == s.len() || break_len(s.skip(g), 0) > 0),
        normal(s) == if ends_blank(s) {
            normal(s.skip(g))
        } else {
            blanks(g) + normal(s.skip(g))
        },
    decreases g,
{
    if g == 0 {
        assert(s.skip(0) == s);
        assert(blanks(0) + normal(s) == normal(s));
    } else {
        assert(blank(s[0]));
        let rest = s.drop_first();
        assert forall|k: int| 0 <= k < g - 1 implies blank(#[trigger] rest[k]) by {
            assert(rest[k] == s[k + 1]);
        }
        lemma_normal_run(rest, g - 1);
        assert(rest.skip(g - 1) == s.skip(g));
        assert(seq![' '] + (blanks(g - 1) + normal(s.skip(g))) == blanks(g) + normal(s.skip(g)));
    }
}

/// The pieces of a text from `i` on hold the normalized form of what stands
/// there.
proof fn lemma_pieces_normal(s: Seq<char>, i: int)
    requires
        0 <= i <= s.len(),
    ensures
        piece_chars(pieces(s, nfkc_of(s), i)) == normal(s.skip(i)),
    decreases s.len() - i,
{
    let e = nfkc_of(s);
    let j = blanks_end(s, i);
    lemma_blanks_end(s, i);
    let rest = s.skip(i);
    let g = j - i;
    assert forall|k: int| 0 <= k < g implies blank(#[trigger] rest[k]) by {
        assert(rest[k] == s[i + k]);
    }
    lemma_normal_run(rest, g);
    assert(rest.skip(g) == s.skip(j));
    if j >= s.len() {
        assert(normal(s.skip(j)) == Seq::<char>::empty());
        assert(piece_chars(pieces(s, e, i)) == Seq::<char>::empty());
    } else {
        assert(break_len(s.skip(j), 0) == break_len(s, j));
        if break_len(s, j) > 0 {
            let next = j + break_len(s, j);
            lemma_pieces_normal(s, next);
            assert(s.skip(j).skip(break_len(s, j)) == s.skip(next));
            let tail = pieces(s, e, next);
            assert(piece_chars(pieces(s, e, i)) == seq!['\n'] + piece_chars(tail));
        } else {
            lemma_pieces_normal(s, j + 1);
            assert(s.skip(j).drop_first() == s.skip(j + 1));
            let tail = pieces(s, e, j + 1);
            let own = folded(s[j], e[j]);
            assert(own == folded(s[j], nfkc(mapped(s[j]))));
            assert(piece_chars(spaces(i, j)) == blanks(g));
            assert(piece_chars(spread(own, j, j + 1)) == own);
            assert(piece_chars(pieces(s, e, i)) == blanks(g) + own + piece_chars(tail));
            assert(blanks(g) + (own + piece_chars(tail)) == blanks(g) + own + piece_chars(tail));
        }
    }
}

/// `normal` gives the normalized form.
proof fn lemma_normal(s: Seq<char>)
    ensures
        normal_form(s) == normal(s),
{
    lemma_pieces_normal(s, 0);
    assert(s.skip(0) == s);
}

/// Text that ends neither a line nor the whole leaves something behind.
proof fn lemma_normal_not_empty(s: Seq<char>)
    requires
        expands_to_text(s),
        !ends_blank(s),
    ensures
        normal(s).len() > 0,
    decreases s.len(),
{
    if !blank(s[0]) && mapped(s[0]) as u32 > 0x7F {
        assert(ends_in_text(nfkc(mapped(s[0]))));
    }
}

/// A normalized text does not end in a space.
proof fn lemma_normal_ends_in_text(s: Seq<char>)
    requires
        expands_to_text(s),
    ensures
        normal(s).len() > 0 ==> normal(s).last() != ' ',
    decreases s.len(),
{
    if s.len() > 0 {
        let k: int = if !blank(s[0]) && break_len(s, 0) > 0 {
            break_len(s, 0)
        } else {
            1
        };
        let rest = s.skip(k);
        assert(s.skip(1) == s.drop_first());
        assert forall|i: int| 0 <= i < rest.len() && mapped(
            #[trigger] rest[i],
        ) as u32 > 0x7F implies ends_in_text(nfkc(mapped(rest[i]))) by {
            assert(rest[i] == s[i + k]);
        }
        lemma_normal_ends_in_text(rest);
        let tail = normal(rest);
        if blank(s[0]) {
            if !ends_blank(s) {
                lemma_normal_not_empty(rest);
            }
        } else if break_len(s, 0) == 0 {
            let own = folded(s[0], nfkc(mapped(s[0])));
            assert(normal(s) == own + tail);
            assert(mapped(s[0]) != ' ');
            assert(ends_in_text(own));
            if tail.len() == 0 {
                assert(normal(s) == own);
            }
        }
    }
}

/// Whether every character of a text is ASCII or has an ASCII form.
pub open spec fn has_ascii_form(s: Seq<char>) -> bool {
    forall|i: int| 0 <= i < s.len() ==> mapped(#[trigger] s[i]) as u32 <= 0x7F
}

/// A text with each line feed replaced by `mark`.
pub open spec fn with_breaks(s: Seq<char>, mark: Seq<char>) -> Seq<char>
    decreases s.len(),
{
    if s.len() == 0 {
        s
    } else {
        (if s[0] == '\n' {
            mark
        } else {
            seq![s[0]]
        }) + with_breaks(s.drop_first(), mark)
    }
}

/// Replacing each line feed by another line break, or putting blanks in front
/// of it, leaves the normalized form as it is.
proof fn lemma_breaks_alike(s: Seq<char>, mark: Seq<char>)
    requires
        forall|i: int| 0 <= i < s.len() ==> #[trigger] s[i] != '\r',
        mark == seq!['\r', '\n'] || mark == seq!['\r'] || mark == seq![' ', '\t', '\n'],
    ensures
        ends_blank(with_breaks(s, mark)) == ends_blank(s),
        normal(with_breaks(s, mark)) == normal(s),
        mark == seq!['\r'] && s.len() > 0 ==> with_breaks(s, mark)[0] != '\n',
    decreases s.len(),
{
    if s.len() > 0 {
        let rest = s.drop_first();
        assert forall|i: int| 0 <= i < rest.len() implies #[trigger] rest[i] != '\r' by {
            assert(rest[i] == s[i + 1]);
        }
        lemma_breaks_alike(rest, mark);
        let tail = with_breaks(rest, mark);
        let all = with_breaks(s, mark);
        assert(s[0] != '\r');
        if s[0] == '\n' {
            assert(s.skip(1) == rest);
            if mark == seq!['\r', '\n'] {
                assert(all == mark + tail);
                assert(all[0] == '\r' && all[1] == '\n');
                assert(all.skip(2) == tail);
            } else if mark == seq!['\r'] {
                assert(all == mark + tail);
                assert(all[0] == '\r');
                assert(all.len() > 1 ==> all[1] == tail[0]);
                assert(break_len(all, 0) == 1);
                assert(all.skip(1) == tail);
            } else {
                let second = all.drop_first();
                let third = second.drop_first();
                assert(all == mark + tail);
                assert(all[0] == ' ' && second[0] == '\t' && third[0] == '\n');
                assert(third.skip(1) == tail);
                assert(break_len(third, 0) == 1);
                assert(ends_blank(third));
                assert(ends_blank(second));
                assert(ends_blank(all));
                assert(normal(third) == seq!['\n'] + normal(tail));
                assert(normal(second) == normal(third));
                assert(normal(all) == normal(second));
            }
            assert(break_len(s, 0) == 1);
            assert(normal(s) == seq!['\n'] + normal(rest));
            assert(normal(all) == seq!['\n'] + normal(tail));
        } else {
            assert(all == seq![s[0]] + tail);
            assert(all[0] == s[0]);
            assert(all.drop_first() == tail);
            assert(break_len(all, 0) == 0);
            assert(break_len(s, 0) == 0);
        }
    }
}

/// However lines are ended, with LF, CRLF, CR, or with blanks in front of the
/// LF, the normalized form is the same.
pub proof fn line_ends_normalize_alike(s: Seq<char>)
    requires
        forall|i: int| 0 <= i < s.len() ==> #[trigger] s[i] != '\r',
    ensures
        normal_form(with_breaks(s, seq!['\r', '\n'])) == normal_form(s),
        normal_form(with_breaks(s, seq!['\r'])) == normal_form(s),
        normal_form(with_breaks(s, seq![' ', '\t', '\n'])) == normal_form(s),
{
    lemma_breaks_alike(s, seq!['\r', '\n']);
    lemma_breaks_alike(s, seq!['\r']);
    lemma_breaks_alike(s, seq![' ', '\t', '\n']);
    lemma_normal(s);
    lemma_normal(with_breaks(s, seq!['\r', '\n']));
    lemma_normal(with_breaks(s, seq!['\r']));
    lemma_normal(with_breaks(s, seq![' ', '\t', '\n']));
}

/// Whether a text is ASCII without tabs and carriage returns, and has no space
/// at its end or in front of a line feed.
pub open spec fn is_tidy(s: Seq<char>) -> bool {
    forall|i: int|
        0 <= i < s.len() ==> {
            &&& #[trigger] s[i] as u32 <= 0x7F
            &&& s[i] != '\t'
            &&& s[i] != '\r'
            &&& s[i] == ' ' ==> i + 1 < s.len() && s[i + 1] != '\n'
        }
}

proof fn lemma_ascii_form_tail(s: Seq<char>, n: int)
    requires
        has_ascii_form(s),
        0 <= n <= s.len(),
    ensures
        has_ascii_form(s.skip(n)),
{
    assert forall|i: int| 0 <= i < s.skip(n).len() implies mapped(
        #[trigger] s.skip(n)[i],
    ) as u32 <= 0x7F by {
        assert(s.skip(n)[i] == s[i + n]);
    }
}

/// The normalized form of text with an ASCII form is tidy, and begins with
/// something other than a line feed where the text does.
proof fn lemma_normal_tidy(s: Seq<char>)
    requires
        has_ascii_form(s),
    ensures
        is_tidy(normal(s)),
        !ends_blank(s) ==> normal(s).len() > 0 && normal(s)[0] != '\n',
    decreases s.len(),
{
    if s.len() > 0 {
        lemma_ascii_form_tail(s, 1);
        assert(s.skip(1) == s.drop_first());
        let all = normal(s);
        if !blank(s[0]) && break_len(s, 0) > 0 {
            lemma_ascii_form_tail(s, break_len(s, 0));
            let tail = normal(s.skip(break_len(s, 0)));
            lemma_normal_tidy(s.skip(break_len(s, 0)));
            lemma_tidy_front('\n', tail);
            assert(all == seq!['\n'] + tail);
        } else {
            let tail = normal(s.drop_first());
            lemma_normal_tidy(s.drop_first());
            if blank(s[0]) {
                if !ends_blank(s) {
                    lemma_tidy_front(' ', tail);
                }
            } else {
                assert(mapped(s[0]) as u32 <= 0x7F);
                lemma_tidy_front(mapped(s[0]), tail);
                assert(all == seq![mapped(s[0])] + tail);
            }
        }
    }
}

proof fn lemma_tidy_front(c: char, tail: Seq<char>)
    requires
        is_tidy(tail),
        c as u32 <= 0x7F,
        c != '\t',
        c != '\r',
        c == ' ' ==> tail.len() > 0 && tail[0] != '\n',
    ensures
        is_tidy(seq![c] + tail),
{
    let all = seq![c] + tail;
    assert forall|i: int| 0 <= i < all.len() implies {
        &&& #[trigger] all[i] as u32 <= 0x7F
        &&& all[i] != '\t'
        &&& all[i] != '\r'
        &&& all[i] == ' ' ==> i + 1 < all.len() && all[i + 1] != '\n'
    } by {
        if i > 0 {
            assert(all[i] == tail[i - 1]);
            assert(all.len() > i + 1 ==> all[i + 1] == tail[i]);
        }
    }
}

/// A tidy text is its own normalized form.
proof fn lemma_tidy_fixed(s: Seq<char>)
    requires
        is_tidy(s),
    ensures
        normal(s) == s,
        s.len() > 0 && s[0] != '\n' ==> !ends_blank(s),
    decreases s.len(),
{
    if s.len() > 0 {
        let rest = s.drop_first();
        assert forall|i: int| 0 <= i < rest.len() implies {
            &&& #[trigger] rest[i] as u32 <= 0x7F
            &&& rest[i] != '\t'
            &&& rest[i] != '\r'
            &&& rest[i] == ' ' ==> i + 1 < rest.len() && rest[i + 1] != '\n'
        } by {
            assert(rest[i] == s[i + 1]);
        }
        lemma_tidy_fixed(rest);
        assert(s[0] as u32 <= 0x7F);
        assert(mapped(s[0]) == s[0]);
        assert(s.skip(1) == rest);
        assert(seq![s[0]] + rest == s);
        if s[0] == ' ' {
            assert(rest[0] == s[1]);
        }
    }
}

/// The normalized form of text with an ASCII form, ASCII text above all, is
/// tidy, and normalizing it again changes nothing.
pub proof fn normalizing_twice_changes_nothing(s: Seq<char>)
    requires
        has_ascii_form(s),
    ensures
        is_tidy(normal_form(s)),
        normal_form(normal_form(s)) == normal_form(s),
{
    lemma_normal(s);
    lemma_normal(normal(s));
    lemma_normal_tidy(s);
    lemma_tidy_fixed(normal(s));
}

/// The pieces of a text begin anew at each of them.
proof fn lemma_pieces_restart(s: Seq<char>, i: int, k: int)
    requires
        0 <= i <= s.len() <= usize::MAX,
        has_ascii_form(s),
        0 <= k < pieces(s, nfkc_of(s), i).len(),
    ensures
        ({
            let p = pieces(s, nfkc_of(s), i);
            p.skip(k) == pieces(s, nfkc_of(s), p[k].from as int)
        }),
    decreases s.len() - i,
{
    let e = nfkc_of(s);
    let p = pieces(s, e, i);
    let j = blanks_end(s, i);
    lemma_blanks_end(s, i);
    if break_len(s, j) > 0 {
        let next = j + break_len(s, j);
        let tail = pieces(s, e, next);
        if k == 0 {
            assert(p.skip(0) == p);
        } else {
            lemma_pieces_restart(s, next, k - 1);
            assert(p[k] == tail[k - 1]);
            assert(p.skip(k) == tail.skip(k - 1));
        }
    } else {
        let g = j - i;
        assert(mapped(s[j]) as u32 <= 0x7F);
        let own = spread(seq![mapped(s[j])], j, j + 1);
        let tail = pieces(s, e, j + 1);
        assert(p == spaces(i, j) + own + tail);
        if k <= g {
            assert(p[k].from == i + k) by {
                if k < g {
                    assert(p[k] == spaces(i, j)[k]);
                } else {
                    assert(p[k] == own[0]);
                }
            }
            lemma_blanks_run(s, i + k, j);
            assert(spaces(i, j).skip(k) == spaces(i + k, j));
            assert(p.skip(k) == spaces(i + k, j) + own + tail);
        } else {
            lemma_pieces_restart(s, j + 1, k - g - 1);
            assert(p[k] == tail[k - g - 1]);
            assert(p.skip(k) == tail.skip(k - g - 1));
        }
    }
}

/// The part of a text that its first pieces stand for normalizes to their
/// characters, unless the last one is a space.
proof fn lemma_pieces_front(s: Seq<char>, i: int, m: int)
    requires
        0 <= i <= s.len() <= usize::MAX,
        has_ascii_form(s),
        0 < m <= pieces(s, nfkc_of(s), i).len(),
        pieces(s, nfkc_of(s), i)[m - 1].ch != ' ',
    ensures
        ({
            let p = pieces(s, nfkc_of(s), i);
            &&& i < p[m - 1].to <= s.len()
            &&& normal(s.subrange(i, p[m - 1].to as int)) == piece_chars(p.take(m))
        }),
    decreases s.len() - i,
{
    let e = nfkc_of(s);
    let p = pieces(s, e, i);
    let j = blanks_end(s, i);
    lemma_blanks_end(s, i);
    lemma_pieces_ordered(s, e, i);
    let t = p[m - 1].to as int;
    let x = s.subrange(i, t);
    let g = j - i;
    if break_len(s, j) > 0 {
        let next = j + break_len(s, j);
        let tail = pieces(s, e, next);
        lemma_pieces_ordered(s, e, next);
        if m > 1 {
            assert(p[m - 1] == tail[m - 2]);
            lemma_pieces_front(s, next, m - 1);
            assert(piece_chars(p.take(m)) == seq!['\n'] + piece_chars(tail.take(m - 1)));
        } else {
            assert(t == next);
            assert(s.subrange(next, t) == Seq::<char>::empty());
            assert(piece_chars(p.take(m)) == seq!['\n']);
        }
        assert(t >= next);
        assert forall|k: int| 0 <= k < g implies blank(#[trigger] x[k]) by {
            assert(x[k] == s[i + k]);
        }
        assert(x[g] == s[j]);
        lemma_normal_run(x, g);
        let y = x.skip(g);
        assert(y[0] == s[j]);
        assert(y.len() > 1 ==> y[1] == s[j + 1]);
        assert(break_len(y, 0) == break_len(s, j));
        assert(y.skip(break_len(s, j)) == s.subrange(next, t));
        assert(normal(y) == seq!['\n'] + normal(s.subrange(next, t)));
    } else {
        assert(mapped(s[j]) as u32 <= 0x7F);
        let own = spread(seq![mapped(s[j])], j, j + 1);
        let tail = pieces(s, e, j + 1);
        assert(p == spaces(i, j) + own + tail);
        if m <= g {
            assert(p[m - 1] == spaces(i, j)[m - 1]);
            assert(false);
        }
        lemma_pieces_ordered(s, e, j + 1);
        let front = blanks(g) + seq![mapped(s[j])];
        if m > g + 1 {
            assert(p[m - 1] == tail[m - g - 2]);
            lemma_pieces_front(s, j + 1, m - g - 1);
            assert(piece_chars(p.take(m)) == front + piece_chars(tail.take(m - g - 1)));
        } else {
            assert(p[m - 1] == own[0]);
            assert(t == j + 1);
            assert(s.subrange(j + 1, t) == Seq::<char>::empty());
            assert(piece_chars(p.take(m)) == front);
        }
        assert forall|k: int| 0 <= k < g implies blank(#[trigger] x[k]) by {
            assert(x[k] == s[i + k]);
        }
        assert(x[g] == s[j]);
        lemma_normal_run(x, g);
        let y = x.skip(g);
        assert(y[0] == s[j]);
        assert(break_len(y, 0) == 0);
        assert(y.drop_first() == s.subrange(j + 1, t));
        let rest = normal(s.subrange(j + 1, t));
        assert(normal(y) == seq![mapped(s[j])] + rest);
        assert(blanks(g) + (seq![mapped(s[j])] + rest) == front + rest);
    }
}

/// Whether a part of the file is what was searched for: it normalizes to the
/// same characters; where the text stands in the file exactly, it is the part
/// itself; where it does not, its normalized form stands at one place of the
/// normalized file only.
pub open spec fn is_what_was_searched(
    content: Seq<char>,
    old_text: Seq<char>,
    r: (usize, usize),
) -> bool {
    let part = content.subrange(r.0 as int, r.1 as int);
    &&& r.0 < r.1 <= content.len()
    &&& normal_form(part) == normal_form(old_text)
    &&& positions(content, old_text, 0).len() > 0 ==> part == old_text
    &&& positions(content, old_text, 0).len() == 0 ==> positions(
        normal_form(content),
        normal_form(old_text),
        0,
    ).len() == 1
}

/// What an edit names in a file with an ASCII form, an ASCII file above all, is
/// what was searched for, since the normalized form of a text does not end in a
/// space. `find_unique_range` promises it of every text.
pub proof fn located_part_is_what_was_searched(content: Seq<char>, old_text: Seq<char>)
    requires
        content.len() <= usize::MAX,
        has_ascii_form(content),
        old_text.len() > 0,
        positions(content, old_text, 0).len() == 0 && normal_form(old_text).len() > 0
            ==> normal_form(old_text).last() != ' ',
    ensures
        locate(content, old_text) matches Ok(r) ==> is_what_was_searched(content, old_text, r),
{
    located_part_is_inside(content, old_text);
    let exact = positions(content, old_text, 0);
    if exact.len() == 1 {
        lemma_positions_match(content, old_text, 0, 0);
    } else if exact.len() == 0 && locate(content, old_text) is Ok {
        let e = nfkc_of(content);
        let p = pieces(content, e, 0);
        let needle = normal_form(old_text);
        let hits = positions(piece_chars(p), needle, 0);
        lemma_positions_match(piece_chars(p), needle, 0, 0);
        let at = hits[0];
        let m = needle.len() as int;
        let from = p[at].from as int;
        let q = pieces(content, e, from);
        lemma_pieces_ordered(content, e, 0);
        lemma_pieces_restart(content, 0, at);
        assert(q == p.skip(at));
        assert(q[m - 1] == p[at + m - 1]);
        assert(piece_chars(p).subrange(at, at + m) == needle);
        assert(piece_chars(p).subrange(at, at + m)[m - 1] == p[at + m - 1].ch);
        lemma_pieces_front(content, from, m);
        assert(piece_chars(q.take(m)) == piece_chars(p).subrange(at, at + m));
        lemma_normal(content.subrange(from, p[at + m - 1].to as int));
    }
}

// ---------------------------------------------------------------------------
// When a text is found
// ---------------------------------------------------------------------------

/// The places of a text in another one: each of them once, from the front to
/// the back, and no other.
pub proof fn places_are_all_places(s: Seq<char>, needle: Seq<char>)
    requires
        needle.len() > 0,
    ensures
        forall|at: int| #[trigger]
            positions(s, needle, 0).contains(at) <==> 0 <= at && at + needle.len() <= s.len()
                && s.subrange(at, at + needle.len()) == needle,
        forall|i: int, j: int|
            0 <= i < j < positions(s, needle, 0).len() ==> positions(s, needle, 0)[i] < positions(
                s,
                needle,
                0,
            )[j],
{
    let all = positions(s, needle, 0);
    assert forall|at: int| #[trigger] all.contains(at) <==> 0 <= at && at + needle.len() <= s.len()
        && s.subrange(at, at + needle.len()) == needle by {
        if all.contains(at) {
            let i = choose|i: int| 0 <= i < all.len() && all[i] == at;
            lemma_positions_match(s, needle, 0, i);
        }
        if 0 <= at && at + needle.len() <= s.len() && s.subrange(at, at + needle.len())
            == needle {
            lemma_positions_complete(s, needle, 0, at);
        }
    }
    lemma_positions_rise(s, needle, 0);
}

proof fn lemma_positions_rise(s: Seq<char>, needle: Seq<char>, from: int)
    ensures
        forall|i: int| #![trigger positions(s, needle, from)[i]]
            0 <= i < positions(s, needle, from).len() ==> from <= positions(s, needle, from)[i],
        forall|i: int, j: int|
            0 <= i < j < positions(s, needle, from).len() ==> positions(s, needle, from)[i]
                < positions(s, needle, from)[j],
    decreases s.len() - from,
{
    if !(from < 0 || needle.len() == 0 || from + needle.len() > s.len()) {
        lemma_positions_rise(s, needle, from + 1);
        let all = positions(s, needle, from);
        let rest = positions(s, needle, from + 1);
        if chars::matches_at(s, needle, from) {
            assert(all == seq![from] + rest);
            assert forall|i: int, j: int| 0 <= i < j < all.len() implies all[i] < all[j] by {
                assert(all[j] == rest[j - 1]);
                if i > 0 {
                    assert(all[i] == rest[i - 1]);
                }
            }
        }
    }
}

/// A text that stands in the file at exactly one place is found there, however
/// long the file is and wherever the place.
pub proof fn single_match_is_found(content: Seq<char>, old_text: Seq<char>, a: int)
    requires
        content.len() <= usize::MAX,
        old_text.len() > 0,
        0 <= a,
        a + old_text.len() <= content.len(),
        content.subrange(a, a + old_text.len()) == old_text,
        forall|b: int, e: int|
            0 <= b && e == b + old_text.len() && e <= content.len() && #[trigger] content.subrange(
                b,
                e,
            ) == old_text ==> b == a,
    ensures
        locate(content, old_text) == Ok::<(usize, usize), MatchError>(
            (a as usize, (a + old_text.len()) as usize),
        ),
{
    places_are_all_places(content, old_text);
    let exact = positions(content, old_text, 0);
    assert(exact.contains(a));
    let i = choose|i: int| 0 <= i < exact.len() && exact[i] == a;
    assert forall|j: int| 0 <= j < exact.len() implies exact[j] == a by {
        assert(exact.contains(exact[j]));
    }
    if exact.len() > 1 {
        assert(exact[0] < exact[1]);
    }
    assert(exact.len() == 1 && exact[0] == a);
}

/// A text that stands in the file more than once is refused, with the number
/// of its places.
pub proof fn repeated_match_is_counted(content: Seq<char>, old_text: Seq<char>, places: Seq<int>)
    requires
        content.len() <= usize::MAX,
        old_text.len() > 0,
        places.len() >= 2,
        places.no_duplicates(),
        forall|at: int| #[trigger]
            places.contains(at) <==> 0 <= at && at + old_text.len() <= content.len()
                && content.subrange(at, at + old_text.len()) == old_text,
    ensures
        locate(content, old_text) == Err::<(usize, usize), MatchError>(
            MatchError::Multiple(places.len() as usize),
        ),
{
    places_are_all_places(content, old_text);
    let exact = positions(content, old_text, 0);
    assert(exact.no_duplicates());
    assert forall|at: int| exact.to_set().contains(at) <==> places.to_set().contains(at) by {
        assert(exact.contains(at) <==> places.contains(at));
    }
    assert(exact.to_set() == places.to_set());
    exact.unique_seq_to_set();
    places.unique_seq_to_set();
}

/// Whether `needle` stands nowhere in `s`.
pub open spec fn stands_nowhere(s: Seq<char>, needle: Seq<char>) -> bool {
    forall|b: int, e: int|
        0 <= b && e == b + needle.len() && e <= s.len() ==> #[trigger] s.subrange(b, e) != needle
}

proof fn lemma_stands_nowhere(s: Seq<char>, needle: Seq<char>)
    requires
        stands_nowhere(s, needle),
    ensures
        positions(s, needle, 0).len() == 0,
{
    let all = positions(s, needle, 0);
    if all.len() > 0 {
        lemma_positions_match(s, needle, 0, 0);
        assert(s.subrange(all[0], all[0] + needle.len()) == needle);
    }
}

/// A text that stands nowhere in the file, but whose normalized form stands at
/// exactly one place of the normalized file, is found.
pub proof fn single_normalized_match_is_found(content: Seq<char>, old_text: Seq<char>, a: int)
    requires
        content.len() <= usize::MAX,
        stands_nowhere(content, old_text),
        normal_form(old_text).len() > 0,
        0 <= a,
        a + normal_form(old_text).len() <= normal_form(content).len(),
        normal_form(content).subrange(a, a + normal_form(old_text).len()) == normal_form(old_text),
        forall|b: int, e: int|
            0 <= b && e == b + normal_form(old_text).len() && e <= normal_form(content).len()
                && #[trigger] normal_form(content).subrange(b, e) == normal_form(old_text) ==> b
                == a,
    ensures
        locate(content, old_text) is Ok,
{
    let s = normal_form(content);
    let needle = normal_form(old_text);
    lemma_stands_nowhere(content, old_text);
    places_are_all_places(s, needle);
    let hits = positions(s, needle, 0);
    assert(hits.contains(a));
    assert forall|j: int| 0 <= j < hits.len() implies hits[j] == a by {
        assert(hits.contains(hits[j]));
    }
    if hits.len() > 1 {
        assert(hits[0] < hits[1]);
    }
    assert(hits.len() == 1);
}

/// A text that stands nowhere in the file, and whose normalized form, if any of
/// it is left, stands nowhere in the normalized file, is not found.
pub proof fn absent_text_is_not_found(content: Seq<char>, old_text: Seq<char>)
    requires
        stands_nowhere(content, old_text),
        normal_form(old_text).len() == 0 || stands_nowhere(
            normal_form(content),
            normal_form(old_text),
        ),
    ensures
        locate(content, old_text) == Err::<(usize, usize), MatchError>(MatchError::NotFound),
{
    lemma_stands_nowhere(content, old_text);
    if normal_form(old_text).len() > 0 {
        lemma_stands_nowhere(normal_form(content), normal_form(old_text));
    }
}

/// A text that stands nowhere in the file, and whose normalized form stands in
/// the normalized file more than once, is refused, with the number of its
/// places there.
pub proof fn repeated_normalized_match_is_counted(
    content: Seq<char>,
    old_text: Seq<char>,
    places: Seq<int>,
)
    requires
        stands_nowhere(content, old_text),
        normal_form(old_text).len() > 0,
        places.len() >= 2,
        places.no_duplicates(),
        forall|at: int| #[trigger]
            places.contains(at) <==> 0 <= at && at + normal_form(old_text).len() <= normal_form(
                content,
            ).len() && normal_form(content).subrange(at, at + normal_form(old_text).len())
                == normal_form(old_text),
    ensures
        locate(content, old_text) == Err::<(usize, usize), MatchError>(
            MatchError::Multiple(places.len() as usize),
        ),
{
    lemma_stands_nowhere(content, old_text);
    places_are_all_places(normal_form(content), normal_form(old_text));
    let hits = positions(normal_form(content), normal_form(old_text), 0);
    assert(hits.no_duplicates());
    assert forall|at: int| hits.to_set().contains(at) <==> places.to_set().contains(at) by {
        assert(hits.contains(at) <==> places.contains(at));
    }
    assert(hits.to_set() == places.to_set());
    hits.unique_seq_to_set();
    places.unique_seq_to_set();
}

// ---------------------------------------------------------------------------
// What each part of a text normalizes to
// ---------------------------------------------------------------------------

/// A character keeps itself, or is one of the typographic characters that
/// stand for a quote, a dash or a space; ASCII characters keep themselves.
pub proof fn ascii_is_kept(c: char)
    ensures
        c as u32 <= 0x7F ==> mapped(c) == c,
        mapped(mapped(c)) == mapped(c),
        mapped(c) != c ==> mapped(c) == '\'' || mapped(c) == '"' || mapped(c) == '-' || mapped(c)
            == ' ',
        c == '\u{2018}' || c == '\u{2019}' || c == '\u{201A}' || c == '\u{201B}' ==> mapped(c)
            == '\'',
        c == '\u{201C}' || c == '\u{201D}' || c == '\u{201E}' || c == '\u{201F}' ==> mapped(c)
            == '"',
        '\u{2010}' as u32 <= c as u32 <= '\u{2015}' as u32 || c == '\u{2212}' || c == '\u{FE58}'
            || c == '\u{FE63}' || c == '\u{FF0D}' ==> mapped(c) == '-',
        c == '\u{A0}' || '\u{2000}' as u32 <= c as u32 <= '\u{200A}' as u32 || c == '\u{202F}' || c
            == '\u{205F}' || c == '\u{3000}' ==> mapped(c) == ' ',
        mapped(c) == '\'' ==> c == '\'' || '\u{2018}' as u32 <= c as u32 <= '\u{201B}' as u32,
        mapped(c) == '"' ==> c == '"' || '\u{201C}' as u32 <= c as u32 <= '\u{201F}' as u32,
        mapped(c) == '-' ==> c == '-' || '\u{2010}' as u32 <= c as u32 <= '\u{2015}' as u32 || c
            == '\u{2212}' || c == '\u{FE58}' || c == '\u{FE63}' || c == '\u{FF0D}',
        mapped(c) == ' ' ==> c == ' ' || c == '\u{A0}' || '\u{2000}' as u32 <= c as u32
            <= '\u{200A}' as u32 || c == '\u{202F}' || c == '\u{205F}' || c == '\u{3000}',
{
}

/// The parts of a text normalize one by one: what comes in front of a place
/// has no part in what comes behind it, unless blanks or a carriage return
/// stand right in front of the place.
pub proof fn parts_normalize_one_by_one(a: Seq<char>, b: Seq<char>)
    requires
        a.len() > 0 ==> mapped(a.last()) != ' ' && mapped(a.last()) != '\t' && a.last() != '\r',
    ensures
        normal_form(a + b) == normal_form(a) + normal_form(b),
{
    lemma_normal(a);
    lemma_normal(b);
    lemma_normal(a + b);
    lemma_normal_add(a, b);
}

proof fn lemma_normal_add(a: Seq<char>, b: Seq<char>)
    requires
        a.len() > 0 ==> !blank(a.last()) && a.last() != '\r',
    ensures
        normal(a + b) == normal(a) + normal(b),
        a.len() > 0 ==> ends_blank(a + b) == ends_blank(a),
    decreases a.len(),
{
    let all = a + b;
    if a.len() == 0 {
        assert(all == b);
        assert(normal(a) + normal(b) == normal(b));
    } else {
        assert(all[0] == a[0]);
        let n: int = if !blank(a[0]) && break_len(a, 0) > 0 {
            break_len(a, 0)
        } else {
            1
        };
        assert(a[0] == '\r' ==> a.len() > 1);
        assert(a.len() > 1 ==> all[1] == a[1]);
        assert(break_len(all, 0) == break_len(a, 0));
        let rest = a.skip(n);
        assert(rest.len() > 0 ==> rest.last() == a.last());
        lemma_normal_add(rest, b);
        assert(all.skip(n) == rest + b);
        assert(a.skip(1) == a.drop_first());
        assert(all.skip(1) == all.drop_first());
        let own = if blank(a[0]) {
            if ends_blank(a) {
                Seq::<char>::empty()
            } else {
                seq![' ']
            }
        } else if break_len(a, 0) > 0 {
            seq!['\n']
        } else {
            folded(a[0], nfkc(mapped(a[0])))
        };
        if blank(a[0]) {
            assert(rest.len() > 0);
        }
        assert(normal(a) == own + normal(rest));
        assert(normal(all) == own + normal(rest + b));
        assert(own + (normal(rest) + normal(b)) == own + normal(rest) + normal(b));
    }
}

/// Blanks at the end of a line or of the text vanish, each other blank becomes
/// one space, a line break of any kind becomes a line feed, and any other
/// character becomes its ASCII form or, where it has none, its expansion.
pub proof fn blanks_and_characters_normalize(run: Seq<char>, c: char)
    requires
        forall|i: int|
            0 <= i < run.len() ==> mapped(#[trigger] run[i]) == ' ' || run[i] == '\t',
        mapped(c) != ' ',
        c != '\t',
    ensures
        normal_form(run) == Seq::<char>::empty(),
        normal_form(run + seq!['\r', '\n']) == seq!['\n'],
        c == '\n' || c == '\r' ==> normal_form(run.push(c)) == seq!['\n'],
        c != '\n' && c != '\r' ==> normal_form(run.push(c)) == Seq::new(run.len(), |i: int| ' ')
            + if mapped(c) as u32 <= 0x7F {
            seq![mapped(c)]
        } else {
            nfkc(mapped(c))
        },
{
    let g = run.len() as int;
    let one = run.push(c);
    let two = run + seq!['\r', '\n'];
    lemma_normal(run);
    lemma_normal(one);
    lemma_normal(two);
    assert forall|k: int| 0 <= k < g implies blank(#[trigger] one[k]) by {
        assert(one[k] == run[k]);
    }
    assert forall|k: int| 0 <= k < g implies blank(#[trigger] two[k]) by {
        assert(two[k] == run[k]);
    }
    assert(mapped('\t') == '\t');
    assert(!blank(c));
    lemma_normal_run(run, g);
    assert(run.skip(g) == Seq::<char>::empty());
    lemma_normal_run(one, g);
    assert(one.skip(g) == seq![c]);
    let tail = seq![c];
    assert(tail.drop_first() == Seq::<char>::empty());
    assert(normal(Seq::<char>::empty()) == Seq::<char>::empty());
    assert(tail.skip(1) == Seq::<char>::empty());
    let own = folded(c, nfkc(mapped(c)));
    assert(own + Seq::<char>::empty() == own);
    assert(seq!['\n'] + Seq::<char>::empty() == seq!['\n']);
    assert(blanks(g) == Seq::new(run.len(), |i: int| ' '));
    lemma_normal_run(two, g);
    let crlf = seq!['\r', '\n'];
    assert(two.skip(g) == crlf);
    assert(crlf[0] == '\r' && crlf[1] == '\n');
    assert(break_len(crlf, 0) == 2);
    assert(crlf.skip(2) == Seq::<char>::empty());
}

/// Whether a part of a text begins and ends cleanly: it does not split a CRLF,
/// does not end in a blank, begins with a blank only where the searched text
/// does, and takes the blanks in front of a line break with it whole.
pub open spec fn has_clean_ends(
    content: Seq<char>,
    needle: Seq<char>,
    from: int,
    to: int,
) -> bool {
    &&& 0 <= from < to <= content.len()
    &&& needle.last() != ' ' ==> mapped(content[to - 1]) != ' ' && content[to - 1] != '\t'
    &&& needle[0] != ' ' && needle[0] != '\n' ==> mapped(content[from]) != ' ' && content[from]
        != '\t'
    &&& needle[0] == '\n' && from > 0 ==> mapped(content[from - 1]) != ' ' && content[from - 1]
        != '\t'
    &&& content[to - 1] == '\r' && to < content.len() ==> content[to] != '\n'
    &&& content[from] == '\n' && from > 0 ==> content[from - 1] != '\r'
}

proof fn lemma_piece_ends(s: Seq<char>, i: int, k: int)
    requires
        has_ascii_form(s),
        s.len() <= usize::MAX,
        0 <= i <= s.len(),
        i > 0 && i < s.len() && s[i] == '\n' ==> s[i - 1] != '\r',
        i > 0 ==> !blank(s[i - 1]),
        0 <= k < pieces(s, nfkc_of(s), i).len(),
    ensures
        ({
            let p = pieces(s, nfkc_of(s), i)[k];
            &&& p.from < p.to <= s.len()
            &&& p.ch != ' ' ==> !blank(s[p.to - 1])
            &&& p.ch != ' ' && p.ch != '\n' ==> !blank(s[p.from as int])
            &&& p.ch == '\n' && p.from > 0 ==> !blank(s[p.from - 1])
            &&& s[p.to - 1] == '\r' && p.to < s.len() ==> s[p.to as int] != '\n'
            &&& s[p.from as int] == '\n' && p.from > 0 ==> s[p.from - 1] != '\r'
        }),
    decreases s.len() - i,
{
    let e = nfkc_of(s);
    let all = pieces(s, e, i);
    let j = blanks_end(s, i);
    lemma_blanks_end(s, i);
    assert(!blank('\r') && !blank('\n'));
    if break_len(s, j) > 0 {
        let next = j + break_len(s, j);
        if k > 0 {
            lemma_piece_ends(s, next, k - 1);
            assert(all[k] == pieces(s, e, next)[k - 1]);
        } else {
            assert(all[0] == piece('\n', i, next));
            if i < j {
                assert(blank(s[i]));
            }
        }
    } else {
        assert(mapped(s[j]) as u32 <= 0x7F);
        let own = spread(folded(s[j], e[j]), j, j + 1);
        assert(own.len() == 1);
        assert(mapped(s[j]) == '\n' ==> s[j] == '\n');
        if k < j - i {
            assert(all[k] == spaces(i, j)[k]);
            assert(all[k] == piece(' ', i + k, i + k + 1));
            assert(blank(s[i + k]));
        } else if k == j - i {
            assert(all[k] == own[0]);
            assert(own[0] == piece(mapped(s[j]), j, j + 1));
            if i < j {
                assert(blank(s[j - 1]));
            }
        } else {
            lemma_piece_ends(s, j + 1, k - (j - i) - 1);
            assert(all[k] == pieces(s, e, j + 1)[k - (j - i) - 1]);
        }
    }
}

/// A part that is found in normalized form begins and ends cleanly: no blanks
/// next to it are taken along, and no line break is split.
pub proof fn normalized_match_has_clean_ends(content: Seq<char>, old_text: Seq<char>)
    requires
        content.len() <= usize::MAX,
        has_ascii_form(content),
        stands_nowhere(content, old_text),
    ensures
        locate(content, old_text) matches Ok(r) ==> has_clean_ends(
            content,
            normal_form(old_text),
            r.0 as int,
            r.1 as int,
        ),
{
    lemma_stands_nowhere(content, old_text);
    located_part_is_inside(content, old_text);
    let p = pieces(content, nfkc_of(content), 0);
    let needle = normal_form(old_text);
    let hits = positions(piece_chars(p), needle, 0);
    if locate(content, old_text) is Ok {
        lemma_positions_match(piece_chars(p), needle, 0, 0);
        let at = hits[0];
        let m = needle.len() as int;
        assert(piece_chars(p).subrange(at, at + m)[0] == p[at].ch);
        assert(piece_chars(p).subrange(at, at + m)[m - 1] == p[at + m - 1].ch);
        lemma_piece_ends(content, 0, at);
        lemma_piece_ends(content, 0, at + m - 1);
    }
}

// ---------------------------------------------------------------------------
// Which part of the file a normalized match stands for
// ---------------------------------------------------------------------------

/// How many normalized characters the text from `i` on has.
spec fn left(s: Seq<char>, i: int) -> int {
    pieces(s, nfkc_of(s), i).len() as int
}

/// One character more takes away what it stands for: nothing where it belongs
/// to the line break behind it or vanishes, else one normalized character or
/// more.
proof fn lemma_left_step(s: Seq<char>, i: int)
    requires
        expands_to_text(s),
        0 <= i < s.len(),
    ensures
        left(s, i + 1) <= left(s, i),
{
    let e = nfkc_of(s);
    lemma_blanks_end(s, i);
    lemma_blanks_end(s, i + 1);
    if blank(s[i]) {
        let j = blanks_end(s, i);
        assert(blanks_end(s, i + 1) == j);
        if j < s.len() && break_len(s, j) == 0 {
            let own = spread(folded(s[j], e[j]), j, j + 1);
            let tail = pieces(s, e, j + 1);
            assert(pieces(s, e, i) == spaces(i, j) + own + tail);
            assert(pieces(s, e, i + 1) == spaces(i + 1, j) + own + tail);
        }
    } else {
        assert(blanks_end(s, i) == i);
        if break_len(s, i) == 2 {
            assert(!blank('\n'));
            assert(blanks_end(s, i + 1) == i + 1);
            assert(break_len(s, i + 1) == 1);
        }
    }
}

proof fn lemma_left_falls(s: Seq<char>, a: int, b: int)
    requires
        expands_to_text(s),
        0 <= a <= b <= s.len(),
    ensures
        left(s, b) <= left(s, a),
    decreases b - a,
{
    if a < b {
        lemma_left_step(s, a);
        lemma_left_falls(s, a + 1, b);
    }
}

/// How much is left at each of the blanks in front of what follows them.
proof fn lemma_left_run(s: Seq<char>, i: int, q: int)
    requires
        expands_to_text(s),
        0 <= i <= q <= blanks_end(s, i),
        blanks_end(s, i) < s.len(),
    ensures
        ({
            let j = blanks_end(s, i);
            if break_len(s, j) > 0 {
                left(s, q) == 1 + left(s, j + break_len(s, j))
            } else {
                left(s, q) == (j - q) + folded(s[j], nfkc_of(s)[j]).len() + left(s, j + 1)
            }
        }),
{
    let e = nfkc_of(s);
    let j = blanks_end(s, i);
    lemma_blanks_end(s, i);
    lemma_blanks_run(s, q, j);
    if break_len(s, j) == 0 {
        let own = spread(folded(s[j], e[j]), j, j + 1);
        assert(pieces(s, e, q) == spaces(q, j) + own + pieces(s, e, j + 1));
    }
}

/// Where the part that the `k`-th piece stands for begins and ends, by how much
/// is left there.
proof fn lemma_piece_levels(s: Seq<char>, i: int, k: int)
    requires
        expands_to_text(s),
        0 <= i <= s.len() <= usize::MAX,
        0 <= k < left(s, i),
    ensures
        ({
            let p = pieces(s, nfkc_of(s), i)[k];
            let from = p.from as int;
            let to = p.to as int;
            &&& i <= from < to <= s.len()
            &&& left(s, from) >= left(s, i) - k
            &&& forall|j: int| i <= j < from ==> #[trigger] left(s, j) > left(s, from)
            &&& forall|j: int|
                i <= j <= s.len() && #[trigger] left(s, j) < left(s, from) ==> left(s, j) < left(
                    s,
                    i,
                ) - k
            &&& left(s, to) <= left(s, i) - k - 1
            &&& forall|j: int| i <= j < to ==> #[trigger] left(s, j) > left(s, i) - k - 1
        }),
    decreases s.len() - i,
{
    let e = nfkc_of(s);
    let all = pieces(s, e, i);
    let j = blanks_end(s, i);
    let g = j - i;
    lemma_blanks_end(s, i);
    lemma_pieces_ordered(s, e, i);
    let p = all[k];
    assert(i <= p.from < p.to <= s.len());
    assert(j < s.len());
    lemma_left_run(s, i, i);
    if break_len(s, j) > 0 {
        let next = j + break_len(s, j);
        let tail = pieces(s, e, next);
        assert forall|q: int| i <= q < next implies #[trigger] left(s, q) == left(s, i) by {
            if q <= j {
                lemma_left_run(s, i, q);
            } else {
                assert(!blank('\n'));
                assert(blanks_end(s, q) == q);
                assert(break_len(s, q) == 1);
            }
        }
        if k == 0 {
            assert(p == piece('\n', i, next));
        } else {
            assert(p == tail[k - 1]);
            lemma_piece_levels(s, next, k - 1);
            lemma_left_falls(s, next, p.from as int);
        }
    } else {
        let w = folded(s[j], e[j]).len() as int;
        let own = spread(folded(s[j], e[j]), j, j + 1);
        let tail = pieces(s, e, j + 1);
        assert(all == spaces(i, j) + own + tail);
        assert(w >= 1) by {
            if mapped(s[j]) as u32 > 0x7F {
                assert(e[j] == nfkc(mapped(s[j])));
                assert(ends_in_text(nfkc(mapped(s[j]))));
            }
        }
        assert forall|q: int| i <= q <= j implies #[trigger] left(s, q) == (j - q) + w + left(
            s,
            j + 1,
        ) by {
            lemma_left_run(s, i, q);
        }
        assert forall|q: int| j + 1 <= q <= s.len() implies #[trigger] left(s, q) <= left(
            s,
            j + 1,
        ) by {
            lemma_left_falls(s, j + 1, q);
        }
        if k < g {
            assert(p == spaces(i, j)[k]);
            assert(p == piece(' ', i + k, i + k + 1));
            assert(left(s, i + k) == left(s, i) - k);
            if k + 1 < g {
                assert(left(s, i + k + 1) == left(s, i) - k - 1);
            } else {
                assert(i + k + 1 == j);
                assert(left(s, j) == w + left(s, j + 1));
            }
        } else if k < g + w {
            assert(p == own[k - g]);
            assert(p.from == j && p.to == j + 1);
            assert(left(s, j) == w + left(s, j + 1));
        } else {
            assert(p == tail[k - g - w]);
            lemma_piece_levels(s, j + 1, k - g - w);
            lemma_left_falls(s, j + 1, p.from as int);
        }
    }
}

/// The part of the file that a normalized match stands for, in any text: it
/// ends at the first place behind which no more is left than behind the match,
/// and begins where its first character begins, which is the last beginning
/// with at least as much left as from the match on. What is left from a place on
/// is the normalized form of the text from there on.
pub proof fn normalized_match_covers_its_part(content: Seq<char>, old_text: Seq<char>, a: int)
    requires
        content.len() <= usize::MAX,
        expands_to_text(content),
        stands_nowhere(content, old_text),
        normal_form(old_text).len() > 0,
        0 <= a,
        a + normal_form(old_text).len() <= normal_form(content).len(),
        normal_form(content).subrange(a, a + normal_form(old_text).len()) == normal_form(old_text),
        forall|b: int, e: int|
            0 <= b && e == b + normal_form(old_text).len() && e <= normal_form(content).len()
                && #[trigger] normal_form(content).subrange(b, e) == normal_form(old_text) ==> b
                == a,
    ensures
        ({
            let behind = normal_form(content).len() - a - normal_form(old_text).len();
            let from_on = normal_form(content).len() - a;
            &&& locate(content, old_text) matches Ok((from, to))
            &&& from < to <= content.len()
            &&& normal_form(content.skip(to as int)).len() <= behind
            &&& forall|j: int|
                0 <= j < to ==> normal_form(#[trigger] content.skip(j)).len() > behind
            &&& normal_form(content.skip(from as int)).len() >= from_on
            &&& forall|j: int|
                0 <= j < from ==> normal_form(#[trigger] content.skip(j)).len() > normal_form(
                    content.skip(from as int),
                ).len()
            &&& forall|j: int|
                0 <= j <= content.len() && normal_form(#[trigger] content.skip(j)).len()
                    < normal_form(content.skip(from as int)).len() ==> normal_form(
                    content.skip(j),
                ).len() < from_on
        }),
{
    let s = normal_form(content);
    let needle = normal_form(old_text);
    let m = needle.len() as int;
    lemma_stands_nowhere(content, old_text);
    places_are_all_places(s, needle);
    let hits = positions(s, needle, 0);
    assert(hits.contains(a));
    assert forall|j: int| 0 <= j < hits.len() implies hits[j] == a by {
        assert(hits.contains(hits[j]));
    }
    if hits.len() > 1 {
        assert(hits[0] < hits[1]);
    }
    assert(hits.len() == 1 && hits[0] == a);
    assert forall|j: int| 0 <= j <= content.len() implies normal_form(
        #[trigger] content.skip(j),
    ).len() == left(content, j) by {
        lemma_pieces_normal(content, j);
        lemma_normal(content.skip(j));
    }
    lemma_piece_levels(content, 0, a);
    lemma_piece_levels(content, 0, a + m - 1);
    assert(content.skip(0) == content);
}

} // verus!
