//! Text as a sequence of characters: conversions, trimming, splitting and
//! decimal numbers.

use vstd::prelude::*;
use vstd::string::*;
use vstd::utf8::*;

verus! {

/// `String::push` appends one character at the end.
pub assume_specification[ String::push ](s: &mut String, c: char)
    ensures
        final(s)@ == old(s)@.push(c),
;

/// `String::from_utf8`: the text whose UTF-8 form the bytes are, if they are
/// valid UTF-8, and nothing otherwise.
#[verifier::external_body]
pub(crate) fn decode(bytes: Vec<u8>) -> (r: Option<String>)
    ensures
        match r {
            Some(s) => valid_utf8(bytes@) && s@ == decode_utf8(bytes@),
            None => !valid_utf8(bytes@),
        },
{
    String::from_utf8(bytes).ok()
}

/// The characters of a text, in order.
pub fn to_chars(s: &str) -> (r: Vec<char>)
    ensures
        r@ == s@,
        utf8_len(r@) <= usize::MAX,
{
    let mut r: Vec<char> = Vec::with_capacity(s.as_bytes().len());
    for c in it: s.chars()
        invariant
            it.seq() == s@,
            r@ == s@.take(it.index() as int),
    {
        r.push(c);
    }
    assert(s@.take(s@.len() as int) == s@);
    r
}

/// The text made of the given characters.
pub fn from_chars(chars: &[char]) -> (r: String)
    ensures
        r@ == chars@,
{
    let mut r: String = String::new();
    let n: usize = chars.len();
    for i in 0..n
        invariant
            n == chars@.len(),
            r@ == chars@.take(i as int),
    {
        r.push(chars[i]);
        assert(chars@.take(i as int).push(chars@[i as int]) == chars@.take(i + 1));
    }
    assert(chars@.take(n as int) == chars@);
    r
}

/// The contents of a list of texts.
pub open spec fn texts(v: Seq<String>) -> Seq<Seq<char>> {
    Seq::new(v.len(), |i: int| v[i]@)
}

/// An optional text.
pub open spec fn text_of(t: Option<String>) -> Option<Seq<char>> {
    match t {
        Some(s) => Some(s@),
        None => None,
    }
}

/// Whether two texts are the same.
pub fn same_text(a: &str, b: &str) -> (r: bool)
    ensures
        r == (a@ == b@),
{
    let x: &[u8] = a.as_bytes();
    let y: &[u8] = b.as_bytes();
    proof {
        encode_utf8_decode_utf8(a@);
        encode_utf8_decode_utf8(b@);
    }
    if x.len() != y.len() {
        return false;
    }
    let n: usize = x.len();
    for i in 0..n
        invariant
            n == x@.len(),
            n == y@.len(),
            x@ == a.spec_bytes(),
            y@ == b.spec_bytes(),
            x@.take(i as int) == y@.take(i as int),
    {
        if x[i] != y[i] {
            return false;
        }
        assert(x@.take(i + 1) == x@.take(i as int).push(x@[i as int]));
        assert(y@.take(i + 1) == y@.take(i as int).push(y@[i as int]));
    }
    assert(x@.take(n as int) == x@);
    assert(y@.take(n as int) == y@);
    true
}

// ---------------------------------------------------------------------------
// UTF-8 length
// ---------------------------------------------------------------------------

/// How many bytes a text takes in UTF-8.
pub open spec fn utf8_len(s: Seq<char>) -> nat {
    encode_utf8(s).len()
}

/// The UTF-8 form of a concatenation is the concatenation of the UTF-8 forms.
pub proof fn lemma_encode_add(a: Seq<char>, b: Seq<char>)
    ensures
        encode_utf8(a + b) == encode_utf8(a) + encode_utf8(b),
    decreases a.len(),
{
    if a.len() == 0 {
        assert(a + b == b);
        assert(encode_utf8(a) + encode_utf8(b) == encode_utf8(b));
    } else {
        lemma_encode_add(a.drop_first(), b);
        assert((a + b).drop_first() == a.drop_first() + b);
        assert(encode_utf8(a + b) == encode_utf8(a) + encode_utf8(b));
    }
}

/// UTF-8 lengths add up over a concatenation.
pub proof fn lemma_utf8_len_add(a: Seq<char>, b: Seq<char>)
    ensures
        utf8_len(a + b) == utf8_len(a) + utf8_len(b),
{
    lemma_encode_add(a, b);
}

/// Every character takes between one and four bytes.
pub proof fn lemma_utf8_len_one(c: char)
    ensures
        1 <= utf8_len(seq![c]) <= 4,
{
    assert(seq![c].drop_first() == Seq::<char>::empty());
    assert(encode_utf8(Seq::<char>::empty()).len() == 0);
}

/// A part of a text is no longer than the text.
pub proof fn lemma_utf8_len_subrange(s: Seq<char>, i: int, j: int)
    requires
        0 <= i <= j <= s.len(),
    ensures
        utf8_len(s.subrange(i, j)) <= utf8_len(s),
{
    lemma_utf8_len_add(s.subrange(0, i), s.subrange(i, j));
    assert(s.subrange(0, i) + s.subrange(i, j) == s.subrange(0, j));
    lemma_utf8_len_add(s.subrange(0, j), s.skip(j));
    assert(s.subrange(0, j) + s.skip(j) == s);
}

/// How many bytes one character takes in UTF-8.
pub fn char_len(c: char) -> (r: usize)
    ensures
        r == utf8_len(seq![c]),
        1 <= r <= 4,
{
    proof {
        lemma_utf8_len_one(c);
        assert(seq![c].drop_first() == Seq::<char>::empty());
        assert(encode_utf8(seq![c]) == encode_scalar(c as u32) + encode_utf8(
            Seq::<char>::empty(),
        ));
        assert(encode_utf8(Seq::<char>::empty()).len() == 0);
        char_is_scalar(c);
    }
    let v: u32 = c as u32;
    if v <= 0x7F {
        1
    } else if v <= 0x7FF {
        2
    } else if v <= 0xFFFF {
        3
    } else {
        4
    }
}

/// How many bytes the text takes in UTF-8, as a machine number.
pub fn byte_len(s: &str) -> (r: usize)
    ensures
        r == utf8_len(s@),
{
    s.as_bytes().len()
}

// ---------------------------------------------------------------------------
// Lines that keep their terminator
// ---------------------------------------------------------------------------

/// Length of the first line of `s`, its newline included.
pub open spec fn first_line_len(s: Seq<char>) -> nat
    decreases s.len(),
{
    if s.len() == 0 {
        0
    } else if s[0] == '\n' {
        1
    } else {
        1 + first_line_len(s.drop_first())
    }
}

/// The lines of `s`, each with the newline that ends it; a last line without
/// one counts too.
pub open spec fn lines(s: Seq<char>) -> Seq<Seq<char>>
    decreases s.len(),
{
    let n = first_line_len(s);
    if s.len() == 0 || n == 0 || n > s.len() {
        seq![]
    } else {
        seq![s.take(n as int)] + lines(s.skip(n as int))
    }
}

/// `cuts` are the places where the lines of `s` begin, and the end of `s`.
pub open spec fn is_line_cuts(s: Seq<char>, cuts: Seq<usize>) -> bool {
    &&& cuts.len() >= 1
    &&& cuts.len() == lines(s).len() + 1
    &&& cuts[0] == 0
    &&& cuts.last() == s.len()
    &&& forall|k: int, l: int| 0 <= k < l < cuts.len() ==> cuts[k] < cuts[l]
    &&& forall|k: int| #![trigger lines(s)[k]]
        0 <= k < lines(s).len() ==> lines(s)[k] == s.subrange(cuts[k] as int, cuts[k + 1] as int)
}

/// Text without a newline followed by a newline is one line.
pub proof fn lemma_first_line_len(s: Seq<char>, n: int)
    requires
        0 <= n < s.len(),
        s[n] == '\n',
        forall|i: int| 0 <= i < n ==> s[i] != '\n',
    ensures
        first_line_len(s) == n + 1,
    decreases n,
{
    if n > 0 {
        lemma_first_line_len(s.drop_first(), n - 1);
    }
}

/// Text without any newline is one line.
pub proof fn lemma_first_line_all(s: Seq<char>)
    requires
        forall|i: int| 0 <= i < s.len() ==> s[i] != '\n',
    ensures
        first_line_len(s) == s.len(),
    decreases s.len(),
{
    if s.len() > 0 {
        lemma_first_line_all(s.drop_first());
    }
}

/// Finds where the lines of a text begin.
pub fn line_cuts(s: &[char]) -> (cuts: Vec<usize>)
    ensures
        is_line_cuts(s@, cuts@),
{
    let n: usize = s.len();
    let mut cuts: Vec<usize> = Vec::new();
    cuts.push(0);
    let mut start: usize = 0;
    let mut i: usize = 0;
    proof {
        assert(s@.skip(0) == s@);
        assert(lines(s@) == Seq::<Seq<char>>::empty() + lines(s@));
    }
    let ghost mut found: Seq<Seq<char>> = Seq::empty();
    while i < n
        invariant
            n == s@.len(),
            start <= i <= n,
            cuts@.len() == found.len() + 1,
            cuts@[0] == 0,
            cuts@.last() == start,
            forall|k: int, l: int| 0 <= k < l < cuts@.len() ==> cuts@[k] < cuts@[l],
            forall|j: int| start <= j < i ==> s@[j] != '\n',
            lines(s@) == found + lines(s@.skip(start as int)),
            forall|k: int| #![trigger found[k]]
                0 <= k < found.len() ==> found[k] == s@.subrange(
                    cuts@[k] as int,
                    cuts@[k + 1] as int,
                ),
        decreases n - i,
    {
        if s[i] == '\n' {
            proof {
                let rest = s@.skip(start as int);
                lemma_first_line_len(rest, i - start);
                let line = s@.subrange(start as int, i + 1);
                assert(rest.take(i + 1 - start) == line);
                assert(rest.skip(i + 1 - start) == s@.skip(i + 1));
                assert(lines(rest) == seq![line] + lines(s@.skip(i + 1)));
                assert(found + (seq![line] + lines(s@.skip(i + 1))) == found.push(line) + lines(
                    s@.skip(i + 1),
                ));
                found = found.push(line);
            }
            cuts.push(i + 1);
            start = i + 1;
        }
        i = i + 1;
    }
    proof {
        let rest = s@.skip(start as int);
        lemma_first_line_all(rest);
        if start < n {
            let line = s@.subrange(start as int, n as int);
            assert(rest.take(n - start) == line);
            assert(rest.skip(n - start) == Seq::<char>::empty());
            assert(lines(rest) == seq![line] + lines(Seq::<char>::empty()));
            assert(lines(Seq::<char>::empty()).len() == 0);
            assert(lines(rest) == seq![line]);
            found = found.push(line);
        } else {
            assert(lines(rest).len() == 0);
        }
        assert(lines(s@) == found);
    }
    if start < n {
        cuts.push(n);
    }
    cuts
}

/// Neighbouring lines together are the text between their cuts.
pub proof fn lemma_span_of_lines(s: Seq<char>, cuts: Seq<usize>, a: int, b: int)
    requires
        is_line_cuts(s, cuts),
        0 <= a <= b <= lines(s).len(),
    ensures
        lines(s).subrange(a, b).flatten() == s.subrange(cuts[a] as int, cuts[b] as int),
    decreases b - a,
{
    let ls = lines(s);
    if a == b {
        assert(ls.subrange(a, b).flatten() == s.subrange(cuts[a] as int, cuts[b] as int));
    } else {
        lemma_span_of_lines(s, cuts, a, b - 1);
        assert(ls.subrange(a, b).drop_last() == ls.subrange(a, b - 1));
        assert(ls.subrange(a, b).last() == ls[b - 1]);
        ls.subrange(a, b).lemma_flatten_and_flatten_alt_are_equivalent();
        ls.subrange(a, b - 1).lemma_flatten_and_flatten_alt_are_equivalent();
        assert(ls[b - 1] == s.subrange(cuts[b - 1] as int, cuts[b] as int));
        assert(s.subrange(cuts[a] as int, cuts[b - 1] as int) + s.subrange(
            cuts[b - 1] as int,
            cuts[b] as int,
        ) == s.subrange(cuts[a] as int, cuts[b] as int));
    }
}

/// The lines of a text, put together again, are the text.
pub proof fn lemma_lines_rejoin(s: Seq<char>)
    ensures
        lines(s).flatten() == s,
    decreases s.len(),
{
    let n = first_line_len(s);
    if s.len() > 0 {
        lemma_first_line_bounds(s);
        lemma_lines_rejoin(s.skip(n as int));
        assert(lines(s).drop_first() == lines(s.skip(n as int)));
        assert(s.take(n as int) + s.skip(n as int) == s);
    }
}

/// Parts put together up to `k`, and those after it, make the whole.
pub proof fn lemma_flatten_split(parts: Seq<Seq<char>>, k: int)
    requires
        0 <= k <= parts.len(),
    ensures
        parts.flatten() == parts.take(k).flatten() + parts.skip(k).flatten(),
    decreases k,
{
    if k == 0 {
        assert(parts.skip(0) == parts);
        assert(parts.take(0).flatten() == Seq::<char>::empty());
    } else {
        let rest = parts.drop_first();
        lemma_flatten_split(rest, k - 1);
        assert(parts.take(k).drop_first() == rest.take(k - 1));
        assert(parts.skip(k) == rest.skip(k - 1));
        assert(parts.take(k).first() == parts.first());
    }
}

/// One more part comes at the end.
pub proof fn lemma_flatten_push(parts: Seq<Seq<char>>, part: Seq<char>)
    ensures
        parts.push(part).flatten() == parts.flatten() + part,
{
    let all = parts.push(part);
    lemma_flatten_split(all, parts.len() as int);
    assert(all.take(parts.len() as int) == parts);
    assert(all.skip(parts.len() as int) == seq![part]);
    assert(seq![part].drop_first() == Seq::<Seq<char>>::empty());
    assert(Seq::<Seq<char>>::empty().flatten() == Seq::<char>::empty());
    assert(seq![part].flatten() == part);
}

/// No line is empty.
pub proof fn lemma_lines_not_empty(s: Seq<char>, k: int)
    requires
        0 <= k < lines(s).len(),
    ensures
        lines(s)[k].len() > 0,
    decreases s.len(),
{
    let n = first_line_len(s);
    lemma_first_line_bounds(s);
    if s.len() > 0 && k > 0 {
        lemma_lines_not_empty(s.skip(n as int), k - 1);
        assert(lines(s)[k] == lines(s.skip(n as int))[k - 1]);
    }
}

/// The first line of a text that is not empty is not empty either.
pub proof fn lemma_first_line_bounds(s: Seq<char>)
    ensures
        first_line_len(s) <= s.len(),
        s.len() > 0 ==> first_line_len(s) > 0,
    decreases s.len(),
{
    if s.len() > 0 {
        lemma_first_line_bounds(s.drop_first());
    }
}

/// How many bytes the characters from `i` up to `j` take in UTF-8.
pub fn span_len(s: &[char], i: usize, j: usize) -> (r: usize)
    requires
        i <= j <= s@.len(),
        utf8_len(s@) <= usize::MAX,
    ensures
        r == utf8_len(s@.subrange(i as int, j as int)),
{
    let mut r: usize = 0;
    let mut k: usize = i;
    while k < j
        invariant
            i <= k <= j <= s@.len(),
            utf8_len(s@) <= usize::MAX,
            r == utf8_len(s@.subrange(i as int, k as int)),
        decreases j - k,
    {
        proof {
            lemma_utf8_len_add(s@.subrange(i as int, k as int), seq![s@[k as int]]);
            assert(s@.subrange(i as int, k as int) + seq![s@[k as int]] == s@.subrange(
                i as int,
                k + 1,
            ));
            lemma_utf8_len_subrange(s@, i as int, k + 1);
        }
        r = r + char_len(s[k]);
        k = k + 1;
    }
    r
}

// ---------------------------------------------------------------------------
// Decimal numbers
// ---------------------------------------------------------------------------

/// The character for one decimal digit.
pub open spec fn digit(d: nat) -> char {
    (d + 48) as char
}

/// A number in decimal notation.
pub open spec fn decimal(n: nat) -> Seq<char>
    decreases n,
{
    if n < 10 {
        seq![digit(n)]
    } else {
        decimal(n / 10).push(digit(n % 10))
    }
}

/// Writes a number in decimal notation.
pub fn decimal_text(n: u64) -> (r: String)
    ensures
        r@ == decimal(n as nat),
    decreases n,
{
    let last: char = (48u8 + (n % 10) as u8) as char;
    if n < 10 {
        let mut r: String = String::new();
        r.push(last);
        assert(r@ == seq![digit(n as nat)]);
        r
    } else {
        let mut r: String = decimal_text(n / 10);
        r.push(last);
        r
    }
}

/// Appends a number in decimal notation.
pub fn push_number(text: &mut String, n: usize)
    ensures
        final(text)@ == old(text)@ + decimal(n as nat),
{
    let digits: String = decimal_text(n as u64);
    text.append(digits.as_str());
}

/// A signed number in decimal digits.
pub open spec fn signed_decimal(n: int) -> Seq<char> {
    if n < 0 {
        "-"@ + decimal((-n) as nat)
    } else {
        decimal(n as nat)
    }
}

/// A signed number in decimal digits.
pub fn signed_text(n: i32) -> (r: String)
    ensures
        r@ == signed_decimal(n as int),
{
    let wide: i64 = n as i64;
    if wide < 0 {
        let mut r: String = String::from_str("-");
        r.append(decimal_text((0 - wide) as u64).as_str());
        r
    } else {
        decimal_text(wide as u64)
    }
}

// ---------------------------------------------------------------------------
// Whitespace and trimming
// ---------------------------------------------------------------------------

/// The characters with the Unicode property White_Space.
pub open spec fn whitespace(c: char) -> bool {
    let v = c as u32;
    ||| 0x09 <= v <= 0x0D
    ||| v == 0x20
    ||| v == 0x85
    ||| v == 0xA0
    ||| v == 0x1680
    ||| 0x2000 <= v <= 0x200A
    ||| v == 0x2028
    ||| v == 0x2029
    ||| v == 0x202F
    ||| v == 0x205F
    ||| v == 0x3000
}

/// Whether the character is whitespace.
pub fn is_whitespace(c: char) -> (r: bool)
    ensures
        r == whitespace(c),
{
    let v: u32 = c as u32;
    (0x09 <= v && v <= 0x0D) || v == 0x20 || v == 0x85 || v == 0xA0 || v == 0x1680 || (0x2000 <= v
        && v <= 0x200A) || v == 0x2028 || v == 0x2029 || v == 0x202F || v == 0x205F || v == 0x3000
}

/// The predicate that holds of whitespace.
pub open spec fn any_space() -> spec_fn(char) -> bool {
    |c: char| whitespace(c)
}

/// The predicate that holds of one character.
pub open spec fn only(ch: char) -> spec_fn(char) -> bool {
    |c: char| c == ch
}

/// `s` without the leading characters of which `p` holds.
pub open spec fn drop_front(s: Seq<char>, p: spec_fn(char) -> bool) -> Seq<char>
    decreases s.len(),
{
    if s.len() > 0 && p(s[0]) {
        drop_front(s.drop_first(), p)
    } else {
        s
    }
}

/// `s` without the trailing characters of which `p` holds.
pub open spec fn drop_back(s: Seq<char>, p: spec_fn(char) -> bool) -> Seq<char>
    decreases s.len(),
{
    if s.len() > 0 && p(s.last()) {
        drop_back(s.drop_last(), p)
    } else {
        s
    }
}

/// `s` without whitespace at either end.
pub open spec fn trimmed(s: Seq<char>) -> Seq<char> {
    drop_back(drop_front(s, any_space()), any_space())
}

/// Leading characters of which `p` holds go one by one.
pub proof fn lemma_drop_front(s: Seq<char>, p: spec_fn(char) -> bool, n: int)
    requires
        0 <= n <= s.len(),
        forall|i: int| 0 <= i < n ==> #[trigger] p(s[i]),
    ensures
        drop_front(s, p) == drop_front(s.skip(n), p),
    decreases n,
{
    if n == 0 {
        assert(s.skip(0) == s);
    } else {
        assert(p(s[0]));
        assert forall|i: int| 0 <= i < n - 1 implies #[trigger] p(s.drop_first()[i]) by {
            assert(p(s[i + 1]));
        }
        lemma_drop_front(s.drop_first(), p, n - 1);
        assert(s.drop_first().skip(n - 1) == s.skip(n));
    }
}

/// Trailing characters of which `p` holds go one by one.
pub proof fn lemma_drop_back(s: Seq<char>, p: spec_fn(char) -> bool, n: int)
    requires
        0 <= n <= s.len(),
        forall|i: int| n <= i < s.len() ==> #[trigger] p(s[i]),
    ensures
        drop_back(s, p) == drop_back(s.take(n), p),
    decreases s.len() - n,
{
    if n == s.len() {
        assert(s.take(n) == s);
    } else {
        assert(p(s[s.len() - 1]));
        assert forall|i: int| n <= i < s.len() - 1 implies #[trigger] p(s.drop_last()[i]) by {
            assert(p(s[i]));
        }
        lemma_drop_back(s.drop_last(), p, n);
        assert(s.drop_last().take(n) == s.take(n));
    }
}

/// The text without whitespace at either end.
pub fn trim<'a>(s: &'a [char]) -> (r: &'a [char])
    ensures
        r@ == trimmed(s@),
{
    let n: usize = s.len();
    let mut from: usize = 0;
    while from < n && is_whitespace(s[from])
        invariant
            n == s@.len(),
            from <= n,
            forall|i: int| 0 <= i < from ==> #[trigger] any_space()(s@[i]),
        decreases n - from,
    {
        from = from + 1;
    }
    let mut to: usize = n;
    while from < to && is_whitespace(s[to - 1])
        invariant
            n == s@.len(),
            from <= to <= n,
            forall|i: int| to <= i < n ==> #[trigger] any_space()(s@[i]),
        decreases to,
    {
        to = to - 1;
    }
    proof {
        lemma_drop_front(s@, any_space(), from as int);
        let rest = s@.skip(from as int);
        assert(drop_front(s@, any_space()) == rest);
        assert forall|i: int| to - from <= i < rest.len() implies #[trigger] any_space()(
            rest[i],
        ) by {
            assert(any_space()(s@[i + from]));
        }
        lemma_drop_back(rest, any_space(), to - from);
        assert(rest.take(to - from) == s@.subrange(from as int, to as int));
    }
    vstd::slice::slice_subrange(s, from, to)
}

/// The text without the leading characters equal to `ch`.
pub fn trim_front_char<'a>(s: &'a [char], ch: char) -> (r: &'a [char])
    ensures
        r@ == drop_front(s@, only(ch)),
{
    let n: usize = s.len();
    let mut from: usize = 0;
    while from < n && s[from] == ch
        invariant
            n == s@.len(),
            from <= n,
            forall|i: int| 0 <= i < from ==> #[trigger] only(ch)(s@[i]),
        decreases n - from,
    {
        from = from + 1;
    }
    proof {
        lemma_drop_front(s@, only(ch), from as int);
        assert(s@.subrange(from as int, n as int) == s@.skip(from as int));
    }
    vstd::slice::slice_subrange(s, from, n)
}

/// The text without the trailing characters equal to `ch`.
pub fn trim_back_char<'a>(s: &'a [char], ch: char) -> (r: &'a [char])
    ensures
        r@ == drop_back(s@, only(ch)),
{
    let n: usize = s.len();
    let mut to: usize = n;
    while 0 < to && s[to - 1] == ch
        invariant
            n == s@.len(),
            to <= n,
            forall|i: int| to <= i < n ==> #[trigger] only(ch)(s@[i]),
        decreases to,
    {
        to = to - 1;
    }
    proof {
        lemma_drop_back(s@, only(ch), to as int);
        assert(s@.subrange(0, to as int) == s@.take(to as int));
    }
    vstd::slice::slice_subrange(s, 0, to)
}

// ---------------------------------------------------------------------------
// Searching and splitting
// ---------------------------------------------------------------------------

/// Whether `s` begins with `prefix`.
pub open spec fn starts_with(s: Seq<char>, prefix: Seq<char>) -> bool {
    prefix.len() <= s.len() && s.take(prefix.len() as int) == prefix
}

/// Whether `needle` stands in `s` at `at`.
pub open spec fn matches_at(s: Seq<char>, needle: Seq<char>, at: int) -> bool {
    0 <= at && at + needle.len() <= s.len() && s.subrange(at, at + needle.len()) == needle
}

/// Whether `needle` stands in `s` at `at`.
pub fn is_match_at(s: &[char], needle: &[char], at: usize) -> (r: bool)
    requires
        at <= s@.len(),
    ensures
        r == matches_at(s@, needle@, at as int),
{
    let n: usize = needle.len();
    if s.len() - at < n {
        return false;
    }
    let mut i: usize = 0;
    while i < n
        invariant
            n == needle@.len(),
            at + n <= s@.len(),
            s@.len() <= usize::MAX,
            i <= n,
            forall|j: int| 0 <= j < i ==> s@[at + j] == needle@[j],
        decreases n - i,
    {
        if s[at + i] != needle[i] {
            assert(s@.subrange(at as int, at + n)[i as int] != needle@[i as int]);
            return false;
        }
        i = i + 1;
    }
    assert(s@.subrange(at as int, at + n) == needle@);
    true
}

/// Whether the text begins with the prefix.
pub fn has_prefix(s: &[char], prefix: &str) -> (r: bool)
    ensures
        r == starts_with(s@, prefix@),
{
    let p: Vec<char> = to_chars(prefix);
    assert(prefix@.len() <= s@.len() ==> s@.subrange(0, prefix@.len() as int) == s@.take(
        prefix@.len() as int,
    ));
    is_match_at(s, p.as_slice(), 0)
}

/// Where `c` first stands in `s`; the length of `s` where it does not.
pub open spec fn find(s: Seq<char>, c: char) -> nat
    decreases s.len(),
{
    if s.len() == 0 || s[0] == c {
        0
    } else {
        1 + find(s.drop_first(), c)
    }
}

/// What stands before the first `c` is passed over.
pub proof fn lemma_find(s: Seq<char>, c: char, n: int)
    requires
        0 <= n <= s.len(),
        forall|i: int| 0 <= i < n ==> s[i] != c,
        n < s.len() ==> s[n] == c,
    ensures
        find(s, c) == n,
    decreases n,
{
    if n > 0 {
        lemma_find(s.drop_first(), c, n - 1);
    }
}

/// The parts of `s` between the characters `c`.
pub open spec fn split(s: Seq<char>, c: char) -> Seq<Seq<char>>
    decreases s.len(),
{
    let n = find(s, c);
    if n >= s.len() {
        seq![s]
    } else {
        seq![s.take(n as int)] + split(s.skip(n as int + 1), c)
    }
}

/// The contents of a list of slices.
pub open spec fn contents(v: Seq<&[char]>) -> Seq<Seq<char>> {
    Seq::new(v.len(), |i: int| v[i]@)
}

/// The parts of the text between the characters `c`.
pub fn split_at_char<'a>(s: &'a [char], c: char) -> (r: Vec<&'a [char]>)
    ensures
        contents(r@) == split(s@, c),
{
    let n: usize = s.len();
    let mut r: Vec<&'a [char]> = Vec::new();
    let mut start: usize = 0;
    let mut i: usize = 0;
    proof {
        assert(s@.skip(0) == s@);
        assert(contents(r@) + split(s@, c) == split(s@, c));
    }
    while i < n
        invariant
            n == s@.len(),
            start <= i <= n,
            forall|j: int| start <= j < i ==> s@[j] != c,
            split(s@, c) == contents(r@) + split(s@.skip(start as int), c),
        decreases n - i,
    {
        if s[i] == c {
            let part: &'a [char] = vstd::slice::slice_subrange(s, start, i);
            proof {
                let rest = s@.skip(start as int);
                lemma_find(rest, c, i - start);
                assert(rest.take(i - start) == part@);
                assert(rest.skip(i - start + 1) == s@.skip(i + 1));
                assert(contents(r@.push(part)) == contents(r@).push(part@));
                assert(contents(r@) + (seq![part@] + split(s@.skip(i + 1), c)) == contents(
                    r@,
                ).push(part@) + split(s@.skip(i + 1), c));
            }
            r.push(part);
            start = i + 1;
        }
        i = i + 1;
    }
    let part: &'a [char] = vstd::slice::slice_subrange(s, start, n);
    proof {
        let rest = s@.skip(start as int);
        lemma_find(rest, c, n - start);
        assert(rest == part@);
        assert(contents(r@.push(part)) == contents(r@) + seq![part@]);
    }
    r.push(part);
    r
}

/// How many characters at the front of `s` are not whitespace.
pub open spec fn word_len(s: Seq<char>) -> nat
    decreases s.len(),
{
    if s.len() == 0 || whitespace(s[0]) {
        0
    } else {
        1 + word_len(s.drop_first())
    }
}

proof fn lemma_word_len(s: Seq<char>, n: int)
    requires
        0 <= n <= s.len(),
        forall|i: int| 0 <= i < n ==> !whitespace(#[trigger] s[i]),
        n < s.len() ==> whitespace(s[n]),
    ensures
        word_len(s) == n,
    decreases n,
{
    if n > 0 {
        assert(!whitespace(s[0]));
        assert forall|i: int| 0 <= i < n - 1 implies !whitespace(
            #[trigger] s.drop_first()[i],
        ) by {
            assert(!whitespace(s[i + 1]));
        }
        lemma_word_len(s.drop_first(), n - 1);
    }
}

pub proof fn lemma_word_len_bound(s: Seq<char>)
    ensures
        word_len(s) <= s.len(),
    decreases s.len(),
{
    if s.len() > 0 {
        lemma_word_len_bound(s.drop_first());
    }
}

pub proof fn lemma_drop_front_bounds(s: Seq<char>, p: spec_fn(char) -> bool)
    ensures
        drop_front(s, p).len() <= s.len(),
        drop_front(s, p).len() > 0 ==> !p(drop_front(s, p)[0]),
    decreases s.len(),
{
    if s.len() > 0 && p(s[0]) {
        lemma_drop_front_bounds(s.drop_first(), p);
    }
}

/// What is left after dropping trailing characters is a beginning, and does not
/// end in such a character.
pub proof fn lemma_drop_back_bounds(s: Seq<char>, p: spec_fn(char) -> bool)
    ensures
        drop_back(s, p).is_prefix_of(s),
        drop_back(s, p).len() > 0 ==> !p(drop_back(s, p).last()),
    decreases s.len(),
{
    if s.len() > 0 && p(s.last()) {
        lemma_drop_back_bounds(s.drop_last(), p);
    }
}

/// A trimmed text neither begins nor ends with whitespace.
pub proof fn lemma_trimmed_ends(s: Seq<char>)
    ensures
        trimmed(s).len() > 0 ==> !whitespace(trimmed(s)[0]) && !whitespace(trimmed(s).last()),
{
    let front = drop_front(s, any_space());
    lemma_drop_front_bounds(s, any_space());
    lemma_drop_back_bounds(front, any_space());
    if trimmed(s).len() > 0 {
        assert(trimmed(s)[0] == front[0]);
        assert(!any_space()(front[0]));
        assert(!any_space()(trimmed(s).last()));
    }
}

/// The words of `s`: what stands between whitespace.
pub open spec fn words(s: Seq<char>) -> Seq<Seq<char>>
    decreases s.len(),
{
    let t = drop_front(s, any_space());
    if t.len() == 0 {
        Seq::empty()
    } else {
        proof {
            lemma_drop_front_bounds(s, any_space());
            lemma_word_len_bound(t);
        }
        seq![t.take(word_len(t) as int)] + words(t.skip(word_len(t) as int))
    }
}

/// The words of the text.
pub fn split_words<'a>(s: &'a [char]) -> (r: Vec<&'a [char]>)
    ensures
        contents(r@) == words(s@),
{
    let n: usize = s.len();
    let mut r: Vec<&'a [char]> = Vec::new();
    let mut i: usize = 0;
    assert(s@.skip(0) == s@);
    assert(contents(r@) + words(s@) == words(s@));
    while i < n
        invariant
            n == s@.len(),
            i <= n,
            words(s@) == contents(r@) + words(s@.skip(i as int)),
        decreases n - i,
    {
        let ghost rest = s@.skip(i as int);
        let start: usize = skip_spaces(s, i);
        let ghost t = s@.skip(start as int);
        if start == n {
            assert(contents(r@) + words(rest) == contents(r@));
            assert(words(s@.skip(n as int)).len() == 0);
            i = n;
        } else {
            let mut end: usize = start;
            while end < n && !is_whitespace(s[end])
                invariant
                    n == s@.len(),
                    start <= end <= n,
                    forall|k: int| start <= k < end ==> !whitespace(#[trigger] s@[k]),
                decreases n - end,
            {
                end = end + 1;
            }
            let part: &'a [char] = vstd::slice::slice_subrange(s, start, end);
            proof {
                assert forall|k: int| 0 <= k < end - start implies !whitespace(
                    #[trigger] t[k],
                ) by {
                    assert(!whitespace(s@[k + start]));
                }
                lemma_word_len(t, end - start);
                assert(t.take(end - start) == part@);
                assert(t.skip(end - start) == s@.skip(end as int));
                let tail = words(s@.skip(end as int));
                assert(contents(r@.push(part)) == contents(r@).push(part@));
                assert(contents(r@) + (seq![part@] + tail) == contents(r@).push(part@) + tail);
                assert(word_len(t) > 0);
            }
            r.push(part);
            i = end;
        }
    }
    assert(contents(r@) + words(s@.skip(n as int)) == contents(r@));
    r
}

/// The first place at or after `i` that is not whitespace.
fn skip_spaces(s: &[char], i: usize) -> (r: usize)
    requires
        i <= s@.len(),
    ensures
        i <= r <= s@.len(),
        drop_front(s@.skip(i as int), any_space()) == s@.skip(r as int),
        r < s@.len() ==> !whitespace(s@[r as int]),
{
    let n: usize = s.len();
    let mut r: usize = i;
    while r < n && is_whitespace(s[r])
        invariant
            n == s@.len(),
            i <= r <= n,
            forall|k: int| i <= k < r ==> whitespace(#[trigger] s@[k]),
        decreases n - r,
    {
        r = r + 1;
    }
    proof {
        let rest = s@.skip(i as int);
        assert forall|k: int| 0 <= k < r - i implies #[trigger] any_space()(rest[k]) by {
            assert(whitespace(s@[k + i]));
        }
        lemma_drop_front(rest, any_space(), r - i);
        assert(rest.skip(r - i) == s@.skip(r as int));
    }
    r
}

/// Whether two texts, one of them as characters, are the same.
pub fn is_text(s: &[char], t: &str) -> (r: bool)
    ensures
        r == (s@ == t@),
{
    let u: Vec<char> = to_chars(t);
    if s.len() != u.len() {
        return false;
    }
    let r: bool = is_match_at(s, u.as_slice(), 0);
    assert(s@.subrange(0, s@.len() as int) == s@);
    r
}

/// Where `needle` first stands in `s` at or after `from`.
pub open spec fn find_text(s: Seq<char>, needle: Seq<char>, from: int) -> Option<int>
    decreases s.len() + 1 - from,
{
    if from < 0 || from + needle.len() > s.len() {
        None
    } else if matches_at(s, needle, from) {
        Some(from)
    } else {
        find_text(s, needle, from + 1)
    }
}

/// Where `needle` first stands in the text.
pub fn position_of(s: &[char], needle: &str) -> (r: Option<usize>)
    ensures
        match r {
            Some(i) => find_text(s@, needle@, 0) == Some(i as int) && i + needle@.len()
                <= s@.len(),
            None => find_text(s@, needle@, 0) is None,
        },
{
    let u: Vec<char> = to_chars(needle);
    let n: usize = s.len();
    let m: usize = u.len();
    let mut i: usize = 0;
    if m > n {
        return None;
    }
    while i <= n - m
        invariant
            n == s@.len(),
            m == u@.len(),
            u@ == needle@,
            m <= n,
            i <= n - m + 1,
            find_text(s@, needle@, 0) == find_text(s@, needle@, i as int),
        decreases n - m + 1 - i,
    {
        if is_match_at(s, u.as_slice(), i) {
            return Some(i);
        }
        if i == n - m {
            assert(find_text(s@, needle@, i + 1) is None);
            return None;
        }
        i = i + 1;
    }
    None
}

// ---------------------------------------------------------------------------
// Laws
// ---------------------------------------------------------------------------

/// The lines of a text are its parts up to and with each line feed: together
/// they are the text, none is empty, a line feed stands at the end of a line
/// only, and every line but the last ends in one.
pub proof fn lines_end_at_line_feeds(s: Seq<char>)
    ensures
        lines(s).flatten() == s,
        forall|k: int| 0 <= k < lines(s).len() ==> (#[trigger] lines(s)[k]).len() > 0,
        forall|k: int, j: int| #![trigger lines(s)[k][j]]
            0 <= k < lines(s).len() && 0 <= j < lines(s)[k].len() - 1 ==> lines(s)[k][j] != '\n',
        forall|k: int|
            0 <= k < lines(s).len() - 1 ==> (#[trigger] lines(s)[k]).last() == '\n',
    decreases s.len(),
{
    lemma_lines_rejoin(s);
    if s.len() > 0 {
        let n = first_line_len(s);
        lemma_first_line_bounds(s);
        lemma_first_line_feed(s);
        let rest = s.skip(n as int);
        let all = lines(s);
        lines_end_at_line_feeds(rest);
        assert(all == seq![s.take(n as int)] + lines(rest));
        assert forall|k: int| 0 <= k < all.len() implies (#[trigger] all[k]).len() > 0 by {
            if k > 0 {
                assert(all[k] == lines(rest)[k - 1]);
            }
        }
        assert forall|k: int, j: int| #![trigger all[k][j]]
            0 <= k < all.len() && 0 <= j < all[k].len() - 1 implies all[k][j] != '\n' by {
            if k > 0 {
                assert(all[k] == lines(rest)[k - 1]);
                assert(lines(rest)[k - 1][j] != '\n');
            }
        }
        assert forall|k: int| 0 <= k < all.len() - 1 implies (#[trigger] all[k]).last()
            == '\n' by {
            if k > 0 {
                assert(all[k] == lines(rest)[k - 1]);
            } else if rest.len() == 0 {
                assert(lines(rest).len() == 0);
            }
        }
    }
}

proof fn lemma_first_line_feed(s: Seq<char>)
    ensures
        forall|j: int| 0 <= j < first_line_len(s) - 1 ==> #[trigger] s[j] != '\n',
        0 < first_line_len(s) < s.len() ==> s[first_line_len(s) - 1] == '\n',
    decreases s.len(),
{
    if s.len() > 0 && s[0] != '\n' {
        let rest = s.drop_first();
        lemma_first_line_feed(rest);
        lemma_first_line_bounds(rest);
        assert forall|j: int| 0 <= j < first_line_len(s) - 1 implies #[trigger] s[j] != '\n' by {
            if j > 0 {
                assert(rest[j - 1] == s[j]);
            }
        }
        if first_line_len(s) < s.len() {
            assert(s[first_line_len(s) - 1] == rest[first_line_len(rest) - 1]);
        }
    }
}

/// The number that decimal digits stand for.
pub open spec fn number(s: Seq<char>) -> int
    decreases s.len(),
{
    if s.len() == 0 {
        0
    } else {
        10 * number(s.drop_last()) + (s.last() as int - '0' as int)
    }
}

/// Decimal notation reads back as the number: it is made of digits, of which
/// the first is a zero for zero alone.
pub proof fn decimal_reads_back(n: nat)
    ensures
        number(decimal(n)) == n,
        decimal(n).len() > 0,
        forall|i: int|
            0 <= i < decimal(n).len() ==> '0' <= #[trigger] decimal(n)[i] <= '9',
        decimal(n)[0] == '0' ==> n == 0 && decimal(n).len() == 1,
    decreases n,
{
    if n < 10 {
        assert(decimal(n).drop_last() == Seq::<char>::empty());
        assert(number(Seq::<char>::empty()) == 0);
        assert(decimal(n).last() == digit(n));
        assert(digit(n) as int == n + 48);
    } else {
        let front = decimal(n / 10);
        decimal_reads_back(n / 10);
        assert(decimal(n).drop_last() == front);
        assert(decimal(n).last() == digit(n % 10));
        assert(digit(n % 10) as int == n % 10 + 48);
        assert forall|i: int| 0 <= i < decimal(n).len() implies '0' <= #[trigger] decimal(n)[i]
            <= '9' by {
            if i < front.len() {
                assert(decimal(n)[i] == front[i]);
            }
        }
        assert(decimal(n)[0] == front[0]);
    }
}

/// Trimming takes whitespace off both ends, and nothing else.
pub proof fn trimming_takes_off_blanks(front: Seq<char>, core: Seq<char>, back: Seq<char>)
    requires
        forall|i: int| 0 <= i < front.len() ==> whitespace(#[trigger] front[i]),
        forall|i: int| 0 <= i < back.len() ==> whitespace(#[trigger] back[i]),
        core.len() > 0 ==> !whitespace(core[0]) && !whitespace(core.last()),
    ensures
        trimmed(front + core + back) == core,
{
    let all = front + core + back;
    assert forall|i: int| 0 <= i < front.len() implies #[trigger] any_space()(all[i]) by {
        assert(all[i] == front[i]);
    }
    lemma_drop_front(all, any_space(), front.len() as int);
    let rest = core + back;
    assert(all.skip(front.len() as int) == rest);
    if core.len() == 0 {
        assert forall|i: int| 0 <= i < rest.len() implies #[trigger] any_space()(rest[i]) by {
            assert(rest[i] == back[i]);
        }
        lemma_drop_front(rest, any_space(), rest.len() as int);
        assert(rest.skip(rest.len() as int) == Seq::<char>::empty());
        assert(trimmed(all) == core);
    } else {
        assert(rest[0] == core[0]);
        assert(!any_space()(rest[0]));
        assert(drop_front(rest, any_space()) == rest);
        assert forall|i: int| core.len() <= i < rest.len() implies #[trigger] any_space()(
            rest[i],
        ) by {
            assert(rest[i] == back[i - core.len()]);
        }
        lemma_drop_back(rest, any_space(), core.len() as int);
        assert(rest.take(core.len() as int) == core);
        assert(!any_space()(core.last()));
    }
}

/// Of the ASCII characters the space and the five from tab to carriage return
/// are whitespace, and of the others the blanks and separators of Unicode.
pub proof fn whitespace_is_known(c: char)
    ensures
        c as u32 <= 0x7F ==> (whitespace(c) <==> c == ' ' || c == '\t' || c == '\n' || c == '\u{B}'
            || c == '\u{C}' || c == '\r'),
        c as u32 > 0x7F ==> (whitespace(c) <==> c == '\u{85}' || c == '\u{A0}' || c == '\u{1680}'
            || '\u{2000}' <= c <= '\u{200A}' || c == '\u{2028}' || c == '\u{2029}' || c
            == '\u{202F}' || c == '\u{205F}' || c == '\u{3000}'),
{
}

/// A separator splits what stands in front of it from what stands behind it,
/// and a text without separators is one part.
pub proof fn separators_split_text(a: Seq<char>, c: char, b: Seq<char>)
    requires
        forall|i: int| 0 <= i < a.len() ==> #[trigger] a[i] != c,
    ensures
        split(a, c) == seq![a],
        split(a.push(c) + b, c) == seq![a] + split(b, c),
{
    let all = a.push(c) + b;
    let n = a.len() as int;
    lemma_find(a, c, n);
    assert forall|i: int| 0 <= i < n implies all[i] != c by {
        assert(all[i] == a[i]);
    }
    assert(all[n] == c);
    lemma_find(all, c, n);
    assert(all.take(n) == a);
    assert(all.skip(n + 1) == b);
}

proof fn lemma_drop_front_add(a: Seq<char>, b: Seq<char>, p: spec_fn(char) -> bool)
    ensures
        drop_front(a + b, p) == if drop_front(a, p).len() > 0 {
            drop_front(a, p) + b
        } else {
            drop_front(b, p)
        },
    decreases a.len(),
{
    if a.len() == 0 {
        assert(a + b == b);
    } else {
        assert((a + b)[0] == a[0]);
        if p(a[0]) {
            lemma_drop_front_add(a.drop_first(), b, p);
            assert((a + b).drop_first() == a.drop_first() + b);
        }
    }
}

proof fn lemma_word_len_ends(s: Seq<char>)
    ensures
        word_len(s) <= s.len(),
        forall|i: int| 0 <= i < word_len(s) ==> !whitespace(#[trigger] s[i]),
        word_len(s) < s.len() ==> whitespace(s[word_len(s) as int]),
    decreases s.len(),
{
    if s.len() > 0 && !whitespace(s[0]) {
        let rest = s.drop_first();
        lemma_word_len_ends(rest);
        assert forall|i: int| 0 <= i < word_len(s) implies !whitespace(#[trigger] s[i]) by {
            if i > 0 {
                assert(s[i] == rest[i - 1]);
            }
        }
        if word_len(s) < s.len() {
            assert(s[word_len(s) as int] == rest[word_len(rest) as int]);
        }
    }
}

/// Whitespace splits a text into words, and a text without whitespace is one
/// word, unless it is empty.
pub proof fn whitespace_splits_words(a: Seq<char>, space: char, b: Seq<char>)
    requires
        whitespace(space),
    ensures
        words(a.push(space) + b) == words(a) + words(b),
        words(Seq::<char>::empty()) == Seq::<Seq<char>>::empty(),
    decreases a.len(),
{
    let all = a.push(space) + b;
    let tail = seq![space] + b;
    assert(all == a + tail);
    let t = drop_front(a, any_space());
    lemma_drop_front_add(a, tail, any_space());
    lemma_drop_front_bounds(a, any_space());
    if t.len() == 0 {
        assert(any_space()(tail[0]));
        assert(tail.drop_first() == b);
        assert(drop_front(tail, any_space()) == drop_front(b, any_space()));
        assert(drop_front(all, any_space()) == drop_front(b, any_space()));
        lemma_words_skip(all, b);
        assert(words(a) + words(b) == words(b));
    } else {
        let whole = t + tail;
        let n = word_len(t) as int;
        lemma_word_len_ends(t);
        assert forall|i: int| 0 <= i < n implies !whitespace(#[trigger] whole[i]) by {
            assert(whole[i] == t[i]);
        }
        if n < t.len() {
            assert(whole[n] == t[n]);
        } else {
            assert(whole[n] == space);
        }
        lemma_word_len(whole, n);
        assert(!any_space()(t[0]));
        assert(!whitespace(t[0]));
        assert(n > 0);
        let rest = t.skip(n);
        whitespace_splits_words(rest, space, b);
        assert(whole.take(n) == t.take(n));
        assert(whole.skip(n) == rest.push(space) + b);
        assert(words(all) == seq![t.take(n)] + words(whole.skip(n)));
        assert(words(a) == seq![t.take(n)] + words(rest));
        assert(seq![t.take(n)] + (words(rest) + words(b)) == seq![t.take(n)] + words(rest) + words(
            b,
        ));
    }
}

proof fn lemma_words_skip(a: Seq<char>, b: Seq<char>)
    requires
        drop_front(a, any_space()) == drop_front(b, any_space()),
    ensures
        words(a) == words(b),
{
}

/// A text without whitespace is one word, unless it is empty.
pub proof fn unbroken_text_is_one_word(word: Seq<char>)
    requires
        word.len() > 0,
        forall|i: int| 0 <= i < word.len() ==> !whitespace(#[trigger] word[i]),
    ensures
        words(word) == seq![word],
{
    assert(!any_space()(word[0]));
    assert(drop_front(word, any_space()) == word);
    lemma_word_len(word, word.len() as int);
    assert(word.take(word.len() as int) == word);
    assert(word.skip(word.len() as int) == Seq::<char>::empty());
    assert(words(Seq::<char>::empty()) == Seq::<Seq<char>>::empty());
}

/// A negative number is written as its opposite behind a minus sign.
pub proof fn minus_sign_negates(n: nat)
    ensures
        signed_decimal(n as int) == decimal(n),
        n > 0 ==> signed_decimal(-(n as int)) == seq!['-'] + decimal(n),
{
    reveal_strlit("-");
    assert("-"@ == seq!['-']);
}

} // verus!
