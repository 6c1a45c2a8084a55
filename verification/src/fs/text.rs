//! Text file helpers: preservation of the byte-order mark and of line endings.

use vstd::prelude::*;
use vstd::string::*;
use vstd::utf8::*;

use crate::chars;

verus! {

/// The byte-order mark.
pub const BOM: &'static str = "\u{FEFF}";

/// Whether a text begins with the byte-order mark.
pub open spec fn has_bom(s: Seq<char>) -> bool {
    s.len() > 0 && s[0] == '\u{FEFF}'
}

/// A text without its byte-order mark, if it has one.
pub open spec fn without_bom(s: Seq<char>) -> Seq<char> {
    if has_bom(s) {
        s.skip(1)
    } else {
        s
    }
}

/// A text with the byte-order mark put in front where it belongs.
pub open spec fn with_bom(had_bom: bool, content: Seq<char>) -> Seq<char> {
    if had_bom {
        seq!['\u{FEFF}'] + content
    } else {
        content
    }
}

/// Split a leading byte-order mark off the text.
pub fn strip_bom(text: &str) -> (r: (bool, &str))
    ensures
        r.0 == has_bom(text@),
        r.1@ == without_bom(text@),
{
    let mut it = text.chars();
    match it.next() {
        Some(c) => {
            if c == '\u{FEFF}' {
                proof {
                    let bytes = text.spec_bytes();
                    let rest = text@.skip(1);
                    assert(text@ == seq![c] + rest);
                    chars::lemma_encode_add(seq![c], rest);
                    assert(seq![c].drop_first() == Seq::<char>::empty());
                    assert(encode_utf8(Seq::<char>::empty()).len() == 0);
                    assert(encode_utf8(seq![c]) == encode_scalar(c as u32));
                    assert(encode_utf8(seq![c]).len() == 3);
                    encode_utf8_valid_utf8(text@);
                    encode_utf8_valid_utf8(rest);
                    encode_utf8_first_scalar(text@);
                    assert(bytes.subrange(3, bytes.len() as int) == encode_utf8(rest));
                    assert(pop_first_scalar(bytes) == encode_utf8(rest));
                    is_char_boundary_start_end_of_seq(encode_utf8(rest));
                    assert(length_of_first_scalar(bytes) == 3);
                    assert(is_char_boundary(bytes, 3));
                }
                let (_, rest) = text.split_at(3);
                proof {
                    encode_utf8_decode_utf8(rest@);
                    encode_utf8_decode_utf8(text@.skip(1));
                }
                (true, rest)
            } else {
                (false, text)
            }
        },
        None => (false, text),
    }
}

/// Re-attach the byte-order mark that was stripped before editing.
pub fn restore_bom(had_bom: bool, content: &str) -> (r: Vec<u8>)
    ensures
        r@ == encode_utf8(with_bom(had_bom, content@)),
{
    let mut bytes: Vec<u8> = Vec::new();
    if had_bom {
        proof {
            reveal_strlit("\u{FEFF}");
            assert(BOM@ == seq!['\u{FEFF}']);
            chars::lemma_encode_add(BOM@, content@);
        }
        bytes.extend_from_slice(BOM.as_bytes());
        assert(bytes@ == encode_utf8(BOM@));
    }
    let ghost front = bytes@;
    bytes.extend_from_slice(content.as_bytes());
    assert(bytes@ == front + encode_utf8(content@));
    assert(!had_bom ==> bytes@ == encode_utf8(content@));
    bytes
}

/// Stripping the byte-order mark and putting it back gives the bytes of the
/// text again, whether it had one or not.
pub proof fn bom_round_trip(text: Seq<char>)
    ensures
        with_bom(has_bom(text), without_bom(text)) == text,
{
}

/// How many line feeds a text holds.
pub open spec fn lf_count(s: Seq<char>) -> nat
    decreases s.len(),
{
    if s.len() == 0 {
        0
    } else {
        lf_count(s.drop_last()) + if s.last() == '\n' {
            1nat
        } else {
            0nat
        }
    }
}

/// How many of the line feeds come right after a carriage return.
pub open spec fn crlf_count(s: Seq<char>) -> nat
    decreases s.len(),
{
    if s.len() == 0 {
        0
    } else {
        crlf_count(s.drop_last()) + if s.last() == '\n' && s.len() > 1 && s[s.len() - 2] == '\r' {
            1nat
        } else {
            0nat
        }
    }
}

/// Whether most line endings are CRLF: more of them than lone line feeds.
pub open spec fn mostly_crlf(s: Seq<char>) -> bool {
    crlf_count(s) > lf_count(s) - crlf_count(s)
}

/// CRLF when CRLF endings dominate the file (a tie counts as LF-only).
pub fn is_crlf(content: &str) -> (r: bool)
    ensures
        r == mostly_crlf(content@),
{
    let s: Vec<char> = chars::to_chars(content);
    let n: usize = s.len();
    let mut lf: usize = 0;
    let mut crlf: usize = 0;
    for i in 0..n
        invariant
            n == s@.len(),
            lf == lf_count(s@.take(i as int)),
            crlf == crlf_count(s@.take(i as int)),
            crlf <= lf <= i,
    {
        assert(s@.take(i + 1).drop_last() == s@.take(i as int));
        if s[i] == '\n' {
            lf = lf + 1;
            if i > 0 && s[i - 1] == '\r' {
                crlf = crlf + 1;
            }
        }
    }
    assert(s@.take(n as int) == s@);
    crlf > lf - crlf
}

/// A text with each CRLF turned into a line feed.
pub open spec fn to_lf(s: Seq<char>) -> Seq<char>
    decreases s.len(),
{
    if s.len() == 0 {
        s
    } else if s.len() > 1 && s[0] == '\r' && s[1] == '\n' {
        seq!['\n'] + to_lf(s.skip(2))
    } else {
        seq![s[0]] + to_lf(s.skip(1))
    }
}

/// A text with each line feed turned into CRLF.
pub open spec fn to_crlf(s: Seq<char>) -> Seq<char>
    decreases s.len(),
{
    if s.len() == 0 {
        s
    } else if s[0] == '\n' {
        seq!['\r', '\n'] + to_crlf(s.skip(1))
    } else {
        seq![s[0]] + to_crlf(s.skip(1))
    }
}

/// A text without the carriage returns that stand right in front of a line
/// feed, however many there are.
pub open spec fn bare_lf(s: Seq<char>) -> Seq<char>
    decreases s.len(),
{
    if s.len() == 0 {
        s
    } else {
        let front = bare_lf(s.drop_last());
        if s.last() == '\n' {
            chars::drop_back(front, chars::only('\r')).push('\n')
        } else {
            front.push(s.last())
        }
    }
}

/// A text in the line-ending style of a file.
pub open spec fn adopted(s: Seq<char>, crlf: bool) -> Seq<char> {
    if crlf {
        to_crlf(to_lf(s))
    } else {
        bare_lf(s)
    }
}

/// The characters without the carriage returns in front of line feeds.
fn to_bare_lf(s: &[char]) -> (r: Vec<char>)
    ensures
        r@ == bare_lf(s@),
{
    let n: usize = s.len();
    let mut r: Vec<char> = Vec::new();
    let mut i: usize = 0;
    assert(r@ == bare_lf(s@.take(0)));
    while i < n
        invariant
            n == s@.len(),
            i <= n,
            r@ == bare_lf(s@.take(i as int)),
        decreases n - i,
    {
        let ghost front = r@;
        assert(s@.take(i + 1).drop_last() == s@.take(i as int));
        if s[i] == '\n' {
            while r.len() > 0 && r[r.len() - 1] == '\r'
                invariant
                    chars::drop_back(front, chars::only('\r')) == chars::drop_back(
                        r@,
                        chars::only('\r'),
                    ),
                decreases r@.len(),
            {
                let ghost before = r@;
                r.pop();
                assert(chars::only('\r')(before.last()));
                assert(r@ == before.drop_last());
            }
            assert(r@.len() > 0 ==> !chars::only('\r')(r@.last()));
        }
        r.push(s[i]);
        i = i + 1;
    }
    assert(s@.take(n as int) == s@);
    r
}

/// Convert inserted replacement text to the file's line-ending style so an
/// edit never leaks foreign endings into the file.
pub fn adopt_line_endings(text: &str, crlf: bool) -> (r: String)
    ensures
        r@ == adopted(text@, crlf),
{
    let s: Vec<char> = chars::to_chars(text);
    if !crlf {
        let bare: Vec<char> = to_bare_lf(s.as_slice());
        return chars::from_chars(bare.as_slice());
    }
    let n: usize = s.len();
    let mut lf: Vec<char> = Vec::new();
    let mut i: usize = 0;
    assert(s@.skip(0) == s@);
    assert(lf@ + to_lf(s@) == to_lf(s@));
    while i < n
        invariant
            n == s@.len(),
            i <= n,
            lf@ + to_lf(s@.skip(i as int)) == to_lf(s@),
        decreases n - i,
    {
        let ghost rest = s@.skip(i as int);
        let ghost before = lf@;
        if s[i] == '\r' && i + 1 < n && s[i + 1] == '\n' {
            lf.push('\n');
            assert(rest.skip(2) == s@.skip(i + 2));
            assert(before + (seq!['\n'] + to_lf(rest.skip(2))) == lf@ + to_lf(rest.skip(2)));
            i = i + 2;
        } else {
            lf.push(s[i]);
            assert(rest.skip(1) == s@.skip(i + 1));
            assert(before + (seq![rest[0]] + to_lf(rest.skip(1))) == lf@ + to_lf(rest.skip(1)));
            i = i + 1;
        }
    }
    assert(to_lf(s@.skip(n as int)).len() == 0);
    assert(lf@ == to_lf(s@));
    let m: usize = lf.len();
    let mut out: String = String::new();
    let mut j: usize = 0;
    assert(lf@.skip(0) == lf@);
    assert(out@ + to_crlf(lf@) == to_crlf(lf@));
    while j < m
        invariant
            m == lf@.len(),
            j <= m,
            out@ + to_crlf(lf@.skip(j as int)) == to_crlf(lf@),
        decreases m - j,
    {
        let ghost rest = lf@.skip(j as int);
        let ghost before = out@;
        assert(rest.skip(1) == lf@.skip(j + 1));
        if lf[j] == '\n' {
            out.push('\r');
            out.push('\n');
            assert(before + (seq!['\r', '\n'] + to_crlf(rest.skip(1))) == out@ + to_crlf(
                rest.skip(1),
            ));
        } else {
            out.push(lf[j]);
            assert(before + (seq![rest[0]] + to_crlf(rest.skip(1))) == out@ + to_crlf(
                rest.skip(1),
            ));
        }
        j = j + 1;
    }
    assert(to_crlf(lf@.skip(m as int)).len() == 0);
    assert(out@ == to_crlf(lf@));
    out
}

/// Turning line feeds into CRLF and back gives the text again.
proof fn lemma_lf_of_crlf(s: Seq<char>)
    ensures
        to_lf(to_crlf(s)) == s,
    decreases s.len(),
{
    if s.len() > 0 {
        let rest = s.skip(1);
        lemma_lf_of_crlf(rest);
        let tail = to_crlf(rest);
        if s[0] == '\n' {
            assert(to_crlf(s).skip(2) == tail);
            assert(to_lf(to_crlf(s)) == seq!['\n'] + rest);
        } else {
            assert(to_crlf(s).skip(1) == tail);
            assert(rest.len() > 0 ==> tail[0] != '\n');
            assert(to_lf(to_crlf(s)) == seq![s[0]] + rest);
        }
        assert(seq![s[0]] + rest == s);
    }
}

/// Every line feed of a text comes right after a carriage return.
pub open spec fn only_crlf_breaks(s: Seq<char>) -> bool {
    forall|i: int| 0 <= i < s.len() && s[i] == '\n' ==> i > 0 && #[trigger] s[i - 1] == '\r'
}

proof fn lemma_crlf_breaks(s: Seq<char>)
    ensures
        only_crlf_breaks(to_crlf(s)),
    decreases s.len(),
{
    if s.len() > 0 {
        let tail = to_crlf(s.skip(1));
        lemma_crlf_breaks(s.skip(1));
        let all = to_crlf(s);
        let k: int = all.len() - tail.len();
        assert forall|i: int| 0 <= i < all.len() && all[i] == '\n' implies i > 0
            && #[trigger] all[i - 1] == '\r' by {
            if i >= k {
                assert(tail[i - k] == '\n');
                assert(i - k > 0 && tail[i - k - 1] == '\r');
            }
        }
    }
}

/// Whether a text holds a CRLF.
pub open spec fn holds_crlf(s: Seq<char>) -> bool {
    exists|i: int| 0 <= i < s.len() - 1 && #[trigger] s[i] == '\r' && s[i + 1] == '\n'
}

proof fn lemma_bare_lf(s: Seq<char>)
    ensures
        !holds_crlf(bare_lf(s)),
    decreases s.len(),
{
    if s.len() > 0 {
        let front = bare_lf(s.drop_last());
        lemma_bare_lf(s.drop_last());
        let kept = if s.last() == '\n' {
            chars::drop_back(front, chars::only('\r'))
        } else {
            front
        };
        chars::lemma_drop_back_bounds(front, chars::only('\r'));
        let all = bare_lf(s);
        assert(all == kept.push(s.last()));
        assert forall|i: int| 0 <= i < all.len() - 1 implies !(#[trigger] all[i] == '\r'
            && all[i + 1] == '\n') by {
            if i == kept.len() - 1 {
                assert(s.last() == '\n' ==> !chars::only('\r')(kept.last()));
            } else {
                assert(front[i] == all[i]);
                assert(front[i + 1] == all[i + 1]);
            }
        }
    }
}

/// A text without CRLF keeps its carriage returns.
proof fn lemma_bare_fixed(s: Seq<char>)
    requires
        !holds_crlf(s),
    ensures
        bare_lf(s) == s,
    decreases s.len(),
{
    if s.len() > 0 {
        let front = s.drop_last();
        assert forall|i: int| 0 <= i < front.len() - 1 implies !(#[trigger] front[i] == '\r'
            && front[i + 1] == '\n') by {
            assert(front[i] == s[i]);
        }
        lemma_bare_fixed(front);
        if s.last() == '\n' && front.len() > 0 {
            assert(s[s.len() - 2] == front.last());
            assert(!chars::only('\r')(front.last()));
        }
        assert(front.push(s.last()) == s);
    }
}

/// In a CRLF file every line feed of adopted text follows a carriage return,
/// and adopting the style a second time changes nothing.
pub proof fn crlf_adoption(text: Seq<char>)
    ensures
        only_crlf_breaks(adopted(text, true)),
        adopted(adopted(text, true), true) == adopted(text, true),
{
    lemma_crlf_breaks(to_lf(text));
    lemma_lf_of_crlf(to_lf(text));
}

/// In an LF file adopted text holds no CRLF, text without CRLF stays as it is,
/// and adopting the style a second time changes nothing.
pub proof fn lf_adoption(text: Seq<char>)
    ensures
        !holds_crlf(adopted(text, false)),
        !holds_crlf(text) ==> adopted(text, false) == text,
        adopted(adopted(text, false), false) == adopted(text, false),
{
    lemma_bare_lf(text);
    lemma_bare_fixed(bare_lf(text));
    if !holds_crlf(text) {
        lemma_bare_fixed(text);
    }
}

/// Parts of a text adopt a line-ending style one by one, unless they meet in
/// the middle of a line break: between a carriage return and a line feed or, in
/// front of a bare line feed, between two carriage returns.
pub proof fn parts_adopt_one_by_one(a: Seq<char>, b: Seq<char>, crlf: bool)
    requires
        a.len() > 0 && b.len() > 0 && a.last() == '\r' ==> b[0] != '\n',
        a.len() > 0 && b.len() > 0 && a.last() == '\r' && !crlf ==> b[0] != '\r',
    ensures
        adopted(a + b, crlf) == adopted(a, crlf) + adopted(b, crlf),
{
    if crlf {
        lemma_to_lf_add(a, b);
        lemma_to_crlf_add(to_lf(a), to_lf(b));
    } else {
        lemma_bare_add(a, b);
    }
}

proof fn lemma_to_lf_add(a: Seq<char>, b: Seq<char>)
    requires
        a.len() > 0 && b.len() > 0 && a.last() == '\r' ==> b[0] != '\n',
    ensures
        to_lf(a + b) == to_lf(a) + to_lf(b),
    decreases a.len(),
{
    let all = a + b;
    if a.len() == 0 {
        assert(all == b);
        assert(to_lf(a) + to_lf(b) == to_lf(b));
    } else {
        let n: int = if a.len() > 1 && a[0] == '\r' && a[1] == '\n' {
            2
        } else {
            1
        };
        let own = if n == 2 {
            seq!['\n']
        } else {
            seq![a[0]]
        };
        let rest = a.skip(n);
        assert(rest.len() > 0 ==> rest.last() == a.last());
        assert(all.skip(n) == rest + b);
        lemma_to_lf_add(rest, b);
        assert(all[0] == a[0]);
        assert(a.len() > 1 ==> all[1] == a[1]);
        assert(a.len() == 1 && b.len() > 0 ==> all[1] == b[0]);
        assert(to_lf(a) == own + to_lf(rest));
        assert(to_lf(all) == own + to_lf(rest + b));
        assert(own + (to_lf(rest) + to_lf(b)) == own + to_lf(rest) + to_lf(b));
    }
}

proof fn lemma_to_crlf_add(a: Seq<char>, b: Seq<char>)
    ensures
        to_crlf(a + b) == to_crlf(a) + to_crlf(b),
    decreases a.len(),
{
    let all = a + b;
    if a.len() == 0 {
        assert(all == b);
        assert(to_crlf(a) + to_crlf(b) == to_crlf(b));
    } else {
        let rest = a.skip(1);
        assert(all.skip(1) == rest + b);
        lemma_to_crlf_add(rest, b);
        let own = if a[0] == '\n' {
            seq!['\r', '\n']
        } else {
            seq![a[0]]
        };
        assert(to_crlf(a) == own + to_crlf(rest));
        assert(to_crlf(all) == own + to_crlf(rest + b));
        assert(own + (to_crlf(rest) + to_crlf(b)) == own + to_crlf(rest) + to_crlf(b));
    }
}

proof fn lemma_bare_add(a: Seq<char>, b: Seq<char>)
    requires
        a.len() > 0 && b.len() > 0 && a.last() == '\r' ==> b[0] != '\n' && b[0] != '\r',
    ensures
        bare_lf(a + b) == bare_lf(a) + bare_lf(b),
    decreases b.len(),
{
    let all = a + b;
    if b.len() == 0 {
        assert(all == a);
        assert(bare_lf(a) + bare_lf(b) == bare_lf(a));
    } else {
        let short = b.drop_last();
        assert(all.drop_last() == a + short);
        lemma_bare_add(a, short);
        let front = bare_lf(a);
        let back = bare_lf(short);
        if b.last() == '\n' {
            if a.len() > 0 {
                assert(front.last() == a.last());
            }
            if short.len() > 0 && a.len() > 0 && a.last() == '\r' {
                assert(short[0] == b[0]);
                lemma_bare_front(short);
            }
            lemma_drop_back_add(front, back);
            let kept = chars::drop_back(back, chars::only('\r'));
            assert((front + kept).push('\n') == front + kept.push('\n'));
        } else {
            assert((front + back).push(b.last()) == front + back.push(b.last()));
        }
    }
}

/// A text keeps its first character, unless that belongs to a line break.
proof fn lemma_bare_front(s: Seq<char>)
    requires
        s.len() > 0,
        s[0] != '\r' && s[0] != '\n',
    ensures
        bare_lf(s).len() > 0,
        bare_lf(s)[0] == s[0],
    decreases s.len(),
{
    if s.len() > 1 {
        let front = bare_lf(s.drop_last());
        lemma_bare_front(s.drop_last());
        chars::lemma_drop_back_bounds(front, chars::only('\r'));
        let kept = chars::drop_back(front, chars::only('\r'));
        lemma_drop_back_front(front);
        assert(kept.push('\n')[0] == kept[0]);
        assert(front.push(s.last())[0] == front[0]);
    } else {
        assert(s.drop_last() == Seq::<char>::empty());
        assert(bare_lf(s.drop_last()) == Seq::<char>::empty());
    }
}

proof fn lemma_drop_back_front(s: Seq<char>)
    requires
        s.len() > 0,
        s[0] != '\r',
    ensures
        chars::drop_back(s, chars::only('\r')).len() > 0,
        chars::drop_back(s, chars::only('\r'))[0] == s[0],
    decreases s.len(),
{
    if s.last() == '\r' {
        assert(s.drop_last()[0] == s[0]);
        lemma_drop_back_front(s.drop_last());
    }
}

proof fn lemma_drop_back_add(a: Seq<char>, b: Seq<char>)
    requires
        a.len() > 0 && a.last() == '\r' ==> b.len() > 0 && b[0] != '\r',
    ensures
        chars::drop_back(a + b, chars::only('\r')) == a + chars::drop_back(b, chars::only('\r')),
    decreases b.len(),
{
    if b.len() == 0 {
        assert(a + b == a);
        assert(a + chars::drop_back(b, chars::only('\r')) == a);
    } else {
        assert((a + b).last() == b.last());
        if b.last() == '\r' {
            if b.len() > 1 {
                assert(b.drop_last()[0] == b[0]);
            }
            lemma_drop_back_add(a, b.drop_last());
            assert((a + b).drop_last() == a + b.drop_last());
        }
    }
}

/// A line break becomes the line break of the style, and any other character
/// stays as it is.
pub proof fn each_break_adopts_the_style(c: char)
    ensures
        c != '\n' ==> adopted(seq![c], true) == seq![c] && adopted(seq![c], false) == seq![c],
        adopted(seq!['\n'], true) == seq!['\r', '\n'],
        adopted(seq!['\n'], false) == seq!['\n'],
        adopted(seq!['\r', '\n'], true) == seq!['\r', '\n'],
        adopted(seq!['\r', '\n'], false) == seq!['\n'],
        adopted(Seq::<char>::empty(), true) == Seq::<char>::empty(),
        adopted(Seq::<char>::empty(), false) == Seq::<char>::empty(),
{
    let none = Seq::<char>::empty();
    let one = seq![c];
    let lf = seq!['\n'];
    let crlf = seq!['\r', '\n'];
    assert(one.skip(1) == none && lf.skip(1) == none && crlf.skip(2) == none);
    assert(to_lf(none) == none && to_crlf(none) == none);
    assert(to_lf(one) == one);
    assert(to_lf(lf) == lf);
    assert(crlf[0] == '\r' && crlf[1] == '\n');
    assert(to_lf(crlf) == lf);
    assert(to_crlf(lf) == crlf);
    if c != '\n' {
        assert(to_crlf(one) == one);
        assert(!holds_crlf(one));
        lemma_bare_fixed(one);
    }
    lemma_bare_fixed(lf);
    lemma_bare_fixed(none);
    assert(crlf.drop_last() == seq!['\r']);
    let cr = seq!['\r'];
    lemma_bare_fixed(cr);
    assert(cr.drop_last() == none);
    assert(chars::only('\r')(cr.last()));
    reveal_with_fuel(chars::drop_back, 2);
    assert(chars::drop_back(cr, chars::only('\r')) == none);
    assert(bare_lf(crlf) == none.push('\n'));
    assert(none.push('\n') == lf);
}

/// Line feeds are counted one by one, and those right behind a carriage return
/// once more; a file counts as CRLF exactly when more than half of its line
/// feeds are of that kind.
pub proof fn endings_are_counted(a: Seq<char>, c: char)
    ensures
        lf_count(Seq::<char>::empty()) == 0,
        crlf_count(Seq::<char>::empty()) == 0,
        lf_count(a.push(c)) == lf_count(a) + if c == '\n' {
            1int
        } else {
            0int
        },
        crlf_count(a.push(c)) == crlf_count(a) + if c == '\n' && a.len() > 0 && a.last() == '\r' {
            1int
        } else {
            0int
        },
        mostly_crlf(a) <==> 2 * crlf_count(a) > lf_count(a),
        crlf_count(a) <= lf_count(a),
    decreases a.len(),
{
    assert(a.push(c).drop_last() == a);
    if a.len() > 0 {
        endings_are_counted(a.drop_last(), a.last());
        assert(a.drop_last().push(a.last()) == a);
        assert(a.push(c)[a.push(c).len() - 2] == a.last());
    }
}

/// A file whose line breaks are all CRLF counts as CRLF, if it has any, and one
/// without a CRLF does not.
pub proof fn uniform_endings_are_recognized(s: Seq<char>)
    ensures
        only_crlf_breaks(s) && s.contains('\n') ==> mostly_crlf(s),
        !holds_crlf(s) ==> !mostly_crlf(s),
{
    lemma_uniform_counts(s);
    if only_crlf_breaks(s) {
        assert forall|i: int| 0 <= i < s.len() && #[trigger] s[i] == '\n' implies i > 0 && s[i - 1]
            == '\r' by {
            assert(s[i - 1] == '\r');
        }
    }
}

proof fn lemma_uniform_counts(s: Seq<char>)
    ensures
        (forall|i: int|
            0 <= i < s.len() && #[trigger] s[i] == '\n' ==> i > 0 && s[i - 1] == '\r')
            ==> crlf_count(s) == lf_count(s),
        s.contains('\n') ==> lf_count(s) > 0,
        !holds_crlf(s) ==> crlf_count(s) == 0,
    decreases s.len(),
{
    if s.len() > 0 {
        let front = s.drop_last();
        lemma_uniform_counts(front);
        if forall|i: int| 0 <= i < s.len() && #[trigger] s[i] == '\n' ==> i > 0 && s[i - 1] == '\r' {
            assert forall|i: int| 0 <= i < front.len() && #[trigger] front[i] == '\n' implies i > 0
                && front[i - 1] == '\r' by {
                assert(s[i] == '\n');
            }
            assert(s[s.len() - 1] == s.last());
        }
        if s.contains('\n') && s.last() != '\n' {
            let i = choose|i: int| 0 <= i < s.len() && s[i] == '\n';
            assert(front[i] == '\n');
        }
        if !holds_crlf(s) {
            assert forall|i: int| 0 <= i < front.len() - 1 implies !(#[trigger] front[i] == '\r'
                && front[i + 1] == '\n') by {
                assert(front[i] == s[i]);
            }
            assert(!holds_crlf(front));
            if s.last() == '\n' && s.len() > 1 {
                assert(s[s.len() - 2] != '\r');
            }
        }
    }
}

/// A text without line feeds is not changed by adopting a style, and carriage
/// returns in front of a line feed vanish in a file without CRLF.
pub proof fn only_line_breaks_change(text: Seq<char>, marks: Seq<char>)
    requires
        forall|i: int| 0 <= i < text.len() ==> #[trigger] text[i] != '\n',
        forall|i: int| 0 <= i < marks.len() ==> #[trigger] marks[i] == '\r',
    ensures
        adopted(text, true) == text,
        adopted(text, false) == text,
        adopted(marks.push('\n'), false) == seq!['\n'],
{
    lemma_no_feeds(text);
    assert(!holds_crlf(text));
    lemma_bare_fixed(text);
    assert(!holds_crlf(marks));
    lemma_bare_fixed(marks);
    assert(marks.push('\n').drop_last() == marks);
    assert forall|i: int| 0 <= i < marks.len() implies #[trigger] chars::only('\r')(
        marks[i],
    ) by {}
    chars::lemma_drop_back(marks, chars::only('\r'), 0);
    assert(marks.take(0) == Seq::<char>::empty());
    assert(Seq::<char>::empty().push('\n') == seq!['\n']);
}

proof fn lemma_no_feeds(s: Seq<char>)
    requires
        forall|i: int| 0 <= i < s.len() ==> #[trigger] s[i] != '\n',
    ensures
        to_lf(s) == s,
        to_crlf(s) == s,
    decreases s.len(),
{
    if s.len() > 0 {
        let rest = s.skip(1);
        assert forall|i: int| 0 <= i < rest.len() implies #[trigger] rest[i] != '\n' by {
            assert(rest[i] == s[i + 1]);
        }
        lemma_no_feeds(rest);
        assert(seq![s[0]] + rest == s);
    }
}

} // verus!
