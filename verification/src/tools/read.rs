//! The `read` tool: text files with offset/limit pagination, head truncation
//! and giant-line notices, and images, downscaled where they are large.

pub mod image;

use vstd::prelude::*;
use vstd::string::*;
use vstd::utf8::*;

use crate::chars;
use crate::output::truncate;
use crate::output::truncate::{MAX_BYTES, MAX_LINES};
use crate::tools;
use crate::tools::edit;
use crate::tools::ReadOutput;

verus! {

/// Hard ceiling for a single read; larger files must go through bash.
pub const MAX_READ_BYTES: u64 = 67108864;

/// What the file system says of a path before it is read.
#[derive(Debug, Clone, Copy, PartialEq, Eq, Structural)]
pub struct FileInfo {
    pub is_dir: bool,
    pub len: u64,
}

/// What a read gives.
pub struct Page {
    pub content: Seq<char>,
    pub start_line: Option<u32>,
    pub end_line: Option<u32>,
    pub total_lines: Option<u32>,
    pub image_mime_type: Option<Seq<char>>,
}

// ---------------------------------------------------------------------------
// What is checked before the file is read
// ---------------------------------------------------------------------------

/// What is wrong with the requested window, if anything.
pub open spec fn invalid_window(offset: Option<u32>, limit: Option<u32>) -> Option<Seq<char>> {
    if offset == Some(0u32) {
        Some("Invalid offset: must be at least 1 (lines are 1-based)"@)
    } else if limit == Some(0u32) {
        Some("Invalid limit: must be at least 1"@)
    } else {
        None
    }
}

/// Check the requested window before any file is touched.
pub fn validate(offset: Option<u32>, limit: Option<u32>) -> (r: Result<(), String>)
    ensures
        match r {
            Ok(_) => invalid_window(offset, limit) is None,
            Err(m) => invalid_window(offset, limit) == Some(m@),
        },
{
    match offset {
        Some(0) => {
            return Err(
                String::from_str("Invalid offset: must be at least 1 (lines are 1-based)"),
            );
        },
        _ => {},
    }
    match limit {
        Some(0) => Err(String::from_str("Invalid limit: must be at least 1")),
        _ => Ok(()),
    }
}

/// Why a file is not read, if it is not.
pub open spec fn unreadable(path: Seq<char>, info: Option<FileInfo>) -> Option<Seq<char>> {
    match info {
        None => Some("File not found: "@ + path),
        Some(info) => if info.is_dir {
            Some(
                path + " is a directory; use bash (e.g. `ls -la "@ + path + "`) to inspect it"@,
            )
        } else if info.len > MAX_READ_BYTES {
            Some(
                path + " is "@ + chars::decimal(info.len as nat) + " bytes, above the "@
                    + chars::decimal(MAX_READ_BYTES as nat)
                    + " byte read limit; use bash to read it in chunks"@,
            )
        } else {
            None
        },
    }
}

/// Check what the file system says of the path before the file is read.
pub fn check_file(path: &str, info: Option<FileInfo>) -> (r: Result<(), String>)
    ensures
        match r {
            Ok(_) => unreadable(path@, info) is None,
            Err(m) => unreadable(path@, info) == Some(m@),
        },
{
    match info {
        None => {
            let mut m: String = String::from_str("File not found: ");
            m.append(path);
            Err(m)
        },
        Some(info) => {
            if info.is_dir {
                let mut m: String = path.to_owned();
                m.append(" is a directory; use bash (e.g. `ls -la ");
                m.append(path);
                m.append("`) to inspect it");
                return Err(m);
            }
            if info.len > MAX_READ_BYTES {
                let mut m: String = path.to_owned();
                m.append(" is ");
                m.append(chars::decimal_text(info.len).as_str());
                m.append(" bytes, above the ");
                m.append(chars::decimal_text(MAX_READ_BYTES).as_str());
                m.append(" byte read limit; use bash to read it in chunks");
                return Err(m);
            }
            Ok(())
        },
    }
}

// ---------------------------------------------------------------------------
// The window of a text file
// ---------------------------------------------------------------------------

/// How many lines a read may return.
pub open spec fn line_budget(limit: Option<u32>) -> nat {
    match limit {
        Some(l) if l < MAX_LINES => l as nat,
        _ => MAX_LINES as nat,
    }
}

/// How many lines from `start` on a read returns.
pub open spec fn shown(lines: Seq<Seq<char>>, start: int, limit: Option<u32>) -> nat {
    truncate::head_count(lines.skip(start), line_budget(limit), MAX_BYTES as nat)
}

/// The notice in place of a line that is too long to be returned.
pub open spec fn giant_line_text(number: nat, size: nat) -> Seq<char> {
    "[Line "@ + chars::decimal(number) + " is "@ + truncate::kb_text(size) + ", exceeds "@
        + truncate::kb_text(MAX_BYTES as nat)
        + " limit.\nUse bash to inspect the line in chunks.]"@
}

fn giant_line_message(number: usize, size: usize) -> (r: String)
    ensures
        r@ == giant_line_text(number as nat, size as nat),
{
    let mut m: String = String::from_str("[Line ");
    chars::push_number(&mut m, number);
    m.append(" is ");
    m.append(truncate::format_kb(size).as_str());
    m.append(", exceeds ");
    m.append(truncate::format_kb(MAX_BYTES).as_str());
    m.append(" limit.\nUse bash to inspect the line in chunks.]");
    m
}

/// The note behind lines `first` to `last` of a file with `total` lines, where
/// more lines follow.
pub open spec fn continue_text(
    first: nat,
    last: nat,
    total: nat,
    limit: Option<u32>,
) -> Seq<char> {
    let count = last - first + 1;
    if count < line_budget(limit) {
        "[Showing lines "@ + chars::decimal(first) + "-"@ + chars::decimal(last) + " of "@
            + chars::decimal(total) + " ("@ + truncate::kb_text(MAX_BYTES as nat)
            + " limit). Use offset="@ + chars::decimal(last + 1) + " to continue.]"@
    } else if limit is Some && limit->Some_0 < MAX_LINES {
        "["@ + chars::decimal((total - last) as nat) + " more lines in file. Use offset="@
            + chars::decimal(last + 1) + " to continue.]"@
    } else {
        "[Showing lines "@ + chars::decimal(first) + "-"@ + chars::decimal(last) + " of "@
            + chars::decimal(total) + ". Use offset="@ + chars::decimal(last + 1)
            + " to continue.]"@
    }
}

fn continue_message(first: usize, last: usize, total: usize, limit: Option<u32>) -> (r: String)
    requires
        1 <= first <= last < total,
    ensures
        r@ == continue_text(first as nat, last as nat, total as nat, limit),
{
    let count: usize = last - first + 1;
    let (budget, user_limited) = budget_of(limit);
    let mut m: String;
    if count < budget {
        m = String::from_str("[Showing lines ");
        chars::push_number(&mut m, first);
        m.append("-");
        chars::push_number(&mut m, last);
        m.append(" of ");
        chars::push_number(&mut m, total);
        m.append(" (");
        m.append(truncate::format_kb(MAX_BYTES).as_str());
        m.append(" limit). Use offset=");
    } else if user_limited {
        m = String::from_str("[");
        chars::push_number(&mut m, total - last);
        m.append(" more lines in file. Use offset=");
    } else {
        m = String::from_str("[Showing lines ");
        chars::push_number(&mut m, first);
        m.append("-");
        chars::push_number(&mut m, last);
        m.append(" of ");
        chars::push_number(&mut m, total);
        m.append(". Use offset=");
    }
    chars::push_number(&mut m, last + 1);
    m.append(" to continue.]");
    m
}

/// How many lines a read may return, and whether the caller asked for fewer
/// than it might.
fn budget_of(limit: Option<u32>) -> (r: (usize, bool))
    ensures
        r.0 == line_budget(limit),
        r.1 == (limit is Some && limit->Some_0 < MAX_LINES),
{
    match limit {
        Some(l) => if (l as usize) < MAX_LINES {
            (l as usize, true)
        } else {
            (MAX_LINES, false)
        },
        None => (MAX_LINES, false),
    }
}

/// The requested window of a text, from line `offset` on, counted from one.
pub open spec fn window(text: Seq<char>, offset: u32, limit: Option<u32>) -> Result<
    Page,
    Seq<char>,
> {
    let lines = chars::lines(text);
    let total = lines.len();
    let start = offset - 1;
    if total == 0 {
        Ok(
            Page {
                content: "(file is empty)"@,
                start_line: None,
                end_line: None,
                total_lines: Some(0u32),
                image_mime_type: None,
            },
        )
    } else if start >= total {
        Err(
            "Offset "@ + chars::decimal(offset as nat) + " is beyond end of file ("@
                + chars::decimal(total) + " lines total)"@,
        )
    } else {
        let count = shown(lines, start, limit);
        let end = start + count;
        let kept = lines.subrange(start, end).flatten();
        Ok(
            Page {
                content: if count == 0 {
                    giant_line_text(offset as nat, chars::utf8_len(lines[start]))
                } else if end < total {
                    tools::noted(kept, continue_text(offset as nat, end as nat, total, limit))
                } else {
                    kept
                },
                start_line: Some(offset),
                end_line: Some(
                    if count == 0 {
                        offset
                    } else {
                        end as u32
                    },
                ),
                total_lines: Some(total as u32),
                image_mime_type: None,
            },
        )
    }
}

/// What a read reports, as a page.
pub open spec fn page_of(output: ReadOutput) -> Page {
    Page {
        content: output.content@,
        start_line: output.start_line,
        end_line: output.end_line,
        total_lines: output.total_lines,
        image_mime_type: match output.image_mime_type {
            Some(mime) => Some(mime@),
            None => None,
        },
    }
}

/// A read gives this page of this file, or this message.
pub open spec fn gives(
    r: Result<ReadOutput, String>,
    path: Seq<char>,
    expected: Result<Page, Seq<char>>,
) -> bool {
    match r {
        Ok(output) => output.path@ == path && expected == Ok::<Page, Seq<char>>(page_of(output)),
        Err(m) => expected == Err::<Page, Seq<char>>(m@),
    }
}

/// The requested window of a text file.
pub fn read_window(path: &str, text: &str, offset: u32, limit: Option<u32>) -> (r: Result<
    ReadOutput,
    String,
>)
    requires
        offset >= 1,
        limit != Some(0u32),
    ensures
        gives(r, path@, window(text@, offset, limit)),
{
    let s: Vec<char> = chars::to_chars(text);
    let cuts: Vec<usize> = chars::line_cuts(s.as_slice());
    let total: usize = cuts.len() - 1;
    let ghost lines = chars::lines(text@);
    if total == 0 {
        return Ok(
            ReadOutput {
                path: path.to_owned(),
                content: String::from_str("(file is empty)"),
                start_line: None,
                end_line: None,
                total_lines: Some(0),
                image_mime_type: None,
            },
        );
    }
    let start: usize = (offset - 1) as usize;
    if start >= total {
        let mut m: String = String::from_str("Offset ");
        m.append(chars::decimal_text(offset as u64).as_str());
        m.append(" is beyond end of file (");
        chars::push_number(&mut m, total);
        m.append(" lines total)");
        return Err(m);
    }
    let (budget, _) = budget_of(limit);
    let count: usize = truncate::fitting_lines(s.as_slice(), &cuts, start, budget, MAX_BYTES);
    proof {
        truncate::lemma_head_count(
            lines.skip(start as int),
            budget as nat,
            MAX_BYTES as nat,
            count as nat,
        );
        assert(lines.skip(start as int).len() == total - start);
    }
    let total_lines: Option<u32> = Some(
        #[verifier::truncate]
        (total as u32),
    );
    if count == 0 {
        let size: usize = chars::span_len(s.as_slice(), cuts[start], cuts[start + 1]);
        proof {
            chars::lemma_span_of_lines(text@, cuts@, start as int, start + 1);
            let one = lines.subrange(start as int, start + 1);
            assert(one == Seq::<Seq<char>>::empty().push(lines[start as int]));
            chars::lemma_flatten_push(Seq::<Seq<char>>::empty(), lines[start as int]);
            assert(Seq::<Seq<char>>::empty().flatten() == Seq::<char>::empty());
            assert(one.flatten() == lines[start as int]);
        }
        return Ok(
            ReadOutput {
                path: path.to_owned(),
                content: giant_line_message(start + 1, size),
                start_line: Some(offset),
                end_line: Some(offset),
                total_lines,
                image_mime_type: None,
            },
        );
    }
    let end: usize = start + count;
    let kept = vstd::slice::slice_subrange(s.as_slice(), cuts[start], cuts[end]);
    let mut content: String = chars::from_chars(kept);
    proof {
        chars::lemma_span_of_lines(text@, cuts@, start as int, end as int);
    }
    if end < total {
        let note: String = continue_message(start + 1, end, total, limit);
        tools::append_note(&mut content, note);
    }
    Ok(
        ReadOutput {
            path: path.to_owned(),
            content,
            start_line: Some(offset),
            end_line: Some(
                #[verifier::truncate]
                (end as u32),
            ),
            total_lines,
            image_mime_type: None,
        },
    )
}

// ---------------------------------------------------------------------------
// The tool
// ---------------------------------------------------------------------------

/// The requested part of a file that holds `bytes`.
pub open spec fn page(
    path: Seq<char>,
    offset: Option<u32>,
    limit: Option<u32>,
    bytes: Seq<u8>,
) -> Result<Page, Seq<char>> {
    match image::mime_of(bytes) {
        Some(mime) => Ok(
            Page {
                content: "Read image file ["@ + mime + "]"@,
                start_line: None,
                end_line: None,
                total_lines: None,
                image_mime_type: Some(mime),
            },
        ),
        None => if edit::looks_binary(bytes) {
            Err(path + " appears to be a binary file; use bash to inspect it"@)
        } else if !valid_utf8(bytes) {
            Err(path + " is not valid UTF-8 text"@)
        } else {
            window(
                decode_utf8(bytes),
                match offset {
                    Some(o) => o,
                    None => 1,
                },
                limit,
            )
        },
    }
}

/// What a read request gives, from what the file system says of the path and
/// what reading it gave.
pub open spec fn outcome(
    path: Seq<char>,
    offset: Option<u32>,
    limit: Option<u32>,
    info: Option<FileInfo>,
    contents: Result<Seq<u8>, Seq<char>>,
) -> Result<Page, Seq<char>> {
    match (invalid_window(offset, limit), unreadable(path, info), contents) {
        (Some(m), _, _) => Err(m),
        (None, Some(m), _) => Err(m),
        (None, None, Err(e)) => Err("failed to read "@ + path + ": "@ + e),
        (None, None, Ok(bytes)) => page(path, offset, limit, bytes),
    }
}

/// Read a file, given what the file system says of it and what reading it
/// gave.
pub fn run(
    path: &str,
    offset: Option<u32>,
    limit: Option<u32>,
    info: Option<FileInfo>,
    contents: Result<Vec<u8>, String>,
) -> (r: Result<ReadOutput, String>)
    ensures
        gives(r, path@, outcome(path@, offset, limit, info, image::data_view(contents))),
{
    match validate(offset, limit) {
        Err(m) => {
            return Err(m);
        },
        Ok(_) => {},
    }
    match check_file(path, info) {
        Err(m) => {
            return Err(m);
        },
        Ok(_) => {},
    }
    let bytes: Vec<u8> = match contents {
        Err(e) => {
            let mut m: String = String::from_str("failed to read ");
            m.append(path);
            m.append(": ");
            m.append(e.as_str());
            return Err(m);
        },
        Ok(bytes) => bytes,
    };
    match image::detect_image_mime(bytes.as_slice()) {
        Some(mime) => {
            let mut content: String = String::from_str("Read image file [");
            content.append(mime);
            content.append("]");
            return Ok(
                ReadOutput {
                    path: path.to_owned(),
                    content,
                    start_line: None,
                    end_line: None,
                    total_lines: None,
                    image_mime_type: Some(mime.to_owned()),
                },
            );
        },
        None => {},
    }
    if edit::sniff_binary(bytes.as_slice()) {
        let mut m: String = path.to_owned();
        m.append(" appears to be a binary file; use bash to inspect it");
        return Err(m);
    }
    match chars::decode(bytes) {
        None => {
            let mut m: String = path.to_owned();
            m.append(" is not valid UTF-8 text");
            Err(m)
        },
        Some(text) => {
            let first: u32 = match offset {
                Some(o) => o,
                None => 1,
            };
            read_window(path, text.as_str(), first, limit)
        },
    }
}

// ---------------------------------------------------------------------------
// Pagination
// ---------------------------------------------------------------------------

/// The lines that a reader collects who starts at line `start` and follows the
/// notes to the end of the file.
pub open spec fn followed(lines: Seq<Seq<char>>, start: int, limit: Option<u32>) -> Seq<char>
    decreases lines.len() - start,
{
    let count = shown(lines, start, limit);
    if start < 0 || start >= lines.len() || count == 0 {
        Seq::empty()
    } else {
        proof {
            truncate::lemma_head_count_exists(
                lines.skip(start),
                line_budget(limit),
                MAX_BYTES as nat,
                0,
            );
        }
        lines.subrange(start, start + count).flatten() + followed(lines, start + count, limit)
    }
}

/// Following the notes from any line gives the rest of the file, with nothing
/// left out and nothing twice, where no line is too long to be returned.
pub proof fn pages_cover_the_file(lines: Seq<Seq<char>>, start: int, limit: Option<u32>)
    requires
        0 <= start <= lines.len(),
        limit != Some(0u32),
        forall|i: int|
            0 <= i < lines.len() ==> chars::utf8_len(#[trigger] lines[i]) <= MAX_BYTES,
    ensures
        followed(lines, start, limit) == lines.skip(start).flatten(),
    decreases lines.len() - start,
{
    let rest = lines.skip(start);
    if start < lines.len() {
        let budget = line_budget(limit);
        truncate::lemma_head_count_exists(rest, budget, MAX_BYTES as nat, 0);
        let count = shown(lines, start, limit);
        assert(truncate::is_head_count(rest, budget, MAX_BYTES as nat, count));
        if count == 0 {
            assert(rest.take(1) == Seq::<Seq<char>>::empty().push(lines[start]));
            chars::lemma_flatten_push(Seq::<Seq<char>>::empty(), lines[start]);
            assert(Seq::<Seq<char>>::empty().flatten() == Seq::<char>::empty());
            assert(rest.take(1).flatten() == lines[start]);
            assert(false);
        }
        pages_cover_the_file(lines, start + count, limit);
        chars::lemma_flatten_split(rest, count as int);
        assert(rest.take(count as int) == lines.subrange(start, start + count));
        assert(rest.skip(count as int) == lines.skip(start + count));
    } else {
        assert(rest == Seq::<Seq<char>>::empty());
        assert(rest.flatten() == Seq::<char>::empty());
    }
}

/// A read gives back what a write wrote. Any window of the file is that window
/// of the written content, content within the limits comes back whole, and
/// following the notes collects all of it where no line is too long to be
/// returned. This leaves out content that is empty, begins like an image or
/// looks binary, for which a read says so instead.
pub proof fn read_gives_back_what_was_written(
    path: Seq<char>,
    content: Seq<char>,
    offset: Option<u32>,
    limit: Option<u32>,
)
    requires
        content.len() > 0,
        image::mime_of(encode_utf8(content)) is None,
        !edit::looks_binary(encode_utf8(content)),
        limit != Some(0u32),
    ensures
        ({
            let lines = chars::lines(content);
            let bytes = encode_utf8(content);
            &&& page(path, offset, limit, bytes) == window(
                content,
                match offset {
                    Some(o) => o,
                    None => 1,
                },
                limit,
            )
            &&& chars::utf8_len(content) <= MAX_BYTES && lines.len() <= MAX_LINES ==> page(
                path,
                None,
                None,
                bytes,
            ) == Ok::<Page, Seq<char>>(
                Page {
                    content,
                    start_line: Some(1u32),
                    end_line: Some(lines.len() as u32),
                    total_lines: Some(lines.len() as u32),
                    image_mime_type: None,
                },
            )
            &&& (forall|i: int|
                0 <= i < lines.len() ==> chars::utf8_len(#[trigger] lines[i]) <= MAX_BYTES)
                ==> followed(lines, 0, limit) == content
        }),
{
    let lines = chars::lines(content);
    encode_utf8_valid_utf8(content);
    encode_utf8_decode_utf8(content);
    chars::lemma_lines_rejoin(content);
    assert(lines.skip(0) == lines);
    assert(lines.len() > 0) by {
        if lines.len() == 0 {
            assert(lines == Seq::<Seq<char>>::empty());
            assert(lines.flatten() == Seq::<char>::empty());
        }
    }
    if chars::utf8_len(content) <= MAX_BYTES && lines.len() <= MAX_LINES {
        assert(lines.take(lines.len() as int) == lines);
        truncate::lemma_head_count(lines, MAX_LINES as nat, MAX_BYTES as nat, lines.len());
        assert(shown(lines, 0, None) == lines.len());
        assert(lines.subrange(0, lines.len() as int) == lines);
    }
    if forall|i: int| 0 <= i < lines.len() ==> chars::utf8_len(#[trigger] lines[i]) <= MAX_BYTES {
        pages_cover_the_file(lines, 0, limit);
    }
}

// ---------------------------------------------------------------------------
// What a read returns
// ---------------------------------------------------------------------------

/// The most lines that a read may return: 2000, or fewer where the caller asks
/// for fewer.
pub open spec fn most_lines(limit: Option<u32>) -> int {
    if limit is Some && limit->Some_0 < 2000 {
        limit->Some_0 as int
    } else {
        2000
    }
}

/// A read from any line of the file returns exactly the lines from there to its
/// last line, which is the last one that the limits leave room for. If that is
/// the end of the file, the content is these lines and nothing else; if more
/// lines follow, the content is these lines with a note behind them that says
/// at which line to go on.
pub proof fn window_returns_its_lines(text: Seq<char>, offset: u32, limit: Option<u32>, end: u32)
    requires
        limit != Some(0u32),
        chars::lines(text).len() <= u32::MAX,
        1 <= offset <= end <= chars::lines(text).len(),
        end - offset + 1 <= most_lines(limit),
        encode_utf8(chars::lines(text).subrange(offset - 1, end as int).flatten()).len() <= 50
            * 1024,
        end == chars::lines(text).len() || end - offset + 1 == most_lines(limit) || encode_utf8(
            chars::lines(text).subrange(offset - 1, end + 1).flatten(),
        ).len() > 50 * 1024,
    ensures
        ({
            let total = chars::lines(text).len();
            let joined = chars::lines(text).subrange(offset - 1, end as int).flatten();
            let goes_on = " Use offset="@ + chars::decimal((end + 1) as nat) + " to continue.]"@;
            &&& window(text, offset, limit) matches Ok(page)
            &&& page.start_line == Some(offset)
            &&& page.end_line == Some(end)
            &&& page.total_lines == Some(total as u32)
            &&& page.image_mime_type is None
            &&& end == total ==> page.content == joined
            &&& end < total ==> page.content == tools::noted(
                joined,
                continue_text(offset as nat, end as nat, total, limit),
            )
            &&& end < total ==> goes_on.is_suffix_of(
                continue_text(offset as nat, end as nat, total, limit),
            )
        }),
{
    let lines = chars::lines(text);
    let start = offset - 1;
    let rest = lines.skip(start);
    let count = end - start;
    assert(rest.take(count) == lines.subrange(start, end as int));
    if end < lines.len() {
        assert(rest.take(count + 1) == lines.subrange(start, end + 1));
    }
    truncate::head_is_the_most_that_fits(
        rest,
        most_lines(limit) as nat,
        MAX_BYTES as nat,
        count as nat,
    );
    assert(line_budget(limit) == most_lines(limit));
    assert(shown(lines, start, limit) == count);
    if end < lines.len() {
        lemma_note_goes_on(offset as nat, end as nat, lines.len(), limit);
    }
}

proof fn lemma_note_goes_on(first: nat, last: nat, total: nat, limit: Option<u32>)
    requires
        first <= last < total,
    ensures
        (" Use offset="@ + chars::decimal(last + 1) + " to continue.]"@).is_suffix_of(
            continue_text(first, last, total, limit),
        ),
{
    reveal_strlit(" Use offset=");
    reveal_strlit(". Use offset=");
    reveal_strlit(" limit). Use offset=");
    reveal_strlit(" more lines in file. Use offset=");
    let note = continue_text(first, last, total, limit);
    let tail = chars::decimal(last + 1) + " to continue.]"@;
    let end = " Use offset="@ + chars::decimal(last + 1) + " to continue.]"@;
    assert(end == " Use offset="@ + tail);
    if last - first + 1 < line_budget(limit) {
        let front = "[Showing lines "@ + chars::decimal(first) + "-"@ + chars::decimal(last)
            + " of "@ + chars::decimal(total) + " ("@ + truncate::kb_text(MAX_BYTES as nat);
        assert(note == front + " limit). Use offset="@ + tail);
        assert(" limit). Use offset="@ == " limit). Use offset="@.take(8) + " Use offset="@);
        assert(note == (front + " limit). Use offset="@.take(8)) + end);
    } else if limit is Some && limit->Some_0 < MAX_LINES {
        let front = "["@ + chars::decimal((total - last) as nat);
        assert(note == front + " more lines in file. Use offset="@ + tail);
        assert(" more lines in file. Use offset="@ == " more lines in file. Use offset="@.take(20)
            + " Use offset="@);
        assert(note == (front + " more lines in file. Use offset="@.take(20)) + end);
    } else {
        let front = "[Showing lines "@ + chars::decimal(first) + "-"@ + chars::decimal(last)
            + " of "@ + chars::decimal(total);
        assert(note == front + ". Use offset="@ + tail);
        assert(". Use offset="@ == ". Use offset="@.take(1) + " Use offset="@);
        assert(note == (front + ". Use offset="@.take(1)) + end);
    }
}

/// What the note behind a page says: where the byte limit stopped it, which
/// lines are shown and that limit; where the caller's own limit did, how many
/// lines follow; else which lines are shown.
pub proof fn note_says_what_stopped_the_page(
    first: nat,
    last: nat,
    total: nat,
    limit: Option<u32>,
)
    requires
        1 <= first <= last < total,
    ensures
        ({
            let lines = "[Showing lines "@ + chars::decimal(first) + "-"@ + chars::decimal(last)
                + " of "@ + chars::decimal(total);
            let next = chars::decimal(last + 1) + " to continue.]"@;
            continue_text(first, last, total, limit) == if last - first + 1 < most_lines(limit) {
                lines + " ("@ + truncate::kb_text(51200) + " limit). Use offset="@ + next
            } else if limit is Some && limit->Some_0 < 2000 {
                "["@ + chars::decimal((total - last) as nat) + " more lines in file. Use offset="@
                    + next
            } else {
                lines + ". Use offset="@ + next
            }
        }),
{
    let next = chars::decimal(last + 1) + " to continue.]"@;
    let lines = "[Showing lines "@ + chars::decimal(first) + "-"@ + chars::decimal(last) + " of "@
        + chars::decimal(total);
    let kb = truncate::kb_text(51200);
    assert(lines + " ("@ + kb + " limit). Use offset="@ + next == lines + " ("@ + kb
        + " limit). Use offset="@ + chars::decimal(last + 1) + " to continue.]"@);
    assert(lines + ". Use offset="@ + next == lines + ". Use offset="@ + chars::decimal(last + 1)
        + " to continue.]"@);
    let more = "["@ + chars::decimal((total - last) as nat) + " more lines in file. Use offset="@;
    assert(more + next == more + chars::decimal(last + 1) + " to continue.]"@);
}

/// A line that is too long to be returned is replaced by a notice, and the page
/// ends with it.
pub proof fn giant_line_is_named(text: Seq<char>, offset: u32, limit: Option<u32>)
    requires
        limit != Some(0u32),
        1 <= offset <= chars::lines(text).len() <= u32::MAX,
        encode_utf8(chars::lines(text)[offset - 1]).len() > 50 * 1024,
    ensures
        window(text, offset, limit) == Ok::<Page, Seq<char>>(
            Page {
                content: "[Line "@ + chars::decimal(offset as nat) + " is "@ + truncate::kb_text(
                    encode_utf8(chars::lines(text)[offset - 1]).len(),
                ) + ", exceeds "@ + truncate::kb_text(51200)
                    + " limit.\nUse bash to inspect the line in chunks.]"@,
                start_line: Some(offset),
                end_line: Some(offset),
                total_lines: Some(chars::lines(text).len() as u32),
                image_mime_type: None,
            },
        ),
{
    let lines = chars::lines(text);
    let rest = lines.skip(offset - 1);
    let line = lines[offset - 1];
    assert(rest.take(0).flatten() == Seq::<char>::empty());
    assert(encode_utf8(Seq::<char>::empty()).len() == 0);
    assert(rest.take(1) == Seq::<Seq<char>>::empty().push(line));
    chars::lemma_flatten_push(Seq::<Seq<char>>::empty(), line);
    assert(Seq::<Seq<char>>::empty().flatten() == Seq::<char>::empty());
    assert(rest.take(1).flatten() == line);
    truncate::head_is_the_most_that_fits(rest, line_budget(limit), MAX_BYTES as nat, 0);
}

/// An offset behind the last line is refused, and an empty file is said to be
/// empty.
pub proof fn offset_behind_the_end_is_refused(text: Seq<char>, offset: u32, limit: Option<u32>)
    requires
        offset > chars::lines(text).len(),
    ensures
        chars::lines(text).len() > 0 ==> window(text, offset, limit) == Err::<Page, Seq<char>>(
            "Offset "@ + chars::decimal(offset as nat) + " is beyond end of file ("@
                + chars::decimal(chars::lines(text).len()) + " lines total)"@,
        ),
        chars::lines(text).len() == 0 ==> window(text, offset, limit) == Ok::<Page, Seq<char>>(
            Page {
                content: "(file is empty)"@,
                start_line: None,
                end_line: None,
                total_lines: Some(0u32),
                image_mime_type: None,
            },
        ),
{
}

/// What a reader collects who reads from line `offset` and goes on behind the
/// last line of each page, up to the end of the file.
pub open spec fn collected(text: Seq<char>, offset: int, limit: Option<u32>) -> Seq<char>
    decreases chars::lines(text).len() - offset + 1,
{
    let lines = chars::lines(text);
    if 1 <= offset <= lines.len() && offset <= u32::MAX {
        match window(text, offset as u32, limit) {
            Ok(page) => match page.end_line {
                Some(end) => if offset <= end <= lines.len() {
                    lines.subrange(offset - 1, end as int).flatten() + collected(
                        text,
                        end + 1,
                        limit,
                    )
                } else {
                    Seq::empty()
                },
                None => Seq::empty(),
            },
            Err(_) => Seq::empty(),
        }
    } else {
        Seq::empty()
    }
}

/// Successive pages hold the whole file from the first of them on, with nothing
/// left out and nothing twice.
pub proof fn pages_rejoin_to_the_file(text: Seq<char>, offset: int, limit: Option<u32>)
    requires
        limit != Some(0u32),
        1 <= offset,
        chars::lines(text).len() <= u32::MAX,
        forall|i: int|
            0 <= i < chars::lines(text).len() ==> encode_utf8(
                #[trigger] chars::lines(text)[i],
            ).len() <= 50 * 1024,
    ensures
        offset <= chars::lines(text).len() + 1 ==> collected(text, offset, limit) == chars::lines(
            text,
        ).skip(offset - 1).flatten(),
        offset == 1 ==> collected(text, 1, limit) == text,
    decreases chars::lines(text).len() - offset + 1,
{
    let lines = chars::lines(text);
    let rest = lines.skip(offset - 1);
    chars::lemma_lines_rejoin(text);
    assert(lines.skip(0) == lines);
    if offset <= lines.len() {
        let budget = line_budget(limit);
        truncate::lemma_head_count_exists(rest, budget, MAX_BYTES as nat, 0);
        let count = shown(lines, offset - 1, limit);
        assert(truncate::is_head_count(rest, budget, MAX_BYTES as nat, count));
        if count == 0 {
            assert(rest.take(1) == Seq::<Seq<char>>::empty().push(lines[offset - 1]));
            chars::lemma_flatten_push(Seq::<Seq<char>>::empty(), lines[offset - 1]);
            assert(Seq::<Seq<char>>::empty().flatten() == Seq::<char>::empty());
            assert(rest.take(1).flatten() == lines[offset - 1]);
            assert(encode_utf8(lines[offset - 1]).len() <= 50 * 1024);
            assert(false);
        }
        let end = offset - 1 + count;
        assert(rest.take(count as int) == lines.subrange(offset - 1, end));
        pages_rejoin_to_the_file(text, end + 1, limit);
        chars::lemma_flatten_split(rest, count as int);
        assert(rest.skip(count as int) == lines.skip(end));
    } else if offset == lines.len() + 1 {
        assert(rest == Seq::<Seq<char>>::empty());
        assert(rest.flatten() == Seq::<char>::empty());
    }
}

/// A file that is no image and holds no zero byte near its start is read as its
/// text, from its first line where no offset is given.
pub proof fn text_file_is_read_as_text(
    path: Seq<char>,
    offset: Option<u32>,
    limit: Option<u32>,
    text: Seq<char>,
)
    requires
        image::mime_of(encode_utf8(text)) is None,
        forall|i: int|
            0 <= i < encode_utf8(text).len() && i < 8192 ==> #[trigger] encode_utf8(text)[i] != 0,
    ensures
        page(path, offset, limit, encode_utf8(text)) == window(
            text,
            if offset is Some {
                offset->Some_0
            } else {
                1u32
            },
            limit,
        ),
{
    encode_utf8_valid_utf8(text);
    encode_utf8_decode_utf8(text);
    assert(!edit::looks_binary(encode_utf8(text)));
}

/// A file that is no image but holds a zero byte near its start, or is not
/// UTF-8, is not read.
pub proof fn binary_file_is_not_read(
    path: Seq<char>,
    offset: Option<u32>,
    limit: Option<u32>,
    bytes: Seq<u8>,
)
    requires
        image::mime_of(bytes) is None,
    ensures
        (exists|i: int| 0 <= i < bytes.len() && i < 8192 && #[trigger] bytes[i] == 0) ==> page(
            path,
            offset,
            limit,
            bytes,
        ) == Err::<Page, Seq<char>>(
            path + " appears to be a binary file; use bash to inspect it"@,
        ),
        !valid_utf8(bytes) ==> page(path, offset, limit, bytes) is Err,
{
}

/// A read is carried out exactly where the window is valid, the path is that of
/// a file of at most 64 MiB, and the file can be read.
pub proof fn readable_file_is_read(
    path: Seq<char>,
    offset: Option<u32>,
    limit: Option<u32>,
    info: FileInfo,
    bytes: Seq<u8>,
)
    ensures
        offset != Some(0u32) && limit != Some(0u32) && !info.is_dir && info.len <= 64 * 1024 * 1024
            ==> outcome(path, offset, limit, Some(info), Ok(bytes)) == page(
            path,
            offset,
            limit,
            bytes,
        ),
        offset == Some(0u32) || limit == Some(0u32) || info.is_dir || info.len > 64 * 1024 * 1024
            ==> outcome(path, offset, limit, Some(info), Ok(bytes)) is Err,
        outcome(path, offset, limit, None, Ok(bytes)) is Err,
{
}

/// An image file is named with its type, and the rest of the reply is left to
/// the image.
pub proof fn image_file_is_named(
    path: Seq<char>,
    offset: Option<u32>,
    limit: Option<u32>,
    bytes: Seq<u8>,
    mime: Seq<char>,
)
    requires
        image::mime_of(bytes) == Some(mime),
    ensures
        page(path, offset, limit, bytes) == Ok::<Page, Seq<char>>(
            Page {
                content: "Read image file ["@ + mime + "]"@,
                start_line: None,
                end_line: None,
                total_lines: None,
                image_mime_type: Some(mime),
            },
        ),
{
}

/// What a read reports is the page, part by part, under the path that was asked
/// for; where there is no page, the message is.
pub proof fn report_is_the_page(output: ReadOutput, message: String, path: Seq<char>, page: Page)
    ensures
        gives(Ok(output), path, Ok(page)) ==> output.path@ == path && output.content@
            == page.content && output.start_line == page.start_line && output.end_line
            == page.end_line && output.total_lines == page.total_lines,
        gives(Err(message), path, Err(page.content)) ==> message@ == page.content,
        !gives(Err(message), path, Ok(page)),
        !gives(Ok(output), path, Err(page.content)),
{
}

} // verus!
