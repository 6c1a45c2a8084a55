//! The four tools: read, bash, edit and write.

pub mod bash;
pub mod edit;
pub mod read;
pub mod write;

use vstd::prelude::*;
use vstd::string::*;

use crate::chars;

verus! {

/// `bash` structured output: the command's execution result.
#[derive(Debug)]
pub struct BashOutput {
    /// Process exit code; 124 means the command timed out.
    pub exit_code: i32,
    /// Merged stdout/stderr as shown to the agent: tail-truncated to the
    /// last 2000 lines / 50 KiB, with the exit/tail note appended.
    pub output: String,
    /// Standard output (tail-truncated view).
    pub stdout: String,
    /// Standard error (tail-truncated view).
    pub stderr: String,
    /// Path to the complete output saved under /tmp when truncation occurred.
    pub full_output_log: Option<String>,
    /// Present (true) only when the command was killed for exceeding its timeout.
    pub timed_out: Option<bool>,
}

/// `edit` structured output: what changed and where.
#[derive(Debug)]
pub struct EditOutput {
    /// Always true on success.
    pub success: bool,
    /// The file that was edited.
    pub path: String,
    /// Number of replacements applied.
    pub replacements: usize,
    /// 1-based line number of the first changed line in the new file.
    pub first_changed_line: Option<u32>,
    /// Context diff of the changes (unified hunks).
    pub diff: String,
    /// Standard unified diff patch.
    pub patch: String,
}

/// `write` structured output: confirmation of what was written.
#[derive(Debug)]
pub struct WriteOutput {
    /// Always true on success.
    pub success: bool,
    /// The file that was written.
    pub path: String,
    /// Number of bytes written.
    pub bytes: usize,
}

/// `read` structured output: the requested file region.
#[derive(Debug)]
pub struct ReadOutput {
    /// The file that was read.
    pub path: String,
    /// The text content (subject to the 2000-line / 50KB head truncation).
    pub content: String,
    /// 1-based first line included in `content`.
    pub start_line: Option<u32>,
    /// 1-based last line included in `content`.
    pub end_line: Option<u32>,
    /// Total lines in the file, when known.
    pub total_lines: Option<u32>,
    /// Set when the file is an image; `content` then describes it and the
    /// image block rides alongside as MCP image content.
    pub image_mime_type: Option<String>,
}

#[derive(Debug)]
pub struct ReadParams {
    /// File path, relative to the workspace root or absolute inside it.
    /// Supports text files and images.
    pub path: String,
    /// 1-based line number to start reading from. Defaults to 1.
    pub offset: Option<u32>,
    /// Maximum number of lines to return. Defaults to 2000.
    pub limit: Option<u32>,
}

#[derive(Debug, Clone)]
pub struct EditEntry {
    /// Exact text in the current file to replace. Must match exactly one
    /// unique, non-overlapping region of the original file.
    pub old_text: String,
    /// Replacement text.
    pub new_text: String,
}

#[derive(Debug)]
pub struct EditParams {
    /// File path, relative to the workspace root or absolute inside it.
    pub path: String,
    /// One or more replacements. Each oldText is matched against the original
    /// file contents (before any replacement is applied); all edits are
    /// applied atomically in a single call.
    pub edits: Vec<EditEntry>,
}

#[derive(Debug)]
pub struct WriteParams {
    /// File path, relative to the workspace root or absolute inside it.
    /// Parent directories are created as needed.
    pub path: String,
    /// The complete new file content.
    pub content: String,
}

/// Whether a text holds nothing but whitespace.
pub open spec fn is_blank(s: Seq<char>) -> bool {
    forall|i: int| 0 <= i < s.len() ==> chars::whitespace(#[trigger] s[i])
}

/// The predicate that holds of line feeds and carriage returns.
pub open spec fn line_end() -> spec_fn(char) -> bool {
    |c: char| c == '\n' || c == '\r'
}

/// A text with a note behind it: after a blank line, or alone where the text
/// is blank.
pub open spec fn noted(text: Seq<char>, note: Seq<char>) -> Seq<char> {
    if is_blank(text) {
        note
    } else {
        chars::drop_back(text, line_end()) + "\n\n"@ + note
    }
}

/// Append a status note after existing content, separated by a blank line
/// (or as the whole content when nothing precedes it).
pub fn append_note(text: &mut String, note: String)
    ensures
        final(text)@ == noted(old(text)@, note@),
{
    let s: Vec<char> = chars::to_chars(text.as_str());
    let n: usize = s.len();
    let mut i: usize = 0;
    while i < n && chars::is_whitespace(s[i])
        invariant
            n == s@.len(),
            i <= n,
            forall|k: int| 0 <= k < i ==> chars::whitespace(#[trigger] s@[k]),
        decreases n - i,
    {
        i = i + 1;
    }
    if i == n {
        *text = note;
        return ;
    }
    assert(!chars::whitespace(s@[i as int]));
    let mut end: usize = n;
    while end > 0 && (s[end - 1] == '\n' || s[end - 1] == '\r')
        invariant
            n == s@.len(),
            end <= n,
            forall|k: int| end <= k < n ==> #[trigger] line_end()(s@[k]),
        decreases end,
    {
        end = end - 1;
    }
    proof {
        chars::lemma_drop_back(s@, line_end(), end as int);
        assert(s@.subrange(0, end as int) == s@.take(end as int));
    }
    let mut out: String = chars::from_chars(vstd::slice::slice_subrange(s.as_slice(), 0, end));
    out.append("\n\n");
    out.append(note.as_str());
    *text = out;
}

/// A note stands behind the text after a blank line: the line ends at the end
/// of the text are replaced by it, and nothing else of the text is lost. Behind
/// blank text the note stands alone.
pub proof fn note_follows_the_text(kept: Seq<char>, ends: Seq<char>, note: Seq<char>)
    requires
        forall|i: int| 0 <= i < ends.len() ==> #[trigger] ends[i] == '\n' || ends[i] == '\r',
        kept.len() > 0 ==> kept.last() != '\n' && kept.last() != '\r',
    ensures
        (exists|i: int| 0 <= i < kept.len() && !chars::whitespace(#[trigger] kept[i])) ==> noted(
            kept + ends,
            note,
        ) == kept + "\n\n"@ + note,
        (forall|i: int| 0 <= i < kept.len() ==> chars::whitespace(#[trigger] kept[i])) ==> noted(
            kept + ends,
            note,
        ) == note,
{
    let all = kept + ends;
    if exists|i: int| 0 <= i < kept.len() && !chars::whitespace(#[trigger] kept[i]) {
        let i = choose|i: int| 0 <= i < kept.len() && !chars::whitespace(#[trigger] kept[i]);
        assert(all[i] == kept[i]);
        assert forall|k: int| kept.len() <= k < all.len() implies #[trigger] line_end()(all[k]) by {
            assert(all[k] == ends[k - kept.len()]);
        }
        chars::lemma_drop_back(all, line_end(), kept.len() as int);
        assert(all.take(kept.len() as int) == kept);
        assert(!line_end()(kept.last()));
    } else {
        assert forall|k: int| 0 <= k < all.len() implies chars::whitespace(#[trigger] all[k]) by {
            if k < kept.len() {
                assert(all[k] == kept[k]);
            } else {
                assert(all[k] == ends[k - kept.len()]);
            }
        }
    }
}

} // verus!
