//! The `bash` tool: what a finished command reports. Standard output and
//! standard error are merged in the order in which they arrived; the tail is
//! shown, and the full output is kept in a log where the tail is not all of it.

use vstd::prelude::*;
use vstd::string::*;
use vstd::utf8::*;

use crate::chars;
use crate::order;
use crate::output::truncate;
use crate::output::truncate::{Tail, MAX_BYTES, MAX_LINES};
use crate::tools;
use crate::tools::BashOutput;

verus! {

/// The exit code of a command that was killed for exceeding its timeout.
pub const TIMEOUT_EXIT_CODE: i32 = 124;

/// A piece of output.
#[derive(Debug)]
pub struct Chunk {
    /// When it arrived, relative to the other pieces.
    pub seq: u64,
    /// Whether it came from standard error.
    pub stderr: bool,
    pub bytes: Vec<u8>,
}

/// How a command ended.
#[derive(Debug)]
pub enum Ending {
    /// By itself, with this exit code.
    Exited(i32),
    /// Killed after this many seconds, in words.
    TimedOut(String),
}

/// What can go wrong around a command.
#[derive(Debug, Clone, Copy, PartialEq, Eq, Structural)]
pub enum Failure {
    Spawn,
    Wait,
    Kill,
}

pub open spec fn failure_text(failure: Failure, detail: Seq<char>) -> Seq<char> {
    match failure {
        Failure::Spawn => "failed to spawn /bin/bash: "@ + detail,
        Failure::Wait => "failed to wait for bash: "@ + detail,
        Failure::Kill => "failed to kill process group: "@ + detail,
    }
}

/// The message for a failure around a command.
pub fn failure_message(failure: Failure, detail: &str) -> (r: String)
    ensures
        r@ == failure_text(failure, detail@),
{
    let mut m: String = match failure {
        Failure::Spawn => String::from_str("failed to spawn /bin/bash: "),
        Failure::Wait => String::from_str("failed to wait for bash: "),
        Failure::Kill => String::from_str("failed to kill process group: "),
    };
    m.append(detail);
    m
}

// ---------------------------------------------------------------------------
// Merging
// ---------------------------------------------------------------------------

/// Which pieces are taken: all, or those of one stream.
pub open spec fn takes(only: Option<bool>, stderr: bool) -> bool {
    match only {
        None => true,
        Some(s) => s == stderr,
    }
}

/// The bytes of the taken pieces, from the `k`-th of the order on.
pub open spec fn gathered(
    chunks: Seq<Chunk>,
    order: Seq<int>,
    only: Option<bool>,
    k: int,
) -> Seq<u8>
    decreases order.len() - k,
{
    if k < 0 || k >= order.len() {
        Seq::empty()
    } else if takes(only, chunks[order[k]].stderr) {
        chunks[order[k]].bytes@ + gathered(chunks, order, only, k + 1)
    } else {
        gathered(chunks, order, only, k + 1)
    }
}

/// The pieces by the time of their arrival.
pub open spec fn arrivals(chunks: Seq<Chunk>) -> Seq<int> {
    Seq::new(chunks.len(), |i: int| chunks[i].seq as int)
}

/// The bytes of all pieces (`None`), of standard error (`Some(true)`) or of
/// standard output (`Some(false)`), in the order of arrival.
pub open spec fn stream(chunks: Seq<Chunk>, only: Option<bool>) -> Seq<u8> {
    gathered(chunks, order::stable_order(arrivals(chunks), chunks.len()), only, 0)
}

fn gather(chunks: &[Chunk], places: &[usize], only: Option<bool>) -> (r: Vec<u8>)
    requires
        forall|i: int| 0 <= i < places@.len() ==> #[trigger] places@[i] < chunks@.len(),
    ensures
        r@ == gathered(chunks@, order::ints(places@), only, 0),
{
    let n: usize = places.len();
    let ghost all = order::ints(places@);
    let mut r: Vec<u8> = Vec::new();
    let mut k: usize = 0;
    assert(r@ + gathered(chunks@, all, only, 0) == gathered(chunks@, all, only, 0));
    while k < n
        invariant
            n == places@.len(),
            all == order::ints(places@),
            forall|i: int| 0 <= i < places@.len() ==> #[trigger] places@[i] < chunks@.len(),
            k <= n,
            gathered(chunks@, all, only, 0) == r@ + gathered(chunks@, all, only, k as int),
        decreases n - k,
    {
        let chunk: &Chunk = &chunks[places[k]];
        assert(all[k as int] == places@[k as int]);
        let taken: bool = match only {
            None => true,
            Some(s) => s == chunk.stderr,
        };
        if taken {
            let ghost before = r@;
            let mut part: Vec<u8> = crate::bytes::copy(chunk.bytes.as_slice());
            r.append(&mut part);
            proof {
                let tail = gathered(chunks@, all, only, k + 1);
                assert(before + (chunk.bytes@ + tail) == r@ + tail);
            }
        }
        k = k + 1;
    }
    assert(r@ + gathered(chunks@, all, only, n as int) == r@);
    r
}

/// The text that decoding with replacement characters makes of bytes.
pub uninterp spec fn lossy(bytes: Seq<u8>) -> Seq<char>;

/// `String::from_utf8_lossy`: the text of valid UTF-8; what is not valid is
/// replaced. The text depends on the bytes alone.
#[verifier::external_body]
fn lossy_text(bytes: &[u8]) -> (r: String)
    ensures
        r@ == lossy(bytes@),
        valid_utf8(bytes@) ==> r@ == decode_utf8(bytes@),
{
    String::from_utf8_lossy(bytes).into_owned()
}

/// The output of a command, merged.
#[derive(Debug)]
pub struct Merged {
    /// Everything, as it arrived.
    pub bytes: Vec<u8>,
    /// Everything, as text.
    pub combined: String,
    pub stdout: String,
    pub stderr: String,
}

/// Merge the pieces of output in the order of arrival.
pub fn merge(chunks: &[Chunk]) -> (r: Merged)
    ensures
        r.bytes@ == stream(chunks@, None),
        r.combined@ == lossy(stream(chunks@, None)),
        r.stdout@ == lossy(stream(chunks@, Some(false))),
        r.stderr@ == lossy(stream(chunks@, Some(true))),
        valid_utf8(stream(chunks@, None)) ==> r.combined@ == decode_utf8(stream(chunks@, None)),
        valid_utf8(stream(chunks@, Some(false))) ==> r.stdout@ == decode_utf8(
            stream(chunks@, Some(false)),
        ),
        valid_utf8(stream(chunks@, Some(true))) ==> r.stderr@ == decode_utf8(
            stream(chunks@, Some(true)),
        ),
{
    let n: usize = chunks.len();
    let mut keys: Vec<u64> = Vec::with_capacity(n);
    let mut i: usize = 0;
    while i < n
        invariant
            n == chunks@.len(),
            i <= n,
            order::int_keys(keys@) == arrivals(chunks@).take(i as int),
        decreases n - i,
    {
        let ghost before = order::int_keys(keys@);
        keys.push(chunks[i].seq);
        proof {
            let seq = chunks@[i as int].seq as int;
            assert(order::int_keys(keys@) == before.push(seq));
            assert(arrivals(chunks@).take(i + 1) == arrivals(chunks@).take(i as int).push(seq));
        }
        i = i + 1;
    }
    assert(order::int_keys(keys@) == arrivals(chunks@));
    assert(order::int_keys(keys@).len() == keys@.len());
    let places: Vec<usize> = order::order_by_key(keys.as_slice());
    let bytes: Vec<u8> = gather(chunks, places.as_slice(), None);
    let stdout: Vec<u8> = gather(chunks, places.as_slice(), Some(false));
    let stderr: Vec<u8> = gather(chunks, places.as_slice(), Some(true));
    let combined: String = lossy_text(bytes.as_slice());
    Merged {
        bytes,
        combined,
        stdout: lossy_text(stdout.as_slice()),
        stderr: lossy_text(stderr.as_slice()),
    }
}

// ---------------------------------------------------------------------------
// The report
// ---------------------------------------------------------------------------

/// Whether the output is too long to be shown whole.
pub open spec fn is_cut(text: Seq<char>) -> bool {
    truncate::exceeds(text, MAX_LINES as nat, MAX_BYTES as nat)
}

/// Whether the full output has to be saved in a log.
pub fn needs_log(combined: &str) -> (r: bool)
    ensures
        r == is_cut(combined@),
{
    let tail: Tail = truncate::take_tail(combined, MAX_LINES, MAX_BYTES);
    proof {
        truncate::lemma_tail(combined@, MAX_LINES as nat, MAX_BYTES as nat, tail);
    }
    tail.truncated
}

/// Where the full output is saved, given a random part of the name.
pub fn log_path(hex: &str) -> (r: String)
    ensures
        r@ == "/tmp/mcpod-bash-"@ + hex@ + ".log"@,
{
    let mut path: String = String::from_str("/tmp/mcpod-bash-");
    path.append(hex);
    path.append(".log");
    path
}

/// Where the full output is saved, if it has to be.
pub open spec fn log_of(combined: Seq<char>, hex: Seq<char>) -> Option<Seq<char>> {
    if is_cut(combined) {
        Some("/tmp/mcpod-bash-"@ + hex + ".log"@)
    } else {
        None
    }
}

/// Where the full output is saved, if it has to be, given a random part of the
/// name.
pub fn log_for(combined: &str, hex: &str) -> (r: Option<String>)
    ensures
        chars::text_of(r) == log_of(combined@, hex@),
{
    if needs_log(combined) {
        Some(log_path(hex))
    } else {
        None
    }
}

/// The message for a log that cannot be saved.
pub fn log_failure_message(path: &str, detail: &str) -> (r: String)
    ensures
        r@ == "failed to save full output to "@ + path@ + ": "@ + detail@,
{
    let mut m: String = String::from_str("failed to save full output to ");
    m.append(path);
    m.append(": ");
    m.append(detail);
    m
}

/// One stream as it is shown.
pub open spec fn stream_shown(full: Seq<char>) -> Seq<char> {
    let tail = truncate::tail_text(full, MAX_LINES as nat, MAX_BYTES as nat);
    if is_cut(full) {
        tail + "\n[...truncated]"@
    } else {
        tail
    }
}

/// One stream as it is shown.
pub fn stream_view(full: &str) -> (r: String)
    ensures
        r@ == stream_shown(full@),
{
    let tail: Tail = truncate::take_tail(full, MAX_LINES, MAX_BYTES);
    proof {
        truncate::lemma_tail(full@, MAX_LINES as nat, MAX_BYTES as nat, tail);
    }
    if tail.truncated {
        let mut text: String = tail.text;
        text.append("\n[...truncated]");
        text
    } else {
        tail.text
    }
}

/// The note behind a tail that is not the whole output.
pub open spec fn cut_note(
    first: nat,
    total: nat,
    byte_limited: bool,
    log: Option<Seq<char>>,
) -> Seq<char> {
    "[Showing lines "@ + chars::decimal(first) + "-"@ + chars::decimal(total) + " of "@
        + chars::decimal(total) + (if byte_limited {
        " ("@ + truncate::kb_text(MAX_BYTES as nat) + " limit)"@
    } else {
        ""@
    }) + (match log {
        Some(path) => ". Full output: "@ + path + "]"@,
        None => ".]"@,
    })
}

fn cut_message(first: usize, total: usize, byte_limited: bool, log: &Option<String>) -> (r: String)
    ensures
        r@ == cut_note(first as nat, total as nat, byte_limited, chars::text_of(*log)),
{
    let mut limit: String = String::from_str("");
    if byte_limited {
        limit = String::from_str(" (");
        limit.append(truncate::format_kb(MAX_BYTES).as_str());
        limit.append(" limit)");
    }
    let mut end: String;
    match log {
        Some(path) => {
            end = String::from_str(". Full output: ");
            end.append(path.as_str());
            end.append("]");
        },
        None => {
            end = String::from_str(".]");
        },
    }
    let mut m: String = String::from_str("[Showing lines ");
    chars::push_number(&mut m, first);
    m.append("-");
    chars::push_number(&mut m, total);
    m.append(" of ");
    chars::push_number(&mut m, total);
    m.append(limit.as_str());
    m.append(end.as_str());
    m
}

/// The exit code that is reported.
pub open spec fn exit_code(ending: Ending) -> i32 {
    match ending {
        Ending::Exited(code) => code,
        Ending::TimedOut(_) => TIMEOUT_EXIT_CODE,
    }
}

/// The tail of the output, with a note where it is not all of it.
pub open spec fn tail_shown(combined: Seq<char>, log: Option<Seq<char>>) -> Seq<char> {
    let tail = truncate::tail_text(combined, MAX_LINES as nat, MAX_BYTES as nat);
    if is_cut(combined) {
        tools::noted(
            tail,
            cut_note(
                truncate::tail_first(combined, MAX_LINES as nat, MAX_BYTES as nat) + 1,
                chars::lines(combined).len(),
                truncate::tail_byte_limited(combined, MAX_LINES as nat, MAX_BYTES as nat),
                log,
            ),
        )
    } else {
        tail
    }
}

/// The tail with a note on how the command ended, where it did not succeed.
pub open spec fn ending_shown(text: Seq<char>, ending: Ending) -> Seq<char> {
    match ending {
        Ending::TimedOut(seconds) => tools::noted(
            text,
            "Command timed out after "@ + seconds@ + " seconds"@,
        ),
        Ending::Exited(code) => if code != 0 {
            tools::noted(text, "Command exited with code "@ + chars::signed_decimal(code as int))
        } else {
            text
        },
    }
}

/// The output as it is shown to the agent.
pub open spec fn output_shown(
    combined: Seq<char>,
    ending: Ending,
    log: Option<Seq<char>>,
) -> Seq<char> {
    let text = ending_shown(tail_shown(combined, log), ending);
    if text.len() == 0 {
        "(no output)"@
    } else {
        text
    }
}

/// Whether a report is that of a command with this merged output that ended
/// like this, and whose full output is saved there.
pub open spec fn reports(
    output: BashOutput,
    merged: Merged,
    ending: Ending,
    log: Option<Seq<char>>,
) -> bool {
    &&& output.exit_code == exit_code(ending)
    &&& output.output@ == output_shown(merged.combined@, ending, log)
    &&& output.stdout@ == stream_shown(merged.stdout@)
    &&& output.stderr@ == stream_shown(merged.stderr@)
    &&& chars::text_of(output.full_output_log) == log
    &&& output.timed_out == (if ending is TimedOut {
        Some(true)
    } else {
        None
    })
}

/// The full output is saved exactly where it is not shown whole, and then the
/// report says where.
pub proof fn cut_output_is_saved(output: BashOutput, merged: Merged, ending: Ending, hex: Seq<char>)
    requires
        reports(output, merged, ending, log_of(merged.combined@, hex)),
    ensures
        output.full_output_log is Some <==> is_cut(merged.combined@),
        output.full_output_log matches Some(path) ==> tail_shown(merged.combined@, Some(path@))
            == tools::noted(
            truncate::tail_text(merged.combined@, MAX_LINES as nat, MAX_BYTES as nat),
            cut_note(
                truncate::tail_first(merged.combined@, MAX_LINES as nat, MAX_BYTES as nat) + 1,
                chars::lines(merged.combined@).len(),
                truncate::tail_byte_limited(
                    merged.combined@,
                    MAX_LINES as nat,
                    MAX_BYTES as nat,
                ),
                Some(path@),
            ),
        ) && output.output@ == output_shown(merged.combined@, ending, Some(path@)),
{
}

/// The report of a finished command, given its merged output, how it ended,
/// and where the full output is saved.
pub fn run(merged: &Merged, ending: Ending, log: Option<String>) -> (r: BashOutput)
    ensures
        reports(r, *merged, ending, chars::text_of(log)),
{
    let combined: &str = merged.combined.as_str();
    let total: usize = truncate::count_lines(combined);
    let tail: Tail = truncate::take_tail(combined, MAX_LINES, MAX_BYTES);
    proof {
        truncate::lemma_tail(combined@, MAX_LINES as nat, MAX_BYTES as nat, tail);
    }
    let mut text: String = tail.text;
    if tail.truncated {
        let note: String = cut_message(tail.first_line, total, tail.byte_limited, &log);
        tools::append_note(&mut text, note);
    }
    assert(text@ == tail_shown(combined@, chars::text_of(log)));
    let code: i32 = match &ending {
        Ending::Exited(code) => {
            if *code != 0 {
                let mut note: String = String::from_str("Command exited with code ");
                note.append(chars::signed_text(*code).as_str());
                tools::append_note(&mut text, note);
            }
            *code
        },
        Ending::TimedOut(seconds) => {
            let mut note: String = String::from_str("Command timed out after ");
            note.append(seconds.as_str());
            note.append(" seconds");
            tools::append_note(&mut text, note);
            TIMEOUT_EXIT_CODE
        },
    };
    let timed_out: Option<bool> = match &ending {
        Ending::Exited(_) => None,
        Ending::TimedOut(_) => Some(true),
    };
    if text.as_str().is_empty() {
        text = String::from_str("(no output)");
    }
    BashOutput {
        exit_code: code,
        output: text,
        stdout: stream_view(merged.stdout.as_str()),
        stderr: stream_view(merged.stderr.as_str()),
        full_output_log: log,
        timed_out,
    }
}

// ---------------------------------------------------------------------------
// What the report keeps
// ---------------------------------------------------------------------------

/// Each stream is a part of the whole: as many bytes arrive in all as on the
/// two streams together.
pub proof fn streams_add_up(chunks: Seq<Chunk>)
    ensures
        stream(chunks, None).len() == stream(chunks, Some(false)).len() + stream(
            chunks,
            Some(true),
        ).len(),
{
    lemma_gathered_add_up(chunks, order::stable_order(arrivals(chunks), chunks.len()), 0);
}

proof fn lemma_gathered_add_up(chunks: Seq<Chunk>, order: Seq<int>, k: int)
    ensures
        gathered(chunks, order, None, k).len() == gathered(chunks, order, Some(false), k).len()
            + gathered(chunks, order, Some(true), k).len(),
    decreases order.len() - k,
{
    if 0 <= k < order.len() {
        lemma_gathered_add_up(chunks, order, k + 1);
    }
}

/// Output within the limits is shown whole, and alone where the command
/// succeeds.
pub proof fn short_output_is_shown_whole(combined: Seq<char>, log: Option<Seq<char>>)
    requires
        !is_cut(combined),
        combined.len() > 0,
    ensures
        output_shown(combined, Ending::Exited(0), log) == combined,
{
    truncate::lemma_whole_tail(combined, MAX_LINES as nat, MAX_BYTES as nat);
}

/// What is shown is never empty.
pub proof fn something_is_always_shown(
    combined: Seq<char>,
    ending: Ending,
    log: Option<Seq<char>>,
)
    ensures
        output_shown(combined, ending, log).len() > 0,
{
    reveal_strlit("(no output)");
}

// ---------------------------------------------------------------------------
// What the streams hold
// ---------------------------------------------------------------------------

/// How many bytes each piece gives to all output (`None`), to standard error
/// (`Some(true)`) or to standard output (`Some(false)`).
pub open spec fn part_lengths(chunks: Seq<Chunk>, only: Option<bool>) -> Seq<int> {
    Seq::new(
        chunks.len(),
        |i: int|
            if only is None || only == Some(chunks[i].stderr) {
                chunks[i].bytes@.len() as int
            } else {
                0
            },
    )
}

proof fn lemma_gathered_from(chunks: Seq<Chunk>, order: Seq<int>, only: Option<bool>, k: int)
    requires
        0 <= k <= order.len(),
        forall|t: int| 0 <= t < order.len() ==> 0 <= #[trigger] order[t] < chunks.len(),
    ensures
        ({
            let whole = gathered(chunks, order, only, 0);
            let at = order::sum_along(part_lengths(chunks, only), order, k);
            &&& 0 <= at <= whole.len()
            &&& whole.skip(at) == gathered(chunks, order, only, k)
        }),
    decreases k,
{
    let whole = gathered(chunks, order, only, 0);
    let lengths = part_lengths(chunks, only);
    if k == 0 {
        assert(whole.skip(0) == whole);
    } else {
        lemma_gathered_from(chunks, order, only, k - 1);
        let i = order[k - 1];
        let before = order::sum_along(lengths, order, k - 1);
        let rest = gathered(chunks, order, only, k - 1);
        let tail = gathered(chunks, order, only, k);
        assert(whole.skip(before) == rest);
        assert(lengths[i] >= 0);
        if takes(only, chunks[i].stderr) {
            assert(rest == chunks[i].bytes@ + tail);
            assert(rest.skip(chunks[i].bytes@.len() as int) == tail);
        } else {
            assert(rest.skip(0) == tail);
        }
        assert(whole.skip(before).skip(lengths[i]) == whole.skip(before + lengths[i]));
    }
}

/// What is merged is all that arrived: as many bytes as all pieces together
/// have, and for one stream as many as the pieces of that stream have.
pub proof fn nothing_is_lost_or_added(chunks: Seq<Chunk>, only: Option<bool>)
    ensures
        stream(chunks, only).len() == order::sum_of(part_lengths(chunks, only), chunks.len()),
{
    let keys = arrivals(chunks);
    let order = order::stable_order(keys, chunks.len());
    let n = chunks.len();
    order::order_is_stable(keys, n);
    lemma_gathered_from(chunks, order, only, n as int);
    order::lemma_sum_before(keys, part_lengths(chunks, only), order, n, n as int);
    let at = order::sum_along(part_lengths(chunks, only), order, n as int);
    assert(order.len() == n);
    assert(gathered(chunks, order, only, n as int) == Seq::<u8>::empty());
    assert(stream(chunks, only).skip(at).len() == stream(chunks, only).len() - at);
}

/// Every piece stands in the merged output where the pieces that arrived
/// before it end, unchanged; in one stream likewise, among the pieces of that
/// stream.
pub proof fn every_piece_stands_in_its_place(chunks: Seq<Chunk>, only: Option<bool>, i: int)
    requires
        0 <= i < chunks.len(),
        only is None || only == Some(chunks[i].stderr),
    ensures
        ({
            let at = order::sum_where(
                part_lengths(chunks, only),
                |j: int|
                    chunks[j].seq < chunks[i].seq || (chunks[j].seq == chunks[i].seq && j < i),
                chunks.len(),
            );
            &&& 0 <= at
            &&& at + chunks[i].bytes@.len() <= stream(chunks, only).len()
            &&& stream(chunks, only).subrange(at, at + chunks[i].bytes@.len()) == chunks[i].bytes@
        }),
{
    let n = chunks.len();
    let keys = arrivals(chunks);
    let lengths = part_lengths(chunks, only);
    let order = order::stable_order(keys, n);
    let whole = stream(chunks, only);
    order::order_is_stable(keys, n);
    order::order_covers(keys, order, n, i);
    let k = choose|k: int| 0 <= k < order.len() && order[k] == i;
    lemma_gathered_from(chunks, order, only, k);
    order::lemma_sum_before(keys, lengths, order, n, k);
    let listed = |j: int| keys[j] < keys[order[k]] || (keys[j] == keys[order[k]] && j < order[k]);
    let before = |j: int|
        chunks[j].seq < chunks[i].seq || (chunks[j].seq == chunks[i].seq && j < i);
    order::lemma_sum_same(lengths, listed, before, n);
    let at = order::sum_along(lengths, order, k);
    assert(at == order::sum_where(lengths, before, n));
    let rest = gathered(chunks, order, only, k);
    let own = chunks[i].bytes@;
    assert(rest == own + gathered(chunks, order, only, k + 1));
    assert(rest.len() == whole.len() - at);
    assert forall|x: int| 0 <= x < own.len() implies whole.subrange(at, at + own.len())[x]
        == own[x] by {
        assert(whole.skip(at)[x] == rest[x]);
    }
    assert(whole.subrange(at, at + own.len()) == own);
}

/// Pieces that are listed as they arrived, one after the other, are merged one
/// behind the other.
pub proof fn pieces_in_order_are_joined(chunks: Seq<Chunk>)
    requires
        forall|i: int, j: int|
            0 <= i < j < chunks.len() ==> (#[trigger] chunks[i]).seq <= (#[trigger] chunks[j]).seq,
    ensures
        stream(chunks, None) == Seq::new(chunks.len(), |i: int| chunks[i].bytes@).flatten(),
{
    let n = chunks.len();
    let keys = arrivals(chunks);
    let order = order::stable_order(keys, n);
    order::order_is_stable(keys, n);
    assert forall|k: int| 0 <= k < n implies #[trigger] order[k] == k by {
        lemma_order_in_place(keys, order, n, k);
    }
    let parts = Seq::new(n, |i: int| chunks[i].bytes@);
    assert(parts.skip(0) == parts);
    lemma_joined(chunks, order, 0);
}

/// An order of keys that never fall is the order in which they are listed.
proof fn lemma_order_in_place(keys: Seq<int>, order: Seq<int>, n: nat, k: int)
    requires
        order::is_stable_order(keys, order, n),
        0 <= k < n,
        forall|i: int, j: int|
            0 <= i < j < n ==> #[trigger] keys[i] <= #[trigger] keys[j],
    ensures
        order[k] == k,
{
    assert forall|i: int, j: int| 0 <= i < j < n implies order[i] < order[j] by {
        assert(order::precedes(keys, order[i], order[j]));
        assert(0 <= order[i] < n && 0 <= order[j] < n);
        if order[j] < order[i] {
            assert(keys[order[j]] <= keys[order[i]]);
        }
    }
    lemma_rising_low(order, k);
    lemma_rising_high(order, n, k);
}

proof fn lemma_rising_low(order: Seq<int>, k: int)
    requires
        0 <= k < order.len(),
        order[0] >= 0,
        forall|i: int, j: int| 0 <= i < j < order.len() ==> order[i] < order[j],
    ensures
        order[k] >= k,
    decreases k,
{
    if k > 0 {
        lemma_rising_low(order, k - 1);
        assert(order[k - 1] < order[k]);
    }
}

proof fn lemma_rising_high(order: Seq<int>, n: nat, k: int)
    requires
        0 <= k < order.len(),
        order.len() == n,
        order[n - 1] < n,
        forall|i: int, j: int| 0 <= i < j < order.len() ==> order[i] < order[j],
    ensures
        order[k] <= k,
    decreases n - k,
{
    if k < n - 1 {
        lemma_rising_high(order, n, k + 1);
        assert(order[k] < order[k + 1]);
    }
}

proof fn lemma_joined(chunks: Seq<Chunk>, order: Seq<int>, k: int)
    requires
        0 <= k <= order.len(),
        order.len() == chunks.len(),
        forall|t: int| 0 <= t < order.len() ==> #[trigger] order[t] == t,
    ensures
        gathered(chunks, order, None, k) == Seq::new(
            chunks.len(),
            |i: int| chunks[i].bytes@,
        ).skip(k).flatten(),
    decreases order.len() - k,
{
    let parts = Seq::new(chunks.len(), |i: int| chunks[i].bytes@);
    let rest = parts.skip(k);
    if k < order.len() {
        lemma_joined(chunks, order, k + 1);
        assert(order[k] == k);
        assert(rest.drop_first() == parts.skip(k + 1));
        assert(rest.first() == chunks[k].bytes@);
    } else {
        assert(rest == Seq::<Seq<u8>>::empty());
        assert(rest.flatten() == Seq::<u8>::empty());
    }
}

// ---------------------------------------------------------------------------
// What the report shows
// ---------------------------------------------------------------------------

/// Output is cut exactly where it has more than 2000 lines or takes more than
/// 50 KiB.
pub proof fn limits_of_the_output(text: Seq<char>)
    ensures
        is_cut(text) <==> encode_utf8(text).len() > 50 * 1024 || chars::lines(text).len() > 2000,
{
}

/// A stream within the limits is shown whole.
pub proof fn short_stream_is_shown_whole(full: Seq<char>)
    requires
        encode_utf8(full).len() <= 50 * 1024,
        chars::lines(full).len() <= 2000,
    ensures
        stream_shown(full) == full,
{
    truncate::lemma_whole_tail(full, MAX_LINES as nat, MAX_BYTES as nat);
}

/// A command that succeeds shows its output and nothing else; one that fails or
/// runs out of time shows all of its output, without the line ends at its end,
/// and behind it how it ended.
pub proof fn ending_follows_the_output(
    kept: Seq<char>,
    ends: Seq<char>,
    ending: Ending,
    log: Option<Seq<char>>,
)
    requires
        encode_utf8(kept + ends).len() <= 50 * 1024,
        chars::lines(kept + ends).len() <= 2000,
        exists|i: int| 0 <= i < kept.len() && !chars::whitespace(#[trigger] kept[i]),
        kept.last() != '\n' && kept.last() != '\r',
        forall|i: int| 0 <= i < ends.len() ==> #[trigger] ends[i] == '\n' || ends[i] == '\r',
    ensures
        output_shown(kept + ends, ending, log) == match ending {
            Ending::Exited(code) => if code == 0 {
                kept + ends
            } else {
                kept + "\n\n"@ + ("Command exited with code "@ + chars::signed_decimal(
                    code as int,
                ))
            },
            Ending::TimedOut(seconds) => kept + "\n\n"@ + ("Command timed out after "@ + seconds@
                + " seconds"@),
        },
{
    let all = kept + ends;
    truncate::lemma_whole_tail(all, MAX_LINES as nat, MAX_BYTES as nat);
    match ending {
        Ending::Exited(code) => {
            tools::note_follows_the_text(
                kept,
                ends,
                "Command exited with code "@ + chars::signed_decimal(code as int),
            );
        },
        Ending::TimedOut(seconds) => {
            tools::note_follows_the_text(
                kept,
                ends,
                "Command timed out after "@ + seconds@ + " seconds"@,
            );
        },
    }
}

/// Where the command wrote nothing, what is shown says so, or says how it
/// ended.
pub proof fn silent_command_is_reported(ending: Ending, log: Option<Seq<char>>)
    ensures
        output_shown(Seq::<char>::empty(), ending, log) == match ending {
            Ending::Exited(code) => if code == 0 {
                "(no output)"@
            } else {
                "Command exited with code "@ + chars::signed_decimal(code as int)
            },
            Ending::TimedOut(seconds) => "Command timed out after "@ + seconds@ + " seconds"@,
        },
{
    let none = Seq::<char>::empty();
    assert(encode_utf8(none).len() == 0);
    assert(chars::lines(none).len() == 0);
    truncate::lemma_whole_tail(none, MAX_LINES as nat, MAX_BYTES as nat);
    assert(none + none == none);
    reveal_strlit("Command exited with code ");
    reveal_strlit("Command timed out after ");
    match ending {
        Ending::Exited(code) => {
            tools::note_follows_the_text(
                none,
                none,
                "Command exited with code "@ + chars::signed_decimal(code as int),
            );
        },
        Ending::TimedOut(seconds) => {
            tools::note_follows_the_text(
                none,
                none,
                "Command timed out after "@ + seconds@ + " seconds"@,
            );
        },
    }
}

/// Output beyond the limits is shown by its end: the most lines that fit, with
/// a note on which lines they are and where the full output is saved. One
/// stream beyond the limits likewise, with a mark.
pub proof fn long_output_is_shown_by_its_end(
    text: Seq<char>,
    start: nat,
    path: Seq<char>,
)
    requires
        0 < start < chars::lines(text).len(),
        chars::lines(text).len() - start <= 2000,
        encode_utf8(chars::lines(text).skip(start as int).flatten()).len() <= 50 * 1024,
        chars::lines(text).len() - start == 2000 || encode_utf8(
            chars::lines(text).skip(start - 1).flatten(),
        ).len() > 50 * 1024,
    ensures
        stream_shown(text) == chars::lines(text).skip(start as int).flatten()
            + "\n[...truncated]"@,
        tail_shown(text, Some(path)) == tools::noted(
            chars::lines(text).skip(start as int).flatten(),
            "[Showing lines "@ + chars::decimal(start + 1) + "-"@ + chars::decimal(
                chars::lines(text).len(),
            ) + " of "@ + chars::decimal(chars::lines(text).len()) + (if chars::lines(text).len()
                - start < 2000 {
                " ("@ + truncate::kb_text(51200) + " limit)"@
            } else {
                ""@
            }) + (". Full output: "@ + path + "]"@),
        ),
{
    truncate::tail_is_the_most_that_fits(text, 2000, 51200, start);
}

/// Output whose last line alone is beyond the limit is shown by the longest end
/// of that line that fits.
pub proof fn giant_line_is_shown_by_its_end(text: Seq<char>, keep: nat, path: Seq<char>)
    requires
        chars::lines(text).len() > 0,
        encode_utf8(chars::lines(text).last()).len() > 50 * 1024,
        keep <= chars::lines(text).last().len(),
        encode_utf8(
            chars::lines(text).last().skip(chars::lines(text).last().len() - keep),
        ).len() <= 50 * 1024,
        keep < chars::lines(text).last().len() ==> encode_utf8(
            chars::lines(text).last().skip(chars::lines(text).last().len() - keep - 1),
        ).len() > 50 * 1024,
    ensures
        ({
            let last = chars::lines(text).last();
            let end = last.skip(last.len() - keep);
            &&& stream_shown(text) == end + "\n[...truncated]"@
            &&& tail_shown(text, Some(path)) == tools::noted(
                end,
                "[Showing lines "@ + chars::decimal(chars::lines(text).len()) + "-"@
                    + chars::decimal(chars::lines(text).len()) + " of "@ + chars::decimal(
                    chars::lines(text).len(),
                ) + (" ("@ + truncate::kb_text(51200) + " limit)"@) + (". Full output: "@ + path
                    + "]"@),
            )
        }),
{
    truncate::giant_last_line_is_cut(text, 2000, 51200, keep);
}

/// The note on how a command ended stands behind what is shown of its output,
/// be it cut or not.
pub proof fn ending_is_noted_last(combined: Seq<char>, ending: Ending, log: Option<Seq<char>>)
    ensures
        output_shown(combined, ending, log) == match ending {
            Ending::Exited(code) => if code == 0 {
                if tail_shown(combined, log).len() == 0 {
                    "(no output)"@
                } else {
                    tail_shown(combined, log)
                }
            } else {
                tools::noted(
                    tail_shown(combined, log),
                    "Command exited with code "@ + chars::signed_decimal(code as int),
                )
            },
            Ending::TimedOut(seconds) => tools::noted(
                tail_shown(combined, log),
                "Command timed out after "@ + seconds@ + " seconds"@,
            ),
        },
{
    reveal_strlit("Command exited with code ");
    reveal_strlit("Command timed out after ");
}

/// The exit code is the one that the command gave, and 124 where it ran out of
/// time.
pub proof fn exit_code_is_kept(code: i32, seconds: String)
    ensures
        exit_code(Ending::Exited(code)) == code,
        exit_code(Ending::TimedOut(seconds)) == 124,
{
}

/// The log of a cut output is named by its random part; output that is shown
/// whole has none.
pub proof fn log_is_named_by_its_random_part(combined: Seq<char>, hex: Seq<char>)
    ensures
        encode_utf8(combined).len() > 50 * 1024 || chars::lines(combined).len() > 2000 ==> log_of(
            combined,
            hex,
        ) == Some("/tmp/mcpod-bash-"@ + hex + ".log"@),
        encode_utf8(combined).len() <= 50 * 1024 && chars::lines(combined).len() <= 2000 ==> log_of(
            combined,
            hex,
        ) is None,
{
}

/// The report gives the exit code, what is shown of all output and of each
/// stream, where the log is, and that the command ran out of time only where it
/// did.
pub proof fn report_holds_every_part(
    output: BashOutput,
    merged: Merged,
    ending: Ending,
    log: Option<Seq<char>>,
)
    requires
        reports(output, merged, ending, log),
    ensures
        ending matches Ending::Exited(code) ==> output.exit_code == code && output.timed_out is None,
        ending is TimedOut ==> output.exit_code == 124 && output.timed_out == Some(true),
        output.output@ == output_shown(merged.combined@, ending, log),
        output.stdout@ == stream_shown(merged.stdout@),
        output.stderr@ == stream_shown(merged.stderr@),
        chars::text_of(output.full_output_log) == log,
{
}

} // verus!
