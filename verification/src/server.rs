//! What the server answers: tool replies, the order of the tool list, and the
//! resources that it knows.

use vstd::prelude::*;
use vstd::string::*;
use vstd::utf8::*;

use crate::chars;
use crate::environment::RESOURCE_URI;
use crate::order;
use crate::tools::{BashOutput, EditOutput, ReadOutput, WriteOutput};

verus! {

/// The text of a tool reply, and whether it reports a failure. Tool failures
/// are replies, not protocol errors, so that the message reaches the agent.
#[derive(Debug)]
pub struct Reply {
    pub text: String,
    pub is_error: bool,
}

/// The reply to a failed tool call.
pub fn tool_error(message: String) -> (r: Reply)
    ensures
        r.text@ == message@,
        r.is_error,
{
    Reply { text: message, is_error: true }
}

/// The reply to a read.
pub fn read_reply(output: &ReadOutput) -> (r: Reply)
    ensures
        r.text@ == output.content@,
        !r.is_error,
{
    Reply { text: output.content.clone(), is_error: false }
}

/// The reply to a command: an error where it did not succeed or was killed.
pub fn bash_reply(output: &BashOutput) -> (r: Reply)
    ensures
        r.text@ == output.output@,
        r.is_error == (output.exit_code != 0 || output.timed_out == Some(true)),
{
    let timed_out: bool = match output.timed_out {
        Some(t) => t,
        None => false,
    };
    Reply { text: output.output.clone(), is_error: output.exit_code != 0 || timed_out }
}

/// The reply to an edit.
pub fn edit_reply(output: &EditOutput) -> (r: Reply)
    ensures
        r.text@ == "Successfully replaced "@ + chars::decimal(output.replacements as nat)
            + " block(s) in "@ + output.path@ + "."@,
        !r.is_error,
{
    let mut text: String = String::from_str("Successfully replaced ");
    chars::push_number(&mut text, output.replacements);
    text.append(" block(s) in ");
    text.append(output.path.as_str());
    text.append(".");
    Reply { text, is_error: false }
}

/// The reply to a write.
pub fn write_reply(output: &WriteOutput) -> (r: Reply)
    ensures
        r.text@ == "Successfully wrote "@ + chars::decimal(output.bytes as nat) + " bytes to "@
            + output.path@,
        !r.is_error,
{
    let mut text: String = String::from_str("Successfully wrote ");
    chars::push_number(&mut text, output.bytes);
    text.append(" bytes to ");
    text.append(output.path.as_str());
    Reply { text, is_error: false }
}

// ---------------------------------------------------------------------------
// The tool list
// ---------------------------------------------------------------------------

/// The place of a tool in the list; tools without a place come last.
pub open spec fn tool_rank(name: Seq<char>) -> int {
    if name == "read"@ {
        0
    } else if name == "bash"@ {
        1
    } else if name == "edit"@ {
        2
    } else if name == "write"@ {
        3
    } else {
        4
    }
}

fn rank_of(name: &str) -> (r: u64)
    ensures
        r == tool_rank(name@),
{
    if chars::same_text(name, "read") {
        0
    } else if chars::same_text(name, "bash") {
        1
    } else if chars::same_text(name, "edit") {
        2
    } else if chars::same_text(name, "write") {
        3
    } else {
        4
    }
}

/// The ranks of the named tools.
pub open spec fn tool_ranks(names: Seq<String>) -> Seq<int> {
    Seq::new(names.len(), |i: int| tool_rank(names[i]@))
}

/// The order in which tools are listed: read, bash, edit, write, and then any
/// others as they come.
pub fn list_tools(names: &[String]) -> (r: Vec<usize>)
    ensures
        order::ints(r@) == order::stable_order(tool_ranks(names@), names@.len()),
{
    let n: usize = names.len();
    let mut keys: Vec<u64> = Vec::with_capacity(n);
    let mut i: usize = 0;
    while i < n
        invariant
            n == names@.len(),
            i <= n,
            order::int_keys(keys@) == tool_ranks(names@).take(i as int),
        decreases n - i,
    {
        let ghost before = order::int_keys(keys@);
        let rank: u64 = rank_of(names[i].as_str());
        keys.push(rank);
        proof {
            assert(order::int_keys(keys@) == before.push(rank as int));
            assert(tool_ranks(names@).take(i + 1) == tool_ranks(names@).take(i as int).push(
                rank as int,
            ));
        }
        i = i + 1;
    }
    assert(order::int_keys(keys@) == tool_ranks(names@));
    assert(order::int_keys(keys@).len() == keys@.len());
    order::order_by_key(keys.as_slice())
}

/// In whatever order the four tools are registered, they are listed as read,
/// bash, edit, write.
pub proof fn tools_are_listed_in_order(names: Seq<String>, i: int, j: int)
    requires
        0 <= i < j < names.len(),
    ensures
        ({
            let listed = order::stable_order(tool_ranks(names), names.len());
            tool_rank(names[listed[i]]@) <= tool_rank(names[listed[j]]@)
        }),
{
    let listed = order::stable_order(tool_ranks(names), names.len());
    order::order_is_stable(tool_ranks(names), names.len());
    assert(order::precedes(tool_ranks(names), listed[i], listed[j]));
}

// ---------------------------------------------------------------------------
// Resources
// ---------------------------------------------------------------------------

/// Whether a resource is known; the message for one that is not.
pub fn check_resource(uri: &str) -> (r: Result<(), String>)
    ensures
        r is Ok <==> uri@ == RESOURCE_URI@,
        r matches Err(m) ==> m@ == "unknown resource: "@ + uri@,
{
    if chars::same_text(uri, RESOURCE_URI) {
        Ok(())
    } else {
        let mut m: String = String::from_str("unknown resource: ");
        m.append(uri);
        Err(m)
    }
}

// ---------------------------------------------------------------------------
// Log lines
// ---------------------------------------------------------------------------

/// How many bytes of a subject a log line shows.
pub const LOG_MAX: usize = 300;

/// How many characters at the front of `s` fit into `max` bytes.
pub open spec fn fitting(s: Seq<char>, max: int) -> nat
    decreases s.len(),
{
    if s.len() == 0 || chars::utf8_len(seq![s[0]]) > max {
        0
    } else {
        1 + fitting(s.drop_first(), max - chars::utf8_len(seq![s[0]]))
    }
}

/// A subject as it is logged: whole where it is short, else as much of it as
/// fits, with an ellipsis.
pub open spec fn clipped(s: Seq<char>) -> Seq<char> {
    if chars::utf8_len(s) <= LOG_MAX {
        s
    } else {
        s.take(fitting(s, LOG_MAX as int) as int) + "…"@
    }
}

/// What fits takes no more than the limit.
proof fn lemma_fitting(s: Seq<char>, max: int)
    requires
        max >= 0,
    ensures
        fitting(s, max) <= s.len(),
        chars::utf8_len(s.take(fitting(s, max) as int)) <= max,
    decreases s.len(),
{
    let k = fitting(s, max) as int;
    if k == 0 {
        assert(s.take(0) == Seq::<char>::empty());
    } else {
        let first = seq![s[0]];
        let rest = s.drop_first();
        lemma_fitting(rest, max - chars::utf8_len(first));
        chars::lemma_utf8_len_add(first, rest.take(k - 1));
        assert(first + rest.take(k - 1) == s.take(k));
    }
}

/// A logged subject is the subject itself, or a beginning of it of no more than
/// the limit with an ellipsis behind it.
pub proof fn logged_subject_is_short(s: Seq<char>)
    ensures
        clipped(s) == s || exists|k: int|
            0 <= k <= s.len() && clipped(s) == #[trigger] s.take(k) + "…"@ && chars::utf8_len(
                s.take(k),
            ) <= LOG_MAX,
{
    if chars::utf8_len(s) > LOG_MAX {
        lemma_fitting(s, LOG_MAX as int);
        assert(clipped(s) == s.take(fitting(s, LOG_MAX as int) as int) + "…"@);
    }
}

/// A subject as it is logged.
pub fn log_clip(value: &str) -> (r: String)
    ensures
        r@ == clipped(value@),
{
    if chars::byte_len(value) <= LOG_MAX {
        return value.to_owned();
    }
    let s: Vec<char> = chars::to_chars(value);
    let n: usize = s.len();
    let mut at: usize = 0;
    let mut left: usize = LOG_MAX;
    assert(s@.skip(0) == s@);
    while at < n && chars::char_len(s[at]) <= left
        invariant
            n == s@.len(),
            at <= n,
            fitting(s@, LOG_MAX as int) == at + fitting(s@.skip(at as int), left as int),
        decreases n - at,
    {
        assert(s@.skip(at as int).drop_first() == s@.skip(at + 1));
        left = left - chars::char_len(s[at]);
        at = at + 1;
    }
    let mut r: String = chars::from_chars(vstd::slice::slice_subrange(s.as_slice(), 0, at));
    assert(r@ == s@.take(at as int));
    r.append("…");
    r
}

/// Each tool is listed once. Nothing comes before `read` but `read`, before
/// `bash` but these two, before `edit` but these three, and before `write` but
/// these four; tools of the same name, and tools of any other name, are listed
/// as they come.
pub proof fn known_tools_come_first(names: Seq<String>, i: int, j: int)
    requires
        0 <= i < j < names.len(),
    ensures
        ({
            let listed = order::stable_order(tool_ranks(names), names.len());
            let a = names[listed[i]]@;
            let b = names[listed[j]]@;
            &&& listed.len() == names.len()
            &&& 0 <= listed[i] < names.len()
            &&& 0 <= listed[j] < names.len()
            &&& listed[i] != listed[j]
            &&& b == "read"@ ==> a == "read"@
            &&& b == "bash"@ ==> a == "read"@ || a == "bash"@
            &&& b == "edit"@ ==> a == "read"@ || a == "bash"@ || a == "edit"@
            &&& b == "write"@ ==> a == "read"@ || a == "bash"@ || a == "edit"@ || a == "write"@
            &&& a == b ==> listed[i] < listed[j]
            &&& a != "read"@ && a != "bash"@ && a != "edit"@ && a != "write"@ && b != "read"@ && b
                != "bash"@ && b != "edit"@ && b != "write"@ ==> listed[i] < listed[j]
        }),
{
    let ranks = tool_ranks(names);
    let listed = order::stable_order(ranks, names.len());
    order::order_is_stable(ranks, names.len());
    assert(order::precedes(ranks, listed[i], listed[j]));
    reveal_strlit("read");
    reveal_strlit("bash");
    reveal_strlit("edit");
    reveal_strlit("write");
    assert("read"@[0] == 'r' && "bash"@[0] == 'b' && "edit"@[0] == 'e' && "write"@[0] == 'w');
}

/// No tool is left out of the list.
pub proof fn every_tool_is_listed(names: Seq<String>, tool: int)
    requires
        0 <= tool < names.len(),
    ensures
        order::stable_order(tool_ranks(names), names.len()).contains(tool),
{
    order::lower_keys_come_first(tool_ranks(names), names.len());
}

/// Of a subject of more than 300 bytes as many characters are logged as fit into
/// 300 bytes, with an ellipsis.
pub proof fn subject_is_logged_as_far_as_it_fits(s: Seq<char>, k: int)
    requires
        0 <= k < s.len(),
        encode_utf8(s.take(k)).len() <= 300,
        encode_utf8(s.take(k + 1)).len() > 300,
    ensures
        clipped(s) == s.take(k) + "…"@,
{
    chars::lemma_utf8_len_subrange(s, 0, k + 1);
    assert(s.subrange(0, k + 1) == s.take(k + 1));
    lemma_fitting_is(s, LOG_MAX as int, k);
}

proof fn lemma_fitting_is(s: Seq<char>, max: int, k: int)
    requires
        0 <= k < s.len(),
        chars::utf8_len(s.take(k)) <= max,
        chars::utf8_len(s.take(k + 1)) > max,
    ensures
        fitting(s, max) == k,
    decreases s.len(),
{
    let first = seq![s[0]];
    let rest = s.drop_first();
    chars::lemma_utf8_len_add(first, rest.take(k));
    assert(first + rest.take(k) == s.take(k + 1));
    if k > 0 {
        chars::lemma_utf8_len_add(first, rest.take(k - 1));
        assert(first + rest.take(k - 1) == s.take(k));
        lemma_fitting_is(rest, max - chars::utf8_len(first), k - 1);
    } else {
        assert(rest.take(0) == Seq::<char>::empty());
        assert(chars::utf8_len(Seq::<char>::empty()) == 0);
    }
}

/// A subject of no more than 300 bytes is logged as it is.
pub proof fn short_subject_is_logged_whole(s: Seq<char>)
    requires
        encode_utf8(s).len() <= 300,
    ensures
        clipped(s) == s,
{
}

} // verus!
