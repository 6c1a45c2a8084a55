//! Atomic file writes: temp file + sync + rename, so that a crash or a
//! cancellation never leaves a partially written target behind.
//!
//! The file operations are carried out one at a time; [`next`] decides which
//! one comes after each outcome.

use vstd::prelude::*;
use vstd::string::*;
use vstd::utf8::*;

use crate::bytes;
use crate::chars;
use crate::fs::path;

verus! {

// ---------------------------------------------------------------------------
// The temp file
// ---------------------------------------------------------------------------

/// The name of a path that names a file and reads as text.
pub open spec fn file_name(target: Seq<Seq<u8>>) -> Option<Seq<u8>> {
    if target.len() == 0 || target.last() == path::parent_name() || !valid_utf8(target.last()) {
        None
    } else {
        Some(target.last())
    }
}

/// The temp file for a target: a hidden file beside it, given a random part of
/// its name. `display` is the target as it is shown in a message.
pub fn temp_path(target: &[Vec<u8>], display: &str, hex: &str) -> (r: Result<Vec<Vec<u8>>, String>)
    ensures
        match file_name(bytes::views(target@)) {
            None => r matches Err(m) && m@ == "invalid file path: "@ + display@,
            Some(name) => r matches Ok(temp) && bytes::views(temp@) == bytes::views(
                target@,
            ).drop_last().push(
                encode_utf8("."@ + decode_utf8(name) + ".mcpod-tmp-"@ + hex@),
            ),
        },
{
    let n: usize = target.len();
    let ghost all = bytes::views(target@);
    let name: Option<String> = if n == 0 {
        None
    } else {
        assert(all.last() == target@[n - 1]@);
        let last: &Vec<u8> = &target[n - 1];
        let dots: bool = last.len() == 2 && last[0] == 0x2E && last[1] == 0x2E;
        assert(dots ==> last@ == path::parent_name());
        assert(dots == (last@ == path::parent_name()));
        if dots {
            None
        } else {
            chars::decode(bytes::copy(last.as_slice()))
        }
    };
    match name {
        None => {
            let mut m: String = String::from_str("invalid file path: ");
            m.append(display);
            Err(m)
        },
        Some(name) => {
            let mut temp_name: String = String::from_str(".");
            temp_name.append(name.as_str());
            temp_name.append(".mcpod-tmp-");
            temp_name.append(hex);
            let mut temp: Vec<Vec<u8>> = bytes::copy_all(
                vstd::slice::slice_subrange(target, 0, n - 1),
            );
            assert(bytes::views(temp@) == all.drop_last());
            let ghost front = bytes::views(temp@);
            temp.push(bytes::copy(temp_name.as_str().as_bytes()));
            assert(bytes::views(temp@) == front.push(encode_utf8(temp_name@)));
            Ok(temp)
        },
    }
}

// ---------------------------------------------------------------------------
// The order of the operations
// ---------------------------------------------------------------------------

/// The next file operation of an atomic write, or its result.
#[derive(Debug)]
pub enum Stage {
    /// Create the temp file.
    Create,
    /// Write the content to it.
    Write,
    /// Flush it to the disk and close it.
    Sync,
    /// Put it in the place of the target.
    Rename,
    /// Flush the directory to the disk; its outcome does not matter.
    SyncDirectory,
    /// Remove the temp file after a failure; its outcome does not matter.
    Remove(String),
    Finished(Result<(), String>),
}

/// An operation that failed, with what it was about to do.
fn failed(what: &str, detail: &str) -> (r: Stage)
    ensures
        r matches Stage::Remove(m) && m@ == what@ + detail@,
{
    let mut m: String = String::from_str(what);
    m.append(detail);
    Stage::Remove(m)
}

/// What follows the operation of a stage, given its outcome.
pub open spec fn follows(stage: Stage, outcome: Result<(), Seq<char>>, next: Stage) -> bool {
    match (stage, outcome) {
        (Stage::Create, Ok(_)) => next is Write,
        (Stage::Create, Err(e)) => next matches Stage::Remove(m) && m@
            == "failed to create temp file: "@ + e,
        (Stage::Write, Ok(_)) => next is Sync,
        (Stage::Write, Err(e)) => next matches Stage::Remove(m) && m@
            == "failed to write temp file: "@ + e,
        (Stage::Sync, Ok(_)) => next is Rename,
        (Stage::Sync, Err(e)) => next matches Stage::Remove(m) && m@
            == "failed to sync temp file: "@ + e,
        (Stage::Rename, Ok(_)) => next is SyncDirectory,
        (Stage::Rename, Err(e)) => next matches Stage::Remove(m) && m@
            == "failed to replace file: "@ + e,
        (Stage::SyncDirectory, _) => next == Stage::Finished(Ok::<(), String>(())),
        (Stage::Remove(m), _) => next == Stage::Finished(Err::<(), String>(m)),
        (Stage::Finished(r), _) => next == Stage::Finished(r),
    }
}

/// The outcome of an operation with its text as a sequence.
pub open spec fn outcome_view(outcome: Result<(), String>) -> Result<(), Seq<char>> {
    match outcome {
        Ok(_) => Ok(()),
        Err(e) => Err(e@),
    }
}

/// What follows the operation of a stage, given its outcome.
pub fn next(stage: Stage, outcome: Result<(), String>) -> (r: Stage)
    ensures
        follows(stage, outcome_view(outcome), r),
{
    match (stage, outcome) {
        (Stage::Create, Ok(_)) => Stage::Write,
        (Stage::Create, Err(e)) => failed("failed to create temp file: ", e.as_str()),
        (Stage::Write, Ok(_)) => Stage::Sync,
        (Stage::Write, Err(e)) => failed("failed to write temp file: ", e.as_str()),
        (Stage::Sync, Ok(_)) => Stage::Rename,
        (Stage::Sync, Err(e)) => failed("failed to sync temp file: ", e.as_str()),
        (Stage::Rename, Ok(_)) => Stage::SyncDirectory,
        (Stage::Rename, Err(e)) => failed("failed to replace file: ", e.as_str()),
        (Stage::SyncDirectory, _) => Stage::Finished(Ok(())),
        (Stage::Remove(m), _) => Stage::Finished(Err(m)),
        (Stage::Finished(r), _) => Stage::Finished(r),
    }
}

// ---------------------------------------------------------------------------
// What the order guarantees
// ---------------------------------------------------------------------------

/// What a file holds, with regard to the new content.
pub enum Content {
    /// What it held before, if it existed.
    Old,
    /// A part of the new content, perhaps none of it.
    Partial,
    /// The new content.
    New,
}

/// The two files of an atomic write.
pub struct Disk {
    pub target: Content,
    /// The temp file, where it exists.
    pub temp: Option<Content>,
}

/// What the operation of a stage does to the files where it succeeds or fails.
/// A failed write leaves a part behind; other failed operations change nothing.
pub open spec fn effect(stage: Stage, ok: bool, disk: Disk) -> Disk {
    match (stage, ok) {
        (Stage::Create, true) => Disk { temp: Some(Content::Partial), ..disk },
        (Stage::Write, true) => Disk { temp: Some(Content::New), ..disk },
        (Stage::Write, false) => Disk { temp: Some(Content::Partial), ..disk },
        (Stage::Rename, true) => match disk.temp {
            Some(content) => Disk { target: content, temp: None },
            None => disk,
        },
        (Stage::Remove(_), true) => Disk { temp: None, ..disk },
        _ => disk,
    }
}

/// The files fit the stage that an atomic write has reached.
pub open spec fn fits(stage: Stage, disk: Disk) -> bool {
    match stage {
        Stage::Create => disk.target is Old && disk.temp is None,
        Stage::Write => disk.target is Old && disk.temp is Some,
        Stage::Sync => disk.target is Old && disk.temp == Some(Content::New),
        Stage::Rename => disk.target is Old && disk.temp == Some(Content::New),
        Stage::SyncDirectory => disk.target is New && disk.temp is None,
        Stage::Remove(_) => disk.target is Old,
        Stage::Finished(Ok(_)) => disk.target is New && disk.temp is None,
        Stage::Finished(Err(_)) => disk.target is Old,
    }
}

/// At every moment the target holds its old content or the whole new content,
/// never a part of it: each operation leads from files that fit its stage to
/// files that fit the next, whatever its outcome. Where the write is finished,
/// the target holds the new content exactly if it succeeded, and no temp file
/// is left of a success.
pub proof fn target_is_never_partial(
    stage: Stage,
    outcome: Result<(), Seq<char>>,
    next: Stage,
    disk: Disk,
)
    requires
        fits(stage, disk),
        follows(stage, outcome, next),
    ensures
        fits(next, effect(stage, outcome is Ok, disk)),
        !(disk.target is Partial),
        !(effect(stage, outcome is Ok, disk).target is Partial),
{
}

/// After a failure the temp file is gone, if it can be removed at all.
pub proof fn failure_removes_the_temp_file(message: String, disk: Disk)
    ensures
        effect(Stage::Remove(message), true, disk).temp is None,
        effect(Stage::Remove(message), true, disk).target == disk.target,
{
}

/// Where every operation succeeds, the temp file is created, written, flushed
/// and put in the place of the target, the directory is flushed, and the write
/// has succeeded.
pub proof fn success_takes_every_step(
    written: Stage,
    synced: Stage,
    renamed: Stage,
    flushed: Stage,
    finished: Stage,
)
    requires
        follows(Stage::Create, Ok(()), written),
        follows(written, Ok(()), synced),
        follows(synced, Ok(()), renamed),
        follows(renamed, Ok(()), flushed),
        follows(flushed, Ok(()), finished),
    ensures
        written is Write,
        synced is Sync,
        renamed is Rename,
        flushed is SyncDirectory,
        finished matches Stage::Finished(Ok(_)),
{
}

/// Where an operation on the temp file fails, the temp file is removed, and the
/// write has failed with a message that ends in what went wrong; whether it can
/// be removed does not matter.
pub proof fn failure_is_reported(
    stage: Stage,
    error: Seq<char>,
    removed: Stage,
    outcome: Result<(), Seq<char>>,
    finished: Stage,
)
    requires
        stage is Create || stage is Write || stage is Sync || stage is Rename,
        follows(stage, Err(error), removed),
        follows(removed, outcome, finished),
    ensures
        removed is Remove,
        finished matches Stage::Finished(Err(m)) && error.is_suffix_of(m@),
{
}

/// Once the target is replaced, the write has succeeded, whatever becomes of
/// flushing the directory.
pub proof fn replaced_target_is_a_success(outcome: Result<(), Seq<char>>, finished: Stage)
    requires
        follows(Stage::SyncDirectory, outcome, finished),
    ensures
        finished matches Stage::Finished(Ok(_)),
{
}

/// The name of a file is the last name of its path.
pub proof fn last_name_is_the_file_name(directory: Seq<Seq<u8>>, name: Seq<char>)
    requires
        encode_utf8(name) != seq![0x2Eu8, 0x2Eu8],
    ensures
        file_name(directory.push(encode_utf8(name))) == Some(encode_utf8(name)),
        file_name(Seq::empty()) is None,
        file_name(directory.push(seq![0x2Eu8, 0x2Eu8])) is None,
{
    encode_utf8_valid_utf8(name);
}

} // verus!
