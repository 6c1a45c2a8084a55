//! The environment resource: what an agent is told about the container.
//!
//! Mounts are taken from the kernel's mount table instead of a fixed layout.
//! Only mounts of interest to the user are reported, and no host-side source
//! paths.

use vstd::prelude::*;
use vstd::string::*;

use crate::chars;

verus! {

/// The name under which the resource is offered.
pub const RESOURCE_URI: &'static str = "resource://environment";

/// An entry of the resource list.
#[derive(Debug)]
pub struct ResourceEntry {
    pub uri: String,
    pub name: String,
    pub description: String,
    pub mime_type: String,
}

/// The entry for the environment resource.
pub fn resource() -> (r: ResourceEntry)
    ensures
        r.uri@ == RESOURCE_URI@,
        r.name@ == "environment"@,
        r.description@
            == "Dynamic environment information about this MCPod container: OS, architecture, workspace, mounts, and runtime manager."@,
        r.mime_type@ == "application/json"@,
{
    ResourceEntry {
        uri: String::from_str(RESOURCE_URI),
        name: String::from_str("environment"),
        description: String::from_str(
            "Dynamic environment information about this MCPod container: OS, architecture, workspace, mounts, and runtime manager.",
        ),
        mime_type: String::from_str("application/json"),
    }
}

#[derive(Debug)]
pub struct EnvironmentInfo {
    pub os: String,
    pub architecture: String,
    pub workspace: String,
    pub mounts: Vec<MountInfo>,
    pub runtime_manager: RuntimeManager,
}

#[derive(Debug)]
pub struct MountInfo {
    pub path: String,
    pub mode: String,
    pub persistent: bool,
}

#[derive(Debug)]
pub struct RuntimeManager {
    pub name: &'static str,
    pub installed: bool,
}

// ---------------------------------------------------------------------------
// The operating system
// ---------------------------------------------------------------------------

/// A text without the characters `c` at either end.
pub open spec fn trim_matches(s: Seq<char>, c: char) -> Seq<char> {
    chars::drop_back(chars::drop_front(s, chars::only(c)), chars::only(c))
}

fn trim_both<'a>(s: &'a [char], c: char) -> (r: &'a [char])
    ensures
        r@ == trim_matches(s@, c),
{
    chars::trim_back_char(chars::trim_front_char(s, c), c)
}

/// The name behind the first `PRETTY_NAME=` at the start of a line, from the
/// `i`-th line on, without quotes around it.
pub open spec fn pretty_name(lines: Seq<Seq<char>>, i: int) -> Option<Seq<char>>
    decreases lines.len() - i,
{
    if i < 0 || i >= lines.len() {
        None
    } else if chars::starts_with(lines[i], "PRETTY_NAME="@) {
        Some(trim_matches(trim_matches(chars::trimmed(lines[i].skip(12)), '"'), '\''))
    } else {
        pretty_name(lines, i + 1)
    }
}

/// The name of the operating system: the pretty name of the release file, e.g.
/// "Debian GNU/Linux 13 (trixie)", or the fallback where there is none.
pub fn os_name(release: Option<&str>, fallback: &str) -> (r: String)
    ensures
        r@ == (match release {
            Some(text) => match pretty_name(chars::lines(text@), 0) {
                Some(name) => name,
                None => fallback@,
            },
            None => fallback@,
        }),
{
    let text: &str = match release {
        Some(text) => text,
        None => {
            return fallback.to_owned();
        },
    };
    let s: Vec<char> = chars::to_chars(text);
    let cuts: Vec<usize> = chars::line_cuts(s.as_slice());
    let total: usize = cuts.len() - 1;
    let ghost lines = chars::lines(text@);
    let mut i: usize = 0;
    while i < total
        invariant
            chars::is_line_cuts(s@, cuts@),
            s@ == text@,
            lines == chars::lines(text@),
            total == lines.len(),
            total == cuts@.len() - 1,
            i <= total,
            release == Some(text),
            pretty_name(lines, 0) == pretty_name(lines, i as int),
        decreases total - i,
    {
        let line: &[char] = vstd::slice::slice_subrange(s.as_slice(), cuts[i], cuts[i + 1]);
        assert(line@ == lines[i as int]);
        if chars::has_prefix(line, "PRETTY_NAME=") {
            proof {
                reveal_strlit("PRETTY_NAME=");
            }
            let value: &[char] = vstd::slice::slice_subrange(line, 12, line.len());
            assert(value@ == lines[i as int].skip(12));
            let name: &[char] = trim_both(trim_both(chars::trim(value), '"'), '\'');
            return chars::from_chars(name);
        }
        i = i + 1;
    }
    fallback.to_owned()
}

// ---------------------------------------------------------------------------
// One line of the mount table
// ---------------------------------------------------------------------------

/// Whether a mount point belongs to the system or is the image root.
pub open spec fn system_mount(p: Seq<char>) -> bool {
    ||| p == "/"@
    ||| p == "/etc/hosts"@
    ||| p == "/etc/hostname"@
    ||| p == "/etc/resolv.conf"@
    ||| p == "/etc/localtime"@
    ||| p == "/etc/machine-id"@
    ||| p == "/etc/platform-id"@
    ||| p == "/proc"@
    ||| p == "/sys"@
    ||| p == "/dev"@
    ||| p == "/run"@
    ||| chars::starts_with(p, "/proc/"@)
    ||| chars::starts_with(p, "/sys/"@)
    ||| chars::starts_with(p, "/dev/"@)
    ||| chars::starts_with(p, "/run/"@)
}

/// Whether a mount point belongs to the system or is the image root.
pub fn is_system_mount(mount_point: &str) -> (r: bool)
    ensures
        r == system_mount(mount_point@),
{
    let p: Vec<char> = chars::to_chars(mount_point);
    let p: &[char] = p.as_slice();
    chars::is_text(p, "/") || chars::is_text(p, "/etc/hosts") || chars::is_text(p, "/etc/hostname")
        || chars::is_text(p, "/etc/resolv.conf") || chars::is_text(p, "/etc/localtime")
        || chars::is_text(p, "/etc/machine-id") || chars::is_text(p, "/etc/platform-id")
        || chars::is_text(p, "/proc") || chars::is_text(p, "/sys") || chars::is_text(p, "/dev")
        || chars::is_text(p, "/run") || chars::has_prefix(p, "/proc/") || chars::has_prefix(
        p,
        "/sys/",
    ) || chars::has_prefix(p, "/dev/") || chars::has_prefix(p, "/run/")
}

/// The character that an escape at the front of `s` stands for.
pub open spec fn escape_at(s: Seq<char>) -> Option<char> {
    if s.len() < 4 || s[0] != '\\' {
        None
    } else if s[1] == '0' && s[2] == '4' && s[3] == '0' {
        Some(' ')
    } else if s[1] == '0' && s[2] == '1' && s[3] == '1' {
        Some('\t')
    } else if s[1] == '0' && s[2] == '1' && s[3] == '2' {
        Some('\n')
    } else if s[1] == '1' && s[2] == '3' && s[3] == '4' {
        Some('\\')
    } else {
        None
    }
}

/// A field of the mount table with its escapes resolved. A backslash that is
/// not part of one stays.
pub open spec fn unescaped(s: Seq<char>) -> Seq<char>
    decreases s.len(),
{
    if s.len() == 0 {
        s
    } else {
        match escape_at(s) {
            Some(c) => seq![c] + unescaped(s.skip(4)),
            None => seq![s[0]] + unescaped(s.skip(1)),
        }
    }
}

/// The mount table writes space, tab, newline and backslash as `\040`, `\011`,
/// `\012` and `\134`.
pub fn unescape_mount_point(field: &str) -> (r: String)
    ensures
        r@ == unescaped(field@),
{
    let s: Vec<char> = chars::to_chars(field);
    let n: usize = s.len();
    let mut out: String = String::new();
    let mut i: usize = 0;
    assert(s@.skip(0) == s@);
    assert(out@ + unescaped(s@) == unescaped(s@));
    while i < n
        invariant
            n == s@.len(),
            i <= n,
            unescaped(s@) == out@ + unescaped(s@.skip(i as int)),
        decreases n - i,
    {
        let ghost rest = s@.skip(i as int);
        let ghost before = out@;
        let escape: Option<char> = if s[i] != '\\' || n - i < 4 {
            None
        } else {
            read_escape(s[i + 1], s[i + 2], s[i + 3])
        };
        assert(escape == escape_at(rest));
        match escape {
            Some(c) => {
                out.push(c);
                proof {
                    assert(rest.skip(4) == s@.skip(i + 4));
                    let tail = unescaped(s@.skip(i + 4));
                    assert(before + (seq![c] + tail) == out@ + tail);
                }
                i = i + 4;
            },
            None => {
                out.push(s[i]);
                proof {
                    assert(rest.skip(1) == s@.skip(i + 1));
                    let tail = unescaped(s@.skip(i + 1));
                    assert(before + (seq![rest[0]] + tail) == out@ + tail);
                }
                i = i + 1;
            },
        }
    }
    assert(out@ + unescaped(s@.skip(n as int)) == out@);
    out
}

fn read_escape(a: char, b: char, c: char) -> (r: Option<char>)
    ensures
        r == escape_at(seq!['\\', a, b, c]),
{
    if a == '0' && b == '4' && c == '0' {
        Some(' ')
    } else if a == '0' && b == '1' && c == '1' {
        Some('\t')
    } else if a == '0' && b == '1' && c == '2' {
        Some('\n')
    } else if a == '1' && b == '3' && c == '4' {
        Some('\\')
    } else {
        None
    }
}

/// A path as the mount table writes it.
pub open spec fn escaped(s: Seq<char>) -> Seq<char>
    decreases s.len(),
{
    if s.len() == 0 {
        s
    } else {
        (if s[0] == ' ' {
            seq!['\\', '0', '4', '0']
        } else if s[0] == '\t' {
            seq!['\\', '0', '1', '1']
        } else if s[0] == '\n' {
            seq!['\\', '0', '1', '2']
        } else if s[0] == '\\' {
            seq!['\\', '1', '3', '4']
        } else {
            seq![s[0]]
        }) + escaped(s.skip(1))
    }
}

/// Whatever path the mount table writes, it is read back as it is.
pub proof fn escapes_round_trip(path: Seq<char>)
    ensures
        unescaped(escaped(path)) == path,
    decreases path.len(),
{
    if path.len() > 0 {
        let rest = path.skip(1);
        escapes_round_trip(rest);
        let s = escaped(path);
        let tail = escaped(rest);
        if path[0] == ' ' || path[0] == '\t' || path[0] == '\n' || path[0] == '\\' {
            assert(s.skip(4) == tail);
            assert(escape_at(s) == Some(path[0]));
        } else {
            assert(s.skip(1) == tail);
        }
        assert(seq![path[0]] + rest == path);
    }
}

/// What is reported of a mount besides its path.
pub struct Mount {
    pub read_only: bool,
    pub persistent: bool,
}

/// The first field that is a single dash; the number of fields where none is.
pub open spec fn separator(fields: Seq<Seq<char>>, i: int) -> int
    decreases fields.len() - i,
{
    if 0 <= i < fields.len() && fields[i] != "-"@ {
        separator(fields, i + 1)
    } else {
        i
    }
}

/// The mount that a line of the mount table describes, by its path: nothing
/// for a malformed line and for a system mount. The image root is writable but
/// not persistent; tmpfs lives in memory only.
pub open spec fn mount_of(line: Seq<char>) -> Option<(Seq<char>, Mount)> {
    let fields = chars::words(line);
    let dash = separator(fields, 0);
    if dash >= fields.len() || fields.len() < dash + 2 || fields.len() < 6 {
        None
    } else {
        let path = unescaped(fields[4]);
        if system_mount(path) {
            None
        } else {
            Some(
                (
                    path,
                    Mount {
                        read_only: chars::split(fields[5], ',').contains("ro"@),
                        persistent: path != "/"@ && fields[dash + 1] != "tmpfs"@,
                    },
                ),
            )
        }
    }
}

/// Whether an entry of the report says this of a mount.
pub open spec fn says(info: MountInfo, path: Seq<char>, mount: Mount) -> bool {
    &&& info.path@ == path
    &&& info.mode@ == (if mount.read_only {
        "ro"@
    } else {
        "rw"@
    })
    &&& info.persistent == mount.persistent
}

/// Whether the options of a mount hold `ro`.
fn has_ro(options: &[char]) -> (r: bool)
    ensures
        r == chars::split(options@, ',').contains("ro"@),
{
    let parts: Vec<&[char]> = chars::split_at_char(options, ',');
    let n: usize = parts.len();
    let ghost all = chars::split(options@, ',');
    assert(chars::contents(parts@).len() == parts@.len());
    let mut i: usize = 0;
    while i < n
        invariant
            n == parts@.len(),
            all == chars::contents(parts@),
            all == chars::split(options@, ','),
            n == all.len(),
            i <= n,
            forall|k: int| 0 <= k < i ==> #[trigger] all[k] != "ro"@,
        decreases n - i,
    {
        if chars::is_text(parts[i], "ro") {
            assert(all[i as int] == "ro"@);
            return true;
        }
        assert(all[i as int] != "ro"@);
        i = i + 1;
    }
    false
}

/// The entry for a line of the mount table.
fn read_mount(line: &[char]) -> (r: Option<MountInfo>)
    ensures
        match (r, mount_of(line@)) {
            (Some(info), Some((path, mount))) => says(info, path, mount),
            (None, None) => true,
            _ => false,
        },
{
    let fields: Vec<&[char]> = chars::split_words(line);
    let n: usize = fields.len();
    let ghost all = chars::words(line@);
    assert(chars::contents(fields@).len() == fields@.len());
    assert forall|k: int| 0 <= k < n implies #[trigger] all[k] == fields@[k]@ by {
        assert(chars::contents(fields@)[k] == fields@[k]@);
    }
    let mut dash: usize = 0;
    while dash < n && !chars::is_text(fields[dash], "-")
        invariant
            n == fields@.len(),
            n == all.len(),
            forall|k: int| 0 <= k < n ==> #[trigger] all[k] == fields@[k]@,
            dash <= n,
            separator(all, 0) == separator(all, dash as int),
        decreases n - dash,
    {
        assert(all[dash as int] != "-"@);
        dash = dash + 1;
    }
    assert(dash < n ==> all[dash as int] == "-"@);
    if dash >= n || n - dash < 2 || n < 6 {
        return None;
    }
    let field: String = chars::from_chars(fields[4]);
    let path: String = unescape_mount_point(field.as_str());
    if is_system_mount(path.as_str()) {
        return None;
    }
    let mode: String = if has_ro(fields[5]) {
        String::from_str("ro")
    } else {
        String::from_str("rw")
    };
    let persistent: bool = !chars::same_text(path.as_str(), "/") && !chars::is_text(
        fields[dash + 1],
        "tmpfs",
    );
    assert(all[4] == field@);
    assert(all[5] == fields@[5]@);
    assert(all[dash + 1] == fields@[dash + 1]@);
    Some(MountInfo { path, mode, persistent })
}

// ---------------------------------------------------------------------------
// The list of mounts
// ---------------------------------------------------------------------------

/// The order of texts by their code points, which is also the order of their
/// UTF-8 bytes.
pub open spec fn text_less(a: Seq<char>, b: Seq<char>) -> bool
    decreases a.len(),
{
    if b.len() == 0 {
        false
    } else if a.len() == 0 {
        true
    } else if a[0] != b[0] {
        (a[0] as u32) < (b[0] as u32)
    } else {
        text_less(a.drop_first(), b.drop_first())
    }
}

proof fn lemma_code_points_differ(c: char, d: char)
    ensures
        c != d ==> c as u32 != d as u32,
{
}

proof fn lemma_less_trichotomy(a: Seq<char>, b: Seq<char>)
    ensures
        a == b ==> !text_less(a, b),
        a != b ==> (text_less(a, b) <==> !text_less(b, a)),
    decreases a.len(),
{
    if a.len() > 0 && b.len() > 0 && a[0] == b[0] {
        let x = a.drop_first();
        let y = b.drop_first();
        lemma_less_trichotomy(x, y);
        assert(a == seq![a[0]] + x);
        assert(b == seq![b[0]] + y);
        assert(a != b ==> x != y);
    } else if a.len() == 0 && b.len() == 0 {
        assert(a == b);
    } else if a.len() > 0 && b.len() > 0 {
        lemma_code_points_differ(a[0], b[0]);
    }
}

proof fn lemma_less_transitive(a: Seq<char>, b: Seq<char>, c: Seq<char>)
    requires
        text_less(a, b),
        text_less(b, c),
    ensures
        text_less(a, c),
    decreases a.len(),
{
    if a.len() > 0 && a[0] == b[0] && b[0] == c[0] {
        lemma_less_transitive(a.drop_first(), b.drop_first(), c.drop_first());
    }
}

/// Whether one text comes before another.
fn is_less(a: &[char], b: &[char]) -> (r: bool)
    ensures
        r == text_less(a@, b@),
{
    let n: usize = a.len();
    let m: usize = b.len();
    let mut i: usize = 0;
    assert(a@.skip(0) == a@);
    assert(b@.skip(0) == b@);
    while i < n && i < m
        invariant
            n == a@.len(),
            m == b@.len(),
            i <= n,
            i <= m,
            text_less(a@, b@) == text_less(a@.skip(i as int), b@.skip(i as int)),
        decreases n - i,
    {
        if a[i] != b[i] {
            return (a[i] as u32) < (b[i] as u32);
        }
        assert(a@.skip(i as int).drop_first() == a@.skip(i + 1));
        assert(b@.skip(i as int).drop_first() == b@.skip(i + 1));
        i = i + 1;
    }
    i < m
}

/// The mounts of the first `n` lines by path. Of several lines with the same
/// path the last one counts.
pub open spec fn mount_map(lines: Seq<Seq<char>>, n: nat) -> Map<Seq<char>, Mount>
    decreases n,
{
    if n == 0 {
        Map::empty()
    } else {
        let before = mount_map(lines, (n - 1) as nat);
        match mount_of(lines[n - 1]) {
            Some((path, mount)) => before.insert(path, mount),
            None => before,
        }
    }
}

/// The list holds an entry for each mount of the map and no other, in the
/// order of their paths.
pub open spec fn is_listing(list: Seq<MountInfo>, map: Map<Seq<char>, Mount>) -> bool {
    &&& forall|i: int, j: int|
        0 <= i < j < list.len() ==> text_less(
            (#[trigger] list[i]).path@,
            (#[trigger] list[j]).path@,
        )
    &&& forall|i: int|
        0 <= i < list.len() ==> map.contains_key((#[trigger] list[i]).path@) && says(
            list[i],
            list[i].path@,
            map[list[i].path@],
        )
    &&& forall|path: Seq<char>| #[trigger]
        map.contains_key(path) ==> exists|i: int|
            0 <= i < list.len() && (#[trigger] list[i]).path@ == path
}

/// Put an entry in its place, or in the place of the one with the same path.
fn put(list: &mut Vec<MountInfo>, info: MountInfo, Ghost(map): Ghost<Map<Seq<char>, Mount>>, Ghost(
    mount,
): Ghost<Mount>)
    requires
        is_listing(old(list)@, map),
        says(info, info.path@, mount),
    ensures
        is_listing(final(list)@, map.insert(info.path@, mount)),
{
    let ghost path = info.path@;
    let ghost was = list@;
    let key: Vec<char> = chars::to_chars(info.path.as_str());
    let n: usize = list.len();
    let mut i: usize = 0;
    while i < n && is_less(chars::to_chars(list[i].path.as_str()).as_slice(), key.as_slice())
        invariant
            list@ == was,
            n == list@.len(),
            key@ == path,
            i <= n,
            forall|k: int| 0 <= k < i ==> text_less((#[trigger] was[k]).path@, path),
        decreases n - i,
    {
        i = i + 1;
    }
    let same: bool = i < n && chars::same_text(list[i].path.as_str(), info.path.as_str());
    let ghost map2 = map.insert(path, mount);
    proof {
        if i < n {
            lemma_less_trichotomy(was[i as int].path@, path);
        }
        assert forall|k: int| i < k < n || (k == i && !same && i < n) implies text_less(
            path,
            (#[trigger] was[k]).path@,
        ) by {
            lemma_less_trichotomy(was[i as int].path@, path);
            if k > i {
                assert(text_less(was[i as int].path@, was[k].path@));
                if !same {
                    lemma_less_transitive(path, was[i as int].path@, was[k].path@);
                }
            }
        }
    }
    if same {
        list.remove(i);
        list.insert(i, info);
        assert(list@ == was.update(i as int, info));
    } else {
        list.insert(i, info);
    }
    let ghost now = list@;
    proof {
        let d: int = if same {
            0
        } else {
            1
        };
        assert(now[i as int] == info);
        assert(forall|k: int| 0 <= k < i ==> #[trigger] now[k] == was[k]);
        assert(forall|k: int| i < k < now.len() ==> #[trigger] now[k] == was[k - d]);
        assert forall|a: int, b: int| 0 <= a < b < now.len() implies text_less(
            (#[trigger] now[a]).path@,
            (#[trigger] now[b]).path@,
        ) by {
            if b < i {
                assert(text_less(was[a].path@, was[b].path@));
            } else if b == i {
                assert(text_less(was[a].path@, path));
            } else if a < i {
                assert(text_less(was[a].path@, was[b - d].path@));
            } else if a == i {
                assert(text_less(path, was[b - d].path@));
            } else {
                assert(text_less(was[a - d].path@, was[b - d].path@));
            }
        }
        assert forall|k: int| 0 <= k < now.len() implies map2.contains_key(
            (#[trigger] now[k]).path@,
        ) && says(now[k], now[k].path@, map2[now[k].path@]) by {
            if k != i {
                let o = if k < i {
                    k
                } else {
                    k - d
                };
                assert(now[k] == was[o]);
                lemma_less_trichotomy(was[o].path@, path);
                lemma_less_trichotomy(path, was[o].path@);
            }
        }
        assert forall|p: Seq<char>| #[trigger] map2.contains_key(p) implies exists|k: int|
            0 <= k < now.len() && (#[trigger] now[k]).path@ == p by {
            if p == path {
                assert(now[i as int].path@ == p);
            } else {
                assert(map.contains_key(p));
                let o = choose|o: int| 0 <= o < was.len() && (#[trigger] was[o]).path@ == p;
                if o < i {
                    assert(now[o].path@ == p);
                } else {
                    assert(o + d != i as int);
                    assert(now[o + d].path@ == p);
                }
            }
        }
    }
}

/// Mounts the agent should know about: everything that is layered on top of
/// the image (bind mounts, volumes, user tmpfs), excluding kernel and system
/// mounts and the image root itself. Nothing where there is no mount table.
pub fn mounts(mountinfo: Option<&str>) -> (r: Vec<MountInfo>)
    ensures
        match mountinfo {
            Some(text) => is_listing(
                r@,
                mount_map(chars::lines(text@), chars::lines(text@).len()),
            ),
            None => r@.len() == 0,
        },
{
    let mut list: Vec<MountInfo> = Vec::new();
    let text: &str = match mountinfo {
        Some(text) => text,
        None => {
            return list;
        },
    };
    let s: Vec<char> = chars::to_chars(text);
    let cuts: Vec<usize> = chars::line_cuts(s.as_slice());
    let total: usize = cuts.len() - 1;
    let ghost lines = chars::lines(text@);
    let mut i: usize = 0;
    while i < total
        invariant
            chars::is_line_cuts(s@, cuts@),
            s@ == text@,
            lines == chars::lines(text@),
            total == lines.len(),
            total == cuts@.len() - 1,
            i <= total,
            is_listing(list@, mount_map(lines, i as nat)),
        decreases total - i,
    {
        let line: &[char] = vstd::slice::slice_subrange(s.as_slice(), cuts[i], cuts[i + 1]);
        assert(line@ == lines[i as int]);
        match read_mount(line) {
            Some(info) => {
                put(
                    &mut list,
                    info,
                    Ghost(mount_map(lines, i as nat)),
                    Ghost(mount_of(lines[i as int])->Some_0.1),
                );
            },
            None => {},
        }
        i = i + 1;
    }
    list
}

/// The report on the environment.
pub fn info(
    release: Option<&str>,
    os: &str,
    architecture: &str,
    workspace: &str,
    mountinfo: Option<&str>,
    mise_installed: bool,
) -> (r: EnvironmentInfo)
    ensures
        r.os@ == (match release {
            Some(text) => match pretty_name(chars::lines(text@), 0) {
                Some(name) => name,
                None => os@,
            },
            None => os@,
        }),
        r.architecture@ == architecture@,
        r.workspace@ == workspace@,
        match mountinfo {
            Some(text) => is_listing(
                r.mounts@,
                mount_map(chars::lines(text@), chars::lines(text@).len()),
            ),
            None => r.mounts@.len() == 0,
        },
        r.runtime_manager.name@ == "mise"@,
        r.runtime_manager.installed == mise_installed,
{
    EnvironmentInfo {
        os: os_name(release, os),
        architecture: architecture.to_owned(),
        workspace: workspace.to_owned(),
        mounts: mounts(mountinfo),
        runtime_manager: RuntimeManager { name: "mise", installed: mise_installed },
    }
}

/// No system mount is ever listed, and no path twice.
pub proof fn listing_is_clean(lines: Seq<Seq<char>>, list: Seq<MountInfo>, i: int, j: int)
    requires
        is_listing(list, mount_map(lines, lines.len())),
        0 <= i < list.len(),
        0 <= j < list.len(),
    ensures
        !system_mount(list[i].path@),
        i != j ==> list[i].path@ != list[j].path@,
{
    lemma_map_is_clean(lines, lines.len(), list[i].path@);
    if i < j {
        lemma_less_trichotomy(list[i].path@, list[j].path@);
        assert(text_less(list[i].path@, list[j].path@));
    } else if j < i {
        lemma_less_trichotomy(list[j].path@, list[i].path@);
        assert(text_less(list[j].path@, list[i].path@));
    }
}

proof fn lemma_map_is_clean(lines: Seq<Seq<char>>, n: nat, path: Seq<char>)
    requires
        mount_map(lines, n).contains_key(path),
    ensures
        !system_mount(path),
    decreases n,
{
    if n > 0 {
        match mount_of(lines[n - 1]) {
            Some((p, _)) => {
                if p != path {
                    lemma_map_is_clean(lines, (n - 1) as nat, path);
                }
            },
            None => {
                lemma_map_is_clean(lines, (n - 1) as nat, path);
            },
        }
    }
}

// ---------------------------------------------------------------------------
// What is reported
// ---------------------------------------------------------------------------

/// The name of the operating system is what stands between the quotes behind
/// the first `PRETTY_NAME=` at the start of a line.
pub proof fn pretty_name_is_read(lines: Seq<Seq<char>>, k: int, name: Seq<char>)
    requires
        0 <= k < lines.len(),
        lines[k] == "PRETTY_NAME="@ + seq!['"'] + name + seq!['"', '\n'],
        name.len() > 0,
        name[0] != '"' && name[0] != '\'',
        name.last() != '"' && name.last() != '\'',
        forall|i: int|
            0 <= i < k ==> (#[trigger] lines[i]).len() < 12 || lines[i].take(12) != "PRETTY_NAME="@,
    ensures
        pretty_name(lines, 0) == Some(name),
{
    reveal_strlit("PRETTY_NAME=");
    let none = Seq::<char>::empty();
    let line = lines[k];
    let quoted = seq!['"'] + name + seq!['"'];
    assert(line.take(12) == "PRETTY_NAME="@);
    assert(line.skip(12) == none + quoted + seq!['\n']);
    chars::trimming_takes_off_blanks(none, quoted, seq!['\n']);
    lemma_trim_matches(seq!['"'], name, seq!['"'], '"');
    lemma_trim_matches(none, name, none, '\'');
    assert(none + name + none == name);
    lemma_pretty_name(lines, 0, k);
}

proof fn lemma_pretty_name(lines: Seq<Seq<char>>, i: int, k: int)
    requires
        0 <= i <= k <= lines.len(),
        forall|j: int|
            0 <= j < k ==> (#[trigger] lines[j]).len() < 12 || lines[j].take(12) != "PRETTY_NAME="@,
    ensures
        pretty_name(lines, i) == pretty_name(lines, k),
    decreases k - i,
{
    reveal_strlit("PRETTY_NAME=");
    if i < k {
        assert(lines[i].len() < 12 || lines[i].take(12) != "PRETTY_NAME="@);
        lemma_pretty_name(lines, i + 1, k);
    }
}

/// Without such a line there is no name.
pub proof fn no_pretty_name_is_made_up(lines: Seq<Seq<char>>)
    requires
        forall|i: int|
            0 <= i < lines.len() ==> (#[trigger] lines[i]).len() < 12 || lines[i].take(12)
                != "PRETTY_NAME="@,
    ensures
        pretty_name(lines, 0) is None,
{
    lemma_pretty_name(lines, 0, lines.len() as int);
}

proof fn lemma_trim_matches(front: Seq<char>, core: Seq<char>, back: Seq<char>, c: char)
    requires
        forall|i: int| 0 <= i < front.len() ==> #[trigger] front[i] == c,
        forall|i: int| 0 <= i < back.len() ==> #[trigger] back[i] == c,
        core.len() > 0,
        core[0] != c,
        core.last() != c,
    ensures
        trim_matches(front + core + back, c) == core,
{
    let all = front + core + back;
    let rest = core + back;
    assert forall|i: int| 0 <= i < front.len() implies #[trigger] chars::only(c)(all[i]) by {
        assert(all[i] == front[i]);
    }
    chars::lemma_drop_front(all, chars::only(c), front.len() as int);
    assert(all.skip(front.len() as int) == rest);
    assert(rest[0] == core[0]);
    assert(chars::drop_front(rest, chars::only(c)) == rest);
    assert forall|i: int| core.len() <= i < rest.len() implies #[trigger] chars::only(c)(
        rest[i],
    ) by {
        assert(rest[i] == back[i - core.len()]);
    }
    chars::lemma_drop_back(rest, chars::only(c), core.len() as int);
    assert(rest.take(core.len() as int) == core);
}

/// The kernel's directories and everything below them belong to the system;
/// outside of them only the image root and the files that the container engine
/// puts into `/etc` do.
pub proof fn system_mounts_belong_to_the_engine(p: Seq<char>, dir: Seq<char>, below: Seq<char>)
    requires
        dir == "/proc"@ || dir == "/sys"@ || dir == "/dev"@ || dir == "/run"@,
    ensures
        system_mount(dir),
        system_mount(dir + seq!['/'] + below),
        system_mount("/"@),
        system_mount(p) ==> p == "/"@ || p == "/etc/hosts"@ || p == "/etc/hostname"@ || p
            == "/etc/resolv.conf"@ || p == "/etc/localtime"@ || p == "/etc/machine-id"@ || p
            == "/etc/platform-id"@ || exists|d: Seq<char>, b: Seq<char>|
            (d == "/proc"@ || d == "/sys"@ || d == "/dev"@ || d == "/run"@) && (p == d || p
                == #[trigger] (d + seq!['/'] + b)),
{
    reveal_strlit("/proc");
    reveal_strlit("/sys");
    reveal_strlit("/dev");
    reveal_strlit("/run");
    reveal_strlit("/proc/");
    reveal_strlit("/sys/");
    reveal_strlit("/dev/");
    reveal_strlit("/run/");
    assert("/proc/"@ == "/proc"@ + seq!['/']);
    assert("/sys/"@ == "/sys"@ + seq!['/']);
    assert("/dev/"@ == "/dev"@ + seq!['/']);
    assert("/run/"@ == "/run"@ + seq!['/']);
    let deep = dir + seq!['/'] + below;
    assert(deep.take(dir.len() as int + 1) == dir + seq!['/']);
    if system_mount(p) && chars::starts_with(p, "/proc/"@) {
        assert(p == "/proc"@ + seq!['/'] + p.skip(6));
    } else if system_mount(p) && chars::starts_with(p, "/sys/"@) {
        assert(p == "/sys"@ + seq!['/'] + p.skip(5));
    } else if system_mount(p) && chars::starts_with(p, "/dev/"@) {
        assert(p == "/dev"@ + seq!['/'] + p.skip(5));
    } else if system_mount(p) && chars::starts_with(p, "/run/"@) {
        assert(p == "/run"@ + seq!['/'] + p.skip(5));
    } else if p == "/proc"@ || p == "/sys"@ || p == "/dev"@ || p == "/run"@ {
        let d = p;
        let b = below;
        assert(d + seq!['/'] + b == d + seq!['/'] + b);
    }
}

/// Text without a backslash is not changed by resolving escapes, and neither
/// is what stands in front of one.
pub proof fn plain_text_has_no_escapes(front: Seq<char>, back: Seq<char>)
    requires
        forall|i: int| 0 <= i < front.len() ==> #[trigger] front[i] != '\\',
    ensures
        unescaped(front + back) == front + unescaped(back),
        unescaped(front) == front,
    decreases front.len(),
{
    let all = front + back;
    let none = Seq::<char>::empty();
    if front.len() == 0 {
        assert(all == back);
        assert(front + unescaped(back) == unescaped(back));
    } else {
        let rest = front.skip(1);
        assert(all.skip(1) == rest + back);
        assert(all[0] == front[0]);
        plain_text_has_no_escapes(rest, back);
        assert(seq![front[0]] + (rest + unescaped(back)) == front + unescaped(back));
        assert(seq![front[0]] + rest == front);
    }
}

proof fn lemma_separator(fields: Seq<Seq<char>>, i: int, dash: int)
    requires
        0 <= i <= dash <= fields.len(),
        forall|k: int| 0 <= k < dash ==> #[trigger] fields[k] != "-"@,
        dash < fields.len() ==> fields[dash] == "-"@,
    ensures
        separator(fields, i) == dash,
    decreases dash - i,
{
    if i < dash {
        lemma_separator(fields, i + 1, dash);
    }
}

/// A line of the mount table gives the fifth of its fields as the path, says
/// that it is read-only where `ro` is among the options in the sixth, and that
/// it is persistent unless the field behind the dash names tmpfs.
pub proof fn mount_line_is_read(line: Seq<char>, fields: Seq<Seq<char>>, dash: int)
    requires
        chars::words(line) == fields,
        fields.len() >= 6,
        0 <= dash,
        dash + 1 < fields.len(),
        fields[dash] == "-"@,
        forall|k: int| 0 <= k < dash ==> #[trigger] fields[k] != "-"@,
    ensures
        system_mount(unescaped(fields[4])) ==> mount_of(line) is None,
        !system_mount(unescaped(fields[4])) ==> {
            &&& mount_of(line) matches Some((path, mount))
            &&& path == unescaped(fields[4])
            &&& mount.read_only <==> exists|i: int|
                0 <= i < chars::split(fields[5], ',').len() && #[trigger] chars::split(
                    fields[5],
                    ',',
                )[i] == "ro"@
            &&& mount.persistent <==> fields[dash + 1] != "tmpfs"@
        },
{
    lemma_separator(fields, 0, dash);
    let options = chars::split(fields[5], ',');
    if exists|i: int| 0 <= i < options.len() && #[trigger] options[i] == "ro"@ {
        let i = choose|i: int| 0 <= i < options.len() && #[trigger] options[i] == "ro"@;
        assert(options.contains("ro"@));
    }
}

/// A line without a dash, with nothing behind it, or with fewer than six fields
/// gives no mount.
pub proof fn malformed_mount_line_is_passed_over(line: Seq<char>)
    requires
        chars::words(line).len() < 6 || forall|k: int|
            0 <= k < chars::words(line).len() - 1 ==> #[trigger] chars::words(line)[k] != "-"@,
    ensures
        mount_of(line) is None,
{
    let fields = chars::words(line);
    if fields.len() >= 6 {
        let last = fields.len() - 1;
        if fields[last] == "-"@ {
            lemma_separator(fields, 0, last as int);
        } else {
            assert forall|k: int| 0 <= k < fields.len() implies #[trigger] fields[k] != "-"@ by {
                if k < last {
                    assert(chars::words(line)[k] != "-"@);
                }
            }
            lemma_separator(fields, 0, fields.len() as int);
        }
    }
}

/// Every mount of the table is known, by the last of the lines with its path.
pub proof fn last_line_of_a_path_counts(
    lines: Seq<Seq<char>>,
    n: nat,
    i: int,
    path: Seq<char>,
    mount: Mount,
)
    requires
        0 <= i < n <= lines.len(),
        mount_of(lines[i]) == Some((path, mount)),
        forall|j: int|
            i < j < n ==> (mount_of(#[trigger] lines[j]) is None || mount_of(lines[j])->Some_0.0
                != path),
    ensures
        mount_map(lines, n).contains_key(path),
        mount_map(lines, n)[path] == mount,
    decreases n,
{
    if i < n - 1 {
        last_line_of_a_path_counts(lines, (n - 1) as nat, i, path, mount);
        assert(mount_of(lines[n - 1]) is None || mount_of(lines[n - 1])->Some_0.0 != path);
    }
}

/// No mount is made up: each one known comes from a line of the table.
pub proof fn every_mount_has_its_line(lines: Seq<Seq<char>>, n: nat, path: Seq<char>)
    requires
        n <= lines.len(),
        mount_map(lines, n).contains_key(path),
    ensures
        exists|i: int|
            0 <= i < n && mount_of(#[trigger] lines[i]) == Some((path, mount_map(lines, n)[path])),
    decreases n,
{
    if n > 0 {
        let before = mount_map(lines, (n - 1) as nat);
        if mount_of(lines[n - 1]) is Some && mount_of(lines[n - 1])->Some_0.0 == path {
            assert(mount_of(lines[n - 1]) == Some((path, mount_map(lines, n)[path])));
        } else {
            every_mount_has_its_line(lines, (n - 1) as nat, path);
            let i = choose|i: int|
                0 <= i < n - 1 && mount_of(#[trigger] lines[i]) == Some((path, before[path]));
            assert(mount_of(lines[i]) == Some((path, mount_map(lines, n)[path])));
        }
    }
}

/// Paths are ordered by the first character in which they differ, and a
/// beginning of a path comes before the path.
pub proof fn first_difference_orders_paths(
    front: Seq<char>,
    a: Seq<char>,
    b: Seq<char>,
)
    requires
        a.len() > 0 && b.len() > 0 ==> a[0] != b[0],
    ensures
        text_less(front + a, front + b) <==> b.len() > 0 && (a.len() == 0 || (a[0] as u32) < (
        b[0] as u32)),
    decreases front.len(),
{
    let x = front + a;
    let y = front + b;
    if front.len() == 0 {
        assert(x == a && y == b);
    } else {
        let rest = front.drop_first();
        assert(x.drop_first() == rest + a);
        assert(y.drop_first() == rest + b);
        assert(x[0] == front[0] && y[0] == front[0]);
        first_difference_orders_paths(rest, a, b);
    }
}

/// Every mount of the table is listed, as its last line describes it: with its
/// path, `ro` or `rw`, and whether it persists.
pub proof fn every_mount_is_listed(
    lines: Seq<Seq<char>>,
    list: Seq<MountInfo>,
    i: int,
    path: Seq<char>,
    mount: Mount,
)
    requires
        is_listing(list, mount_map(lines, lines.len())),
        0 <= i < lines.len(),
        mount_of(lines[i]) == Some((path, mount)),
        forall|j: int|
            i < j < lines.len() ==> (mount_of(#[trigger] lines[j]) is None || mount_of(
                lines[j],
            )->Some_0.0 != path),
    ensures
        exists|k: int| #![trigger list[k]]
            0 <= k < list.len() && list[k].path@ == path && list[k].persistent == mount.persistent
                && (mount.read_only ==> list[k].mode@ == "ro"@) && (!mount.read_only
                ==> list[k].mode@ == "rw"@),
{
    last_line_of_a_path_counts(lines, lines.len(), i, path, mount);
    let map = mount_map(lines, lines.len());
    assert(map.contains_key(path));
    let k = choose|k: int| 0 <= k < list.len() && (#[trigger] list[k]).path@ == path;
    assert(says(list[k], list[k].path@, map[list[k].path@]));
}

/// Each entry of the list is that of a line of the table, and the entries come
/// in the order of their paths.
pub proof fn list_follows_the_table(
    lines: Seq<Seq<char>>,
    list: Seq<MountInfo>,
    k: int,
    l: int,
)
    requires
        is_listing(list, mount_map(lines, lines.len())),
        0 <= k < list.len(),
    ensures
        exists|i: int|
            0 <= i < lines.len() && (mount_of(#[trigger] lines[i]) matches Some((path, mount))
                && list[k].path@ == path && list[k].persistent == mount.persistent),
        k < l < list.len() ==> text_less(list[k].path@, list[l].path@),
{
    let path = list[k].path@;
    let map = mount_map(lines, lines.len());
    assert(map.contains_key(path));
    assert(says(list[k], path, map[path]));
    every_mount_has_its_line(lines, lines.len(), path);
    let i = choose|i: int|
        0 <= i < lines.len() && mount_of(#[trigger] lines[i]) == Some((path, map[path]));
    assert(mount_of(lines[i]) matches Some((p, m)) && list[k].path@ == p && list[k].persistent
        == m.persistent);
}

} // verus!
