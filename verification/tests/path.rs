use mcpod::fs::atomic_write::{next, temp_path, Stage};
use mcpod::fs::mutation_queue::MutationQueue;
use mcpod::fs::path::{
    join_names, lexical_normalize, resolve_in_workspace, split_names, Answer, Step,
};

const ROOT: &str = "/tmp/mcpod-paths-test";

fn text(bytes: &[u8]) -> String {
    String::from_utf8(bytes.to_vec()).unwrap()
}

/// Resolve a path on a file system that gives the real path of what exists and
/// holds no dangling link.
fn resolve(requested: &str, real: &dyn Fn(&str) -> Option<String>) -> Result<String, String> {
    resolve_on(requested, &|path| match real(path) {
        Some(real) => Answer::Real(real),
        None => Answer::Missing,
    })
}

/// Resolve a path on a file system.
fn resolve_on(requested: &str, ask: &dyn Fn(&str) -> Answer<String>) -> Result<String, String> {
    let mut resolution = resolve_in_workspace(ROOT.as_bytes(), requested)?;
    loop {
        let answer = ask(&text(&resolution.probe()));
        let answer = match &answer {
            Answer::Real(path) => Answer::Real(path.as_bytes()),
            Answer::Missing => Answer::Missing,
            Answer::Dangling(path) => Answer::Dangling(path.as_bytes()),
        };
        match resolution.step(answer) {
            Step::Again(again) => resolution = again,
            Step::Found(names) => return Ok(text(&join_names(&names))),
            Step::Refused(message) => return Err(message),
        }
    }
}

/// Nothing below the root exists.
fn empty_workspace(path: &str) -> Option<String> {
    ["/", "/tmp", ROOT, "/etc", "/etc/passwd", "/tmp/mcpod-paths-test-evil"]
        .contains(&path)
        .then_some(path.to_string())
}

/// The root holds links to `/etc` and to itself.
fn linked_workspace(path: &str) -> Option<String> {
    for link in ["escape", "dir-link"] {
        let link = format!("{ROOT}/{link}");
        if path == link {
            return Some("/etc".to_string());
        }
        if path == format!("{link}/passwd") {
            return Some("/etc/passwd".to_string());
        }
    }
    if path == format!("{ROOT}/self") {
        return Some(ROOT.to_string());
    }
    empty_workspace(path)
}

#[test]
fn accepts_relative_and_absolute_inside() {
    assert!(resolve("src/main.rs", &empty_workspace).is_ok());
    assert_eq!(resolve("src/../a.txt", &empty_workspace).unwrap(), format!("{ROOT}/a.txt"));
    assert_eq!(
        resolve(&format!("{ROOT}/x"), &empty_workspace).unwrap(),
        format!("{ROOT}/x")
    );
    assert_eq!(resolve(".", &empty_workspace).unwrap(), ROOT);
}

#[test]
fn rejects_escape_attempts() {
    for path in [
        "../etc/passwd",
        "../../etc/passwd",
        "a/../../escape.txt",
        "/etc/passwd",
        "/etc",
        "..",
        "/tmp",
    ] {
        assert!(resolve(path, &empty_workspace).is_err(), "{path} should be rejected");
        assert_eq!(
            resolve_in_workspace(ROOT.as_bytes(), path).err().unwrap(),
            format!("path escapes the workspace: {path}")
        );
    }
}

#[test]
fn rejects_sibling_prefix_directory() {
    assert!(resolve("/tmp/mcpod-paths-test-evil", &empty_workspace).is_err());
}

#[test]
fn rejects_symlink_escape() {
    assert!(resolve("escape/passwd", &linked_workspace).is_err());
    assert_eq!(
        resolve("escape", &linked_workspace).unwrap_err(),
        "path escapes the workspace: escape"
    );
    // A symlink pointing back inside the workspace is allowed.
    assert_eq!(resolve("self/a.txt", &linked_workspace).unwrap(), format!("{ROOT}/a.txt"));
}

#[test]
fn rejects_write_target_under_escaped_symlink_dir() {
    assert!(resolve("dir-link/newfile.txt", &linked_workspace).is_err());
}

#[test]
fn resolves_through_symlinked_temp_dir() {
    assert!(resolve("deep/nested/new.txt", &empty_workspace).is_ok());
    // The deepest existing ancestor counts.
    let asked = std::cell::RefCell::new(Vec::new());
    let found = resolve("deep/nested/new.txt", &|path| {
        asked.borrow_mut().push(path.to_string());
        empty_workspace(path)
    });
    assert_eq!(found.unwrap(), format!("{ROOT}/deep/nested/new.txt"));
    assert_eq!(asked.borrow().len(), 4);
    assert_eq!(asked.borrow()[3], ROOT);
}

#[test]
fn rejects_links_to_targets_that_do_not_exist() {
    // The links are there, but what they lead to does not exist yet.
    let links = [
        ("out", "/outside/new.txt".to_string()),
        ("sibling", format!("{ROOT}-new/x")),
        ("climbs", format!("{ROOT}/../new.txt")),
        // Through a link that does exist and leads out.
        ("through", format!("{ROOT}/escape/new.txt")),
        ("chain", format!("{ROOT}/out")),
        ("below", format!("{ROOT}/chain/deeper")),
        ("nowhere", format!("{ROOT}/none/../new.txt")),
        ("in", format!("{ROOT}/new.txt")),
        ("to-in", format!("{ROOT}/in")),
        ("loop", format!("{ROOT}/loop")),
    ];
    let ask = |path: &str| {
        let target = links.iter().find(|(name, _)| path == format!("{ROOT}/{name}"));
        match (linked_workspace(path), target) {
            (Some(real), _) => Answer::Real(real),
            (None, Some((_, target))) => Answer::Dangling(target.clone()),
            (None, None) if path == format!("{ROOT}/..") => Answer::Real("/tmp".to_string()),
            (None, None) => Answer::Missing,
        }
    };
    for link in ["out", "sibling", "climbs", "through", "chain", "below", "nowhere"] {
        for path in [link.to_string(), format!("{link}/new.txt"), format!("a/../{link}")] {
            assert_eq!(
                resolve_on(&path, &ask).unwrap_err(),
                format!("path escapes the workspace: {path}")
            );
        }
    }
    // A link that leads back in, or nowhere at all, is a name like any other.
    for link in ["in", "to-in", "loop"] {
        assert_eq!(resolve_on(link, &ask).unwrap(), format!("{ROOT}/{link}"));
        let below = format!("{link}/new.txt");
        assert_eq!(resolve_on(&below, &ask).unwrap(), format!("{ROOT}/{below}"));
    }
    assert_eq!(resolve_on("links", &ask).unwrap(), format!("{ROOT}/links"));
}

#[test]
fn there_is_nothing_above_the_top() {
    for path in [
        format!("/../../{ROOT}/a"),
        format!("/..{ROOT}/a"),
        "../../../../../tmp/mcpod-paths-test/a".to_string(),
        "../../../tmp/mcpod-paths-test/a".to_string(),
    ] {
        assert_eq!(resolve(&path, &empty_workspace).unwrap(), format!("{ROOT}/a"), "{path}");
    }
    for path in ["/../../etc/passwd", "/..", "../../../../etc"] {
        assert!(resolve(path, &empty_workspace).is_err(), "{path} should be rejected");
    }
}

#[test]
fn nothing_exists() {
    assert_eq!(
        resolve("a/b", &|_| None).unwrap_err(),
        "cannot resolve path: a/b"
    );
}

#[test]
fn names_and_paths() {
    let names = |s: &str| {
        split_names(s.as_bytes()).iter().map(|n| text(n)).collect::<Vec<_>>()
    };
    assert_eq!(names("/a//b/./c/"), ["a", "b", "c"]);
    assert_eq!(names("../x"), ["..", "x"]);
    assert_eq!(names(""), Vec::<String>::new());
    assert_eq!(names("/"), Vec::<String>::new());
    for path in ["/", "/a", "/a/b/c", "/ä ö/.hidden/..x"] {
        assert_eq!(text(&join_names(&split_names(path.as_bytes()))), path);
    }
}

#[test]
fn parent_steps_are_taken_back() {
    let normal = |s: &str| text(&join_names(&lexical_normalize(&split_names(s.as_bytes()))));
    assert_eq!(normal("/a/b/../c"), "/a/c");
    assert_eq!(normal("/a/../../b"), "/../b");
    assert_eq!(normal("/.."), "/..");
    // Parent steps that have nothing to take back are kept, all of them.
    assert_eq!(normal("/../.."), "/../..");
    assert_eq!(normal("../.././x"), "/../../x");
    assert_eq!(normal("/../a/../../x"), "/../../x");
}

#[test]
fn same_file_serializes_different_files_parallel() {
    let mut queue = MutationQueue::new();
    let a = queue.lock(b"/w/a");
    let b = queue.lock(b"/w/b");
    assert_ne!(a, b);
    assert_eq!(queue.lock(b"/w/a"), a);
    assert_eq!(queue.lock(b"/w/c"), 2);
    assert_eq!(queue.lock(b"/w/b"), b);
}

/// The operations that an atomic write carries out, where the given one fails.
fn operations(fails: &str) -> (Vec<&'static str>, Result<(), String>) {
    let mut stage = Stage::Create;
    let mut done = Vec::new();
    loop {
        let name = match &stage {
            Stage::Create => "create",
            Stage::Write => "write",
            Stage::Sync => "sync",
            Stage::Rename => "rename",
            Stage::SyncDirectory => "sync directory",
            Stage::Remove(_) => "remove",
            Stage::Finished(result) => return (done, result.clone()),
        };
        done.push(name);
        let outcome = if name == fails { Err("no luck".to_string()) } else { Ok(()) };
        stage = next(stage, outcome);
    }
}

#[test]
fn writes_content_and_leaves_no_temp_files() {
    let all = vec!["create", "write", "sync", "rename", "sync directory"];
    assert_eq!(operations(""), (all.clone(), Ok(())));
    assert_eq!(operations("sync directory"), (all, Ok(())));
}

#[test]
fn preserves_existing_file_on_failure() {
    let cases = [
        ("create", "failed to create temp file: no luck"),
        ("write", "failed to write temp file: no luck"),
        ("sync", "failed to sync temp file: no luck"),
        ("rename", "failed to replace file: no luck"),
    ];
    for (step, (fails, message)) in cases.into_iter().enumerate() {
        let (done, result) = operations(fails);
        assert_eq!(result, Err(message.to_string()));
        assert_eq!(done.len(), step + 2);
        assert_eq!(done.last(), Some(&"remove"));
        assert_eq!(done.contains(&"rename"), fails == "rename");
    }
}

#[test]
fn temp_file_names() {
    let target = split_names("/w/dir/päth.rs".as_bytes());
    let temp = temp_path(&target, "/w/dir/päth.rs", "0badcafe").unwrap();
    assert_eq!(text(&join_names(&temp)), "/w/dir/.päth.rs.mcpod-tmp-0badcafe");
    for (target, display) in [
        (vec![], "/"),
        (vec![b"w".to_vec(), b"..".to_vec()], "/w/.."),
        (vec![vec![0xFF]], "/?"),
    ] {
        assert_eq!(
            temp_path(&target, display, "00").unwrap_err(),
            format!("invalid file path: {display}")
        );
    }
}
