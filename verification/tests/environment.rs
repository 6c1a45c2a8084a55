use mcpod::environment::{
    info, is_system_mount, mounts, os_name, resource, unescape_mount_point, RESOURCE_URI,
};
use mcpod::instructions::text;

#[test]
fn unescape_handles_octal_sequences() {
    assert_eq!(unescape_mount_point("/data"), "/data");
    assert_eq!(unescape_mount_point("/my\\040data"), "/my data");
    assert_eq!(unescape_mount_point("a\\134b"), "a\\b");
    assert_eq!(unescape_mount_point("trailing\\"), "trailing\\");
}

#[test]
fn system_mounts_are_filtered() {
    assert!(is_system_mount("/"));
    assert!(is_system_mount("/proc"));
    assert!(is_system_mount("/proc/cpuinfo"));
    assert!(is_system_mount("/dev/shm"));
    assert!(is_system_mount("/etc/hosts"));
    assert!(is_system_mount("/run/secrets"));
    assert!(!is_system_mount("/workspace"));
    assert!(!is_system_mount("/data"));
}

#[test]
fn prefixes_end_at_a_component() {
    assert!(!is_system_mount("/process"));
    assert!(!is_system_mount("/devices"));
    assert!(!is_system_mount("/etc/hosts.d"));
    assert!(is_system_mount("/sys/fs/cgroup"));
    assert!(is_system_mount("/run"));
}

#[test]
fn escapes_are_read_back() {
    for path in ["/a b\tc\nd\\e", "\\\\040", "\\", "", "/ü ö"] {
        let escaped = path
            .replace('\\', "\\134")
            .replace(' ', "\\040")
            .replace('\t', "\\011")
            .replace('\n', "\\012");
        assert_eq!(unescape_mount_point(&escaped), path);
    }
    assert_eq!(unescape_mount_point("\\041\\04"), "\\041\\04");
    assert_eq!(unescape_mount_point("\\0é0"), "\\0é0");
}

const TABLE: &str = "\
22 1 0:20 / / rw,relatime - overlay overlay rw
23 22 0:21 / /proc rw,nosuid - proc proc rw
30 22 8:1 /vol /workspace rw,relatime shared:1 - ext4 /dev/sda1 rw
31 22 0:40 / /tmp\\040files rw - tmpfs tmpfs rw
32 22 8:1 /cfg /data ro,relatime - ext4 /dev/sda1 rw
33 22 8:1 /h /etc/hosts rw - ext4 /dev/sda1 rw
broken line without separator
34 22 8:1 / /short rw -
35 22 8:2 /new /data rw,relatime master:1 - btrfs /dev/sdb rw
36 22 8:2 /x /opt rw,errors=remount-ro - ext4 /dev/sdb rw
";

#[test]
fn mounts_are_listed_by_path() {
    let list: Vec<(String, String, bool)> = mounts(Some(TABLE))
        .into_iter()
        .map(|m| (m.path, m.mode, m.persistent))
        .collect();
    let row = |path: &str, mode: &str, persistent| (path.to_string(), mode.to_string(), persistent);
    assert_eq!(
        list,
        vec![
            row("/data", "rw", true), // the later mount hides the earlier one
            row("/opt", "rw", true),
            row("/tmp files", "rw", false),
            row("/workspace", "rw", true),
        ]
    );
    assert!(mounts(None).is_empty());
    assert!(mounts(Some("")).is_empty());
}

#[test]
fn read_only_mounts() {
    let list = mounts(Some("1 2 3 / /ro nosuid,ro - ext4 x y\n1 2 3 / /Z ro - tmpfs x y"));
    assert_eq!(list.len(), 2);
    assert_eq!((list[0].path.as_str(), list[0].mode.as_str()), ("/Z", "ro"));
    assert!(!list[0].persistent);
    assert_eq!((list[1].path.as_str(), list[1].mode.as_str()), ("/ro", "ro"));
}

#[test]
fn os_names() {
    let release = "NAME=\"Debian\"\nPRETTY_NAME=\"Debian GNU/Linux 13 (trixie)\"\nID=debian\n";
    assert_eq!(os_name(Some(release), "linux"), "Debian GNU/Linux 13 (trixie)");
    assert_eq!(os_name(Some("PRETTY_NAME= 'Alpine' \r\n"), "linux"), "Alpine");
    assert_eq!(os_name(Some("NAME=x\n PRETTY_NAME=y\n"), "linux"), "linux");
    assert_eq!(os_name(None, "macos"), "macos");
}

#[test]
fn environment_report() {
    let report = info(None, "linux", "x86_64", "/workspace", Some(TABLE), true);
    assert_eq!(report.os, "linux");
    assert_eq!(report.architecture, "x86_64");
    assert_eq!(report.workspace, "/workspace");
    assert_eq!(report.mounts.len(), 4);
    assert_eq!(report.runtime_manager.name, "mise");
    assert!(report.runtime_manager.installed);
}

#[test]
fn the_resource_entry() {
    let entry = resource();
    assert_eq!(entry.uri, RESOURCE_URI);
    assert_eq!(entry.uri, "resource://environment");
    assert_eq!(entry.name, "environment");
    assert_eq!(entry.mime_type, "application/json");
    assert!(entry.description.ends_with("workspace, mounts, and runtime manager."));
}

#[test]
fn contains_core_guidance() {
    let instructions = text("/workspace");
    assert!(instructions.contains("You are connected to an MCPod development container"));
    assert!(instructions.contains("The project workspace is /workspace"));
    assert!(instructions.contains("read: Read file contents."));
    assert!(instructions.contains("write: Create new files or completely replace file contents."));
    assert!(instructions.contains("edit: Make precise changes to existing files."));
    assert!(instructions.contains("Execute shell commands, including git, search, build, test"));
    assert!(instructions.contains("Use read to inspect source files instead of `cat` or `sed`."));
    assert!(instructions
        .contains("Use bash for `ls`, `rg`, `find`, git, package managers, builds, tests"));
    assert!(instructions.contains("Do not rely on temporary shell state such as `cd`, aliases"));
    assert!(instructions.contains("mise install"));
    assert!(instructions.contains("mapped onto the workspace owner's UID/GID"));
    assert!(instructions.contains("passwordless sudo inside the container"));
    assert!(instructions.contains("files created via sudo are owned by root"));
    assert!(instructions.contains("sudo apt-get install -y --no-install-recommends"));
    assert!(instructions.contains("AGENTS.md exists, read it before modifying"));
    assert!(instructions.contains("Only mounted directories are guaranteed to persist"));
}

#[test]
fn the_workspace_is_named_four_times() {
    assert_eq!(text("/some/where").matches("/some/where").count(), 4);
    assert!(text("/w").contains("- If /w/AGENTS.md exists"));
}
