//! The `initialize` instructions: everything an agent must know to use MCPod,
//! delivered before any resource is read.

use vstd::prelude::*;
use vstd::string::*;

verus! {

/// What comes before the workspace is first named.
pub const OPENING: &'static str = "You are connected to an MCPod development container.

Workspace:

- The project workspace is ";

/// What stands between its first and second mention.
pub const PERFORM: &'static str = ".
- Perform project work inside ";

/// What stands between its second and third mention.
pub const SHELL: &'static str = ".
- Shell commands run with ";

/// What stands between its third and fourth mention.
pub const GUIDE: &'static str = " as the default working directory.

Available tools:

- read: Read file contents.
- write: Create new files or completely replace file contents.
- edit: Make precise changes to existing files.
- bash: Execute shell commands, including git, search, build, test, package management, and development tools.

Tool usage:

- Use read to inspect source files instead of `cat` or `sed`.
- Use edit for targeted changes to existing files.
- Use write for new files or complete rewrites.
- Use bash for `ls`, `rg`, `find`, git, package managers, builds, tests, and other shell operations.
- Prefer the dedicated file tools over shell-based file modification.
- Do not rely on temporary shell state such as `cd`, aliases, or exported variables persisting across separate bash calls.

Runtime:

- mise is installed.
- Use mise to manage development runtimes such as Node.js, Python, Rust, Go, and Java.
- Respect project-defined mise configuration when present.
- Run `mise install` when the project declares runtimes that are not yet installed.

Privileges:

- You run as the `mcpod` user mapped onto the workspace owner's UID/GID, so files you create keep the host workspace ownership.
- You have passwordless sudo inside the container for system-level operations.
- Do not prefix ordinary project commands with sudo: files created via sudo are owned by root.

Package installation:

- The container is a disposable development environment.
- You may install missing system packages with sudo apt-get when required.
- Prefer `sudo apt-get install -y --no-install-recommends <package>`.
- Run `sudo apt-get update` when package metadata is unavailable or stale.
- Prefer mise for development runtimes and runtime-managed tools.
- Install project-specific system libraries only when required.

Project instructions:

- If ";

/// What comes after its last mention.
pub const CLOSING: &'static str = "/AGENTS.md exists, read it before modifying the project.
- Follow project-specific instructions found there.

Persistence:

- Only mounted directories are guaranteed to persist.
- Changes outside mounted directories may be lost when the container is recreated.";

/// The instructions, with the workspace put in where it is named.
pub fn text(workspace: &str) -> (r: String)
    ensures
        r@ == OPENING@ + workspace@ + PERFORM@ + workspace@ + SHELL@ + workspace@ + GUIDE@
            + workspace@ + CLOSING@,
{
    let mut r: String = String::from_str(OPENING);
    r.append(workspace);
    r.append(PERFORM);
    r.append(workspace);
    r.append(SHELL);
    r.append(workspace);
    r.append(GUIDE);
    r.append(workspace);
    r.append(CLOSING);
    r
}

} // verus!
