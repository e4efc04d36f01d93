//! Command blocks: a command id, the shell that runs it, and its script.

use vstd::prelude::*;
use vstd::string::StrSliceExecFns;

use super::id::CommandId;

verus! {

/// The shell used when a block names none.
pub const DEFAULT_SHELL: &'static str = "sh";

/// `s` with a newline appended, unless it already ends with one.
pub open spec fn with_trailing_newline(s: Seq<char>) -> Seq<char> {
    if s.len() > 0 && s.last() == '\n' {
        s
    } else {
        s.push('\n')
    }
}

/// Metadata for a command block.
#[derive(Debug)]
pub struct CommandMetadata {
    /// The identifier for the command, e.g. `build` or `test`.
    pub id: CommandId,
    /// The shell or runtime to use to execute the command.
    ///
    /// This value is what might appear *last* in the *shebang* of a script, e.g. `python3` for
    /// `#!/usr/bin/env python3`, or `bash` for `#!/usr/bin/env bash`.
    pub shell: String,
}

/// A single command with its metadata.
#[derive(Debug)]
pub struct CommandBlock {
    /// The metadata associated with this command block.
    pub metadata: CommandMetadata,
    /// The script body.
    pub script: String,
}

impl Clone for CommandMetadata {
    fn clone(&self) -> (r: Self)
        ensures
            r == *self,
    {
        CommandMetadata { id: self.id.clone(), shell: self.shell.clone() }
    }
}

impl Clone for CommandBlock {
    fn clone(&self) -> (r: Self)
        ensures
            r == *self,
    {
        CommandBlock { metadata: self.metadata.clone(), script: self.script.clone() }
    }
}

impl CommandBlock {
    /// Construct a [`CommandBlock`], defaulting `shell` to `"sh"` when absent.
    ///
    /// The stored script always ends with a newline: one is appended when the
    /// given script does not end with one.
    #[must_use]
    pub fn new(id: CommandId, script: String, shell: Option<String>) -> (r: Self)
        ensures
            r.metadata.id == id,
            r.metadata.shell@ == (match shell {
                Some(s) => s@,
                None => "sh"@,
            }),
            r.script@ == with_trailing_newline(script@),
            script@.len() > 0 && script@.last() == '\n' ==> r.script@ == script@,
            !(script@.len() > 0 && script@.last() == '\n') ==> r.script@ == script@.push('\n'),
    {
        let mut script = script;
        let n = script.as_str().unicode_len();
        if n == 0 || script.as_str().get_char(n - 1) != '\n' {
            script.append("\n");
            proof {
                reveal_strlit("\n");
            }
        }
        let shell = match shell {
            Some(s) => s,
            None => String::from_str(DEFAULT_SHELL),
        };
        CommandBlock { metadata: CommandMetadata { id, shell }, script }
    }
}

} // verus!
