use acdx::command::{CommandBlock, CommandId, DEFAULT_SHELL};

#[test]
fn default_shell_is_sh() {
    assert!(DEFAULT_SHELL == "sh");
}

#[test]
fn new_stores_id_script_and_default_shell() {
    let id = CommandId::new("build").unwrap();
    let block = CommandBlock::new(id.clone(), "cargo build".into(), None);
    assert_eq!(block.metadata.id, id);
    assert_eq!(block.metadata.shell, "sh");
    assert_eq!(block.script, "cargo build\n");
}

#[test]
fn new_stores_explicit_shell() {
    let id = CommandId::new("test").unwrap();
    let block = CommandBlock::new(id, String::new(), Some("bash".into()));
    assert_eq!(block.metadata.shell, "bash");
}

#[test]
fn new_stores_any_shell_string() {
    for shell in ["bash", "python3", "sh", "zsh"] {
        let id = CommandId::new("run").unwrap();
        let block = CommandBlock::new(id, String::new(), Some(shell.into()));
        assert_eq!(block.metadata.shell, shell);
    }
}

#[test]
fn new_appends_newline_when_missing() {
    let id = CommandId::new("build").unwrap();
    let block = CommandBlock::new(id, "cargo build".into(), None);
    assert!(block.script.ends_with('\n'));
    assert_eq!(block.script, "cargo build\n");
}

#[test]
fn new_does_not_double_newline() {
    let id = CommandId::new("build").unwrap();
    let block = CommandBlock::new(id, "cargo build\n".into(), None);
    assert_eq!(block.script, "cargo build\n");
}

#[test]
fn new_empty_script_gets_newline() {
    let id = CommandId::new("noop").unwrap();
    let block = CommandBlock::new(id, String::new(), None);
    assert_eq!(block.script, "\n");
}

#[test]
fn new_preserves_multiline_script() {
    let id = CommandId::new("build").unwrap();
    let script = "set -e\ncargo build\necho done\n".to_string();
    let block = CommandBlock::new(id, script.clone(), None);
    assert_eq!(block.script, script);
}

#[test]
fn new_appends_newline_after_non_ascii_end() {
    let id = CommandId::new("greet").unwrap();
    let block = CommandBlock::new(id, "echo h\u{e9}".into(), None);
    assert_eq!(block.script, "echo h\u{e9}\n");
}

#[test]
fn clone_is_independent() {
    let id = CommandId::new("deploy").unwrap();
    let block = CommandBlock::new(id, "echo deploy".into(), Some("bash".into()));
    let mut cloned = block.clone();
    cloned.script.push_str("echo done\n");
    assert_eq!(block.script, "echo deploy\n");
    assert_eq!(cloned.script, "echo deploy\necho done\n");
}

const SAMPLES: [&str; 5] = ["a", "Z9", "_x", "a-b", "snake_case"];

#[test]
fn new_preserves_id() {
    for raw in SAMPLES {
        let id = CommandId::new(raw).unwrap();
        let block = CommandBlock::new(id, String::new(), None);
        assert_eq!(block.metadata.id.as_str(), raw);
    }
}

#[test]
fn new_uses_sh_when_shell_is_none() {
    for raw in SAMPLES {
        let id = CommandId::new(raw).unwrap();
        let block = CommandBlock::new(id, String::new(), None);
        assert_eq!(block.metadata.shell, "sh");
    }
}

#[test]
fn script_always_ends_with_newline() {
    for script in ["", "x", "x\n", "\n\n", "a\nb", "tab\t", "\u{1F600}"] {
        let id = CommandId::new("s").unwrap();
        let block = CommandBlock::new(id, script.to_string(), None);
        assert!(block.script.ends_with('\n'));
    }
}
