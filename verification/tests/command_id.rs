use std::collections::HashSet;

use acdx::command::{CommandId, CommandMetadata, InvalidCommandId};

#[test]
fn command_metadata_holds_id_and_shell() {
    let meta = CommandMetadata {
        id: CommandId::new("build").unwrap(),
        shell: "bash".to_string(),
    };
    assert_eq!(meta.id.as_str(), "build");
    assert_eq!(meta.shell, "bash");
}

fn accepts(raw: &str) {
    let id = CommandId::new(raw).expect("id should be valid");
    assert_eq!(id.as_str(), raw);
}

#[test]
fn new_accepts_valid_ids() {
    for raw in [
        "foo", "bar", "some-command", "cmd_123", "a", "A", "_", "_hidden", "123", "a-b_c-1",
    ] {
        accepts(raw);
    }
}

#[test]
fn new_rejects_empty() {
    assert!(matches!(CommandId::new(""), Err(InvalidCommandId::Empty)));
}

#[test]
fn new_rejects_leading_dash() {
    for raw in ["-foo", "-", "--bar"] {
        match CommandId::new(raw) {
            Err(InvalidCommandId::LeadingDash { id }) => assert_eq!(id, raw),
            other => panic!("expected LeadingDash, got {other:?}"),
        }
    }
}

#[test]
fn new_rejects_illegal_char() {
    for (raw, expected) in [
        (" ", ' '),
        (" foo", ' '),
        ("foo ", ' '),
        ("foo bar", ' '),
        ("foo.bar", '.'),
        ("foo/bar", '/'),
        ("foo!", '!'),
        ("h\u{e9}llo", '\u{e9}'),
    ] {
        match CommandId::new(raw) {
            Err(InvalidCommandId::IllegalChar { id, ch }) => {
                assert_eq!(id, raw);
                assert_eq!(ch, expected);
            }
            other => panic!("expected IllegalChar, got {other:?}"),
        }
    }
}

#[test]
fn new_reports_first_illegal_char() {
    match CommandId::new("a.b c") {
        Err(InvalidCommandId::IllegalChar { ch, .. }) => assert_eq!(ch, '.'),
        other => panic!("expected IllegalChar, got {other:?}"),
    }
}

#[test]
fn new_prefers_leading_dash_over_illegal_char() {
    assert!(matches!(
        CommandId::new("-a b"),
        Err(InvalidCommandId::LeadingDash { .. })
    ));
}

#[test]
fn inner_dash_is_legal() {
    accepts("a-");
    accepts("a--b");
}

#[test]
fn from_str_matches_new() {
    let parsed: CommandId = "build".parse().expect("should parse");
    assert_eq!(parsed, CommandId::new("build").unwrap());
}

#[test]
fn from_str_propagates_error() {
    let result: Result<CommandId, _> = "".parse::<CommandId>();
    assert!(matches!(result, Err(InvalidCommandId::Empty)));
}

#[test]
fn borrow_as_str_enables_str_lookup() {
    let mut set = HashSet::new();
    set.insert(CommandId::new("build").unwrap());

    assert!(set.contains("build"));
}

#[test]
fn display_renders_inner_string() {
    let id = CommandId::new("deploy").unwrap();
    assert_eq!(id.to_string(), "deploy");
    assert_eq!(format!("{}", id.to_string()), "deploy");
}

#[test]
fn same_as_compares_ids() {
    let a = CommandId::new("a").unwrap();
    assert!(a.same_as(&CommandId::new("a").unwrap()));
    assert!(!a.same_as(&CommandId::new("b").unwrap()));
}

#[test]
fn invalid_id_messages() {
    assert_eq!(
        CommandId::new("").unwrap_err().to_string(),
        "command id must not be empty"
    );
    assert_eq!(
        CommandId::new("-x").unwrap_err().to_string(),
        "command id \"-x\" must not start with '-'"
    );
    assert_eq!(
        CommandId::new("a b").unwrap_err().to_string(),
        "command id \"a b\" contains illegal character ' '"
    );
}

const SAMPLES: [&str; 8] = ["a", "Z9", "_x", "0", "a-b", "snake_case", "kebab-case-1", "x__y--z"];

#[test]
fn new_accepts_all_legal_identifiers() {
    for raw in SAMPLES {
        let id = CommandId::new(raw).expect("legal id should be accepted");
        assert_eq!(id.as_str(), raw);
    }
}

#[test]
fn new_then_parse_roundtrips() {
    for raw in SAMPLES {
        let id = CommandId::new(raw).unwrap();
        let reparsed: CommandId = id.as_str().parse().unwrap();
        assert_eq!(id, reparsed);
    }
}

#[test]
fn new_is_deterministic() {
    for raw in SAMPLES {
        let a = CommandId::new(raw).unwrap();
        let b = CommandId::new(raw).unwrap();
        assert_eq!(a, b);
    }
}
