use amnia_desktop::shell_alias::{
    alias_command, pick_rc_file, rewrite_managed_block, validate_alias_name, RcFile, BEGIN_MARK,
    END_MARK,
};

#[test]
fn alias_validation() {
    assert!(validate_alias_name("amnia").is_ok());
    assert!(validate_alias_name("am-nia_2").is_ok());
    assert!(validate_alias_name("").is_err());
    assert!(validate_alias_name("2amnia").is_err());
    assert!(validate_alias_name("am nia").is_err());
    assert!(validate_alias_name(&"a".repeat(40)).is_err());
}

#[test]
fn block_is_idempotent() {
    let rc = "export FOO=bar\n";
    let once = rewrite_managed_block(rc, Some("alias amnia='echo hi'"));
    let after = rewrite_managed_block(&once, Some("alias amnia='echo hello'"));
    assert!(after.contains("export FOO=bar"));
    assert_eq!(after.matches(BEGIN_MARK).count(), 1);
    assert!(after.contains("alias amnia='echo hello'"));
}

#[test]
fn removing_block_leaves_other_content() {
    let rc = "export FOO=bar\n";
    let with_block = rewrite_managed_block(rc, Some("alias amnia='echo hi'"));
    let after = rewrite_managed_block(&with_block, None);
    assert_eq!(after.trim(), "export FOO=bar");
    assert!(!after.contains(BEGIN_MARK));
}

#[test]
fn validation_messages() {
    assert_eq!(
        validate_alias_name("").unwrap_err(),
        "Alias name must be 1-32 characters"
    );
    assert_eq!(
        validate_alias_name(&"a".repeat(33)).unwrap_err(),
        "Alias name must be 1-32 characters"
    );
    assert!(validate_alias_name(&"a".repeat(32)).is_ok());
    assert_eq!(
        validate_alias_name("2amnia").unwrap_err(),
        "Alias name must start with a letter"
    );
    assert_eq!(
        validate_alias_name("am nia").unwrap_err(),
        "Alias name may only contain letters, digits, '_' and '-'"
    );
    assert_eq!(
        validate_alias_name("a\u{e9}").unwrap_err(),
        "Alias name may only contain letters, digits, '_' and '-'"
    );
    // Seventeen two-byte characters: 34 bytes, so the length check fails first.
    assert_eq!(
        validate_alias_name(&format!("a{}", "\u{e9}".repeat(16))).unwrap_err(),
        "Alias name must be 1-32 characters"
    );
    assert_eq!(
        validate_alias_name("\u{e9}").unwrap_err(),
        "Alias name must start with a letter"
    );
}

#[test]
fn rc_file_choice() {
    assert_eq!(pick_rc_file("/usr/bin/zsh", true, true), RcFile::Zshrc);
    assert_eq!(pick_rc_file("/usr/bin/zsh", false, true), RcFile::Bashrc);
    assert_eq!(pick_rc_file("/bin/bash", true, true), RcFile::Bashrc);
    assert_eq!(pick_rc_file("/bin/bash", true, false), RcFile::Zshrc);
    assert_eq!(pick_rc_file("/bin/fish", true, true), RcFile::Bashrc);
    assert_eq!(pick_rc_file("", true, false), RcFile::Zshrc);
    assert_eq!(pick_rc_file("", false, false), RcFile::Bashrc);
    assert_eq!(pick_rc_file("zsh", true, true), RcFile::Bashrc);
}

#[test]
fn alias_line() {
    assert_eq!(
        alias_command("amnia", "/home/u/.local/share/amnia-desktop/python_sidecar/main.py"),
        "alias amnia='python3 /home/u/.local/share/amnia-desktop/python_sidecar/main.py \"$@\"'"
    );
}

fn block(cmd: &str) -> String {
    format!("{}\n{}\n{}\n", BEGIN_MARK, cmd, END_MARK)
}

#[test]
fn rewrite_exact_text() {
    assert_eq!(
        rewrite_managed_block("export FOO=bar\n", Some("x")),
        format!("export FOO=bar\n{}", block("x"))
    );
    // A last line without a line ending gets one.
    assert_eq!(
        rewrite_managed_block("export FOO=bar", Some("x")),
        format!("export FOO=bar\n{}", block("x"))
    );
    // An empty file gets an empty line in front of the block.
    assert_eq!(rewrite_managed_block("", Some("x")), format!("\n{}", block("x")));
    assert_eq!(rewrite_managed_block("", None), "");
}

#[test]
fn rewrite_removes_every_block() {
    let text = format!("a\n{}b\n  {}  \nold\n{}\nc\n", block("1"), BEGIN_MARK, END_MARK);
    assert_eq!(rewrite_managed_block(&text, None), "a\nb\nc\n");
    // A begin mark that no end mark follows opens no block: it alone goes.
    let open = format!("a\n{}\nb\nc\n", BEGIN_MARK);
    assert_eq!(rewrite_managed_block(&open, None), "a\nb\nc\n");
    // The closed block goes, and so does the open begin mark after it.
    let mixed = format!("a\n{}b\n{}\nc\n", block("1"), BEGIN_MARK);
    assert_eq!(rewrite_managed_block(&mixed, None), "a\nb\nc\n");
    // A stray end mark outside a block is kept.
    let stray = format!("{}\na\n", END_MARK);
    assert_eq!(rewrite_managed_block(&stray, None), stray);
}

#[test]
fn rewrite_line_endings() {
    assert_eq!(rewrite_managed_block("a\r\nb", None), "a\nb\n");
    assert_eq!(rewrite_managed_block("a\n\n\nb\n", None), "a\n\n\nb\n");
}

#[test]
fn rewrite_laws_on_examples() {
    let rc = "export A=1\n# comment\n";
    let first = rewrite_managed_block(rc, Some("alias amnia='one'"));
    // Idempotent.
    assert_eq!(rewrite_managed_block(&first, Some("alias amnia='one'")), first);
    // The last write wins.
    assert_eq!(
        rewrite_managed_block(&first, Some("alias amnia='two'")),
        rewrite_managed_block(rc, Some("alias amnia='two'"))
    );
    // Removing after a write gives back the unmanaged lines.
    assert_eq!(rewrite_managed_block(&first, None), rc);
    // A rewrite after a removal equals the rewrite alone.
    let removed = rewrite_managed_block(rc, None);
    assert_eq!(
        rewrite_managed_block(&removed, Some("x")),
        rewrite_managed_block(rc, Some("x"))
    );
    // The exception: a write to an empty file leaves an empty line behind.
    let from_empty = rewrite_managed_block("", Some("x"));
    assert_eq!(rewrite_managed_block(&from_empty, None), "\n");
}

#[test]
fn unclosed_begin_keeps_user_lines() {
    let text = format!("a\n{}\nb\n", BEGIN_MARK);
    let once = rewrite_managed_block(&text, Some("x"));
    assert_eq!(once, format!("a\nb\n{}", block("x")));
    assert_eq!(rewrite_managed_block(&once, Some("x")), once);
    assert_eq!(rewrite_managed_block(&text, None), "a\nb\n");
}

#[test]
fn unclosed_begin_alone_is_idempotent() {
    let text = format!("{}\n", BEGIN_MARK);
    let once = rewrite_managed_block(&text, Some("alias amnia='x'"));
    assert_eq!(once, format!("\n{}", block("alias amnia='x'")));
    assert_eq!(rewrite_managed_block(&once, Some("alias amnia='x'")), once);
}

#[test]
fn register_then_remove_restores() {
    let cmd = alias_command("amnia", "/home/u/.local/share/amnia-desktop/python_sidecar/main.py");
    for text in ["export FOO=bar\n", "a\n\n  b\n", "a\rb\n"] {
        let with_alias = rewrite_managed_block(text, Some(&cmd));
        assert_eq!(rewrite_managed_block(&with_alias, None), text);
    }
}

#[test]
fn removal_restores_clean_text() {
    for text in ["", "export FOO=bar\n", "a\n\n  b\n", "# >>> not the mark\n", "a\rb\n"] {
        assert_eq!(rewrite_managed_block(text, None), text);
    }
}
