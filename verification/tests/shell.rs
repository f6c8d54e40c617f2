use goto::shell::{integration_text, needs_setup_hint, setup_zsh, split_lines, uninstall_zsh, ZSH_MARKER_END, ZSH_MARKER_START};

#[test]
fn block_is_delimited_by_markers() {
    let block = integration_text();
    assert!(block.starts_with(ZSH_MARKER_START));
    assert!(block.ends_with(ZSH_MARKER_END));
}

#[test]
fn hint_needed_without_marker() {
    assert!(needs_setup_hint(None));
    assert!(needs_setup_hint(Some("export A=1\n".to_string())));
    assert!(!needs_setup_hint(Some(format!("x\n{ZSH_MARKER_START}\n"))));
}

#[test]
fn setup_separates_from_existing_text() {
    let block = integration_text();
    assert_eq!(setup_zsh(""), Some(format!("{block}\n")));
    assert_eq!(setup_zsh("a"), Some(format!("\n\n{block}\n")));
    assert_eq!(setup_zsh("a\n"), Some(format!("\n{block}\n")));
    assert_eq!(setup_zsh("a\n\n"), Some(format!("{block}\n")));
}

#[test]
fn setup_twice_appends_once() {
    let first = setup_zsh("export A=1\n").expect("appends");
    let after = format!("export A=1\n{first}");
    assert_eq!(setup_zsh(&after), None);
    assert!(!needs_setup_hint(Some(after)));
}

#[test]
fn uninstall_removes_block() {
    let existing = "export A=1\n";
    let after = format!("{existing}{}", setup_zsh(existing).unwrap());
    assert_eq!(uninstall_zsh(&after), Some("export A=1\n\n".to_string()));
    assert_eq!(uninstall_zsh("plain\n"), None);
    let only = setup_zsh("").unwrap();
    assert_eq!(uninstall_zsh(&only), Some(String::new()));
}

#[test]
fn uninstall_keeps_text_after_block() {
    let text = format!("a\n{ZSH_MARKER_START}  \nx\n{ZSH_MARKER_END}\r\nb");
    assert_eq!(uninstall_zsh(&text), Some("a\nb\n".to_string()));
}

#[test]
fn lines_split_like_std() {
    for s in ["", "\n", "a", "a\n", "a\r\nb", "a\rb\n", "\n\nx"] {
        let expected: Vec<String> = s.lines().map(|l| l.to_string()).collect();
        assert_eq!(split_lines(s), expected, "input {s:?}");
    }
}
