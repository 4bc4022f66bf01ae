use clip_history::text::ClipboardApp;

#[test]
fn short_text_unchanged() {
    assert_eq!(ClipboardApp::truncate_text("hello", 50), "hello");
}

#[test]
fn exact_fit_unchanged() {
    assert_eq!(ClipboardApp::truncate_text("12345", 5), "12345");
}

#[test]
fn long_ascii_cut_with_ellipsis() {
    let long: String = "a".repeat(60);
    let want = format!("{}...", "a".repeat(50));
    assert_eq!(ClipboardApp::truncate_text(&long, 50), want);
}

#[test]
fn cut_never_splits_a_character() {
    // each enye is two bytes, so a cut at 51 bytes must fall back to 50
    let long: String = "\u{00f1}".repeat(30);
    let want = format!("{}...", "\u{00f1}".repeat(25));
    assert_eq!(ClipboardApp::truncate_text(&long, 51), want);
}

#[test]
fn zero_budget_keeps_only_ellipsis() {
    assert_eq!(ClipboardApp::truncate_text("abc", 0), "...");
}

#[test]
fn empty_text_unchanged() {
    assert_eq!(ClipboardApp::truncate_text("", 50), "");
}
