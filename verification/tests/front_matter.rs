use pyrs_yaml_core::front_matter::split_front_matter;

fn split(s: &str) -> (Option<String>, String) {
    split_front_matter(s)
}

#[test]
fn front_matter_and_body() {
    assert_eq!(
        split("---\ntitle: x\n---\n# Body\n"),
        (Some("title: x".to_string()), "# Body".to_string())
    );
}

#[test]
fn leading_whitespace_is_skipped() {
    assert_eq!(split("  \n---\na: 1\n---"), (Some("a: 1".to_string()), String::new()));
}

#[test]
fn no_front_matter_keeps_text_without_leading_whitespace() {
    assert_eq!(split("\n\nplain text\n"), (None, "plain text\n".to_string()));
}

#[test]
fn blank_front_matter_is_none() {
    assert_eq!(split("---\n \n---\nbody"), (None, "---\n \n---\nbody".to_string()));
}

#[test]
fn unclosed_front_matter_is_none() {
    assert_eq!(split("---\na: 1\n"), (None, "---\na: 1\n".to_string()));
}

#[test]
fn first_closing_dashes_end_the_front_matter() {
    assert_eq!(split("----\nx---y"), (Some("-\nx".to_string()), "y".to_string()));
}
