use orphans::Entrypoints;

fn parse(content: &str) -> Vec<String> {
    Entrypoints::new(content.to_string()).get()
}

#[test]
fn plain_lines_are_kept_in_order() {
    assert_eq!(parse("alpha\nbeta\ngamma\n"), vec!["alpha", "beta", "gamma"]);
}

#[test]
fn missing_final_newline_keeps_last_line() {
    assert_eq!(parse("alpha\nbeta"), vec!["alpha", "beta"]);
}

#[test]
fn lines_are_trimmed() {
    assert_eq!(parse("  alpha  \n\tbeta\t\n"), vec!["alpha", "beta"]);
}

#[test]
fn carriage_returns_are_trimmed() {
    assert_eq!(parse("alpha\r\nbeta\r\n"), vec!["alpha", "beta"]);
}

#[test]
fn empty_and_blank_lines_are_dropped() {
    assert_eq!(parse("alpha\n\n   \nbeta\n"), vec!["alpha", "beta"]);
}

#[test]
fn comment_lines_are_dropped() {
    assert_eq!(parse("# the shipped binaries\nalpha\n  # indented comment\nbeta\n"), vec![
        "alpha",
        "beta",
    ]);
}

#[test]
fn hash_inside_a_name_is_kept() {
    assert_eq!(parse("alpha#beta\n"), vec!["alpha#beta"]);
}

#[test]
fn empty_content_gives_no_entrypoints() {
    assert_eq!(parse(""), Vec::<String>::new());
}

#[test]
fn comment_only_content_gives_no_entrypoints() {
    assert_eq!(parse("# nothing\n# at all\n"), Vec::<String>::new());
}

#[test]
fn duplicate_names_are_collapsed() {
    assert_eq!(parse("alpha\nalpha\n"), vec!["alpha"]);
}

#[test]
fn duplicates_keep_the_first_occurrence_order() {
    assert_eq!(parse("beta\nalpha\nbeta\n"), vec!["beta", "alpha"]);
}

#[test]
fn duplicates_differing_only_in_padding_are_collapsed() {
    assert_eq!(parse("alpha\n  alpha  \nbeta\n"), vec!["alpha", "beta"]);
}
