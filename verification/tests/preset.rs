use loopslcr::preset::{parse, FILE_NAME};

fn parsed(text: &str) -> Vec<String> {
    parse(text).unwrap()
}

#[test]
fn a_flag_on_its_own_and_a_flag_with_a_value() {
    assert_eq!(parsed("--tape\n--bars 4\n"), vec!["--tape", "--bars", "4"]);
}

#[test]
fn a_value_keeps_its_spaces() {
    // Splitting once rather than tokenising: a path with spaces just works.
    assert_eq!(
        parsed("--out-dir /mnt/ALL STUFF OF ME/cut\n"),
        vec!["--out-dir", "/mnt/ALL STUFF OF ME/cut"]
    );
}

#[test]
fn comments_and_blank_lines_are_ignored() {
    let text = "# 4-bar loops\n\n  --bars 4  \n\n# done\n";
    assert_eq!(parsed(text), vec!["--bars", "4"]);
}

#[test]
fn an_equals_sign_is_left_to_clap() {
    // `--bars=4` is the command line's own spelling, so it passes through
    // untouched rather than being re-split here into a second dialect.
    assert_eq!(parsed("--bars=4\n"), vec!["--bars=4"]);
}

#[test]
fn a_line_that_is_not_a_flag_is_refused() {
    // The alternative would be to treat it as a positional argument, which
    // would let a stray word in a preset become an input filename.
    let e = parse("bars 4\n").unwrap_err();
    assert!(e.contains("line 1"), "{e}");
    assert!(e.contains("not a flag"), "{e}");
}

#[test]
fn the_line_number_is_the_one_in_the_file() {
    // Counted over all lines, not over the ones that parsed.
    let e = parse("# a comment\n\n--bars 4\noops\n").unwrap_err();
    assert!(e.contains("line 4"), "{e}");
}

#[test]
fn the_message_names_the_line_as_it_was_written() {
    assert_eq!(
        parse("\n  bars 4 \r\n").unwrap_err(),
        "line 2: \"bars 4\" is not a flag — every line starts with - or --"
    );
}

#[test]
fn windows_line_endings_and_no_final_newline_are_fine() {
    assert_eq!(parsed("--tape\r\n--depth\t16"), vec!["--tape", "--depth", "16"]);
    assert!(parsed("").is_empty());
    assert_eq!(FILE_NAME, "loopslcr.args");
}

#[test]
fn a_line_that_is_not_a_flag_is_shown_escaped() {
    assert_eq!(
        parse("say \"hi\" \\ there\tnow").unwrap_err(),
        "line 1: \"say \\\"hi\\\" \\\\ there\\tnow\" is not a flag — every line starts with - or --"
    );
}
