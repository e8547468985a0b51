use lib::utils::parser::{echo_text, parse, run, Builtin, MAX_ARGS};

#[test]
fn parse_splits_name_and_arguments() {
    let c = parse("  echo a  bc\td ");
    assert_eq!(c.name, "echo");
    assert_eq!(c.argc, 3);
    assert_eq!(c.args, ["a", "bc", "d", ""]);
}

#[test]
fn parse_empty_and_blank_lines() {
    let c = parse("");
    assert_eq!(c.name, "");
    assert_eq!(c.argc, 0);
    assert_eq!(c.args, ["", "", "", ""]);
    let c = parse(" \t \u{3000}");
    assert_eq!(c.name, "");
    assert_eq!(c.argc, 0);
}

#[test]
fn parse_keeps_at_most_four_arguments() {
    let c = parse("cmd 1 2 3 4 5 6");
    assert_eq!(c.name, "cmd");
    assert_eq!(c.argc, MAX_ARGS);
    assert_eq!(c.args, ["1", "2", "3", "4"]);
}

#[test]
fn parse_splits_on_unicode_white_space() {
    let c = parse("é\u{a0}ü\u{2003}x");
    assert_eq!(c.name, "é");
    assert_eq!(c.argc, 2);
    assert_eq!(c.args, ["ü", "x", "", ""]);
}

#[test]
fn run_selects_the_builtin() {
    assert_eq!(run(&parse("help")), Builtin::Help);
    assert_eq!(run(&parse(" echo x")), Builtin::Echo);
    assert_eq!(run(&parse("uptime")), Builtin::Uptime);
    assert_eq!(run(&parse("test 1")), Builtin::Test);
    assert_eq!(run(&parse("helpx")), Builtin::Unknown);
    assert_eq!(run(&parse("")), Builtin::Unknown);
}

#[test]
fn echo_prints_each_argument_followed_by_a_space() {
    assert_eq!(echo_text(&parse("echo a bc")), "a bc \n");
    assert_eq!(echo_text(&parse("echo")), "\n");
}
