use cadagent::parser::{path_commands, PathCommand};

fn cmd(letter: char, relative: bool, args: &[&str]) -> PathCommand {
    PathCommand { letter, relative, args: args.iter().map(|a| a.to_string()).collect() }
}

#[test]
fn path_lines_repeat_and_close() {
    assert_eq!(
        path_commands("M 10 20 L 30 40 50 60 Z"),
        vec![
            cmd('M', false, &["10", "20"]),
            cmd('L', false, &["30", "40"]),
            cmd('L', false, &["50", "60"]),
            cmd('Z', false, &[]),
        ]
    );
}

#[test]
fn path_relative_commands_and_number_forms() {
    assert_eq!(
        path_commands("m1.5,-2e3 h-4 v.5 z"),
        vec![
            cmd('M', true, &["1.5", "-2e3"]),
            cmd('H', true, &["-4"]),
            cmd('V', true, &[".5"]),
            cmd('Z', true, &[]),
        ]
    );
}

#[test]
fn path_curves_take_groups_of_six() {
    assert_eq!(
        path_commands("M0 0C1 1 2 2 3 3 4 4 5 5 6 6"),
        vec![
            cmd('M', false, &["0", "0"]),
            cmd('C', false, &["1", "1", "2", "2", "3", "3"]),
            cmd('C', false, &["4", "4", "5", "5", "6", "6"]),
        ]
    );
    assert_eq!(
        path_commands("A 5 5 0 1 0 10 10"),
        vec![cmd('A', false, &["5", "5", "0", "1", "0", "10", "10"])]
    );
    assert_eq!(
        path_commands("Q1 2 3 4 T5 6 s1 2 3 4"),
        vec![
            cmd('Q', false, &["1", "2", "3", "4"]),
            cmd('T', false, &["5", "6"]),
            cmd('S', true, &["1", "2", "3", "4"]),
        ]
    );
}

#[test]
fn path_bad_or_incomplete_groups_give_nothing() {
    assert_eq!(path_commands("M1-2 L3 4"), vec![cmd('L', false, &["3", "4"])]);
    assert_eq!(path_commands("L 1 2 3"), vec![cmd('L', false, &["1", "2"])]);
    assert_eq!(path_commands("M 1"), vec![]);
    assert_eq!(path_commands(""), vec![]);
}

#[test]
fn path_unknown_commands_are_skipped_with_their_numbers() {
    assert_eq!(
        path_commands("X 1 2 M 3 4"),
        vec![cmd('M', false, &["3", "4"])]
    );
}
