use hanzi_core::outline::{path_commands, path_tokens, PathCommand, PathToken};

fn number(text: &str) -> PathToken {
    PathToken::Number(text.to_string())
}

#[test]
fn a_path_splits_into_commands_and_numbers() {
    let tokens = path_tokens("M 200 500 Q 512 700 824 500 Z").unwrap();
    assert_eq!(
        tokens,
        vec![
            PathToken::Command('M'),
            number("200"),
            number("500"),
            PathToken::Command('Q'),
            number("512"),
            number("700"),
            number("824"),
            number("500"),
            PathToken::Command('Z'),
        ]
    );
}

#[test]
fn numbers_are_kept_as_written_with_signs_points_and_exponents() {
    let tokens = path_tokens("M1.5,-2e3 L.5 +3.\t\n4E+2").unwrap();
    assert_eq!(
        tokens,
        vec![
            PathToken::Command('M'),
            number("1.5"),
            number("-2e3"),
            PathToken::Command('L'),
            number(".5"),
            number("+3."),
            number("4E+2"),
        ]
    );
    assert_eq!(path_tokens("M-1-2").unwrap(), vec![PathToken::Command('M'), number("-1"), number("-2")]);
    assert_eq!(path_tokens("1e").unwrap(), vec![number("1e")], "an empty exponent is the reader's to refuse");
}

#[test]
fn anything_else_makes_the_path_unreadable() {
    assert!(path_tokens("M 1 .").is_none(), "a point is not a number");
    assert!(path_tokens("M 1 -").is_none());
    assert!(path_tokens("M 1 é").is_none());
    assert!(path_tokens("M 1; L 2").is_none());
}

#[test]
fn empty_or_spaced_out_path_data_has_no_tokens() {
    assert_eq!(path_tokens("").unwrap(), Vec::<PathToken>::new());
    assert_eq!(path_tokens(" ,\r\n ").unwrap(), Vec::<PathToken>::new());
    let letters = path_tokens("garbage here").unwrap();
    assert_eq!(letters.len(), 11, "letters are commands; which ones mean anything is the drawer's call");
    assert_eq!(path_tokens("m 10 10 l 20 20 z").unwrap()[0], PathToken::Command('m'));
}

fn command(letter: char, numbers: &[&str]) -> PathCommand {
    PathCommand { letter, numbers: numbers.iter().map(|n| n.to_string()).collect() }
}

#[test]
fn each_command_takes_exactly_its_numbers() {
    let commands = path_commands("M 200 500 Q 512 700 824 500 C 1 2 3 4 5 6 L 7 8 Z z").unwrap();
    assert_eq!(
        commands,
        vec![
            command('M', &["200", "500"]),
            command('Q', &["512", "700", "824", "500"]),
            command('C', &["1", "2", "3", "4", "5", "6"]),
            command('L', &["7", "8"]),
            command('Z', &[]),
            command('z', &[]),
        ]
    );
    assert_eq!(path_commands("").unwrap(), Vec::<PathCommand>::new());
}

#[test]
fn a_path_the_outlines_never_write_is_refused_whole() {
    assert!(path_commands("m 10 10 l 20 20 z").is_none(), "relative commands");
    assert!(path_commands("garbage here").is_none());
    assert!(path_commands("M 1 2 3").is_none(), "a number where a command belongs");
    assert!(path_commands("M 1").is_none(), "a missing coordinate");
    assert!(path_commands("Q 1 2 L 3 4").is_none(), "a command where a number belongs");
    assert!(path_commands("10 10").is_none());
    assert!(path_commands("M 1 .").is_none(), "not even tokens");
}
