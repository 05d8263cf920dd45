use database::client::{complete, highlight, parse_command, print_help, HELP};
use database::server::parser::Command;
use database::{DatabaseError, Value};

fn commands() -> Vec<String> {
    ["GET", "SET", "UPDATE", "DEL", "ALL", "STRLEN", "STRCAT", "SUBSTR", "EXPR", "exit", "help"]
        .iter()
        .map(|s| s.to_string())
        .collect()
}

fn list(words: &[&str]) -> Vec<String> {
    words.iter().map(|s| s.to_string()).collect()
}

#[test]
fn nothing_typed_is_completed_by_every_command() {
    assert_eq!(complete(&commands(), ""), (0, commands()));
    assert_eq!(complete(&commands(), "   "), (0, commands()));
}

#[test]
fn a_first_word_is_completed_by_the_commands_that_start_with_it() {
    assert_eq!(complete(&commands(), "s"), (0, list(&["SET", "STRLEN", "STRCAT", "SUBSTR"])));
    assert_eq!(complete(&commands(), "St"), (0, list(&["STRLEN", "STRCAT"])));
    assert_eq!(complete(&commands(), "  ge"), (2, list(&["GET"])));
    assert_eq!(complete(&commands(), "GET"), (0, list(&["GET"])));
    assert_eq!(complete(&commands(), "x"), (0, list(&[])));
    // The commands in lower case start with no word in upper case.
    assert_eq!(complete(&commands(), "ex"), (0, list(&["EXPR"])));
    assert_eq!(complete(&commands(), "he"), (0, list(&[])));
    // A word behind a tab starts behind the last blank all the same.
    assert_eq!(complete(&commands(), " \tde"), (1, list(&["DEL"])));
    assert_eq!(complete(&commands(), "\tde"), (0, list(&["DEL"])));
}

#[test]
fn an_expression_is_offered_for_the_third_word() {
    assert_eq!(complete(&commands(), "SET 1 ex"), (6, list(&["EXPR("])));
    assert_eq!(complete(&commands(), "update 12 EXPR("), (10, list(&["EXPR("])));
    assert_eq!(complete(&commands(), "set 1 e"), (6, list(&["EXPR("])));
    assert_eq!(complete(&commands(), "SET 1 EXPR(1"), (12, list(&[])));
    assert_eq!(complete(&commands(), "GET 1 ex"), (8, list(&[])));
    assert_eq!(complete(&commands(), "SET 1"), (5, list(&[])));
    assert_eq!(complete(&commands(), "SET 1 2 ex"), (10, list(&[])));
    // Offsets count bytes.
    assert_eq!(complete(&commands(), "SET é ex"), (7, list(&["EXPR("])));
    assert_eq!(complete(&commands(), "GET é"), (6, list(&[])));
    // A blank at the end: the last word is the second, and the offset is
    // the end of what was typed.
    assert_eq!(complete(&commands(), "SET 1 "), (6, list(&[])));
    assert_eq!(complete(&commands(), "SE "), (3, list(&["SET"])));
}

#[test]
fn commands_are_written_in_green() {
    assert_eq!(
        highlight(&commands(), "get 1"),
        Some("\x1b[1;32mget\x1b[0m 1".to_string())
    );
    assert_eq!(
        highlight(&commands(), "STRLEN"),
        Some("\x1b[1;32mSTRLEN\x1b[0m".to_string())
    );
    // The first command in the list that fits decides.
    assert_eq!(
        highlight(&list(&["S", "SET"]), "set 1 2"),
        Some("\x1b[1;32ms\x1b[0met 1 2".to_string())
    );
    assert_eq!(
        highlight(&commands(), "set 1 EXPR(2)"),
        Some("\x1b[1;32mset\x1b[0m 1 EXPR(2)".to_string())
    );
    // Commands in lower case fit no line in upper case.
    assert_eq!(highlight(&commands(), "exit"), None);
    assert_eq!(highlight(&commands(), "help"), None);
    assert_eq!(highlight(&commands(), " get"), None);
    assert_eq!(highlight(&commands(), ""), None);
}

#[test]
fn expressions_are_written_in_cyan() {
    assert_eq!(
        highlight(&commands(), "  expr(1 + 2)"),
        Some("\x1b[1;36m  expr(1 + 2)\x1b[0m".to_string())
    );
    assert_eq!(highlight(&commands(), "(EXPR("), Some("\x1b[1;36m(EXPR(\x1b[0m".to_string()));
    assert_eq!(highlight(&commands(), "1 + (2)"), None);
    assert_eq!(highlight(&commands(), "  EXP("), None);
    assert_eq!(highlight(&list(&[]), "EXPR(1)"), Some("\x1b[1;36mEXPR(1)\x1b[0m".to_string()));
}

#[test]
fn a_command_that_ends_inside_a_character_gives_no_colour() {
    // In upper case the sharp s is two letters; the command is two bytes
    // long, and so is the sharp s alone.
    assert_eq!(
        highlight(&list(&["SS"]), "ßx"),
        Some("\x1b[1;32mß\x1b[0mx".to_string())
    );
    // The dotless i is two bytes long and one in upper case.
    assert_eq!(
        highlight(&list(&["IG"]), "\u{131}g"),
        Some("\x1b[1;32m\u{131}\x1b[0mg".to_string())
    );
    assert_eq!(highlight(&list(&["GI"]), "g\u{131}"), None);
    // A command longer than the line.
    assert_eq!(highlight(&list(&["\u{1e9e}"]), "ß"), None);
}

#[test]
fn help_lists_the_commands() {
    let help = print_help();
    assert_eq!(help, HELP);
    assert!(help.starts_with("Available commands:\n"));
    assert_eq!(help.lines().count(), 20);
    for command in ["GET", "SET", "UPDATE", "DEL", "ALL", "STRLEN", "STRCAT", "SUBSTR", "EXPR("] {
        assert!(help.contains(command));
    }
}

#[test]
fn typed_commands_parse() {
    assert!(matches!(parse_command("GET 1"), Ok(Command::Get { key: 1 })));
    assert!(matches!(parse_command("  get   -7 "), Ok(Command::Get { key: -7 })));
    match parse_command("set 2 hello   world") {
        Ok(Command::SetValue { key: 2, value }) => {
            assert_eq!(value, Value::String("hello world".to_string()))
        }
        other => panic!("{:?}", other),
    }
    // The client takes no expression apart: it is a text like any other.
    match parse_command("SET 1 EXPR(1 + 2)") {
        Ok(Command::SetValue { key: 1, value }) => {
            assert_eq!(value, Value::String("EXPR(1 + 2)".to_string()))
        }
        other => panic!("{:?}", other),
    }
    match parse_command("UPDATE 3 4.5") {
        Ok(Command::Update { key: 3, value }) => assert_eq!(value, Value::Float(4.5f64.to_bits())),
        other => panic!("{:?}", other),
    }
    match parse_command("Strcat 4 true") {
        Ok(Command::Strcat { key: 4, value }) => assert_eq!(value, Value::Boolean(true)),
        other => panic!("{:?}", other),
    }
    assert!(matches!(parse_command("del 1"), Ok(Command::Delete { key: 1 })));
    assert!(matches!(parse_command("ALL"), Ok(Command::All)));
    assert!(matches!(parse_command("all of it"), Ok(Command::All)));
    assert!(matches!(parse_command("STRLEN 9"), Ok(Command::Strlen { key: 9 })));
    assert!(matches!(
        parse_command("SUBSTR 1 0 5"),
        Ok(Command::Substr { key: 1, start: 0, length: 5 })
    ));
    assert!(matches!(parse_command("exit"), Ok(Command::Exit)));
}

#[test]
fn typed_commands_are_refused() {
    for line in [
        "", "   ", "GET", "GET x", "GET 1 2", "SET 1", "SET one 1", "UPDATE 1", "DEL", "DEL 1 2",
        "STRLEN", "STRCAT 1", "SUBSTR 1 2", "SUBSTR 1 -1 2", "SUBSTR 1 2 x", "PING", "EXPR(1)",
        "GET 2147483648", "frobnicate",
    ] {
        assert!(
            matches!(parse_command(line), Err(DatabaseError::ParseError(_))),
            "{:?}",
            line
        );
    }
}
