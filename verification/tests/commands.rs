use rsheet::cell::{Argument, CellRef, Content, Reply};
use rsheet::command::{
    get_reply, handle_get, handle_set, parse_command, parse_get, Action, Command,
};
use rsheet::engine::{Engine, Step};
use rsheet_lib::cell_value::CellValue;
use rsheet_lib::command_runner::{CellArgument, CommandRunner};
use std::collections::HashMap;

fn outside_value_c(value: &Content) -> CellValue {
    match value {
        Content::Empty => CellValue::None,
        Content::Int(i) => CellValue::Int(*i),
        Content::Text(s) => CellValue::String(s.clone()),
        Content::Error(s) => CellValue::Error(s.clone()),
    }
}

fn outside_argument_c(argument: &Argument) -> CellArgument {
    match argument {
        Argument::Value(v) => CellArgument::Value(outside_value_c(v)),
        Argument::Vector(line) => CellArgument::Vector(line.iter().map(outside_value_c).collect()),
        Argument::Matrix(lines) => CellArgument::Matrix(
            lines
                .iter()
                .map(|line| line.iter().map(outside_value_c).collect())
                .collect(),
        ),
    }
}

fn evaluate_c(source: &str, bindings: &[(String, Argument)]) -> Content {
    let variables: HashMap<String, CellArgument> = bindings
        .iter()
        .map(|(name, argument)| (name.clone(), outside_argument_c(argument)))
        .collect();
    match CommandRunner::new(source).run(&variables) {
        CellValue::None => Content::Empty,
        CellValue::Int(i) => Content::Int(i),
        CellValue::String(s) => Content::Text(s),
        CellValue::Error(s) => Content::Error(s),
    }
}

fn finish_c(engine: &mut Engine, first: Step) -> Option<Reply> {
    let mut step = first;
    loop {
        match step {
            Step::Done(reply) => return reply,
            Step::Evaluate { source, bindings } => {
                step = engine.resume(evaluate_c(&source, &bindings));
            }
        }
    }
}

fn set_c(engine: &mut Engine, target: &str, source: &str) -> Option<Reply> {
    let first = engine.set(target, source);
    finish_c(engine, first)
}

fn error(message: &str) -> Reply {
    Reply::Error(message.to_string())
}

#[test]
fn set_and_get_are_commands() {
    assert_eq!(
        parse_command("set A1 5"),
        Command::SetCell("A1 5".to_string())
    );
    assert_eq!(
        parse_command("set A1 A2 + A3 * 2"),
        Command::SetCell("A1 A2 + A3 * 2".to_string())
    );
    assert_eq!(parse_command("get A1"), Command::Get("A1".to_string()));
    assert_eq!(
        parse_command("get  A1 "),
        Command::Get(" A1 ".to_string())
    );
    assert_eq!(parse_command("set "), Command::SetCell("".to_string()));
}

#[test]
fn anything_else_is_unsupported() {
    assert_eq!(parse_command("foo bar"), Command::Unsupported);
    assert_eq!(parse_command(""), Command::Unsupported);
    assert_eq!(parse_command("set"), Command::Unsupported);
    assert_eq!(parse_command("get"), Command::Unsupported);
    assert_eq!(parse_command("SET A1 5"), Command::Unsupported);
    assert_eq!(parse_command(" set A1 5"), Command::Unsupported);
    assert_eq!(parse_command("sett A1 5"), Command::Unsupported);
    assert_eq!(parse_command("se A1 5"), Command::Unsupported);
    assert_eq!(parse_command("set\tA1 5"), Command::Unsupported);
    assert_eq!(parse_command("gets A1"), Command::Unsupported);
}

#[test]
fn set_splits_at_the_first_space() {
    let transaction = handle_set("A1 B1 + C1").unwrap();
    assert_eq!(
        transaction.request(),
        &vec!["A1".to_string(), "B1 + C1".to_string()]
    );
    let transaction = handle_set("A1  5").unwrap();
    assert_eq!(
        transaction.request(),
        &vec!["A1".to_string(), " 5".to_string()]
    );
    let transaction = handle_set(" 5").unwrap();
    assert_eq!(
        transaction.request(),
        &vec!["".to_string(), "5".to_string()]
    );
    let transaction = handle_set("A1 ").unwrap();
    assert_eq!(
        transaction.request(),
        &vec!["A1".to_string(), "".to_string()]
    );
}

#[test]
fn set_without_expression_is_rejected() {
    assert_eq!(
        handle_set("A1").err(),
        Some(error("Error: Error parsing request: A1"))
    );
    assert_eq!(
        handle_set("").err(),
        Some(error("Error: Error parsing request: "))
    );
}

#[test]
fn get_names_one_cell() {
    assert_eq!(parse_get("A1"), Ok(("A1".to_string(), (0, 1))));
    assert_eq!(parse_get("  AB27\t\n"), Ok(("AB27".to_string(), (27, 27))));
    assert_eq!(
        parse_get("\u{a0}B2\u{3000}"),
        Ok(("B2".to_string(), (1, 2)))
    );
}

#[test]
fn get_with_no_word_or_two_is_rejected() {
    assert_eq!(parse_get(""), Err(error("Error: Error parsing request: ")));
    assert_eq!(
        parse_get("   "),
        Err(error("Error: Error parsing request:    "))
    );
    assert_eq!(
        parse_get("A1 B1"),
        Err(error("Error: Error parsing request: A1 B1"))
    );
    assert_eq!(
        parse_get(" A1  B1 C1 "),
        Err(error("Error: Error parsing request:  A1  B1 C1 "))
    );
}

#[test]
fn get_of_no_cell_is_rejected() {
    assert_eq!(parse_get("A"), Err(error("Invalid Key Provided: A")));
    assert_eq!(parse_get("1A"), Err(error("Invalid Key Provided: 1A")));
    assert_eq!(parse_get(" a1 "), Err(error("Invalid Key Provided:  a1 ")));
    assert_eq!(
        parse_get("A1_B2"),
        Err(error("Invalid Key Provided: A1_B2"))
    );
}

#[test]
fn reply_shows_the_value() {
    assert_eq!(
        get_reply("A1".to_string(), CellRef::new(Content::Int(5), None)),
        Reply::Value("A1".to_string(), Content::Int(5))
    );
    assert_eq!(
        get_reply(
            "B2".to_string(),
            CellRef::new(Content::Text("x".to_string()), Some("A1".to_string()))
        ),
        Reply::Value("B2".to_string(), Content::Text("x".to_string()))
    );
    assert_eq!(
        get_reply("C3".to_string(), CellRef::new(Content::Empty, None)),
        Reply::Value("C3".to_string(), Content::Empty)
    );
}

#[test]
fn reply_shows_the_error_of_a_formula() {
    assert_eq!(
        get_reply(
            "A1".to_string(),
            CellRef::new(Content::Error("bad".to_string()), Some("B1".to_string()))
        ),
        error("bad")
    );
    assert_eq!(
        get_reply(
            "A1".to_string(),
            CellRef::new(Content::Error("bad".to_string()), None)
        ),
        Reply::Value("A1".to_string(), Content::Error("bad".to_string()))
    );
}

#[test]
fn get_reads_the_records() {
    let mut engine = Engine::new();
    let reader = engine.reader();
    assert_eq!(
        handle_get(&reader, &"A1".to_string()),
        Reply::Value("A1".to_string(), Content::Empty)
    );
    set_c(&mut engine, "A1", "5");
    assert_eq!(
        handle_get(&reader, &" A1 ".to_string()),
        Reply::Value("A1".to_string(), Content::Int(5))
    );
    assert_eq!(
        handle_get(&reader, &"A".to_string()),
        error("Invalid Key Provided: A")
    );
    assert_eq!(
        handle_get(&reader, &"A1 A2".to_string()),
        error("Error: Error parsing request: A1 A2")
    );
}

#[test]
fn command_decides_what_to_do() {
    let engine = Engine::new();
    let reader = engine.reader();
    match parse_command("set A1 1 + 1").execute(&reader) {
        Action::Submit(transaction) => assert_eq!(
            transaction.request(),
            &vec!["A1".to_string(), "1 + 1".to_string()]
        ),
        Action::Reply(reply) => panic!("unexpected reply: {:?}", reply),
    }
    match parse_command("set A1").execute(&reader) {
        Action::Reply(reply) => assert_eq!(reply, error("Error: Error parsing request: A1")),
        Action::Submit(_) => panic!("unexpected request"),
    }
    match parse_command("get B7").execute(&reader) {
        Action::Reply(reply) => {
            assert_eq!(reply, Reply::Value("B7".to_string(), Content::Empty))
        }
        Action::Submit(_) => panic!("unexpected request"),
    }
    match parse_command("del B7").execute(&reader) {
        Action::Reply(reply) => assert_eq!(reply, error("Unsupported Command")),
        Action::Submit(_) => panic!("unexpected request"),
    }
}

#[test]
fn get_from_the_engine_itself_sees_every_set() {
    let mut engine = Engine::new();
    set_c(&mut engine, "B2", "6 * 7");
    assert_eq!(
        handle_get(&engine, &"B2".to_string()),
        Reply::Value("B2".to_string(), Content::Int(42))
    );
    set_c(&mut engine, "B2", "B2");
    assert_eq!(
        handle_get(&engine, &"B2".to_string()),
        error("Cell B2 is self-referential")
    );
}
