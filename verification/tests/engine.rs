use rsheet::cell::{Argument, CellRef, Content, Reply};
use rsheet::database::Records;
use rsheet::engine::{execute_transaction, Engine, Step, Transaction};
use rsheet_lib::cell_value::CellValue;
use rsheet_lib::command_runner::{CellArgument, CommandRunner};
use std::collections::HashMap;

fn outside_value_e(value: &Content) -> CellValue {
    match value {
        Content::Empty => CellValue::None,
        Content::Int(i) => CellValue::Int(*i),
        Content::Text(s) => CellValue::String(s.clone()),
        Content::Error(s) => CellValue::Error(s.clone()),
    }
}

fn outside_argument_e(argument: &Argument) -> CellArgument {
    match argument {
        Argument::Value(v) => CellArgument::Value(outside_value_e(v)),
        Argument::Vector(line) => CellArgument::Vector(line.iter().map(outside_value_e).collect()),
        Argument::Matrix(lines) => CellArgument::Matrix(
            lines
                .iter()
                .map(|line| line.iter().map(outside_value_e).collect())
                .collect(),
        ),
    }
}

fn evaluate_e(source: &str, bindings: &[(String, Argument)]) -> Content {
    let variables: HashMap<String, CellArgument> = bindings
        .iter()
        .map(|(name, argument)| (name.clone(), outside_argument_e(argument)))
        .collect();
    match CommandRunner::new(source).run(&variables) {
        CellValue::None => Content::Empty,
        CellValue::Int(i) => Content::Int(i),
        CellValue::String(s) => Content::Text(s),
        CellValue::Error(s) => Content::Error(s),
    }
}

fn finish_e(engine: &mut Engine, first: Step) -> Option<Reply> {
    let mut step = first;
    loop {
        match step {
            Step::Done(reply) => return reply,
            Step::Evaluate { source, bindings } => {
                step = engine.resume(evaluate_e(&source, &bindings));
            }
        }
    }
}

fn set_e(engine: &mut Engine, target: &str, source: &str) -> Option<Reply> {
    let first = engine.set(target, source);
    finish_e(engine, first)
}

fn carry_e(engine: &mut Engine, transaction: &Transaction) -> Option<Reply> {
    let first = execute_transaction(engine, transaction);
    finish_e(engine, first)
}

fn request(target: &str, source: &str) -> Transaction {
    Transaction::new(vec![target.to_string(), source.to_string()])
}

fn literal(value: i64) -> CellRef {
    CellRef::new(Content::Int(value), None)
}

fn formula(value: i64, source: &str) -> CellRef {
    CellRef::new(Content::Int(value), Some(source.to_string()))
}

fn cycle_error(name: &str, source: &str) -> CellRef {
    CellRef::new(
        Content::Error(format!("Cell {} is self-referential", name)),
        Some(source.to_string()),
    )
}

#[test]
fn new_engine_holds_nothing() {
    let engine = Engine::new();
    assert_eq!(engine.record(&(0, 1)), CellRef::new(Content::Empty, None));
    assert_eq!(
        engine.reader().read(&(5, 5)),
        CellRef::new(Content::Empty, None)
    );
}

#[test]
fn literal_is_stored_without_expression() {
    let mut engine = Engine::new();
    assert_eq!(set_e(&mut engine, "A1", "5"), None);
    assert_eq!(engine.record(&(0, 1)), literal(5));
    assert_eq!(set_e(&mut engine, "A1", "2 * 21"), None);
    assert_eq!(engine.record(&(0, 1)), literal(42));
    assert_eq!(set_e(&mut engine, "B2", "\"text\""), None);
    assert_eq!(
        engine.record(&(1, 2)),
        CellRef::new(Content::Text("text".to_string()), None)
    );
}

#[test]
fn formula_is_stored_with_its_expression() {
    let mut engine = Engine::new();
    set_e(&mut engine, "A1", "5");
    assert_eq!(set_e(&mut engine, "B1", "A1 + 2"), None);
    assert_eq!(engine.record(&(1, 1)), formula(7, "A1 + 2"));
}

#[test]
fn formula_over_unwritten_cells_is_evaluated() {
    let mut engine = Engine::new();
    assert_eq!(set_e(&mut engine, "B1", "sum(A1_A3)"), None);
    assert!(matches!(
        engine.record(&(1, 1)),
        CellRef {
            cell_value: Content::Error(_),
            dependency: Some(_)
        }
    ));
    assert_eq!(engine.record(&(0, 1)), CellRef::new(Content::Empty, None));
}

#[test]
fn dependents_follow_a_change() {
    let mut engine = Engine::new();
    set_e(&mut engine, "A1", "1");
    set_e(&mut engine, "B1", "A1 + 1");
    set_e(&mut engine, "C1", "B1 * 10");
    set_e(&mut engine, "D1", "A1 + B1 + C1");
    assert_eq!(engine.record(&(3, 1)), formula(23, "A1 + B1 + C1"));
    set_e(&mut engine, "A1", "2");
    assert_eq!(engine.record(&(1, 1)), formula(3, "A1 + 1"));
    assert_eq!(engine.record(&(2, 1)), formula(30, "B1 * 10"));
    assert_eq!(engine.record(&(3, 1)), formula(35, "A1 + B1 + C1"));
}

#[test]
fn cells_apart_stay_as_they_are() {
    let mut engine = Engine::new();
    set_e(&mut engine, "A1", "1");
    set_e(&mut engine, "B1", "A1 + 1");
    set_e(&mut engine, "A5", "7");
    set_e(&mut engine, "B5", "A5 * 2");
    set_e(&mut engine, "A1", "10");
    assert_eq!(engine.record(&(1, 1)), formula(11, "A1 + 1"));
    assert_eq!(engine.record(&(0, 5)), literal(7));
    assert_eq!(engine.record(&(1, 5)), formula(14, "A5 * 2"));
}

#[test]
fn order_of_sets_does_not_matter() {
    let mut forward = Engine::new();
    set_e(&mut forward, "A1", "1");
    set_e(&mut forward, "B1", "A1 + 1");
    set_e(&mut forward, "C1", "B1 * 2");
    set_e(&mut forward, "D1", "sum(A1_C1)");
    let mut backward = Engine::new();
    set_e(&mut backward, "D1", "sum(A1_C1)");
    set_e(&mut backward, "C1", "B1 * 2");
    set_e(&mut backward, "B1", "A1 + 1");
    set_e(&mut backward, "A1", "1");
    for col in 0..4 {
        assert_eq!(forward.record(&(col, 1)), backward.record(&(col, 1)));
    }
    assert_eq!(forward.record(&(3, 1)), formula(7, "sum(A1_C1)"));
}

#[test]
fn same_set_twice_changes_nothing() {
    let mut engine = Engine::new();
    set_e(&mut engine, "A1", "3");
    set_e(&mut engine, "A2", "4");
    set_e(&mut engine, "B1", "sum(A1_A2) * A1");
    let once: Vec<CellRef> = [(0, 1), (0, 2), (1, 1)]
        .iter()
        .map(|at| engine.record(at))
        .collect();
    assert_eq!(set_e(&mut engine, "B1", "sum(A1_A2) * A1"), None);
    let twice: Vec<CellRef> = [(0, 1), (0, 2), (1, 1)]
        .iter()
        .map(|at| engine.record(at))
        .collect();
    assert_eq!(once, twice);
    assert_eq!(twice[2], formula(21, "sum(A1_A2) * A1"));
    set_e(&mut engine, "A1", "3");
    let thrice: Vec<CellRef> = [(0, 1), (0, 2), (1, 1)]
        .iter()
        .map(|at| engine.record(at))
        .collect();
    assert_eq!(once, thrice);
}

#[test]
fn new_expression_forgets_old_references() {
    let mut engine = Engine::new();
    set_e(&mut engine, "A1", "1");
    set_e(&mut engine, "A2", "2");
    set_e(&mut engine, "B1", "A1 + 10");
    set_e(&mut engine, "B1", "A2 + 10");
    assert_eq!(engine.record(&(1, 1)), formula(12, "A2 + 10"));
    set_e(&mut engine, "A1", "100");
    assert_eq!(engine.record(&(1, 1)), formula(12, "A2 + 10"));
    set_e(&mut engine, "A2", "5");
    assert_eq!(engine.record(&(1, 1)), formula(15, "A2 + 10"));
    set_e(&mut engine, "B1", "7");
    set_e(&mut engine, "A2", "6");
    assert_eq!(engine.record(&(1, 1)), literal(7));
}

#[test]
fn malformed_target_changes_nothing() {
    let mut engine = Engine::new();
    set_e(&mut engine, "A1", "5");
    assert_eq!(
        set_e(&mut engine, "1A", "A1 + 1"),
        Some(Reply::Error("Invalid Key Provided: 1A".to_string()))
    );
    assert_eq!(
        set_e(&mut engine, "", "1"),
        Some(Reply::Error("Invalid Key Provided: ".to_string()))
    );
    assert_eq!(
        set_e(&mut engine, "A", "1"),
        Some(Reply::Error("Invalid Key Provided: A".to_string()))
    );
    assert_eq!(engine.record(&(0, 1)), literal(5));
}

#[test]
fn malformed_variable_changes_nothing() {
    let mut engine = Engine::new();
    set_e(&mut engine, "A1", "5");
    set_e(&mut engine, "B1", "A1 + 1");
    assert_eq!(
        set_e(&mut engine, "B1", "A1 + A99999999999"),
        Some(Reply::Error(
            "Invalid Key Provided: A99999999999".to_string()
        ))
    );
    assert_eq!(
        set_e(&mut engine, "C1", "A1_B99999999999 + ZZZZZZZZZZZ1"),
        Some(Reply::Error(
            "Invalid Key Provided: A1_B99999999999".to_string()
        ))
    );
    assert_eq!(engine.record(&(1, 1)), formula(6, "A1 + 1"));
    assert_eq!(engine.record(&(2, 1)), CellRef::new(Content::Empty, None));
    set_e(&mut engine, "A1", "6");
    assert_eq!(engine.record(&(1, 1)), formula(7, "A1 + 1"));
}

#[test]
fn failed_evaluation_is_stored_as_error() {
    let mut engine = Engine::new();
    assert_eq!(set_e(&mut engine, "A1", "1 +"), None);
    assert!(matches!(
        engine.record(&(0, 1)),
        CellRef {
            cell_value: Content::Error(_),
            dependency: None
        }
    ));
    set_e(&mut engine, "B1", "A1 * 2");
    assert!(matches!(
        engine.record(&(1, 1)),
        CellRef {
            cell_value: Content::Error(_),
            dependency: Some(_)
        }
    ));
    set_e(&mut engine, "B1", "A1 + 1");
    set_e(&mut engine, "A1", "1");
    assert_eq!(engine.record(&(1, 1)), formula(2, "A1 + 1"));
}

#[test]
fn range_that_names_no_cell_makes_a_literal() {
    let mut engine = Engine::new();
    assert_eq!(set_e(&mut engine, "C1", "sum(B2_A1)"), None);
    assert!(matches!(
        engine.record(&(2, 1)),
        CellRef {
            cell_value: Content::Error(_),
            dependency: None
        }
    ));
}

#[test]
fn cells_on_a_cycle_name_themselves() {
    let mut engine = Engine::new();
    set_e(&mut engine, "A1", "B1 + 1");
    set_e(&mut engine, "B1", "C1 + 1");
    set_e(&mut engine, "C1", "A1 + 1");
    assert_eq!(engine.record(&(0, 1)), cycle_error("A1", "B1 + 1"));
    assert_eq!(engine.record(&(1, 1)), cycle_error("B1", "C1 + 1"));
    assert_eq!(engine.record(&(2, 1)), cycle_error("C1", "A1 + 1"));
}

#[test]
fn cells_upstream_of_a_cycle_are_left_alone() {
    let mut engine = Engine::new();
    set_e(&mut engine, "A1", "1");
    set_e(&mut engine, "B1", "A1 + C1");
    set_e(&mut engine, "C1", "B1 + 1");
    set_e(&mut engine, "D1", "C1 * 2");
    assert_eq!(engine.record(&(0, 1)), literal(1));
    assert_eq!(engine.record(&(1, 1)), cycle_error("B1", "A1 + C1"));
    assert_eq!(engine.record(&(2, 1)), cycle_error("C1", "B1 + 1"));
    assert_eq!(engine.record(&(3, 1)), cycle_error("D1", "C1 * 2"));
}

#[test]
fn cycle_in_a_wide_column_is_named_with_letters() {
    let mut engine = Engine::new();
    set_e(&mut engine, "AB27", "AB27 + 1");
    assert_eq!(engine.record(&(27, 27)), cycle_error("AB27", "AB27 + 1"));
}

#[test]
fn breaking_a_cycle_restores_the_values() {
    let mut engine = Engine::new();
    set_e(&mut engine, "A1", "B1 + 1");
    set_e(&mut engine, "B1", "C1 + 1");
    set_e(&mut engine, "C1", "A1 + 1");
    set_e(&mut engine, "D1", "A1 * 2");
    assert_eq!(engine.record(&(3, 1)), cycle_error("D1", "A1 * 2"));
    set_e(&mut engine, "C1", "10");
    assert_eq!(engine.record(&(2, 1)), literal(10));
    assert_eq!(engine.record(&(1, 1)), formula(11, "C1 + 1"));
    assert_eq!(engine.record(&(0, 1)), formula(12, "B1 + 1"));
    assert_eq!(engine.record(&(3, 1)), formula(24, "A1 * 2"));
}

#[test]
fn transaction_keeps_its_request() {
    let transaction = request("A1", "1 + 1");
    assert_eq!(
        transaction.request(),
        &vec!["A1".to_string(), "1 + 1".to_string()]
    );
}

#[test]
fn transaction_sets_a_cell() {
    let mut engine = Engine::new();
    assert_eq!(carry_e(&mut engine, &request("A1", "5")), None);
    assert_eq!(carry_e(&mut engine, &request("B1", "A1 * A1")), None);
    assert_eq!(engine.record(&(1, 1)), formula(25, "A1 * A1"));
    assert_eq!(
        carry_e(&mut engine, &request("B 1", "1")),
        Some(Reply::Error("Invalid Key Provided: B 1".to_string()))
    );
}

#[test]
fn transactions_are_carried_out_in_order() {
    let mut engine = Engine::new();
    let queue = vec![
        request("A1", "1"),
        request("B1", "A1 + 1"),
        request("7", "1"),
        request("A1", "B1"),
        request("A1", "5"),
        request("C1", "Q99999999999"),
    ];
    let replies: Vec<Option<Reply>> = queue
        .iter()
        .map(|transaction| carry_e(&mut engine, transaction))
        .collect();
    assert_eq!(
        replies,
        vec![
            None,
            None,
            Some(Reply::Error("Invalid Key Provided: 7".to_string())),
            None,
            None,
            Some(Reply::Error(
                "Invalid Key Provided: Q99999999999".to_string()
            )),
        ]
    );
    assert_eq!(engine.record(&(0, 1)), literal(5));
    assert_eq!(engine.record(&(1, 1)), formula(6, "A1 + 1"));
}

#[test]
fn one_of_two_cycles_is_marked_with_all_that_depends_on_it() {
    let mut engine = Engine::new();
    set_e(&mut engine, "A1", "A2");
    set_e(&mut engine, "A2", "A1");
    set_e(&mut engine, "C1", "A1 + B1");
    set_e(&mut engine, "B1", "B2");
    set_e(&mut engine, "B2", "B1");
    let marked = |engine: &Engine, at: (u32, u32), name: &str| {
        engine.record(&at).cell_value
            == Content::Error(format!("Cell {} is self-referential", name))
    };
    assert!(marked(&engine, (2, 1), "C1"));
    let first = marked(&engine, (0, 1), "A1") && marked(&engine, (0, 2), "A2");
    let second = marked(&engine, (1, 1), "B1") && marked(&engine, (1, 2), "B2");
    assert!(first || second);
    assert_eq!(engine.record(&(1, 1)).dependency, Some("B2".to_string()));
    assert_eq!(engine.record(&(1, 2)).dependency, Some("B1".to_string()));
}

#[test]
fn engine_reads_its_own_records() {
    let mut engine = Engine::new();
    set_e(&mut engine, "A1", "41 + 1");
    assert_eq!(engine.read(&(0, 1)), literal(42));
    assert_eq!(engine.read(&(0, 2)), CellRef::new(Content::Empty, None));
}

#[test]
fn reader_of_the_engine_reads_what_the_engine_keeps() {
    let mut engine = Engine::new();
    let reader = engine.reader();
    set_e(&mut engine, "A1", "1");
    set_e(&mut engine, "B1", "A1 + 1");
    set_e(&mut engine, "C1", "C1");
    for at in [(0, 1), (1, 1), (2, 1), (3, 1)] {
        assert_eq!(reader.read(&at), engine.record(&at));
    }
    assert_eq!(reader.read(&(1, 1)), formula(2, "A1 + 1"));
    assert_eq!(reader.read(&(2, 1)), cycle_error("C1", "C1"));
    assert_eq!(reader.read(&(3, 1)), CellRef::new(Content::Empty, None));
}

#[test]
fn engine_asks_for_each_value_it_needs() {
    let mut engine = Engine::new();
    assert_eq!(
        engine.set("A1", "=2 + 3"),
        Step::Evaluate {
            source: "2 + 3".to_string(),
            bindings: vec![]
        }
    );
    assert_eq!(engine.record(&(0, 1)), CellRef::new(Content::Empty, None));
    assert_eq!(engine.resume(Content::Int(5)), Step::Done(None));
    assert_eq!(engine.record(&(0, 1)), literal(5));
    assert_eq!(
        engine.set("B1", "A1 * 2"),
        Step::Evaluate {
            source: "A1 * 2".to_string(),
            bindings: vec![("A1".to_string(), Argument::Value(Content::Int(5)))]
        }
    );
    assert_eq!(
        engine.record(&(1, 1)),
        CellRef::new(Content::Empty, Some("A1 * 2".to_string()))
    );
    assert_eq!(engine.resume(Content::Int(10)), Step::Done(None));
    assert_eq!(
        engine.set("A1", "7"),
        Step::Evaluate {
            source: "7".to_string(),
            bindings: vec![]
        }
    );
    assert_eq!(engine.record(&(0, 1)), literal(5));
    assert_eq!(
        engine.resume(Content::Int(7)),
        Step::Evaluate {
            source: "A1 * 2".to_string(),
            bindings: vec![("A1".to_string(), Argument::Value(Content::Int(7)))]
        }
    );
    assert_eq!(engine.record(&(0, 1)), literal(7));
    assert_eq!(engine.record(&(1, 1)), formula(10, "A1 * 2"));
    assert_eq!(engine.resume(Content::Int(14)), Step::Done(None));
    assert_eq!(engine.record(&(1, 1)), formula(14, "A1 * 2"));
}

#[test]
fn engine_asks_for_a_cell_after_the_cells_it_reads() {
    let mut engine = Engine::new();
    set_e(&mut engine, "A1", "5");
    set_e(&mut engine, "B1", "A1 * 2");
    let mut asked: Vec<String> = Vec::new();
    let mut step = engine.set("C1", "=A1 + B1");
    while let Step::Evaluate { source, bindings } = step {
        if source == "A1 + B1" {
            assert!(asked.contains(&"A1 * 2".to_string()));
            assert_eq!(
                bindings,
                vec![
                    ("A1".to_string(), Argument::Value(Content::Int(5))),
                    ("B1".to_string(), Argument::Value(Content::Int(10)))
                ]
            );
        }
        step = engine.resume(evaluate_e(&source, &bindings));
        asked.push(source);
    }
    assert_eq!(step, Step::Done(None));
    asked.sort();
    assert_eq!(asked, vec!["A1 * 2".to_string(), "A1 + B1".to_string()]);
    assert_eq!(engine.record(&(2, 1)), formula(15, "=A1 + B1"));
}

#[test]
fn engine_stores_whatever_it_is_handed() {
    let mut engine = Engine::new();
    set_e(&mut engine, "A1", "1");
    assert!(matches!(engine.set("B1", "A1 + 1"), Step::Evaluate { .. }));
    assert_eq!(
        engine.resume(Content::Error("no value".to_string())),
        Step::Done(None)
    );
    assert_eq!(
        engine.record(&(1, 1)),
        CellRef::new(
            Content::Error("no value".to_string()),
            Some("A1 + 1".to_string())
        )
    );
}

#[test]
fn cell_with_an_error_is_bound_to_its_error() {
    let mut engine = Engine::new();
    set_e(&mut engine, "A1", "1 +");
    let message = match engine.record(&(0, 1)).cell_value {
        Content::Error(message) => message,
        other => panic!("no error: {:?}", other),
    };
    assert_eq!(
        engine.set("B1", "A1"),
        Step::Evaluate {
            source: "A1".to_string(),
            bindings: vec![("A1".to_string(), Argument::Value(Content::Error(message)))]
        }
    );
}

#[test]
fn cycle_needs_no_value() {
    let mut engine = Engine::new();
    assert_eq!(engine.set("A1", "A1"), Step::Done(None));
    assert_eq!(engine.record(&(0, 1)), cycle_error("A1", "A1"));
}
