use rsheet::runner::{expression_variables, formula_of};

#[test]
fn finds_cells_and_ranges() {
    assert_eq!(
        expression_variables("A1 + A2 * A3_A4"),
        vec!["A1", "A2", "A3_A4"]
    );
    assert_eq!(expression_variables("sum(A1_B2)"), vec!["A1_B2"]);
    assert_eq!(expression_variables("5"), Vec::<String>::new());
    assert_eq!(expression_variables("1 + 2 * 3"), Vec::<String>::new());
}

#[test]
fn finds_a_variable_each_time_it_occurs() {
    assert_eq!(expression_variables("A1 + A1"), vec!["A1", "A1"]);
}

#[test]
fn passes_over_names_that_are_no_cells() {
    assert_eq!(expression_variables("x + a1 + A1"), vec!["A1"]);
}

#[test]
fn broken_expression_has_no_variables() {
    assert_eq!(expression_variables("A1 +"), Vec::<String>::new());
    assert_eq!(expression_variables(""), Vec::<String>::new());
}

#[test]
fn leading_equals_sign_is_no_part_of_the_expression() {
    assert_eq!(expression_variables("=A1+B2"), vec!["A1", "B2"]);
    assert_eq!(expression_variables("==A1"), Vec::<String>::new());
}

#[test]
fn expression_that_reads_the_clock_has_no_variables() {
    let source = "(timestamp().elapsed * 1000000000.0).to_int()";
    assert_eq!(expression_variables(source), Vec::<String>::new());
}

#[test]
fn expression_is_what_stands_behind_the_equals_sign() {
    assert_eq!(formula_of("=A1+2"), "A1+2");
    assert_eq!(formula_of("A1+2"), "A1+2");
    assert_eq!(formula_of("==1"), "=1");
    assert_eq!(formula_of("="), "");
    assert_eq!(formula_of(""), "");
}
