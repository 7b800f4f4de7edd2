use rsheet::cell::{Argument, CellRef, Content};
use rsheet::database::{
    database_get_value, database_insert, get_cell_argument, record_or_blank, CellStore, Records,
};

fn put_int(store: &mut CellStore, at: (u32, u32), value: i64) {
    database_insert(store, at, CellRef::new(Content::Int(value), None));
}

fn square() -> CellStore {
    // A1 = 1, A2 = 2, B1 = 3, B2 = 4
    let mut store = CellStore::new();
    put_int(&mut store, (0, 1), 1);
    put_int(&mut store, (0, 2), 2);
    put_int(&mut store, (1, 1), 3);
    put_int(&mut store, (1, 2), 4);
    store
}

#[test]
fn unwritten_cell_is_blank() {
    let store = CellStore::new();
    assert_eq!(
        database_get_value(&store, &(0, 1)),
        CellRef::new(Content::Empty, None)
    );
}

#[test]
fn insert_replaces_and_returns_the_old_record() {
    let mut store = CellStore::new();
    let first = CellRef::new(Content::Int(5), None);
    let second = CellRef::new(Content::Text("five".to_string()), Some("A2".to_string()));
    assert_eq!(database_insert(&mut store, (0, 1), first.clone()), None);
    assert_eq!(database_get_value(&store, &(0, 1)), first);
    assert_eq!(
        database_insert(&mut store, (0, 1), second.clone()),
        Some(first)
    );
    assert_eq!(database_get_value(&store, &(0, 1)), second);
    assert_eq!(
        database_get_value(&store, &(1, 0)),
        CellRef::new(Content::Empty, None)
    );
}

#[test]
fn record_keeps_value_and_expression() {
    let record = CellRef::new(Content::Error("bad".to_string()), Some("A1 + 1".to_string()));
    assert_eq!(record.cell_value, Content::Error("bad".to_string()));
    assert_eq!(record.dependency, Some("A1 + 1".to_string()));
    assert_eq!(record.clone(), record);
}

#[test]
fn reader_sees_what_was_written() {
    let mut store = CellStore::new();
    let reader = store.reader();
    assert_eq!(reader.read(&(0, 1)), CellRef::new(Content::Empty, None));
    put_int(&mut store, (0, 1), 7);
    assert_eq!(reader.read(&(0, 1)), CellRef::new(Content::Int(7), None));
    let later = store.reader();
    assert_eq!(later.read(&(0, 1)), CellRef::new(Content::Int(7), None));
}

#[test]
fn single_cell_is_bound_to_its_value() {
    let store = square();
    assert_eq!(
        get_cell_argument(&store, "A1"),
        Some(Argument::Value(Content::Int(1)))
    );
    assert_eq!(
        get_cell_argument(&store, "C9"),
        Some(Argument::Value(Content::Empty))
    );
}

#[test]
fn single_cell_with_error_is_bound_to_the_error() {
    let mut store = square();
    database_insert(
        &mut store,
        (2, 1),
        CellRef::new(Content::Error("bad".to_string()), None),
    );
    assert_eq!(
        get_cell_argument(&store, "C1"),
        Some(Argument::Value(Content::Error("bad".to_string())))
    );
}

#[test]
fn line_of_cells_is_bound_to_a_vector() {
    let store = square();
    assert_eq!(
        get_cell_argument(&store, "A1_A2"),
        Some(Argument::Vector(vec![Content::Int(1), Content::Int(2)]))
    );
    assert_eq!(
        get_cell_argument(&store, "A1_B1"),
        Some(Argument::Vector(vec![Content::Int(1), Content::Int(3)]))
    );
    assert_eq!(
        get_cell_argument(&store, "A2_C2"),
        Some(Argument::Vector(vec![
            Content::Int(2),
            Content::Int(4),
            Content::Empty
        ]))
    );
    assert_eq!(
        get_cell_argument(&store, "B2_B2"),
        Some(Argument::Vector(vec![Content::Int(4)]))
    );
}

#[test]
fn line_with_error_keeps_the_error() {
    let mut store = square();
    database_insert(
        &mut store,
        (0, 3),
        CellRef::new(Content::Error("bad".to_string()), None),
    );
    assert_eq!(
        get_cell_argument(&store, "A2_A3"),
        Some(Argument::Vector(vec![
            Content::Int(2),
            Content::Error("bad".to_string())
        ]))
    );
}

#[test]
fn rectangle_is_bound_to_a_matrix_of_columns() {
    let store = square();
    assert_eq!(
        get_cell_argument(&store, "A1_B2"),
        Some(Argument::Matrix(vec![
            vec![Content::Int(1), Content::Int(2)],
            vec![Content::Int(3), Content::Int(4)]
        ]))
    );
    assert_eq!(
        get_cell_argument(&store, "A1_C2"),
        Some(Argument::Matrix(vec![
            vec![Content::Int(1), Content::Int(2)],
            vec![Content::Int(3), Content::Int(4)],
            vec![Content::Empty, Content::Empty]
        ]))
    );
}

#[test]
fn range_that_runs_backwards_is_bound_to_nothing_in_it() {
    let store = square();
    assert_eq!(
        get_cell_argument(&store, "A2_A1"),
        Some(Argument::Vector(vec![]))
    );
    assert_eq!(
        get_cell_argument(&store, "B1_A1"),
        Some(Argument::Vector(vec![]))
    );
    assert_eq!(
        get_cell_argument(&store, "B2_A1"),
        Some(Argument::Matrix(vec![]))
    );
    assert_eq!(
        get_cell_argument(&store, "A2_B1"),
        Some(Argument::Matrix(vec![vec![], vec![]]))
    );
}

#[test]
fn malformed_token_is_unbound() {
    let store = square();
    assert_eq!(get_cell_argument(&store, ""), None);
    assert_eq!(get_cell_argument(&store, "A"), None);
    assert_eq!(get_cell_argument(&store, "1A"), None);
    assert_eq!(get_cell_argument(&store, "A1_"), None);
    assert_eq!(get_cell_argument(&store, "A1_B"), None);
    assert_eq!(get_cell_argument(&store, "A1_B2_C3"), None);
}

#[test]
fn store_reads_its_own_records() {
    let store = square();
    assert_eq!(
        store.read(&(1, 2)),
        CellRef::new(Content::Int(4), None)
    );
    assert_eq!(store.read(&(9, 9)), CellRef::new(Content::Empty, None));
    let reader = store.reader().clone();
    assert_eq!(
        reader.read(&(1, 2)),
        CellRef::new(Content::Int(4), None)
    );
}

#[test]
fn missing_record_reads_as_blank() {
    assert_eq!(
        record_or_blank(None),
        CellRef::new(Content::Empty, None)
    );
    let found = CellRef::new(Content::Int(3), Some("A1 + 2".to_string()));
    assert_eq!(record_or_blank(Some(found.clone())), found);
}

#[test]
fn reader_follows_every_write() {
    let mut store = CellStore::new();
    let reader = store.reader();
    let copy = reader.clone();
    for n in 0..20 {
        put_int(&mut store, (0, 1), n);
        assert_eq!(reader.read(&(0, 1)), CellRef::new(Content::Int(n), None));
        assert_eq!(copy.read(&(0, 1)), CellRef::new(Content::Int(n), None));
        assert_eq!(store.reader().read(&(0, 1)), store.read(&(0, 1)));
    }
}
