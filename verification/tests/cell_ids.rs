use rsheet::database::{parse_to_indices, pos_to_cell_id, split_cell_id};

#[test]
fn splits_letters_from_digits() {
    assert_eq!(split_cell_id("A1"), Some((0, 1)));
    assert_eq!(split_cell_id("B7"), Some((1, 7)));
    assert_eq!(split_cell_id("Z9"), Some((25, 9)));
    assert_eq!(split_cell_id("AA10"), Some((26, 10)));
    assert_eq!(split_cell_id("AB27"), Some((27, 27)));
    assert_eq!(split_cell_id("ZZ1"), Some((701, 1)));
    assert_eq!(split_cell_id("AAA1"), Some((702, 1)));
}

#[test]
fn row_zero_and_leading_zeros_are_rows() {
    assert_eq!(split_cell_id("A0"), Some((0, 0)));
    assert_eq!(split_cell_id("A007"), Some((0, 7)));
}

#[test]
fn rejects_what_is_no_identifier() {
    assert_eq!(split_cell_id(""), None);
    assert_eq!(split_cell_id("A"), None);
    assert_eq!(split_cell_id("1"), None);
    assert_eq!(split_cell_id("1A"), None);
    assert_eq!(split_cell_id("A1B"), None);
    assert_eq!(split_cell_id("A1 "), None);
    assert_eq!(split_cell_id(" A1"), None);
    assert_eq!(split_cell_id("a1"), None);
    assert_eq!(split_cell_id("A-1"), None);
    assert_eq!(split_cell_id("A_1"), None);
    assert_eq!(split_cell_id("É1"), None);
}

#[test]
fn rows_end_where_u32_ends() {
    assert_eq!(split_cell_id("A4294967295"), Some((0, 4294967295)));
    assert_eq!(split_cell_id("A4294967296"), None);
    assert_eq!(split_cell_id("A99999999999999999999"), None);
}

#[test]
fn columns_end_where_u32_ends() {
    assert_eq!(split_cell_id("MWLQKWU1"), Some((4294967294, 1)));
    assert_eq!(split_cell_id("MWLQKWV1"), None);
    assert_eq!(split_cell_id("ZZZZZZZZZZZZZZZZ1"), None);
}

#[test]
fn names_columns_with_letters() {
    assert_eq!(pos_to_cell_id(&(0, 1)), "A1");
    assert_eq!(pos_to_cell_id(&(1, 7)), "B7");
    assert_eq!(pos_to_cell_id(&(25, 0)), "Z0");
    assert_eq!(pos_to_cell_id(&(26, 10)), "AA10");
    assert_eq!(pos_to_cell_id(&(27, 27)), "AB27");
    assert_eq!(pos_to_cell_id(&(51, 3)), "AZ3");
    assert_eq!(pos_to_cell_id(&(52, 3)), "BA3");
    assert_eq!(pos_to_cell_id(&(701, 1)), "ZZ1");
    assert_eq!(pos_to_cell_id(&(702, 1)), "AAA1");
    assert_eq!(pos_to_cell_id(&(703, 4294967295)), "AAB4294967295");
    assert_eq!(pos_to_cell_id(&(4294967294, 1)), "MWLQKWU1");
    assert_eq!(pos_to_cell_id(&(4294967295, 1)), "MWLQKWV1");
}

#[test]
fn name_and_coordinate_agree() {
    for col in [0u32, 1, 25, 26, 27, 700, 701, 702, 18277, 18278, 4294967294] {
        for row in [0u32, 1, 9, 10, 99, 100, 4294967295] {
            let name = pos_to_cell_id(&(col, row));
            assert_eq!(split_cell_id(&name), Some((col, row)));
        }
    }
}

#[test]
fn single_cell_expands_to_itself() {
    assert_eq!(parse_to_indices("A1"), Some(vec![(0, 1)]));
    assert_eq!(parse_to_indices("AB27"), Some(vec![(27, 27)]));
}

#[test]
fn range_expands_column_by_column() {
    assert_eq!(parse_to_indices("A1_A3"), Some(vec![(0, 1), (0, 2), (0, 3)]));
    assert_eq!(parse_to_indices("A1_C1"), Some(vec![(0, 1), (1, 1), (2, 1)]));
    assert_eq!(
        parse_to_indices("A1_B2"),
        Some(vec![(0, 1), (0, 2), (1, 1), (1, 2)])
    );
    assert_eq!(parse_to_indices("B2_B2"), Some(vec![(1, 2)]));
}

#[test]
fn range_that_runs_backwards_is_empty() {
    assert_eq!(parse_to_indices("B2_A1"), Some(vec![]));
    assert_eq!(parse_to_indices("A3_A1"), Some(vec![]));
    assert_eq!(parse_to_indices("C1_A1"), Some(vec![]));
    assert_eq!(parse_to_indices("B1_A2"), Some(vec![]));
}

#[test]
fn range_reaches_the_last_row_and_column() {
    assert_eq!(
        parse_to_indices("A4294967294_A4294967295"),
        Some(vec![(0, 4294967294), (0, 4294967295)])
    );
    assert_eq!(
        parse_to_indices("MWLQKWT1_MWLQKWU1"),
        Some(vec![(4294967293, 1), (4294967294, 1)])
    );
}

#[test]
fn malformed_tokens_expand_to_nothing() {
    assert_eq!(parse_to_indices(""), None);
    assert_eq!(parse_to_indices("A"), None);
    assert_eq!(parse_to_indices("1A"), None);
    assert_eq!(parse_to_indices("A1_"), None);
    assert_eq!(parse_to_indices("_A1"), None);
    assert_eq!(parse_to_indices("A1_B"), None);
    assert_eq!(parse_to_indices("A_B1"), None);
    assert_eq!(parse_to_indices("A1_B2_C3"), None);
    assert_eq!(parse_to_indices("A1__B2"), None);
    assert_eq!(parse_to_indices("A1_B4294967296"), None);
}
