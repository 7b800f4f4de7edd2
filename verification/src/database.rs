//! The cell store, cell identifiers and ranges of cells.

use crate::cell::{
    blank, rows_view, values_view, Argument, Binding, CellRef, Content, Coord, Record, Value,
};
use crate::text::{
    all_digits, all_upper, char_index, chars_of, column_name, column_value, decimal_text,
    decimal_value, digit_index, find_char, find_digit, is_upper, parse_column, parse_decimal,
    push_column, push_decimal, string_of,
};
use dashmap::DashMap;
use std::sync::Arc;
use vstd::prelude::*;

verus! {

/// The store of cell records, over the concurrent map of dashmap. This is the
/// handle that writes, and there is one of it: the engine owns it. Any number
/// of `StoreReader`s may read the same records meanwhile. Proofs know of a
/// store what `store_contents` says.
#[verifier::external_body]
pub struct CellStore {
    map: Arc<DashMap<(u32, u32), CellRef>>,
}

/// A handle that reads the records of a `CellStore` while its owner may be
/// writing: a read sees a record as it was before some write or after it.
/// Proofs know nothing of what one reads.
#[verifier::external_body]
pub struct StoreReader {
    map: Arc<DashMap<(u32, u32), CellRef>>,
}

/// What the store holds: the entry of each key that has one.
pub uninterp spec fn store_contents(store: CellStore) -> Map<Coord, CellRef>;

/// `DashMap::new` makes a map without entries.
#[verifier::external_body]
fn store_new() -> (fresh: CellStore)
    ensures
        store_contents(fresh) == (Map::<Coord, CellRef>::empty()),
{
    CellStore { map: Arc::new(DashMap::new()) }
}

/// `DashMap::get` finds the entry of `key`, if it has one; this hands out a
/// clone of the entry. It is called by the owner of the store, who is not
/// writing meanwhile.
#[verifier::external_body]
fn store_get(store: &CellStore, key: &(u32, u32)) -> (entry: Option<CellRef>)
    ensures
        entry == if store_contents(*store).contains_key(*key) {
            Some(store_contents(*store)[*key])
        } else {
            None::<CellRef>
        },
{
    store.map.get(key).map(|found| found.value().clone())
}

/// `DashMap::insert` puts `value` in as the entry of `key` and returns the
/// entry that `key` had before, if it had one. It is called by the owner of
/// the store, and by nobody else.
#[verifier::external_body]
fn store_insert(store: &mut CellStore, key: (u32, u32), value: CellRef) -> (prev: Option<CellRef>)
    ensures
        store_contents(*final(store)) == store_contents(*old(store)).insert(key, value),
        prev == if store_contents(*old(store)).contains_key(key) {
            Some(store_contents(*old(store))[key])
        } else {
            None::<CellRef>
        },
{
    store.map.insert(key, value)
}

/// Another handle on the map of the store, for reading only. Nothing is
/// claimed of what it will read.
#[verifier::external_body]
fn store_share(store: &CellStore) -> StoreReader {
    StoreReader { map: Arc::clone(&store.map) }
}

/// Another handle on the map that `reader` reads.
#[verifier::external_body]
fn reader_share(reader: &StoreReader) -> StoreReader {
    StoreReader { map: Arc::clone(&reader.map) }
}

/// `DashMap::get`, called by someone who reads along while the owner may be
/// writing. Which entry it finds depends on what the owner has written by
/// then, so nothing is claimed of it.
#[verifier::external_body]
fn reader_get(reader: &StoreReader, key: &(u32, u32)) -> Option<CellRef> {
    reader.map.get(key).map(|found| found.value().clone())
}

/// The record of the cell at `at`; a cell without a record is blank.
pub open spec fn record_at(store: Map<Coord, Record>, at: Coord) -> Record {
    if store.contains_key(at) {
        store[at]
    } else {
        blank()
    }
}

/// The value of the cell at `at`.
pub open spec fn value_at(store: Map<Coord, Record>, at: Coord) -> Value {
    record_at(store, at).value
}

impl View for CellStore {
    type V = Map<Coord, Record>;

    closed spec fn view(&self) -> Map<Coord, Record> {
        store_contents(*self).map_values(|r: CellRef| r@)
    }
}

impl CellStore {
    /// A store without records.
    pub fn new() -> (out: Self)
        ensures
            out@ == Map::<Coord, Record>::empty(),
    {
        let out = store_new();
        assert(out@ =~= Map::<Coord, Record>::empty());
        out
    }

    /// A handle for reading along.
    pub fn reader(&self) -> StoreReader {
        store_share(self)
    }
}

impl Clone for StoreReader {
    fn clone(&self) -> (out: Self) {
        reader_share(self)
    }
}

/// The record that was found, or a blank one if none was.
pub fn record_or_blank(found: Option<CellRef>) -> (out: CellRef)
    ensures
        out@ == match found {
            Some(record) => record@,
            None => blank(),
        },
{
    match found {
        Some(record) => record,
        None => CellRef::new(Content::Empty, None),
    }
}

/// Something that the record of a cell can be read from.
pub trait Records {
    /// A read of the cell at `at` may give `record`.
    spec fn may_read(&self, at: Coord, record: Record) -> bool;

    /// The record of the cell at `key`; blank if it has none.
    fn read(&self, key: &(u32, u32)) -> (out: CellRef)
        ensures
            self.may_read(*key, out@),
    ;
}

impl Records for CellStore {
    /// The owner of the store reads what the store holds.
    open spec fn may_read(&self, at: Coord, record: Record) -> bool {
        record == record_at(self@, at)
    }

    fn read(&self, key: &(u32, u32)) -> (out: CellRef) {
        database_get_value(self, key)
    }
}

impl Records for StoreReader {
    /// Someone who reads along sees the record as some moment had it. Which
    /// moment depends on what the owner has written by then, so any record
    /// may be what is read.
    open spec fn may_read(&self, at: Coord, record: Record) -> bool {
        true
    }

    fn read(&self, key: &(u32, u32)) -> (out: CellRef) {
        record_or_blank(reader_get(self, key))
    }
}

/// The record of the cell at `key`; blank if it was never written.
pub fn database_get_value(store: &CellStore, key: &(u32, u32)) -> (out: CellRef)
    ensures
        out@ == record_at(store@, *key),
{
    record_or_blank(store_get(store, key))
}

/// Makes `value` the record of the cell at `key`, and returns the record it had.
pub fn database_insert(store: &mut CellStore, key: (u32, u32), value: CellRef) -> (out: Option<
    CellRef,
>)
    ensures
        final(store)@ == old(store)@.insert(key, value@),
        match out {
            Some(prev) => old(store)@.contains_key(key) && prev@ == old(store)@[key],
            None => !old(store)@.contains_key(key),
        },
{
    let prev = store_insert(store, key, value);
    assert(store@ =~= old(store)@.insert(key, value@));
    prev
}

/// The coordinate that a cell identifier names: letters for the column, then
/// decimal digits for the row. The column is everything before the first digit.
pub open spec fn cell_coord(id: Seq<char>) -> Option<Coord> {
    let k = digit_index(id) as int;
    let col = id.take(k);
    let row = id.skip(k);
    if 0 < k < id.len() && all_upper(col) && all_digits(row) && column_value(col) <= u32::MAX
        && decimal_value(row) <= u32::MAX {
        Some(((column_value(col) - 1) as u32, decimal_value(row) as u32))
    } else {
        None
    }
}

/// The identifier of the cell at `at`.
pub open spec fn cell_name(at: Coord) -> Seq<char> {
    column_name(at.0 as nat) + decimal_text(at.1 as nat)
}

/// Reads `chars[from..to]` as a cell identifier.
pub fn coord_of_chars(chars: &Vec<char>, from: usize, to: usize) -> (out: Option<Coord>)
    requires
        from <= to <= chars.len(),
    ensures
        out == cell_coord(chars@.subrange(from as int, to as int)),
{
    let ghost id = chars@.subrange(from as int, to as int);
    let k = find_digit(chars, from, to);
    assert(id.take(k - from) =~= chars@.subrange(from as int, k as int));
    assert(id.skip(k - from) =~= chars@.subrange(k as int, to as int));
    if k == from || k == to {
        return None;
    }
    match parse_column(chars, from, k) {
        None => None,
        Some(col) => match parse_decimal(chars, k, to) {
            None => None,
            Some(row) => {
                assert(col >= 1) by {
                    let letters = id.take(k - from);
                    assert(all_upper(letters));
                    assert(letters.len() > 0);
                    assert(all_upper(letters) ==> is_upper(letters[letters.len() - 1]));
                }
                Some((col - 1, row))
            },
        },
    }
}

/// Splits a cell identifier such as `AB27` into its column index and its row.
/// `None` for anything that is not column letters followed by a row number.
pub fn split_cell_id(cell_id: &str) -> (out: Option<(u32, u32)>)
    ensures
        out == cell_coord(cell_id@),
{
    let chars = chars_of(cell_id);
    assert(chars@.subrange(0, chars.len() as int) =~= chars@);
    coord_of_chars(&chars, 0, chars.len())
}

/// The identifier of the cell at `position`.
pub fn pos_to_cell_id(position: &(u32, u32)) -> (out: String)
    ensures
        out@ == cell_name(*position),
{
    let mut chars: Vec<char> = Vec::new();
    push_column(&mut chars, position.0);
    push_decimal(&mut chars, position.1);
    string_of(&chars)
}

/// The cells of column `col` in rows `lo` up to, not including, `hi`.
pub open spec fn column_cells(col: u32, lo: int, hi: int) -> Seq<Coord> {
    if hi <= lo {
        Seq::empty()
    } else {
        Seq::new((hi - lo) as nat, |i: int| (col, (lo + i) as u32))
    }
}

/// The first `cols` columns of the rectangle that starts at `a` and ends in the row of `b`.
pub open spec fn rectangle_upto(a: Coord, b: Coord, cols: nat) -> Seq<Coord>
    decreases cols,
{
    if cols == 0 {
        Seq::empty()
    } else {
        rectangle_upto(a, b, (cols - 1) as nat) + column_cells(
            (a.0 + cols - 1) as u32,
            a.1 as int,
            b.1 + 1,
        )
    }
}

/// The cells of the rectangle from `a` to `b`, both included: column by column,
/// each from the row of `a` down to the row of `b`. Empty where `b` lies left of
/// or above `a`.
pub open spec fn rectangle(a: Coord, b: Coord) -> Seq<Coord> {
    rectangle_upto(
        a,
        b,
        if b.0 >= a.0 {
            (b.0 - a.0 + 1) as nat
        } else {
            0
        },
    )
}

/// The cells that a variable of an expression refers to: one cell for an
/// identifier, a rectangle for two identifiers joined by `_`.
pub open spec fn referenced_cells(token: Seq<char>) -> Option<Seq<Coord>> {
    let k = char_index(token, '_') as int;
    if k == token.len() {
        match cell_coord(token) {
            Some(c) => Some(seq![c]),
            None => None,
        }
    } else {
        let rest = token.skip(k + 1);
        if char_index(rest, '_') != rest.len() {
            None
        } else {
            match (cell_coord(token.take(k)), cell_coord(rest)) {
                (Some(a), Some(b)) => Some(rectangle(a, b)),
                _ => None,
            }
        }
    }
}

/// The two corners of a range `A_B`, or `None` where the token is not two
/// cell identifiers joined by one `_`.
pub fn range_corners(chars: &Vec<char>) -> (out: Option<(Coord, Coord)>)
    ensures
        ({
            let token = chars@;
            let k = char_index(token, '_') as int;
            let rest = token.skip(k + 1);
            if k < token.len() && char_index(rest, '_') == rest.len() {
                match (cell_coord(token.take(k)), cell_coord(rest)) {
                    (Some(a), Some(b)) => out == Some((a, b)),
                    _ => out is None,
                }
            } else {
                out is None
            }
        }),
{
    let n = chars.len();
    assert(chars@.subrange(0, n as int) =~= chars@);
    let k = find_char(chars, 0, n, '_');
    if k == n {
        return None;
    }
    assert(chars@.skip(k + 1) =~= chars@.subrange(k + 1, n as int));
    assert(chars@.take(k as int) =~= chars@.subrange(0, k as int));
    let k2 = find_char(chars, k + 1, n, '_');
    if k2 < n {
        return None;
    }
    match coord_of_chars(chars, 0, k) {
        None => None,
        Some(a) => match coord_of_chars(chars, k + 1, n) {
            None => None,
            Some(b) => Some((a, b)),
        },
    }
}

/// Expands a variable of an expression into the cells it refers to.
pub fn parse_to_indices(range: &str) -> (out: Option<Vec<(u32, u32)>>)
    ensures
        match referenced_cells(range@) {
            Some(cells) => out is Some && out->0@ == cells,
            None => out is None,
        },
{
    let chars = chars_of(range);
    let n = chars.len();
    assert(chars@.subrange(0, n as int) =~= chars@);
    let k = find_char(&chars, 0, n, '_');
    if k == n {
        return match coord_of_chars(&chars, 0, n) {
            Some(c) => {
                let mut result: Vec<(u32, u32)> = Vec::new();
                result.push(c);
                assert(result@ =~= seq![c]);
                Some(result)
            },
            None => None,
        };
    }
    match range_corners(&chars) {
        None => None,
        Some((a, b)) => {
            let mut result: Vec<(u32, u32)> = Vec::new();
            if b.0 < a.0 {
                assert(result@ =~= rectangle(a, b));
                return Some(result);
            }
            let mut col: u32 = a.0;
            loop
                invariant_except_break
                    result@ == rectangle_upto(a, b, (col - a.0) as nat),
                invariant
                    a.0 <= col <= b.0,
                ensures
                    result@ == rectangle(a, b),
                decreases b.0 - col,
            {
                let ghost before = result@;
                if a.1 <= b.1 {
                    let mut row: u32 = a.1;
                    loop
                        invariant_except_break
                            result@ == before + column_cells(col, a.1 as int, row as int),
                        invariant
                            a.1 <= row <= b.1,
                        ensures
                            result@ == before + column_cells(col, a.1 as int, b.1 + 1),
                        decreases b.1 - row,
                    {
                        result.push((col, row));
                        assert(column_cells(col, a.1 as int, row + 1) =~= column_cells(
                            col,
                            a.1 as int,
                            row as int,
                        ).push((col, row)));
                        if row == b.1 {
                            break ;
                        }
                        row += 1;
                    }
                } else {
                    assert(column_cells(col, a.1 as int, b.1 + 1) =~= Seq::empty());
                }
                assert(result@ == rectangle_upto(a, b, (col - a.0 + 1) as nat));
                if col == b.0 {
                    break ;
                }
                col += 1;
            }
            Some(result)
        },
    }
}

/// The cells of row `row` in columns `lo` up to, not including, `hi`.
pub open spec fn row_cells(row: u32, lo: int, hi: int) -> Seq<Coord> {
    if hi <= lo {
        Seq::empty()
    } else {
        Seq::new((hi - lo) as nat, |i: int| ((lo + i) as u32, row))
    }
}

/// The values of the cells `cells`, in order.
pub open spec fn values_at(store: Map<Coord, Record>, cells: Seq<Coord>) -> Seq<Value> {
    cells.map_values(|c: Coord| value_at(store, c))
}

/// The values of the rectangle from `a` to `b`: one list for each column, each
/// from the row of `a` down to the row of `b`.
pub open spec fn matrix_at(store: Map<Coord, Record>, a: Coord, b: Coord) -> Seq<Seq<Value>> {
    if b.0 < a.0 {
        Seq::empty()
    } else {
        Seq::new(
            (b.0 - a.0 + 1) as nat,
            |i: int| values_at(store, column_cells((a.0 + i) as u32, a.1 as int, b.1 + 1)),
        )
    }
}

/// What a range from `a` to `b` is bound to: the values of a line of cells
/// where it lies in one column or in one row, else those of a rectangle.
pub open spec fn range_argument(store: Map<Coord, Record>, a: Coord, b: Coord) -> Binding {
    if a.0 == b.0 {
        Binding::Vector(values_at(store, column_cells(a.0, a.1 as int, b.1 + 1)))
    } else if a.1 == b.1 {
        Binding::Vector(values_at(store, row_cells(a.1, a.0 as int, b.0 + 1)))
    } else {
        Binding::Matrix(matrix_at(store, a, b))
    }
}

/// What a variable of an expression is bound to: a single cell to its value,
/// whatever that is, a range to the values of its cells. A token that names no
/// cells is bound to nothing.
pub open spec fn argument_for(store: Map<Coord, Record>, token: Seq<char>) -> Option<Binding> {
    let k = char_index(token, '_') as int;
    if k == token.len() {
        match cell_coord(token) {
            Some(c) => Some(Binding::Scalar(value_at(store, c))),
            None => None,
        }
    } else {
        let rest = token.skip(k + 1);
        if char_index(rest, '_') != rest.len() {
            None
        } else {
            match (cell_coord(token.take(k)), cell_coord(rest)) {
                (Some(a), Some(b)) => Some(range_argument(store, a, b)),
                _ => None,
            }
        }
    }
}

/// The values of the cells of column `col` in rows `lo` to `hi`, both included.
fn column_values(store: &CellStore, col: u32, lo: u32, hi: u32) -> (out: Vec<Content>)
    ensures
        values_view(out@) == values_at(store@, column_cells(col, lo as int, hi + 1)),
{
    let mut out: Vec<Content> = Vec::new();
    if hi < lo {
        assert(values_view(out@) =~= values_at(store@, column_cells(col, lo as int, hi + 1)));
        return out;
    }
    let mut row: u32 = lo;
    loop
        invariant_except_break
            values_view(out@) == values_at(store@, column_cells(col, lo as int, row as int)),
        invariant
            lo <= row <= hi,
        ensures
            values_view(out@) == values_at(store@, column_cells(col, lo as int, hi + 1)),
        decreases hi - row,
    {
        let ghost before = out@;
        let record = database_get_value(store, &(col, row));
        out.push(record.cell_value);
        assert(values_view(out@) =~= values_at(store@, column_cells(col, lo as int, row + 1))) by {
            let done = column_cells(col, lo as int, row as int);
            let next = column_cells(col, lo as int, row + 1);
            assert(out@ == before.push(record.cell_value));
            assert(next =~= done.push((col, row)));
            assert(record@.value == value_at(store@, (col, row)));
            assert(values_view(out@) =~= values_view(before).push(record.cell_value@));
            assert(values_at(store@, next) =~= values_at(store@, done).push(
                value_at(store@, (col, row)),
            ));
        }
        if row == hi {
            break ;
        }
        row += 1;
    }
    out
}

/// The values of the cells of row `row` in columns `lo` to `hi`, both included.
fn row_values(store: &CellStore, row: u32, lo: u32, hi: u32) -> (out: Vec<Content>)
    ensures
        values_view(out@) == values_at(store@, row_cells(row, lo as int, hi + 1)),
{
    let mut out: Vec<Content> = Vec::new();
    if hi < lo {
        assert(values_view(out@) =~= values_at(store@, row_cells(row, lo as int, hi + 1)));
        return out;
    }
    let mut col: u32 = lo;
    loop
        invariant_except_break
            values_view(out@) == values_at(store@, row_cells(row, lo as int, col as int)),
        invariant
            lo <= col <= hi,
        ensures
            values_view(out@) == values_at(store@, row_cells(row, lo as int, hi + 1)),
        decreases hi - col,
    {
        let ghost before = out@;
        let record = database_get_value(store, &(col, row));
        out.push(record.cell_value);
        assert(values_view(out@) =~= values_at(store@, row_cells(row, lo as int, col + 1))) by {
            let done = row_cells(row, lo as int, col as int);
            let next = row_cells(row, lo as int, col + 1);
            assert(out@ == before.push(record.cell_value));
            assert(next =~= done.push((col, row)));
            assert(record@.value == value_at(store@, (col, row)));
            assert(values_view(out@) =~= values_view(before).push(record.cell_value@));
            assert(values_at(store@, next) =~= values_at(store@, done).push(
                value_at(store@, (col, row)),
            ));
        }
        if col == hi {
            break ;
        }
        col += 1;
    }
    out
}

/// The values of the rectangle from `a` to `b`, column by column.
fn matrix_values(store: &CellStore, a: (u32, u32), b: (u32, u32)) -> (out: Vec<Vec<Content>>)
    ensures
        rows_view(out@) == matrix_at(store@, a, b),
{
    let mut out: Vec<Vec<Content>> = Vec::new();
    if b.0 < a.0 {
        assert(rows_view(out@) =~= matrix_at(store@, a, b));
        return out;
    }
    let mut col: u32 = a.0;
    loop
        invariant_except_break
            out.len() == col - a.0,
            forall|i: int|
                0 <= i < out.len() ==> values_view(#[trigger] out@[i]@) == values_at(
                    store@,
                    column_cells((a.0 + i) as u32, a.1 as int, b.1 + 1),
                ),
        invariant
            a.0 <= col <= b.0,
        ensures
            out.len() == b.0 - a.0 + 1,
            forall|i: int|
                0 <= i < out.len() ==> values_view(#[trigger] out@[i]@) == values_at(
                    store@,
                    column_cells((a.0 + i) as u32, a.1 as int, b.1 + 1),
                ),
        decreases b.0 - col,
    {
        let ghost before = out@;
        let column = column_values(store, col, a.1, b.1);
        out.push(column);
        assert forall|i: int| 0 <= i < out.len() implies values_view(#[trigger] out@[i]@)
            == values_at(store@, column_cells((a.0 + i) as u32, a.1 as int, b.1 + 1)) by {
            if i < before.len() {
                assert(out@[i] == before[i]);
            }
        }
        if col == b.0 {
            break ;
        }
        col += 1;
    }
    assert(rows_view(out@) =~= matrix_at(store@, a, b));
    out
}

/// What the variable `cell_id` of an expression is bound to when the
/// expression is evaluated against `store`.
pub fn get_cell_argument(store: &CellStore, cell_id: &str) -> (out: Option<Argument>)
    ensures
        match argument_for(store@, cell_id@) {
            Some(binding) => out is Some && out->0@ == binding,
            None => out is None,
        },
{
    let chars = chars_of(cell_id);
    let n = chars.len();
    assert(chars@.subrange(0, n as int) =~= chars@);
    let k = find_char(&chars, 0, n, '_');
    if k == n {
        return match coord_of_chars(&chars, 0, n) {
            Some(c) => {
                let record = database_get_value(store, &c);
                Some(Argument::Value(record.cell_value))
            },
            None => None,
        };
    }
    match range_corners(&chars) {
        None => None,
        Some((a, b)) => {
            if a.0 == b.0 {
                Some(Argument::Vector(column_values(store, a.0, a.1, b.1)))
            } else if a.1 == b.1 {
                Some(Argument::Vector(row_values(store, a.1, a.0, b.0)))
            } else {
                Some(Argument::Matrix(matrix_values(store, a, b)))
            }
        },
    }
}

} // verus!
