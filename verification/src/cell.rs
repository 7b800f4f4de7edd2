//! Cell values, cell records, evaluation arguments and replies, each with its
//! mathematical view.

use vstd::prelude::*;

verus! {

/// A coordinate on the grid: column index, then row number.
pub type Coord = (u32, u32);

/// What a cell value is, with its text as a sequence of characters.
pub enum Value {
    Empty,
    Int(i64),
    Text(Seq<char>),
    Error(Seq<char>),
}

/// The value a cell holds.
#[derive(Debug, PartialEq, Eq)]
pub enum Content {
    /// Nothing has been stored.
    Empty,
    Int(i64),
    Text(String),
    /// The cell could not be computed; the message says why.
    Error(String),
}

impl View for Content {
    type V = Value;

    open spec fn view(&self) -> Value {
        match *self {
            Content::Empty => Value::Empty,
            Content::Int(i) => Value::Int(i),
            Content::Text(s) => Value::Text(s@),
            Content::Error(s) => Value::Error(s@),
        }
    }
}

impl Clone for Content {
    fn clone(&self) -> (out: Self)
        ensures
            out == *self,
    {
        match self {
            Content::Empty => Content::Empty,
            Content::Int(i) => Content::Int(*i),
            Content::Text(s) => Content::Text(s.clone()),
            Content::Error(s) => Content::Error(s.clone()),
        }
    }
}

/// What a cell record is: its value, and the source of its formula if it has one.
pub struct Record {
    pub value: Value,
    pub expr: Option<Seq<char>>,
}

/// The record of a cell that was never written.
pub open spec fn blank() -> Record {
    Record { value: Value::Empty, expr: None }
}

/// A cell's value together with the formula that produced it. `dependency` is
/// `Some` exactly when the cell was set to an expression that reads other cells.
#[derive(Debug, PartialEq, Eq)]
pub struct CellRef {
    pub cell_value: Content,
    pub dependency: Option<String>,
}

impl View for CellRef {
    type V = Record;

    open spec fn view(&self) -> Record {
        Record {
            value: self.cell_value@,
            expr: match self.dependency {
                Some(s) => Some(s@),
                None => None,
            },
        }
    }
}

impl Clone for CellRef {
    fn clone(&self) -> (out: Self)
        ensures
            out == *self,
    {
        CellRef {
            cell_value: self.cell_value.clone(),
            dependency: match &self.dependency {
                Some(s) => Some(s.clone()),
                None => None,
            },
        }
    }
}

impl CellRef {
    pub fn new(cell_value: Content, dependency: Option<String>) -> (out: Self)
        ensures
            out.cell_value == cell_value,
            out.dependency == dependency,
    {
        CellRef { cell_value, dependency }
    }
}

/// What an evaluation argument is.
pub enum Binding {
    Scalar(Value),
    Vector(Seq<Value>),
    Matrix(Seq<Seq<Value>>),
}

/// The views of a list of values, in order.
pub open spec fn values_view(values: Seq<Content>) -> Seq<Value> {
    values.map_values(|v: Content| v@)
}

/// The views of a list of lists of values, in order.
pub open spec fn rows_view(rows: Seq<Vec<Content>>) -> Seq<Seq<Value>> {
    rows.map_values(|r: Vec<Content>| values_view(r@))
}

/// What a variable of an expression is bound to: one cell, a line of cells,
/// or a rectangle of cells given column by column.
#[derive(Debug, PartialEq, Eq)]
pub enum Argument {
    Value(Content),
    Vector(Vec<Content>),
    Matrix(Vec<Vec<Content>>),
}

impl View for Argument {
    type V = Binding;

    open spec fn view(&self) -> Binding {
        match *self {
            Argument::Value(v) => Binding::Scalar(v@),
            Argument::Vector(v) => Binding::Vector(values_view(v@)),
            Argument::Matrix(m) => Binding::Matrix(rows_view(m@)),
        }
    }
}

/// What a reply is.
pub enum Answer {
    Value(Seq<char>, Value),
    Error(Seq<char>),
}

/// A message for the client: the value of a cell it asked for, or an error.
#[derive(Debug, PartialEq, Eq)]
pub enum Reply {
    Value(String, Content),
    Error(String),
}

impl View for Reply {
    type V = Answer;

    open spec fn view(&self) -> Answer {
        match *self {
            Reply::Value(id, v) => Answer::Value(id@, v@),
            Reply::Error(msg) => Answer::Error(msg@),
        }
    }
}

} // verus!
