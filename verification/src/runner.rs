//! Expressions: which variables one holds, and what evaluating one may give.

use crate::cell::{Argument, Binding, Value};
use crate::text::{chars_of, string_between};
use rsheet_lib::command_runner::CommandRunner;
use vstd::prelude::*;

verus! {

/// The variables that the expression `source` holds, in the order in which
/// they are found; one that occurs twice is listed twice.
pub uninterp spec fn variables_of(source: Seq<char>) -> Seq<Seq<char>>;

/// What evaluating may give: whether the expression with this text, under
/// these bindings, may evaluate to this value. Evaluating is not done here;
/// whoever does it says what it may give.
pub type Gives = spec_fn(Seq<char>, Seq<(Seq<char>, Binding)>, Value) -> bool;

/// The texts of a list of strings, in order.
pub open spec fn texts(strings: Seq<String>) -> Seq<Seq<char>> {
    strings.map_values(|s: String| s@)
}

/// The names and arguments of a list of bindings, in order.
pub open spec fn bound(bindings: Seq<(String, Argument)>) -> Seq<(Seq<char>, Binding)> {
    bindings.map_values(|b: (String, Argument)| (b.0@, b.1@))
}

/// The expression that `source` holds: what stands behind a leading `=`, or
/// all of it where it begins otherwise.
pub open spec fn formula(source: Seq<char>) -> Seq<char> {
    if source.len() > 0 && source[0] == '=' {
        source.skip(1)
    } else {
        source
    }
}

/// The variables of the expression that `source` holds.
pub open spec fn variables_in(source: Seq<char>) -> Seq<Seq<char>> {
    variables_of(formula(source))
}

/// `CommandRunner::find_variables` walks the parsed expression and lists the
/// names of its variables that look like a cell or a range of cells.
#[verifier::external_body]
fn find_variables(source: &str) -> (names: Vec<String>)
    ensures
        texts(names@) == variables_of(source@),
{
    CommandRunner::new(source).find_variables()
}

/// The expression that `source` holds.
pub fn formula_of(source: &str) -> (out: String)
    ensures
        out@ == formula(source@),
{
    let chars = chars_of(source);
    let n = chars.len();
    let from: usize = if n > 0 && chars[0] == '=' {
        1
    } else {
        0
    };
    assert(chars@.subrange(from as int, n as int) =~= formula(source@));
    string_between(&chars, from, n)
}

/// The variables of the expression that `source` holds, in the order in which
/// they are found.
pub fn expression_variables(source: &str) -> (names: Vec<String>)
    ensures
        texts(names@) == variables_in(source@),
{
    let text = formula_of(source);
    find_variables(text.as_str())
}

} // verus!
