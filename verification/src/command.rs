//! Commands of clients: what a line of input asks for, and what is done about it.

use crate::cell::{Answer, CellRef, Content, Record, Reply, Value};
use crate::database::{cell_coord, coord_of_chars, Records};
use crate::engine::{invalid_key, invalid_key_reply, Transaction};
use crate::text::{char_index, chars_of, find_char, string_between};
use vstd::prelude::*;
use vstd::string::StringExecFns;

verus! {

/// What a command is.
pub enum Request {
    SetCell(Seq<char>),
    Get(Seq<char>),
    Unsupported,
}

/// What a client asks for, with the rest of its line.
#[derive(Debug, PartialEq, Eq)]
pub enum Command {
    SetCell(String),
    Get(String),
    Unsupported,
}

impl View for Command {
    type V = Request;

    open spec fn view(&self) -> Request {
        match *self {
            Command::SetCell(args) => Request::SetCell(args@),
            Command::Get(args) => Request::Get(args@),
            Command::Unsupported => Request::Unsupported,
        }
    }
}

/// The command that a line of input stands for: `set` or `get`, one space,
/// and the rest. Any other line is unsupported.
pub open spec fn command_of(input: Seq<char>) -> Request {
    let k = char_index(input, ' ') as int;
    if k == input.len() {
        Request::Unsupported
    } else if input.take(k) == seq!['s', 'e', 't'] {
        Request::SetCell(input.skip(k + 1))
    } else if input.take(k) == seq!['g', 'e', 't'] {
        Request::Get(input.skip(k + 1))
    } else {
        Request::Unsupported
    }
}

/// Reads a line of input as a command.
pub fn parse_command(input: &str) -> (out: Command)
    ensures
        out@ == command_of(input@),
{
    let chars = chars_of(input);
    let n = chars.len();
    assert(chars@.subrange(0, n as int) =~= chars@);
    let k = find_char(&chars, 0, n, ' ');
    if k == n {
        return Command::Unsupported;
    }
    assert(chars@.take(k as int) =~= chars@.subrange(0, k as int));
    assert(chars@.skip(k + 1) =~= chars@.subrange(k + 1, n as int));
    if k != 3 {
        assert(seq!['s', 'e', 't'].len() == 3 && seq!['g', 'e', 't'].len() == 3);
        return Command::Unsupported;
    }
    let ghost head = chars@.take(k as int);
    assert(head[0] == chars[0] && head[1] == chars[1] && head[2] == chars[2]);
    if chars[0] == 's' && chars[1] == 'e' && chars[2] == 't' {
        assert(head =~= seq!['s', 'e', 't']);
        Command::SetCell(string_between(&chars, k + 1, n))
    } else if chars[0] == 'g' && chars[1] == 'e' && chars[2] == 't' {
        assert(head =~= seq!['g', 'e', 't']);
        assert(seq!['s', 'e', 't'][0] == 's' && seq!['g', 'e', 't'][0] == 'g');
        Command::Get(string_between(&chars, k + 1, n))
    } else {
        assert(seq!['s', 'e', 't'][0] == 's' && seq!['s', 'e', 't'][1] == 'e' && seq![
            's',
            'e',
            't',
        ][2] == 't');
        assert(seq!['g', 'e', 't'][0] == 'g' && seq!['g', 'e', 't'][1] == 'e' && seq![
            'g',
            'e',
            't',
        ][2] == 't');
        Command::Unsupported
    }
}

/// The message that rejects a request that is not made as it should be.
pub open spec fn unreadable_request(args: Seq<char>) -> Seq<char> {
    "Error: Error parsing request: "@ + args
}

/// The reply that rejects a request that is not made as it should be.
fn unreadable_request_reply(args: &str) -> (out: Reply)
    ensures
        out@ == Answer::Error(unreadable_request(args@)),
{
    let mut message = String::from_str("Error: Error parsing request: ");
    message.append(args);
    Reply::Error(message)
}

/// The cell and the expression of a `set`: what stands before the first space
/// and what stands behind it.
pub open spec fn set_request(args: Seq<char>) -> Option<(Seq<char>, Seq<char>)> {
    let k = char_index(args, ' ') as int;
    if k == args.len() {
        None
    } else {
        Some((args.take(k), args.skip(k + 1)))
    }
}

/// Makes the request that a `set` with the arguments `args` hands to the
/// engine, or the reply that rejects one without an expression.
pub fn handle_set(args: &str) -> (out: Result<Transaction, Reply>)
    ensures
        match set_request(args@) {
            Some((target, source)) => out matches Ok(t) && t.target() == target && t.source()
                == source,
            None => out matches Err(reply) && reply@ == Answer::Error(unreadable_request(args@)),
        },
{
    let chars = chars_of(args);
    let n = chars.len();
    assert(chars@.subrange(0, n as int) =~= chars@);
    let k = find_char(&chars, 0, n, ' ');
    if k == n {
        return Err(unreadable_request_reply(args));
    }
    assert(chars@.take(k as int) =~= chars@.subrange(0, k as int));
    assert(chars@.skip(k + 1) =~= chars@.subrange(k + 1, n as int));
    let mut request: Vec<String> = Vec::new();
    request.push(string_between(&chars, 0, k));
    request.push(string_between(&chars, k + 1, n));
    Ok(Transaction::new(request))
}

/// White space as Unicode defines it.
pub open spec fn is_space(c: char) -> bool {
    let n = c as u32;
    ||| 0x09 <= n <= 0x0d
    ||| n == 0x20
    ||| n == 0x85
    ||| n == 0xa0
    ||| n == 0x1680
    ||| 0x2000 <= n <= 0x200a
    ||| n == 0x2028
    ||| n == 0x2029
    ||| n == 0x202f
    ||| n == 0x205f
    ||| n == 0x3000
}

fn space(c: char) -> (out: bool)
    ensures
        out == is_space(c),
{
    let n = c as u32;
    (0x09 <= n && n <= 0x0d) || n == 0x20 || n == 0x85 || n == 0xa0 || n == 0x1680 || (0x2000 <= n
        && n <= 0x200a) || n == 0x2028 || n == 0x2029 || n == 0x202f || n == 0x205f || n == 0x3000
}

/// How many characters of `s` stand before the first one that is white space,
/// or that is none where `spaces` is set; the length of `s` if there is none.
pub open spec fn run_length(s: Seq<char>, spaces: bool) -> nat
    decreases s.len(),
{
    if s.len() == 0 || is_space(s[0]) != spaces {
        0
    } else {
        1 + run_length(s.drop_first(), spaces)
    }
}

pub proof fn lemma_run_length(s: Seq<char>, spaces: bool, k: int)
    requires
        0 <= k <= s.len(),
        forall|j: int| 0 <= j < k ==> is_space(#[trigger] s[j]) == spaces,
        k < s.len() ==> is_space(s[k]) != spaces,
    ensures
        run_length(s, spaces) == k,
    decreases k,
{
    if k > 0 {
        assert(is_space(s[0]) == spaces);
        let t = s.drop_first();
        assert forall|j: int| 0 <= j < k - 1 implies is_space(#[trigger] t[j]) == spaces by {
            assert(t[j] == s[j + 1]);
        }
        lemma_run_length(t, spaces, k - 1);
    }
}

/// The end of the run of white space, or of anything else, that starts at `from`.
fn run_end(chars: &Vec<char>, from: usize, spaces: bool) -> (k: usize)
    requires
        from <= chars.len(),
    ensures
        from <= k <= chars.len(),
        k - from == run_length(chars@.skip(from as int), spaces),
{
    let ghost s = chars@.skip(from as int);
    let mut i: usize = from;
    while i < chars.len()
        invariant
            from <= i <= chars.len(),
            s == chars@.skip(from as int),
            forall|j: int| 0 <= j < i - from ==> is_space(#[trigger] s[j]) == spaces,
        decreases chars.len() - i,
    {
        assert(s[i - from] == chars[i as int]);
        if space(chars[i]) != spaces {
            proof {
                lemma_run_length(s, spaces, i - from);
            }
            return i;
        }
        i += 1;
    }
    proof {
        lemma_run_length(s, spaces, i - from);
    }
    i
}

/// The one word of `args`, where it holds one word and white space around it only.
pub open spec fn single_word(args: Seq<char>) -> Option<Seq<char>> {
    let start = run_length(args, true) as int;
    let rest = args.skip(start);
    let size = run_length(rest, false) as int;
    let tail = rest.skip(size);
    if size > 0 && run_length(tail, true) == tail.len() {
        Some(rest.take(size))
    } else {
        None
    }
}

/// The reply to a `get` for the cell named `id` whose record is `record`: its
/// value, or the message of its error if the cell has an expression.
pub open spec fn get_answer(id: Seq<char>, record: Record) -> Answer {
    match record.value {
        Value::Error(message) => if record.expr is Some {
            Answer::Error(message)
        } else {
            Answer::Value(id, record.value)
        },
        _ => Answer::Value(id, record.value),
    }
}

/// The reply to a `get` for the cell named `id` whose record is `record`.
pub fn get_reply(id: String, record: CellRef) -> (out: Reply)
    ensures
        out@ == get_answer(id@, record@),
{
    match record.cell_value {
        Content::Error(message) => {
            if record.dependency.is_some() {
                Reply::Error(message)
            } else {
                Reply::Value(id, Content::Error(message))
            }
        },
        value => Reply::Value(id, value),
    }
}

/// The name and the coordinate of the cell that a `get` asks for, or the
/// reply that rejects it.
pub fn parse_get(args: &str) -> (out: Result<(String, (u32, u32)), Reply>)
    ensures
        match single_word(args@) {
            None => out matches Err(reply) && reply@ == Answer::Error(unreadable_request(args@)),
            Some(id) => match cell_coord(id) {
                None => out matches Err(reply) && reply@ == Answer::Error(invalid_key(args@)),
                Some(at) => out matches Ok(found) && found.0@ == id && found.1 == at,
            },
        },
{
    let chars = chars_of(args);
    let n = chars.len();
    assert(chars@.skip(0) =~= chars@);
    let start = run_end(&chars, 0, true);
    let end = run_end(&chars, start, false);
    let stop = run_end(&chars, end, true);
    assert(chars@.skip(start as int).skip(end - start) =~= chars@.skip(end as int));
    assert(chars@.skip(start as int).take(end - start) =~= chars@.subrange(start as int, end as int));
    if end == start || stop != n {
        return Err(unreadable_request_reply(args));
    }
    match coord_of_chars(&chars, start, end) {
        None => Err(invalid_key_reply(args)),
        Some(at) => Ok((string_between(&chars, start, end), at)),
    }
}

/// Answers a `get` with the arguments `args` from the records as `store`
/// shows them at the moment.
pub fn handle_get<R: Records>(store: &R, args: &String) -> (out: Reply)
    ensures
        match single_word(args@) {
            None => out@ == Answer::Error(unreadable_request(args@)),
            Some(id) => match cell_coord(id) {
                None => out@ == Answer::Error(invalid_key(args@)),
                Some(at) => exists|record: Record|
                    #[trigger] store.may_read(at, record) && out@ == get_answer(id, record),
            },
        },
{
    match parse_get(args.as_str()) {
        Err(reply) => reply,
        Ok((id, at)) => {
            let record = store.read(&at);
            get_reply(id, record)
        },
    }
}

/// What is to be done about a command.
pub enum Action {
    /// Send this reply to the client.
    Reply(Reply),
    /// Hand this request to the engine, and send its reply, if it gives one.
    Submit(Transaction),
}

/// The message for a command that is neither `set` nor `get`.
pub open spec fn unsupported() -> Seq<char> {
    "Unsupported Command"@
}

impl Command {
    /// Decides what is to be done about the command. A `get` is answered from
    /// the records as `store` shows them at the moment.
    pub fn execute<R: Records>(&self, store: &R) -> (out: Action)
        ensures
            match self@ {
                Request::SetCell(args) => match set_request(args) {
                    Some((target, source)) => out matches Action::Submit(t) && t.target() == target
                        && t.source() == source,
                    None => out matches Action::Reply(reply) && reply@ == Answer::Error(
                        unreadable_request(args),
                    ),
                },
                Request::Get(args) => out matches Action::Reply(reply) && match single_word(args) {
                    None => reply@ == Answer::Error(unreadable_request(args)),
                    Some(id) => match cell_coord(id) {
                        None => reply@ == Answer::Error(invalid_key(args)),
                        Some(at) => exists|record: Record|
                            #[trigger] store.may_read(at, record) && reply@ == get_answer(
                                id,
                                record,
                            ),
                    },
                },
                Request::Unsupported => out matches Action::Reply(reply) && reply@ == Answer::Error(
                    unsupported(),
                ),
            },
    {
        match self {
            Command::SetCell(args) => match handle_set(args.as_str()) {
                Ok(transaction) => Action::Submit(transaction),
                Err(reply) => Action::Reply(reply),
            },
            Command::Get(args) => Action::Reply(handle_get(store, args)),
            Command::Unsupported => Action::Reply(
                Reply::Error(String::from_str("Unsupported Command")),
            ),
        }
    }
}

} // verus!
