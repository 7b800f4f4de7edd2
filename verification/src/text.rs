//! Text: the characters of strings, decimal numbers and column letters.

use vstd::prelude::*;

verus! {

/// `String::push` appends one character to the end of the string.
pub assume_specification[ String::push ](s: &mut String, c: char)
    ensures
        final(s)@ == old(s)@.push(c),
;

/// The characters of `s`, in order.
pub fn chars_of(s: &str) -> (out: Vec<char>)
    ensures
        out@ == s@,
{
    let mut out: Vec<char> = Vec::new();
    for c in it: s.chars()
        invariant
            it.seq() == s@,
            out@ == it.seq().take(it.index() as int),
    {
        out.push(c);
    }
    out
}

/// The string whose characters are `chars`, in order.
pub fn string_of(chars: &Vec<char>) -> (out: String)
    ensures
        out@ == chars@,
{
    let mut out = String::new();
    let mut i: usize = 0;
    while i < chars.len()
        invariant
            i <= chars.len(),
            out@ == chars@.take(i as int),
        decreases chars.len() - i,
    {
        out.push(chars[i]);
        i += 1;
    }
    out
}

/// The string of `chars[from..to]`.
pub fn string_between(chars: &Vec<char>, from: usize, to: usize) -> (out: String)
    requires
        from <= to <= chars.len(),
    ensures
        out@ == chars@.subrange(from as int, to as int),
{
    let mut out = String::new();
    let mut i: usize = from;
    while i < to
        invariant
            from <= i <= to <= chars.len(),
            out@ == chars@.subrange(from as int, i as int),
        decreases to - i,
    {
        out.push(chars[i]);
        i += 1;
        assert(chars@.subrange(from as int, i as int) =~= chars@.subrange(from as int, i - 1).push(
            chars@[i - 1],
        ));
    }
    out
}

} // verus!

verus! {

pub open spec fn is_digit(c: char) -> bool {
    '0' <= c && c <= '9'
}

pub open spec fn is_upper(c: char) -> bool {
    'A' <= c && c <= 'Z'
}

pub open spec fn all_digits(s: Seq<char>) -> bool {
    forall|i: int| 0 <= i < s.len() ==> is_digit(#[trigger] s[i])
}

pub open spec fn all_upper(s: Seq<char>) -> bool {
    forall|i: int| 0 <= i < s.len() ==> is_upper(#[trigger] s[i])
}

/// The number that the decimal digits `s` write; 0 for no digits.
pub open spec fn decimal_value(s: Seq<char>) -> nat
    decreases s.len(),
{
    if s.len() == 0 {
        0
    } else {
        (decimal_value(s.drop_last()) * 10 + (s.last() as u32 - '0' as u32)) as nat
    }
}

/// The number that the column letters `s` write, counting from 1:
/// A is 1, Z is 26, AA is 27; 0 for no letters.
pub open spec fn column_value(s: Seq<char>) -> nat
    decreases s.len(),
{
    if s.len() == 0 {
        0
    } else {
        (column_value(s.drop_last()) * 26 + (s.last() as u32 - 'A' as u32 + 1)) as nat
    }
}

/// The decimal digits of `n`, without leading zeros.
pub open spec fn decimal_text(n: nat) -> Seq<char>
    decreases n,
{
    if n < 10 {
        seq![('0' as u32 + n) as char]
    } else {
        decimal_text(n / 10).push(('0' as u32 + n % 10) as char)
    }
}

/// The letters of the column with index `n`, counting from 0:
/// 0 is A, 25 is Z, 26 is AA.
pub open spec fn column_name(n: nat) -> Seq<char>
    decreases n,
{
    if n < 26 {
        seq![('A' as u32 + n) as char]
    } else {
        column_name((n / 26 - 1) as nat).push(('A' as u32 + n % 26) as char)
    }
}

/// Digits appended to digits only make the number larger.
pub proof fn lemma_decimal_prefix(s: Seq<char>, k: int)
    requires
        all_digits(s),
        0 <= k <= s.len(),
    ensures
        decimal_value(s.take(k)) <= decimal_value(s),
    decreases s.len(),
{
    if k == s.len() {
        assert(s.take(k) =~= s);
    } else {
        assert(is_digit(s[s.len() - 1]));
        assert(all_digits(s.drop_last())) by {
            assert forall|i: int| 0 <= i < s.drop_last().len() implies is_digit(
                #[trigger] s.drop_last()[i],
            ) by {
                assert(s.drop_last()[i] == s[i]);
            }
        }
        lemma_decimal_prefix(s.drop_last(), k);
        assert(s.drop_last().take(k) =~= s.take(k));
    }
}

/// Letters appended to letters only make the number larger.
pub proof fn lemma_column_prefix(s: Seq<char>, k: int)
    requires
        all_upper(s),
        0 <= k <= s.len(),
    ensures
        column_value(s.take(k)) <= column_value(s),
    decreases s.len(),
{
    if k == s.len() {
        assert(s.take(k) =~= s);
    } else {
        assert(is_upper(s[s.len() - 1]));
        assert(all_upper(s.drop_last())) by {
            assert forall|i: int| 0 <= i < s.drop_last().len() implies is_upper(
                #[trigger] s.drop_last()[i],
            ) by {
                assert(s.drop_last()[i] == s[i]);
            }
        }
        lemma_column_prefix(s.drop_last(), k);
        assert(s.drop_last().take(k) =~= s.take(k));
    }
}

/// Reads `chars[from..to]` as a decimal number.
pub fn parse_decimal(chars: &Vec<char>, from: usize, to: usize) -> (out: Option<u32>)
    requires
        from <= to <= chars.len(),
    ensures
        out is Some <==> from < to && all_digits(chars@.subrange(from as int, to as int))
            && decimal_value(chars@.subrange(from as int, to as int)) <= u32::MAX,
        out is Some ==> out->0 == decimal_value(chars@.subrange(from as int, to as int)),
{
    let ghost s = chars@.subrange(from as int, to as int);
    if from == to {
        return None;
    }
    let mut acc: u64 = 0;
    let mut i: usize = from;
    while i < to
        invariant
            from <= i <= to <= chars.len(),
            s == chars@.subrange(from as int, to as int),
            all_digits(s.take(i - from)),
            acc == decimal_value(s.take(i - from)),
            acc <= u32::MAX,
        decreases to - i,
    {
        let c = chars[i];
        assert(s[i - from] == c);
        if !('0' <= c && c <= '9') {
            return None;
        }
        let ghost next = s.take(i - from + 1);
        assert(next.drop_last() =~= s.take(i - from));
        assert(next.last() == c);
        assert(all_digits(next)) by {
            assert forall|j: int| 0 <= j < next.len() implies is_digit(#[trigger] next[j]) by {
                if j < i - from {
                    assert(s.take(i - from)[j] == next[j]);
                }
            }
        }
        acc = acc * 10 + (c as u64 - '0' as u64);
        if acc > u32::MAX as u64 {
            proof {
                if all_digits(s) {
                    lemma_decimal_prefix(s, i - from + 1);
                }
            }
            return None;
        }
        i += 1;
    }
    assert(s.take(i - from) =~= s);
    Some(acc as u32)
}

/// Reads `chars[from..to]` as column letters and gives the column's number, counting from 1.
pub fn parse_column(chars: &Vec<char>, from: usize, to: usize) -> (out: Option<u32>)
    requires
        from <= to <= chars.len(),
    ensures
        out is Some <==> from < to && all_upper(chars@.subrange(from as int, to as int))
            && column_value(chars@.subrange(from as int, to as int)) <= u32::MAX,
        out is Some ==> out->0 == column_value(chars@.subrange(from as int, to as int)),
{
    let ghost s = chars@.subrange(from as int, to as int);
    if from == to {
        return None;
    }
    let mut acc: u64 = 0;
    let mut i: usize = from;
    while i < to
        invariant
            from <= i <= to <= chars.len(),
            s == chars@.subrange(from as int, to as int),
            all_upper(s.take(i - from)),
            acc == column_value(s.take(i - from)),
            acc <= u32::MAX,
        decreases to - i,
    {
        let c = chars[i];
        assert(s[i - from] == c);
        if !('A' <= c && c <= 'Z') {
            return None;
        }
        let ghost next = s.take(i - from + 1);
        assert(next.drop_last() =~= s.take(i - from));
        assert(next.last() == c);
        assert(all_upper(next)) by {
            assert forall|j: int| 0 <= j < next.len() implies is_upper(#[trigger] next[j]) by {
                if j < i - from {
                    assert(s.take(i - from)[j] == next[j]);
                }
            }
        }
        acc = acc * 26 + (c as u64 - 'A' as u64 + 1);
        if acc > u32::MAX as u64 {
            proof {
                if all_upper(s) {
                    lemma_column_prefix(s, i - from + 1);
                }
            }
            return None;
        }
        i += 1;
    }
    assert(s.take(i - from) =~= s);
    Some(acc as u32)
}

/// How many characters of `s` stand before its first decimal digit; the length
/// of `s` if it holds none.
pub open spec fn digit_index(s: Seq<char>) -> nat
    decreases s.len(),
{
    if s.len() == 0 || is_digit(s[0]) {
        0
    } else {
        1 + digit_index(s.drop_first())
    }
}

/// How many characters of `s` stand before its first `sep`; the length of `s`
/// if it holds none.
pub open spec fn char_index(s: Seq<char>, sep: char) -> nat
    decreases s.len(),
{
    if s.len() == 0 || s[0] == sep {
        0
    } else {
        1 + char_index(s.drop_first(), sep)
    }
}

/// `digit_index` is the first index that holds a digit.
pub proof fn lemma_digit_index(s: Seq<char>, k: int)
    requires
        0 <= k <= s.len(),
        forall|j: int| 0 <= j < k ==> !is_digit(#[trigger] s[j]),
        k < s.len() ==> is_digit(s[k]),
    ensures
        digit_index(s) == k,
    decreases k,
{
    if k > 0 {
        assert(!is_digit(s[0]));
        let t = s.drop_first();
        assert forall|j: int| 0 <= j < k - 1 implies !is_digit(#[trigger] t[j]) by {
            assert(t[j] == s[j + 1]);
        }
        lemma_digit_index(t, k - 1);
    }
}

/// `char_index` is the first index that holds `sep`.
pub proof fn lemma_char_index(s: Seq<char>, sep: char, k: int)
    requires
        0 <= k <= s.len(),
        forall|j: int| 0 <= j < k ==> #[trigger] s[j] != sep,
        k < s.len() ==> s[k] == sep,
    ensures
        char_index(s, sep) == k,
    decreases k,
{
    if k > 0 {
        assert(s[0] != sep);
        let t = s.drop_first();
        assert forall|j: int| 0 <= j < k - 1 implies #[trigger] t[j] != sep by {
            assert(t[j] == s[j + 1]);
        }
        lemma_char_index(t, sep, k - 1);
    }
}

/// The first index in `chars[from..to]` that holds a decimal digit, or `to`.
pub fn find_digit(chars: &Vec<char>, from: usize, to: usize) -> (k: usize)
    requires
        from <= to <= chars.len(),
    ensures
        from <= k <= to,
        k - from == digit_index(chars@.subrange(from as int, to as int)),
{
    let ghost s = chars@.subrange(from as int, to as int);
    let mut i: usize = from;
    while i < to
        invariant
            from <= i <= to <= chars.len(),
            s == chars@.subrange(from as int, to as int),
            forall|j: int| 0 <= j < i - from ==> !is_digit(#[trigger] s[j]),
        decreases to - i,
    {
        let c = chars[i];
        assert(s[i - from] == c);
        if '0' <= c && c <= '9' {
            proof {
                lemma_digit_index(s, i - from);
            }
            return i;
        }
        i += 1;
    }
    proof {
        lemma_digit_index(s, i - from);
    }
    i
}

/// The first index in `chars[from..to]` that holds `sep`, or `to`.
pub fn find_char(chars: &Vec<char>, from: usize, to: usize, sep: char) -> (k: usize)
    requires
        from <= to <= chars.len(),
    ensures
        from <= k <= to,
        k - from == char_index(chars@.subrange(from as int, to as int), sep),
{
    let ghost s = chars@.subrange(from as int, to as int);
    let mut i: usize = from;
    while i < to
        invariant
            from <= i <= to <= chars.len(),
            s == chars@.subrange(from as int, to as int),
            forall|j: int| 0 <= j < i - from ==> #[trigger] s[j] != sep,
        decreases to - i,
    {
        let c = chars[i];
        assert(s[i - from] == c);
        if c == sep {
            proof {
                lemma_char_index(s, sep, i - from);
            }
            return i;
        }
        i += 1;
    }
    proof {
        lemma_char_index(s, sep, i - from);
    }
    i
}

/// Appends the decimal digits of `n` to `out`.
pub fn push_decimal(out: &mut Vec<char>, n: u32)
    ensures
        final(out)@ == old(out)@ + decimal_text(n as nat),
    decreases n,
{
    if n >= 10 {
        push_decimal(out, n / 10);
    }
    let d: u8 = (n % 10) as u8;
    out.push((48u8 + d) as char);
}

/// Appends the letters of the column with index `n` to `out`.
pub fn push_column(out: &mut Vec<char>, n: u32)
    ensures
        final(out)@ == old(out)@ + column_name(n as nat),
    decreases n,
{
    if n >= 26 {
        push_column(out, n / 26 - 1);
    }
    let d: u8 = (n % 26) as u8;
    out.push((65u8 + d) as char);
}

} // verus!
