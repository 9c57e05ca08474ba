//! The derived values of a small demo application: what its views show,
//! computed from plain values.

use vstd::prelude::*;

verus! {

/// What the slow loader answers for a request: ten times the value.
pub fn load_data(value: i32) -> (answer: i32)
    requires
        i32::MIN <= value * 10 <= i32::MAX,
    ensures
        answer == value * 10,
{
    value * 10
}

/// Whether the value is odd.
pub fn is_odd(value: i32) -> (odd: bool)
    ensures
        odd == (value % 2 != 0),
{
    assert((value & 1 == 1) == (value % 2 != 0)) by (bit_vector);
    value & 1 == 1
}

/// Whether the count is even.
pub fn is_even(count: u32) -> (even: bool)
    ensures
        even == (count % 2 == 0),
{
    assert((count & 1 == 0) == (count % 2 == 0)) by (bit_vector);
    count & 1 == 0
}

/// The line shown for an odd value, and none for an even one.
pub fn odd_text(value: i32) -> (text: Option<&'static str>)
    ensures
        value % 2 != 0 ==> text.is_some() && text.unwrap()@ == "How odd!"@,
        value % 2 == 0 ==> text.is_none(),
{
    if is_odd(value) {
        Some("How odd!")
    } else {
        None
    }
}

/// The three ways a value is shown.
#[derive(Clone, Copy, PartialEq, Eq, Structural, Debug)]
pub enum Shape {
    /// The value is one.
    One,
    /// The value is two.
    Two,
    /// Any other value, shown as it is.
    Other(i32),
}

/// How the value is shown.
pub fn classify(value: i32) -> (shape: Shape)
    ensures
        shape == (if value == 1 {
            Shape::One
        } else if value == 2 {
            Shape::Two
        } else {
            Shape::Other(value)
        }),
{
    let odd = is_odd(value);
    if odd && value == 1 {
        Shape::One
    } else if !odd && value == 2 {
        Shape::Two
    } else {
        Shape::Other(value)
    }
}

/// The numbers below `count`, each with its square.
pub fn squares(count: u32) -> (list: Vec<(u32, u32)>)
    requires
        count <= 65536,
    ensures
        list@.len() == count,
        forall|i: int| 0 <= i < count ==> (#[trigger] list@[i]).0 == i && list@[i].1 == i * i,
{
    let mut list: Vec<(u32, u32)> = Vec::new();
    let mut n: u32 = 0;
    while n < count
        invariant
            n <= count <= 65536,
            list@.len() == n,
            forall|i: int| 0 <= i < n ==> (#[trigger] list@[i]).0 == i && list@[i].1 == i * i,
        decreases count - n,
    {
        assert(n * n <= 65535 * 65535) by (nonlinear_arith)
            requires
                n <= 65535,
        ;
        list.push((n, n * n));
        n += 1;
    }
    list
}

/// One row of the table.
#[derive(Clone, Debug)]
pub struct DatabaseEntry {
    pub key: String,
    pub value: i32,
}

/// Doubles the value of every row.
pub fn double_values(data: &mut Vec<DatabaseEntry>)
    requires
        forall|i: int|
            0 <= i < old(data)@.len() ==> i32::MIN <= (#[trigger] old(data)@[i]).value * 2
                <= i32::MAX,
    ensures
        final(data)@.len() == old(data)@.len(),
        forall|i: int|
            0 <= i < old(data)@.len() ==> (#[trigger] final(data)@[i]).value == old(data)@[i].value
                * 2 && final(data)@[i].key == old(data)@[i].key,
{
    let n = data.len();
    let mut i: usize = 0;
    while i < n
        invariant
            i <= n,
            n == data@.len(),
            n == old(data)@.len(),
            forall|j: int|
                0 <= j < n ==> i32::MIN <= (#[trigger] old(data)@[j]).value * 2 <= i32::MAX,
            forall|j: int| i <= j < n ==> data@[j] == old(data)@[j],
            forall|j: int|
                0 <= j < i ==> (#[trigger] data@[j]).value == old(data)@[j].value * 2
                    && data@[j].key == old(data)@[j].key,
        decreases n - i,
    {
        let doubled = data[i].value * 2;
        data[i].value = doubled;
        i += 1;
    }
}

/// The value of the row at `index`, or zero where there is no such row.
pub fn value_at(data: &Vec<DatabaseEntry>, index: usize) -> (value: i32)
    ensures
        index < data@.len() ==> value == data@[index as int].value,
        index >= data@.len() ==> value == 0,
{
    if index < data.len() {
        data[index].value
    } else {
        0
    }
}

/// The name shown for a contact.
pub open spec fn contact_name_of(id: Seq<char>) -> Seq<char> {
    if id == "alice"@ {
        "Alice"@
    } else if id == "bob"@ {
        "Bob"@
    } else if id == "steve"@ {
        "Steve"@
    } else {
        "User not found."@
    }
}

/// The name shown for the contact with the given id.
pub fn contact_name(id: &str) -> (name: &'static str)
    ensures
        name@ == contact_name_of(id@),
{
    let id = id.to_owned();
    if id == "alice".to_owned() {
        "Alice"
    } else if id == "bob".to_owned() {
        "Bob"
    } else if id == "steve".to_owned() {
        "Steve"
    } else {
        "User not found."
    }
}

/// Twice the count.
pub fn double(count: i32) -> (twice: i32)
    requires
        i32::MIN <= count * 2 <= i32::MAX,
    ensures
        twice == count * 2,
{
    count * 2
}

/// The character is one of the digits 0 to 9.
pub open spec fn is_digit(c: char) -> bool {
    48 <= c as u32 <= 57
}

/// What a run of digits stands for, read as a decimal number.
pub open spec fn value_of(digits: Seq<char>) -> int
    decreases digits.len(),
{
    if digits.len() == 0 {
        0
    } else {
        10 * value_of(digits.drop_last()) + (digits.last() as u32 - 48)
    }
}

/// The number that a text stands for: a sign, `+` or `-`, or none, then
/// one digit or more and nothing else, with a value that an `i32` can
/// hold. Any other text stands for no number.
pub open spec fn number_of(text: Seq<char>) -> Option<i32> {
    let signed = text.len() > 0 && (text[0] == '-' || text[0] == '+');
    let digits = if signed {
        text.subrange(1, text.len() as int)
    } else {
        text
    };
    let value = if text.len() > 0 && text[0] == '-' {
        -value_of(digits)
    } else {
        value_of(digits)
    };
    if digits.len() > 0 && (forall|i: int| 0 <= i < digits.len() ==> is_digit(#[trigger] digits[i]))
        && i32::MIN <= value <= i32::MAX {
        Some(value as i32)
    } else {
        None
    }
}

/// Why a text is no number, as the standard library says it. Nothing is
/// known here of what is inside one.
#[verifier::external_type_specification]
#[verifier::external_body]
pub struct ExParseIntError(core::num::ParseIntError);

/// Calls `str::parse::<i32>`. The standard library takes an optional sign
/// followed by decimal digits and nothing else, no blanks either, and
/// refuses the empty text, a sign alone, and a value outside `i32`; that
/// is what the clause says. Of the reason it gives for a refusal nothing
/// is claimed.
#[verifier::external_body]
fn parse_i32(text: &str) -> (result: Result<i32, core::num::ParseIntError>)
    ensures
        match result {
            Ok(number) => number_of(text@) == Some(number),
            Err(_) => number_of(text@).is_none(),
        },
{
    text.parse::<i32>()
}

/// The number that was typed, if the text is one.
pub fn parse_number(text: &str) -> (value: Option<i32>)
    ensures
        value == number_of(text@),
{
    match parse_i32(text) {
        Ok(number) => Some(number),
        Err(_) => None,
    }
}

/// The capital letter for a small letter from a to z, and any other
/// character as it is.
pub open spec fn upper_of(c: char) -> char {
    if 97 <= c as u32 <= 122 {
        ((c as u32 - 32) as u32) as char
    } else {
        c
    }
}

/// Calls `str::to_ascii_uppercase`: a copy of the text in which each of
/// the letters a to z is replaced by its capital and every other
/// character, whether ASCII or not, is kept.
#[verifier::external_body]
fn ascii_upper(name: &str) -> (loud: String)
    ensures
        loud@.len() == name@.len(),
        forall|i: int| 0 <= i < name@.len() ==> loud@[i] == upper_of(#[trigger] name@[i]),
{
    name.to_ascii_uppercase()
}

/// The name in capital letters.
pub fn shout(name: &str) -> (loud: String)
    ensures
        loud@.len() == name@.len(),
        forall|i: int| 0 <= i < name@.len() ==> loud@[i] == upper_of(#[trigger] name@[i]),
{
    ascii_upper(name)
}

} // verus!
