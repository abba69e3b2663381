//! Text as bytes, and numbers as text.

use vstd::prelude::*;

verus! {

/// The bytes of ASCII text.
pub open spec fn ascii(text: Seq<char>) -> Seq<u8> {
    Seq::new(text.len(), |i: int| text[i] as u8)
}

/// ASCII text is its own encoding.
pub proof fn lemma_ascii(text: Seq<char>)
    requires
        vstd::utf8::is_ascii_chars(text),
    ensures
        vstd::utf8::encode_utf8(text) == ascii(text),
{
    vstd::utf8::is_ascii_chars_encode_utf8(text);
    assert(vstd::utf8::encode_utf8(text) =~= ascii(text));
}

/// Whether two byte strings are equal.
pub fn same_bytes(a: &[u8], b: &[u8]) -> (same: bool)
    ensures
        same == (a@ == b@),
{
    if a.len() != b.len() {
        return false;
    }
    let mut i: usize = 0;
    while i < a.len()
        invariant
            i <= a@.len() == b@.len(),
            forall|j: int| 0 <= j < i ==> a@[j] == b@[j],
        decreases a.len() - i,
    {
        if a[i] != b[i] {
            assert(a@[i as int] != b@[i as int]);
            return false;
        }
        i = i + 1;
    }
    assert(a@ =~= b@);
    true
}

/// A digit as text.
pub open spec fn digit_text(digit: nat) -> char {
    (('0' as int) + digit) as char
}

/// A number as text.
pub open spec fn number_text(number: nat) -> Seq<char>
    decreases number,
{
    if number < 10 {
        seq![digit_text(number)]
    } else {
        number_text(number / 10).push(digit_text(number % 10))
    }
}

fn digit(value: usize) -> (text: &'static str)
    requires
        value < 10,
    ensures
        text@ == seq![digit_text(value as nat)],
{
    proof {
        reveal_strlit("0");
        reveal_strlit("1");
        reveal_strlit("2");
        reveal_strlit("3");
        reveal_strlit("4");
        reveal_strlit("5");
        reveal_strlit("6");
        reveal_strlit("7");
        reveal_strlit("8");
        reveal_strlit("9");
    }
    let text: &'static str = match value {
        0 => "0",
        1 => "1",
        2 => "2",
        3 => "3",
        4 => "4",
        5 => "5",
        6 => "6",
        7 => "7",
        8 => "8",
        _ => "9",
    };
    assert(text@ =~= seq![digit_text(value as nat)]);
    text
}

/// A number in decimal.
pub fn number(value: usize) -> (text: String)
    ensures
        text@ == number_text(value as nat),
    decreases value,
{
    let mut text: String = if value < 10 {
        String::new()
    } else {
        number(value / 10)
    };
    text.append(digit(value % 10));
    assert(text@ =~= number_text(value as nat));
    text
}

/// A number as text is the number in decimal: it has at least one digit and
/// nothing but digits, no zero in front but for zero itself, and what the
/// digits come to is the number.
pub proof fn lemma_a_number_is_written_in_decimal(number: nat)
    ensures
        number_text(number).len() > 0,
        forall|i: int|
            0 <= i < number_text(number).len() ==> '0' <= (#[trigger] number_text(number)[i])
                <= '9',
        number > 0 ==> number_text(number)[0] != '0',
        number == 0 ==> number_text(number) == seq!['0'],
        number_text(number).fold_left(
            0int,
            |sum: int, digit: char| 10 * sum + (digit as int - '0' as int),
        ) == number,
    decreases number,
{
    let text = number_text(number);
    let value = |sum: int, digit: char| 10 * sum + (digit as int - '0' as int);
    if number < 10 {
        assert(text.drop_last() =~= Seq::empty());
        assert(text.drop_last().fold_left(0int, value) == 0);
        assert(text.last() as int == '0' as int + number);
    } else {
        let front = number_text(number / 10);
        lemma_a_number_is_written_in_decimal(number / 10);
        assert(text.drop_last() =~= front);
        assert(text.last() as int == '0' as int + number % 10);
        assert forall|i: int| 0 <= i < text.len() implies '0' <= (#[trigger] text[i]) <= '9' by {
            if i < front.len() {
                assert(text[i] == front[i]);
            }
        }
        assert(text[0] == front[0]);
        assert(text.fold_left(0int, value) == value(front.fold_left(0int, value), text.last()));
    }
}

/// Two texts that are equal up to a mark, which neither has ahead of it, are
/// equal on both sides of it.
pub proof fn lemma_a_mark_parts_a_text(
    a: Seq<char>,
    b: Seq<char>,
    x: Seq<char>,
    y: Seq<char>,
    mark: char,
)
    requires
        a.push(mark) + x == b.push(mark) + y,
        !a.contains(mark),
        !b.contains(mark),
    ensures
        a == b,
        x == y,
{
    let s = a.push(mark) + x;
    let t = b.push(mark) + y;
    if a.len() < b.len() {
        assert(s[a.len() as int] == mark && t[a.len() as int] == b[a.len() as int]);
    }
    if b.len() < a.len() {
        assert(t[b.len() as int] == mark && s[b.len() as int] == a[b.len() as int]);
    }
    assert forall|i: int| 0 <= i < a.len() implies a[i] == b[i] by {
        assert(s[i] == a[i] && t[i] == b[i]);
    }
    assert(a =~= b);
    assert(s.len() == a.len() + 1 + x.len() && t.len() == b.len() + 1 + y.len());
    assert forall|i: int| 0 <= i < x.len() implies x[i] == y[i] by {
        assert(s[a.len() + 1 + i] == x[i] && t[b.len() + 1 + i] == y[i]);
    }
    assert(x =~= y);
}

/// Different numbers are written differently, and with no character that is
/// not a digit.
pub proof fn lemma_numbers_are_told_apart(a: nat, b: nat, mark: char)
    requires
        mark < '0' || mark > '9',
    ensures
        number_text(a) == number_text(b) ==> a == b,
        !number_text(a).contains(mark),
{
    lemma_a_number_is_written_in_decimal(a);
    lemma_a_number_is_written_in_decimal(b);
}

} // verus!
