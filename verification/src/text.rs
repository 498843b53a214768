//! The text form of a list of moves.

use vstd::prelude::*;

verus! {

/// The character of the decimal digit `d`.
pub open spec fn digit_char(d: int) -> char {
    if d == 0 {
        '0'
    } else if d == 1 {
        '1'
    } else if d == 2 {
        '2'
    } else if d == 3 {
        '3'
    } else if d == 4 {
        '4'
    } else if d == 5 {
        '5'
    } else if d == 6 {
        '6'
    } else if d == 7 {
        '7'
    } else if d == 8 {
        '8'
    } else {
        '9'
    }
}

/// The decimal digits of `n`, without leading zeros.
pub open spec fn decimal(n: nat) -> Seq<char>
    decreases n,
{
    if n < 10 {
        seq![digit_char(n as int)]
    } else {
        decimal(n / 10).push(digit_char((n % 10) as int))
    }
}

/// A cell in a move log: its column, a blank, its row.
pub open spec fn cell_text(index: usize) -> Seq<char> {
    decimal((index % 16) as nat) + seq![' '] + decimal((index / 16) as nat)
}

/// The parts one after the other with `sep` between each two.
pub open spec fn joined(parts: Seq<Seq<char>>, sep: Seq<char>) -> Seq<char>
    decreases parts.len(),
{
    if parts.len() == 0 {
        Seq::empty()
    } else if parts.len() == 1 {
        parts[0]
    } else {
        joined(parts.drop_last(), sep) + sep + parts.last()
    }
}

/// The texts of the moves that were made after the first `from` of a log;
/// none where the log holds no more than `from` moves.
pub open spec fn texts_from(actions: Seq<usize>, from: int) -> Seq<Seq<char>> {
    if 0 <= from <= actions.len() {
        Seq::new((actions.len() - from) as nat, |k: int| cell_text(actions[from + k]))
    } else {
        Seq::empty()
    }
}

/// A move log as text: the cells with `;` between them.
pub open spec fn actions_text(actions: Seq<usize>) -> Seq<char> {
    joined(actions.map_values(|a: usize| cell_text(a)), seq![';'])
}

/// The digit `d` as a string.
fn digit_str(d: usize) -> (text: &'static str)
    requires
        d < 10,
    ensures
        text@ == seq![digit_char(d as int)],
{
    proof {
        reveal_strlit("0");
        reveal_strlit("1");
        reveal_strlit("2");
        reveal_strlit("3");
        reveal_strlit("4");
        reveal_strlit("5");
        reveal_strlit("6");
        reveal_strlit("7");
        reveal_strlit("8");
        reveal_strlit("9");
    }
    let text = if d == 0 {
        "0"
    } else if d == 1 {
        "1"
    } else if d == 2 {
        "2"
    } else if d == 3 {
        "3"
    } else if d == 4 {
        "4"
    } else if d == 5 {
        "5"
    } else if d == 6 {
        "6"
    } else if d == 7 {
        "7"
    } else if d == 8 {
        "8"
    } else {
        "9"
    };
    assert(text@ =~= seq![digit_char(d as int)]);
    text
}

/// Appends the decimal digits of a number below one hundred.
fn push_number(text: &mut String, n: usize)
    requires
        n < 100,
    ensures
        final(text)@ == old(text)@ + decimal(n as nat),
{
    if n >= 10 {
        text.append(digit_str(n / 10));
        assert(decimal(n as nat) =~= seq![digit_char((n / 10) as int)].push(
            digit_char((n % 10) as int),
        )) by {
            assert(decimal((n / 10) as nat) =~= seq![digit_char((n / 10) as int)]);
        }
    }
    text.append(digit_str(n % 10));
    assert(text@ =~= old(text)@ + decimal(n as nat));
}

/// The text of a cell in a move log.
pub fn cell_string(index: usize) -> (text: String)
    requires
        index < 256,
    ensures
        text@ == cell_text(index),
{
    let mut text = String::new();
    push_number(&mut text, index % 16);
    proof {
        reveal_strlit(" ");
    }
    text.append(" ");
    push_number(&mut text, index / 16);
    assert(text@ =~= cell_text(index));
    text
}

/// `itertools::join` over the strings: the first of them, then for each
/// further one the separator and the string, as the crate's `Itertools::join`
/// writes them with their `Display`, which for a string is the string.
#[verifier::external_body]
pub(crate) fn join_strings(parts: &Vec<String>, sep: &str) -> (text: String)
    ensures
        text@ == joined(Seq::new(parts@.len(), |a: int| parts@[a]@), sep@),
{
    itertools::join(parts, sep)
}

} // verus!
