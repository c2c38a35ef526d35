//! The score, and how it reads on screen.

use vstd::prelude::*;
use vstd::string::*;

verus! {

/// The count of blocks destroyed so far.
#[derive(Clone, Copy, Debug, PartialEq, Eq, Structural)]
pub struct Scoreboard {
    pub score: usize,
}

/// The ten digits, each at the place of its value.
pub open spec fn digits() -> Seq<char> {
    seq!['0', '1', '2', '3', '4', '5', '6', '7', '8', '9']
}

/// Whether `c` is one of the ten digits.
pub open spec fn is_digit(c: char) -> bool {
    digits().contains(c)
}

/// The value of a digit; zero for any other character.
pub open spec fn digit_value(c: char) -> nat {
    if is_digit(c) {
        digits().index_of(c) as nat
    } else {
        0
    }
}

/// A number in decimal: its digits from the highest to the lowest, with no
/// zero in front but for the number zero itself.
pub open spec fn decimal(n: nat) -> Seq<char>
    decreases n,
{
    if n < 10 {
        seq![digits()[n as int]]
    } else {
        decimal(n / 10).push(digits()[(n % 10) as int])
    }
}

/// The number that a row of digits stands for.
pub open spec fn decimal_value(text: Seq<char>) -> nat
    decreases text.len(),
{
    if text.len() == 0 {
        0
    } else {
        decimal_value(text.drop_last()) * 10 + digit_value(text.last())
    }
}

/// Each digit has the value of its place among the ten.
pub proof fn lemma_digit_values()
    ensures
        forall|d: int| 0 <= d < 10 ==> is_digit(#[trigger] digits()[d]),
        forall|d: int| 0 <= d < 10 ==> digit_value(#[trigger] digits()[d]) == d,
{
    assert forall|d: int| 0 <= d < 10 implies is_digit(#[trigger] digits()[d]) && digit_value(
        digits()[d],
    ) == d by {
        let c = digits()[d];
        assert(digits().contains(c));
        let k = digits().index_of(c);
        assert(0 <= k < 10 && digits()[k] == c);
        assert(k == d);
    }
}

/// The decimal text of a number is made of digits only, is never empty, and
/// begins with a zero only where the number is zero.
pub proof fn lemma_decimal_shape(n: nat)
    ensures
        decimal(n).len() >= 1,
        forall|i: int| 0 <= i < decimal(n).len() ==> is_digit(#[trigger] decimal(n)[i]),
        (decimal(n)[0] == '0') == (n == 0),
    decreases n,
{
    lemma_digit_values();
    if n >= 10 {
        lemma_decimal_shape(n / 10);
    }
}

/// The decimal text of a number stands for that number, so two numbers
/// with one text are one number.
pub proof fn lemma_decimal_reads_back(n: nat)
    ensures
        decimal_value(decimal(n)) == n,
    decreases n,
{
    lemma_digit_values();
    if n < 10 {
        assert(decimal(n).drop_last() =~= Seq::<char>::empty());
        assert(decimal_value(decimal(n).drop_last()) == 0);
    } else {
        lemma_decimal_reads_back(n / 10);
        assert(decimal(n).drop_last() =~= decimal(n / 10));
    }
}

/// The text of one digit.
fn digit_text(d: usize) -> (s: &'static str)
    requires
        d < 10,
    ensures
        s@ == seq![digits()[d as int]],
{
    proof {
        reveal_strlit("0");
        reveal_strlit("1");
        reveal_strlit("2");
        reveal_strlit("3");
        reveal_strlit("4");
        reveal_strlit("5");
        reveal_strlit("6");
        reveal_strlit("7");
        reveal_strlit("8");
        reveal_strlit("9");
    }
    let s = match d {
        0 => "0",
        1 => "1",
        2 => "2",
        3 => "3",
        4 => "4",
        5 => "5",
        6 => "6",
        7 => "7",
        8 => "8",
        _ => "9",
    };
    assert(s@ =~= seq![digits()[d as int]]);
    s
}

/// Writes `n` in decimal at the end of `text`.
fn write_decimal(n: usize, text: &mut String)
    ensures
        final(text)@ == old(text)@ + decimal(n as nat),
    decreases n,
{
    if n >= 10 {
        write_decimal(n / 10, text);
    }
    text.append(digit_text(n % 10));
    assert(text@ =~= old(text)@ + decimal(n as nat));
}

impl Scoreboard {
    /// The scoreboard of a game that has just begun.
    pub fn new() -> (s: Scoreboard)
        ensures
            s.score == 0,
    {
        Scoreboard { score: 0 }
    }

    /// The text that the scoreboard shows: the score in decimal.
    pub fn update_scoreboard(&self) -> (text: String)
        ensures
            text@ == decimal(self.score as nat),
    {
        let mut text = String::new();
        write_decimal(self.score, &mut text);
        assert(text@ =~= decimal(self.score as nat));
        text
    }
}

} // verus!
