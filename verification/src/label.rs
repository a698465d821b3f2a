//! Node labels: what a node is called in a diagram.
//!
//! A label has a printed form, its text. Two labels name the same node
//! exactly when their texts are equal, so a diagram never shows two nodes
//! under one name.

use vstd::prelude::*;
use vstd::string::*;

verus! {

/// A value that can label a node.
pub trait Label: Sized {
    /// The printed form of the label.
    spec fn text(&self) -> Seq<char>;

    /// Prints the label.
    fn print(&self) -> (s: String)
        ensures
            s@ == self.text(),
    ;

    /// Whether two labels name the same node.
    fn same(&self, other: &Self) -> (b: bool)
        ensures
            b == (self.text() == other.text()),
    ;
}

/// The character of a decimal digit.
pub open spec fn digit(d: nat) -> char {
    if d == 0 {
        '0'
    } else if d == 1 {
        '1'
    } else if d == 2 {
        '2'
    } else if d == 3 {
        '3'
    } else if d == 4 {
        '4'
    } else if d == 5 {
        '5'
    } else if d == 6 {
        '6'
    } else if d == 7 {
        '7'
    } else if d == 8 {
        '8'
    } else {
        '9'
    }
}

/// The digit that a character stands for; 0 for any other character.
pub open spec fn digit_value(c: char) -> nat {
    if c == '1' {
        1
    } else if c == '2' {
        2
    } else if c == '3' {
        3
    } else if c == '4' {
        4
    } else if c == '5' {
        5
    } else if c == '6' {
        6
    } else if c == '7' {
        7
    } else if c == '8' {
        8
    } else if c == '9' {
        9
    } else {
        0
    }
}

/// A number in decimal, without leading zeros.
pub open spec fn decimal(n: nat) -> Seq<char>
    decreases n,
{
    if n < 10 {
        seq![digit(n)]
    } else {
        decimal(n / 10).push(digit(n % 10))
    }
}

/// The number that a run of decimal digits stands for.
pub open spec fn decimal_value(digits: Seq<char>) -> nat
    decreases digits.len(),
{
    if digits.len() == 0 {
        0
    } else {
        decimal_value(digits.drop_last()) * 10 + digit_value(digits.last())
    }
}

/// A signed number in decimal: a minus sign before the digits of a negative
/// number.
pub open spec fn signed_decimal(x: int) -> Seq<char> {
    if x < 0 {
        seq!['-'] + decimal((-x) as nat)
    } else {
        decimal(x as nat)
    }
}

/// Reading back the decimal form of a number gives the number.
pub proof fn lemma_decimal_value(n: nat)
    ensures
        decimal_value(decimal(n)) == n,
    decreases n,
{
    if n < 10 {
        assert(decimal(n).drop_last() =~= Seq::<char>::empty());
        assert(decimal_value(decimal(n).drop_last()) == 0);
    } else {
        lemma_decimal_value(n / 10);
        assert(decimal(n).drop_last() =~= decimal(n / 10));
    }
}

/// Different numbers have different decimal forms.
pub proof fn lemma_decimal_injective(a: nat, b: nat)
    requires
        decimal(a) == decimal(b),
    ensures
        a == b,
{
    lemma_decimal_value(a);
    lemma_decimal_value(b);
}

/// A decimal form starts with a digit, never with a minus sign.
pub proof fn lemma_decimal_starts_with_digit(n: nat)
    ensures
        decimal(n).len() >= 1,
        decimal(n)[0] != '-',
    decreases n,
{
    if n >= 10 {
        lemma_decimal_starts_with_digit(n / 10);
    }
}

/// Different signed numbers have different decimal forms.
pub proof fn lemma_signed_decimal_injective(a: int, b: int)
    requires
        signed_decimal(a) == signed_decimal(b),
    ensures
        a == b,
{
    lemma_decimal_starts_with_digit((-a) as nat);
    lemma_decimal_starts_with_digit((-b) as nat);
    lemma_decimal_starts_with_digit(a as nat);
    lemma_decimal_starts_with_digit(b as nat);
    if a < 0 && b < 0 {
        let da = decimal((-a) as nat);
        let db = decimal((-b) as nat);
        assert(da =~= signed_decimal(a).drop_first());
        assert(db =~= signed_decimal(b).drop_first());
        lemma_decimal_injective((-a) as nat, (-b) as nat);
    } else if a >= 0 && b >= 0 {
        lemma_decimal_injective(a as nat, b as nat);
    } else if a < 0 {
        assert(signed_decimal(a)[0] == '-');
    } else {
        assert(signed_decimal(b)[0] == '-');
    }
}

/// The text of one decimal digit.
fn digit_str(d: u64) -> (s: &'static str)
    requires
        d < 10,
    ensures
        s@ == seq![digit(d as nat)],
{
    proof {
        reveal_strlit("0");
        reveal_strlit("1");
        reveal_strlit("2");
        reveal_strlit("3");
        reveal_strlit("4");
        reveal_strlit("5");
        reveal_strlit("6");
        reveal_strlit("7");
        reveal_strlit("8");
        reveal_strlit("9");
    }
    let s = if d == 0 {
        "0"
    } else if d == 1 {
        "1"
    } else if d == 2 {
        "2"
    } else if d == 3 {
        "3"
    } else if d == 4 {
        "4"
    } else if d == 5 {
        "5"
    } else if d == 6 {
        "6"
    } else if d == 7 {
        "7"
    } else if d == 8 {
        "8"
    } else {
        "9"
    };
    assert(s@ =~= seq![digit(d as nat)]);
    s
}

/// Prints a number in decimal.
pub fn print_decimal(n: u64) -> (s: String)
    ensures
        s@ == decimal(n as nat),
    decreases n,
{
    if n < 10 {
        String::from_str(digit_str(n))
    } else {
        let mut s = print_decimal(n / 10);
        s.append(digit_str(n % 10));
        assert(s@ =~= decimal(n as nat));
        s
    }
}

/// Prints a signed number in decimal.
pub fn print_signed_decimal(x: i64) -> (s: String)
    ensures
        s@ == signed_decimal(x as int),
{
    if x < 0 {
        proof {
            reveal_strlit("-");
        }
        let mut s = String::from_str("-");
        // the magnitude of the least number is one more than the greatest
        let magnitude: u64 = (-(x + 1)) as u64 + 1;
        let digits = print_decimal(magnitude);
        s.append(digits.as_str());
        assert(s@ =~= signed_decimal(x as int));
        s
    } else {
        print_decimal(x as u64)
    }
}

/// Makes the text of a single character with `String::from`, which
/// allocates a string that holds that character and nothing else.
#[verifier::external_body]
fn char_text(c: char) -> (s: String)
    ensures
        s@ == seq![c],
{
    String::from(c)
}

impl Label for String {
    open spec fn text(&self) -> Seq<char> {
        self@
    }

    fn print(&self) -> (s: String) {
        self.clone()
    }

    fn same(&self, other: &Self) -> (b: bool) {
        *self == *other
    }
}

impl Label for char {
    open spec fn text(&self) -> Seq<char> {
        seq![*self]
    }

    fn print(&self) -> (s: String) {
        char_text(*self)
    }

    fn same(&self, other: &Self) -> (b: bool) {
        proof {
            if self.text() == other.text() {
                assert(self.text()[0] == other.text()[0]);
            }
        }
        *self == *other
    }
}

impl Label for usize {
    open spec fn text(&self) -> Seq<char> {
        decimal(*self as nat)
    }

    fn print(&self) -> (s: String) {
        print_decimal(*self as u64)
    }

    fn same(&self, other: &Self) -> (b: bool) {
        proof {
            if self.text() == other.text() {
                lemma_decimal_injective(*self as nat, *other as nat);
            }
        }
        *self == *other
    }
}

impl Label for i32 {
    open spec fn text(&self) -> Seq<char> {
        signed_decimal(*self as int)
    }

    fn print(&self) -> (s: String) {
        print_signed_decimal(*self as i64)
    }

    fn same(&self, other: &Self) -> (b: bool) {
        proof {
            if self.text() == other.text() {
                lemma_signed_decimal_injective(*self as int, *other as int);
            }
        }
        *self == *other
    }
}

} // verus!
