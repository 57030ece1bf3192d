//! Text produced by formatting numbers (`std::fmt`).

use vstd::prelude::*;

verus! {

/// The text `format!("{} {} {}", a, b, c)`.
pub uninterp spec fn three_numbers_label(a: usize, b: usize, c: usize) -> Seq<char>;

/// The text `format!("{:?}", n)`.
pub uninterp spec fn number_label(n: usize) -> Seq<char>;

/// The text `format!("Station {}", n)`.
pub uninterp spec fn station_label(n: usize) -> Seq<char>;

/// `format!("{} {} {}", a, b, c)`: three numbers in decimal, separated by spaces.
#[verifier::external_body]
pub fn format_three_numbers(a: usize, b: usize, c: usize) -> (r: String)
    ensures
        r@ == three_numbers_label(a, b, c),
{
    format!("{} {} {}", a, b, c)
}

/// `format!("{:?}", n)`: the number in decimal.
#[verifier::external_body]
pub fn format_number(n: usize) -> (r: String)
    ensures
        r@ == number_label(n),
{
    format!("{:?}", n)
}

/// `format!("Station {}", n)`: the word and the number in decimal, so two
/// numbers never give the same text.
#[verifier::external_body]
pub fn format_station(n: usize) -> (r: String)
    ensures
        r@ == station_label(n),
        forall|m: usize| m != n ==> station_label(m) != r@,
{
    format!("Station {}", n)
}

} // verus!
