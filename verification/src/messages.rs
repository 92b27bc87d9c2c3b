//! Human-readable error messages. Each wrapper renders one message template
//! with `format!`, where `{}` writes an unsigned integer in decimal.

use vstd::prelude::*;

verus! {

/// The character of a decimal digit.
pub open spec fn digit_char(d: nat) -> char {
    (d + 48) as char
}

/// The decimal representation of `n`, without leading zeros (`"0"` for 0).
pub open spec fn decimal(n: nat) -> Seq<char>
    decreases n,
{
    if n < 10 {
        seq![digit_char(n)]
    } else {
        decimal(n / 10).push(digit_char(n % 10))
    }
}

/// `format!` with a one-argument template: `{prefix}{value}{suffix}`.
#[verifier::external_body]
pub(crate) fn fmt_usize_between(prefix: &str, value: usize, suffix: &str) -> (r: String)
    ensures
        r@ == prefix@ + decimal(value as nat) + suffix@,
{
    format!("{}{}{}", prefix, value, suffix)
}

/// `format!` with a one-argument template for a `u64`: `{prefix}{value}{suffix}`.
#[verifier::external_body]
pub(crate) fn fmt_u64_between(prefix: &str, value: u64, suffix: &str) -> (r: String)
    ensures
        r@ == prefix@ + decimal(value as nat) + suffix@,
{
    format!("{}{}{}", prefix, value, suffix)
}

/// `format!` with a two-argument template: `{a}{x}{b}{y}{c}`.
#[verifier::external_body]
pub(crate) fn fmt_two_usize(a: &str, x: usize, b: &str, y: usize, c: &str) -> (r: String)
    ensures
        r@ == a@ + decimal(x as nat) + b@ + decimal(y as nat) + c@,
{
    format!("{}{}{}{}{}", a, x, b, y, c)
}

/// `format!` with a three-argument template: `{a}{x}{b}{y}{c}{z}`.
#[verifier::external_body]
pub(crate) fn fmt_three_usize(a: &str, x: usize, b: &str, y: usize, c: &str, z: usize) -> (r: String)
    ensures
        r@ == a@ + decimal(x as nat) + b@ + decimal(y as nat) + c@ + decimal(z as nat),
{
    format!("{}{}{}{}{}{}", a, x, b, y, c, z)
}

/// `format!` with a text template: `{prefix}{detail}`.
#[verifier::external_body]
pub(crate) fn fmt_prefixed(prefix: &str, detail: String) -> (r: String)
    ensures
        r@ == prefix@ + detail@,
{
    format!("{}{}", prefix, detail)
}

/// `format!("{}{}", prefix, e)` for an I/O error: `prefix` followed by the
/// error's own description, which depends on the operating system and is
/// not stated.
#[verifier::external_body]
pub(crate) fn fmt_io_error(prefix: &str, e: &std::io::Error) -> (r: String)
    ensures
        prefix@.len() <= r@.len(),
        r@.subrange(0, prefix@.len() as int) == prefix@,
{
    format!("{}{}", prefix, e)
}

} // verus!
