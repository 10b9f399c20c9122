//! Textual rendering of range sequences: decimal digits, the `start..end`
//! and `start..=end` pair forms, and separator-joining.  The formatting
//! itself is done by core::fmt and itertools behind trusted wrappers; the
//! contracts state the rendered characters exactly.

use vstd::prelude::*;
use itertools::Itertools;

verus! {

/// The decimal digit character for `d % 10`.
pub open spec fn dec_digit(d: nat) -> char {
    ((48 + (d % 10)) as u8) as char
}

/// The decimal rendering of `n`, most significant digit first.
pub open spec fn dec_str(n: nat) -> Seq<char>
    decreases n,
{
    if n < 10 {
        seq![dec_digit(n)]
    } else {
        dec_str(n / 10).push(dec_digit(n))
    }
}

/// The half-open rendering `start..end` of one stored pair.
pub open spec fn render_pair(p: (u64, u64)) -> Seq<char> {
    dec_str(p.0 as nat) + ".."@ + dec_str(p.1 as nat)
}

/// The inclusive rendering `start..=end` of one fused pair.
pub open spec fn render_pair_inclusive(p: (u64, u64)) -> Seq<char> {
    dec_str(p.0 as nat) + "..="@ + dec_str(p.1 as nat)
}

/// The half-open renderings of every pair, in order.
pub open spec fn rendered_pairs(m: Seq<(u64, u64)>) -> Seq<Seq<char>> {
    m.map_values(|p: (u64, u64)| render_pair(p))
}

/// The inclusive renderings of every pair, in order.
pub open spec fn rendered_pairs_inclusive(m: Seq<(u64, u64)>) -> Seq<Seq<char>> {
    m.map_values(|p: (u64, u64)| render_pair_inclusive(p))
}

/// The views of a sequence of strings.
pub open spec fn string_views(parts: Seq<String>) -> Seq<Seq<char>> {
    parts.map_values(|s: String| s@)
}

/// The parts concatenated with the separator between consecutive parts.
pub open spec fn join_seq(parts: Seq<Seq<char>>, sep: Seq<char>) -> Seq<char>
    decreases parts.len(),
{
    if parts.len() == 0 {
        Seq::empty()
    } else if parts.len() == 1 {
        parts[0]
    } else {
        join_seq(parts.drop_last(), sep) + sep + parts.last()
    }
}

/// Relies on core::fmt's `Display` for `u64`, through `format!`: a `u64`
/// renders as its decimal digits, most significant first.
#[verifier::external_body]
pub(crate) fn format_pair(start: u64, end: u64) -> (r: String)
    ensures
        r@ == render_pair((start, end)),
{
    format!("{start}..{end}")
}

/// Relies on core::fmt's `Display` for `u64`, through `format!`, as
/// `format_pair` does, here for the inclusive `start..=end` form.
#[verifier::external_body]
pub(crate) fn format_pair_inclusive(start: u64, end: u64) -> (r: String)
    ensures
        r@ == render_pair_inclusive((start, end)),
{
    format!("{start}..={end}")
}

/// Relies on itertools::Itertools::join: the items' `Display` renderings
/// concatenated with `sep` between consecutive items; a `String`
/// displays as its own characters.
#[verifier::external_body]
pub(crate) fn join_with(parts: &Vec<String>, sep: &str) -> (r: String)
    ensures
        r@ == join_seq(string_views(parts@), sep@),
{
    parts.iter().join(sep)
}

} // verus!
