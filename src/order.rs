//! Natural ordering of note names, as the `natord` crate computes it.
use core::cmp::Ordering;
use vstd::prelude::*;

verus! {

/// The ordering with its two sides swapped.
pub open spec fn reversed(o: Ordering) -> Ordering {
    match o {
        Ordering::Less => Ordering::Greater,
        Ordering::Equal => Ordering::Equal,
        Ordering::Greater => Ordering::Less,
    }
}

/// Natural order of two strings ignoring case (digit runs compare by value).
pub uninterp spec fn natural_order_folded(a: Seq<char>, b: Seq<char>) -> Ordering;

/// Natural order of two strings, case-sensitive.
pub uninterp spec fn natural_order(a: Seq<char>, b: Seq<char>) -> Ordering;

/// Relies on `natord::compare_ignore_case`: the result depends on the two
/// strings alone, and its comparison loop treats both sides alike, so
/// swapping them reverses the result.
#[verifier::external_body]
fn compare_folded(a: &str, b: &str) -> (r: Ordering)
    ensures
        r == natural_order_folded(a@, b@),
        natural_order_folded(b@, a@) == reversed(r),
{
    natord::compare_ignore_case(a, b)
}

/// Relies on `natord::compare`: the result depends on the two strings alone,
/// and swapping them reverses it, as for the case-insensitive form.
#[verifier::external_body]
fn compare_exact(a: &str, b: &str) -> (r: Ordering)
    ensures
        r == natural_order(a@, b@),
        natural_order(b@, a@) == reversed(r),
{
    natord::compare(a, b)
}

/// How two note names are ordered: naturally and ignoring case, with ties
/// broken by the case-sensitive natural comparison.
pub open spec fn name_order(a: Seq<char>, b: Seq<char>) -> Ordering {
    let folded = natural_order_folded(a, b);
    if folded != Ordering::Equal {
        folded
    } else {
        natural_order(a, b)
    }
}

/// Compares two note names by [`name_order`].
pub fn compare_names(a: &str, b: &str) -> (r: Ordering)
    ensures
        r == name_order(a@, b@),
        name_order(b@, a@) == reversed(r),
{
    let folded = compare_folded(a, b);
    match folded {
        Ordering::Equal => compare_exact(a, b),
        _ => folded,
    }
}

} // verus!
