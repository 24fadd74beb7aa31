//! From an upstream error to the answer for the client.

use vstd::prelude::*;
use crate::text;

verus! {

/// The value of the `Retry-After` header: the seconds to wait, at least one, where
/// they are known and passed on at all.
pub open spec fn retry_after_seconds(retry_after: Option<u64>, passthrough: bool) -> Option<nat> {
    match retry_after {
        Some(s) => if passthrough {
            Some(
                if s < 1 {
                    1
                } else {
                    s as nat
                },
            )
        } else {
            None
        },
        None => None,
    }
}

/// Puts the `Retry-After` header among the headers of an answer, if there is to be
/// one. A header of that name that is there already gets the new value.
pub fn insert_retry_after_header(
    header: &mut Option<String>,
    retry_after: Option<u64>,
    passthrough: bool,
)
    ensures
        match retry_after_seconds(retry_after, passthrough) {
            Some(n) => *final(header) is Some && final(header).unwrap()@ == text::digits(n),
            None => *final(header) == *old(header),
        },
{
    if !passthrough {
        return;
    }
    if let Some(s) = retry_after {
        let n: u64 = if s < 1 {
            1
        } else {
            s
        };
        *header = Some(text::u64_text(n));
    }
}

/// A wait is told exactly where one is known and may be passed on. It is never shorter than
/// the known one nor than a second, and no longer than both ask for.
pub proof fn law_wait_is_passed_on(retry_after: Option<u64>, passthrough: bool)
    ensures
        retry_after_seconds(retry_after, passthrough) is Some <==> retry_after is Some
            && passthrough,
        retry_after_seconds(retry_after, passthrough) matches Some(n) ==> {
            let known = retry_after.unwrap() as nat;
            n >= known && n >= 1 && (n == known || n == 1)
        },
{
}

} // verus!
