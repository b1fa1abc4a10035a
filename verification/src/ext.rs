//! Calls whose results depend on the clock or on chance: the current time
//! and fresh identifiers.
use vstd::prelude::*;

verus! {

/// A character of nanoid's URL-safe alphabet.
pub open spec fn is_id_char(c: char) -> bool {
    ||| c == '_'
    ||| c == '-'
    ||| ('0' <= c && c <= '9')
    ||| ('a' <= c && c <= 'z')
    ||| ('A' <= c && c <= 'Z')
}

/// A fresh identifier as `nanoid!()` makes one: `nanoid::format` with the
/// default random source, the URL-safe alphabet and size 21. The source pushes
/// only characters of that alphabet until the id is 21 bytes long; which
/// characters come out depends on chance and is not stated.
#[verifier::external_body]
pub(crate) fn new_id() -> (id: String)
    ensures
        id@.len() == 21,
        forall|i: int| 0 <= i < 21 ==> is_id_char(#[trigger] id@[i]),
{
    nanoid::format(nanoid::rngs::default, &nanoid::alphabet::SAFE, 21)
}

/// The current time, `chrono::Utc::now()`, as milliseconds since the Unix
/// epoch. It depends on the clock, so nothing is stated of it.
#[verifier::external_body]
pub(crate) fn now_millis() -> (ms: i64) {
    chrono::Utc::now().timestamp_millis()
}

} // verus!
