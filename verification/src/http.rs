//! Request details the HTTP layer decides: bearer tokens, page limits, and
//! the key of the queue trades are published to.
use vstd::prelude::*;
use vstd::string::{StrSliceExecFns, StringExecFns};

verus! {

/// The prefix of a bearer authorization header.
pub open spec fn bearer_prefix() -> Seq<char> {
    seq!['B', 'e', 'a', 'r', 'e', 'r', ' ']
}

/// The token of an authorization header: what follows "Bearer ", or empty
/// when the header does not start so.
pub open spec fn bearer_of(header: Seq<char>) -> Seq<char> {
    if header.len() >= 7 && header.take(7) == bearer_prefix() {
        header.skip(7)
    } else {
        Seq::empty()
    }
}

/// The token of an authorization header, as `strip_prefix("Bearer ")`
/// followed by `unwrap_or_default` gives it.
pub fn bearer_token(header: &str) -> (r: String)
    ensures
        r@ == bearer_of(header@),
{
    proof {
        reveal_strlit("Bearer ");
        assert("Bearer "@ == bearer_prefix());
    }
    let prefix = "Bearer ";
    let n = header.unicode_len();
    if n < 7 {
        return String::new();
    }
    let mut i: usize = 0;
    while i < 7
        invariant
            n == header@.len(),
            n >= 7,
            prefix@ == bearer_prefix(),
            i <= 7,
            forall|j: int| 0 <= j < i ==> header@[j] == bearer_prefix()[j],
        decreases 7 - i,
    {
        if header.get_char(i) != prefix.get_char(i) {
            assert(header@.take(7)[i as int] != bearer_prefix()[i as int]);
            return String::new();
        }
        i = i + 1;
    }
    assert(header@.take(7) =~= bearer_prefix());
    header.substring_char(7, n).to_owned()
}

/// The default number of candles a query returns.
pub fn default_limit() -> (r: i64)
    ensures
        r == 500,
{
    500
}

/// A requested candle limit held between 1 and 1000, as `clamp(1, 1000)`.
pub fn clamp_limit(limit: i64) -> (r: i64)
    ensures
        r == (if limit < 1 {
            1
        } else if limit > 1000 {
            1000
        } else {
            limit
        }),
{
    if limit < 1 {
        1
    } else if limit > 1000 {
        1000
    } else {
        limit
    }
}

/// The queue that trades of a symbol are published to: "trades:" and the
/// symbol.
pub fn trade_queue_key(symbol: &str) -> (r: String)
    ensures
        r@ == seq!['t', 'r', 'a', 'd', 'e', 's', ':'] + symbol@,
{
    proof {
        reveal_strlit("trades:");
    }
    let mut key = "trades:".to_owned();
    key.append(symbol);
    key
}

} // verus!
