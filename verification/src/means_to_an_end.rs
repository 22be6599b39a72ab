//! A store of timestamped prices that answers with mean prices.
//!
//! A request is nine bytes: a letter and two big-endian 32-bit integers in
//! two's complement.  `I` inserts a price at a timestamp.  `Q` asks for the
//! mean of the prices whose timestamps lie between two times, both
//! included; the answer is the mean, rounded towards zero, as four bytes,
//! and zero when there is no such price.  Any other letter is passed over.

use crate::endian::{be_i32, i32_be, i32_to_be_bytes, read_i32};
use vstd::prelude::*;
use vstd::slice::slice_subrange;

verus! {

/// The length of a request.
pub const REQUEST_LEN: usize = 9;

/// The letter of an insert request.
pub const INSERT: u8 = 0x49;

/// The letter of a query request.
pub const QUERY: u8 = 0x51;

/// A price at a time.
#[derive(Debug, Clone, Copy, PartialEq, Eq, Structural)]
pub struct Price {
    pub timestamp: i32,
    pub price: i32,
}

/// What a client asks for.
#[derive(Debug, Clone, Copy, PartialEq, Eq, Structural)]
pub enum Request {
    /// Record `price` at `timestamp`.
    Insert { timestamp: i32, price: i32 },
    /// The mean price between `mintime` and `maxtime`.
    Query { mintime: i32, maxtime: i32 },
    /// Something that starts with another letter.
    Unknown,
}

/// The request that nine bytes hold.
pub open spec fn request_of(bytes: Seq<u8>) -> Request
    recommends
        bytes.len() == 9,
{
    if bytes[0] == INSERT {
        Request::Insert {
            timestamp: be_i32(bytes.subrange(1, 5)) as i32,
            price: be_i32(bytes.subrange(5, 9)) as i32,
        }
    } else if bytes[0] == QUERY {
        Request::Query {
            mintime: be_i32(bytes.subrange(1, 5)) as i32,
            maxtime: be_i32(bytes.subrange(5, 9)) as i32,
        }
    } else {
        Request::Unknown
    }
}

/// Whether `price` was recorded between `mintime` and `maxtime`.
pub open spec fn in_period(price: Price, mintime: i32, maxtime: i32) -> bool {
    mintime <= price.timestamp <= maxtime
}

/// The number of prices recorded between `mintime` and `maxtime`.
pub open spec fn count_in(prices: Seq<Price>, mintime: i32, maxtime: i32) -> int
    decreases prices.len(),
{
    if prices.len() == 0 {
        0
    } else {
        count_in(prices.drop_last(), mintime, maxtime) + if in_period(
            prices.last(),
            mintime,
            maxtime,
        ) {
            1int
        } else {
            0int
        }
    }
}

/// The sum of the prices recorded between `mintime` and `maxtime`.
pub open spec fn total_in(prices: Seq<Price>, mintime: i32, maxtime: i32) -> int
    decreases prices.len(),
{
    if prices.len() == 0 {
        0
    } else {
        total_in(prices.drop_last(), mintime, maxtime) + if in_period(
            prices.last(),
            mintime,
            maxtime,
        ) {
            prices.last().price as int
        } else {
            0int
        }
    }
}

/// The quotient of `total` by `count`, rounded towards zero.
pub open spec fn quotient_towards_zero(total: int, count: int) -> int
    recommends
        count > 0,
{
    if total >= 0 {
        total / count
    } else {
        -((-total) / count)
    }
}

/// The mean, rounded towards zero, of the prices recorded between
/// `mintime` and `maxtime`, or zero when there is none.
pub open spec fn mean_in(prices: Seq<Price>, mintime: i32, maxtime: i32) -> int {
    if count_in(prices, mintime, maxtime) == 0 {
        0
    } else {
        quotient_towards_zero(
            total_in(prices, mintime, maxtime),
            count_in(prices, mintime, maxtime),
        )
    }
}

/// The request that `buffer` holds.
pub fn parse_request(buffer: &[u8; 9]) -> (request: Request)
    ensures
        request == request_of(buffer@),
{
    let bytes = buffer.as_slice();
    let letter: u8 = bytes[0];
    if letter == INSERT {
        Request::Insert {
            timestamp: read_i32(slice_subrange(bytes, 1, 5)),
            price: read_i32(slice_subrange(bytes, 5, 9)),
        }
    } else if letter == QUERY {
        Request::Query {
            mintime: read_i32(slice_subrange(bytes, 1, 5)),
            maxtime: read_i32(slice_subrange(bytes, 5, 9)),
        }
    } else {
        Request::Unknown
    }
}

/// A mean lies between the least and the greatest of what it is the mean
/// of.
proof fn lemma_mean_fits(total: int, count: int)
    requires
        count > 0,
        -0x8000_0000 * count <= total <= 0x7fff_ffff * count,
    ensures
        -0x8000_0000 <= quotient_towards_zero(total, count) <= 0x7fff_ffff,
{
    if total >= 0 {
        assert(total / count <= 0x7fff_ffff) by (nonlinear_arith)
            requires
                count > 0,
                0 <= total <= 0x7fff_ffff * count,
        ;
        assert(total / count >= 0) by (nonlinear_arith)
            requires
                count > 0,
                0 <= total,
        ;
    } else {
        assert((-total) / count <= 0x8000_0000) by (nonlinear_arith)
            requires
                count > 0,
                0 <= -total <= 0x8000_0000 * count,
        ;
        assert((-total) / count >= 0) by (nonlinear_arith)
            requires
                count > 0,
                0 <= -total,
        ;
    }
}

/// The mean, rounded towards zero, of the prices recorded between
/// `mintime` and `maxtime`, or zero when there is none.
pub fn mean_price(prices: &Vec<Price>, mintime: i32, maxtime: i32) -> (mean: i32)
    ensures
        mean == mean_in(prices@, mintime, maxtime),
{
    let mut total: i128 = 0;
    let mut count: u64 = 0;
    let mut i: usize = 0;
    proof {
        assert(prices@.take(0) =~= Seq::<Price>::empty());
    }
    while i < prices.len()
        invariant
            i <= prices@.len(),
            count == count_in(prices@.take(i as int), mintime, maxtime),
            total == total_in(prices@.take(i as int), mintime, maxtime),
            0 <= count <= i,
            -0x8000_0000 * count <= total <= 0x7fff_ffff * count,
        decreases prices@.len() - i,
    {
        proof {
            assert(prices@.take(i + 1).drop_last() =~= prices@.take(i as int));
            assert(prices@.take(i + 1).last() == prices@[i as int]);
        }
        let price: Price = prices[i];
        if mintime <= price.timestamp && price.timestamp <= maxtime {
            total = total + price.price as i128;
            count = count + 1;
        }
        i += 1;
    }
    proof {
        assert(prices@.take(i as int) =~= prices@);
    }
    if count == 0 {
        return 0;
    }
    proof {
        lemma_mean_fits(total as int, count as int);
    }
    if total >= 0 {
        ((total as u128) / (count as u128)) as i32
    } else {
        let magnitude: u128 = ((-total) as u128) / (count as u128);
        (-(magnitude as i64)) as i32
    }
}

/// Carries out one request on the prices on record and returns the bytes
/// of the answer, if the request has one.
pub fn handle_request(prices: &mut Vec<Price>, buffer: &[u8; 9]) -> (answer: Option<[u8; 4]>)
    ensures
        match request_of(buffer@) {
            Request::Insert { timestamp, price } => {
                &&& answer is None
                &&& final(prices)@ == old(prices)@.push(Price { timestamp, price })
            },
            Request::Query { mintime, maxtime } => {
                &&& final(prices)@ == old(prices)@
                &&& answer matches Some(bytes) && bytes@ == i32_be(
                    mean_in(old(prices)@, mintime, maxtime) as i32,
                )
            },
            Request::Unknown => answer is None && final(prices)@ == old(prices)@,
        },
{
    match parse_request(buffer) {
        Request::Insert { timestamp, price } => {
            prices.push(Price { timestamp, price });
            None
        },
        Request::Query { mintime, maxtime } => {
            let mean: i32 = mean_price(prices, mintime, maxtime);
            Some(i32_to_be_bytes(mean))
        },
        Request::Unknown => None,
    }
}

} // verus!
