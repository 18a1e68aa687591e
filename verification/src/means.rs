use vstd::prelude::*;

verus! {

/// Whether a price was recorded at `date`.
pub open spec fn has_date(prices: Seq<[i32; 2]>, date: i32) -> bool {
    exists|i: int| 0 <= i < prices.len() && (#[trigger] prices[i])[0] == date
}

/// No two prices share a timestamp.
pub open spec fn distinct_dates(prices: Seq<[i32; 2]>) -> bool {
    forall|i: int, j: int|
        0 <= i < prices.len() && 0 <= j < prices.len() && i != j ==> (#[trigger] prices[i])[0]
            != (#[trigger] prices[j])[0]
}

/// Records the price `ammount` at `date`; refuses a timestamp that was recorded
/// already.
pub fn insert_data(prices: &mut Vec<[i32; 2]>, date: i32, ammount: i32) -> (r: Result<(), ()>)
    ensures
        has_date(old(prices)@, date) ==> r is Err && final(prices)@ == old(prices)@,
        !has_date(old(prices)@, date) ==> r is Ok && final(prices)@ == old(prices)@.push(
            [date, ammount],
        ),
{
    let mut i: usize = 0;
    while i < prices.len()
        invariant
            i <= prices@.len(),
            prices@ == old(prices)@,
            forall|j: int| 0 <= j < i ==> (#[trigger] prices@[j])[0] != date,
        decreases prices@.len() - i,
    {
        if prices[i][0] == date {
            return Err(());
        }
        i = i + 1;
    }
    prices.push([date, ammount]);
    Ok(())
}

pub open spec fn in_range(p: [i32; 2], date_from: i32, date_to: i32) -> bool {
    date_from <= p[0] <= date_to
}

/// The sum of the prices recorded from `date_from` to `date_to`, both included.
pub open spec fn range_sum(prices: Seq<[i32; 2]>, date_from: i32, date_to: i32) -> int
    decreases prices.len(),
{
    if prices.len() == 0 {
        0
    } else {
        range_sum(prices.drop_last(), date_from, date_to) + if in_range(
            prices.last(),
            date_from,
            date_to,
        ) {
            prices.last()[1] as int
        } else {
            0
        }
    }
}

/// The number of prices recorded from `date_from` to `date_to`, both included.
pub open spec fn range_count(prices: Seq<[i32; 2]>, date_from: i32, date_to: i32) -> nat
    decreases prices.len(),
{
    if prices.len() == 0 {
        0
    } else {
        range_count(prices.drop_last(), date_from, date_to) + if in_range(
            prices.last(),
            date_from,
            date_to,
        ) {
            1nat
        } else {
            0nat
        }
    }
}

/// Integer division rounding toward zero, as Rust's `/` does.
pub open spec fn div_toward_zero(a: int, b: int) -> int {
    if a >= 0 {
        a / b
    } else {
        -((-a) / b)
    }
}

/// The mean of the prices from `date_from` to `date_to`, rounded toward zero; 0
/// where there is none or the range is empty.
pub open spec fn mean_price(prices: Seq<[i32; 2]>, date_from: i32, date_to: i32) -> int {
    if date_from > date_to || range_count(prices, date_from, date_to) == 0 {
        0
    } else {
        div_toward_zero(
            range_sum(prices, date_from, date_to),
            range_count(prices, date_from, date_to) as int,
        )
    }
}

proof fn lemma_range_bounds(prices: Seq<[i32; 2]>, date_from: i32, date_to: i32)
    ensures
        range_count(prices, date_from, date_to) <= prices.len(),
        -0x8000_0000 * range_count(prices, date_from, date_to) <= range_sum(prices, date_from, date_to)
            <= 0x7fff_ffff * range_count(prices, date_from, date_to),
    decreases prices.len(),
{
    if prices.len() > 0 {
        lemma_range_bounds(prices.drop_last(), date_from, date_to);
    }
}

/// The mean price over a range of timestamps, rounded toward zero.
pub fn query_data(prices: &Vec<[i32; 2]>, date_from: i32, date_to: i32) -> (r: i32)
    requires
        prices@.len() <= 0x1_0000_0000,
    ensures
        r == mean_price(prices@, date_from, date_to),
{
    if date_from > date_to {
        return 0;
    }
    let mut count: i64 = 0;
    let mut sum: i64 = 0;
    let mut i: usize = 0;
    while i < prices.len()
        invariant
            i <= prices@.len(),
            prices@.len() <= 0x1_0000_0000,
            count == range_count(prices@.take(i as int), date_from, date_to),
            sum == range_sum(prices@.take(i as int), date_from, date_to),
        decreases prices@.len() - i,
    {
        let ghost prefix = prices@.take(i + 1);
        assert(prefix.drop_last() =~= prices@.take(i as int));
        proof {
            lemma_range_bounds(prefix, date_from, date_to);
        }
        let p = prices[i];
        if p[0] >= date_from && p[0] <= date_to {
            count = count + 1;
            sum = sum + p[1] as i64;
        }
        i = i + 1;
    }
    assert(prices@.take(prices@.len() as int) =~= prices@);
    if count == 0 {
        return 0;
    }
    proof {
        lemma_range_bounds(prices@, date_from, date_to);
    }
    let q: i64 = sum / count;
    assert(-0x8000_0000 <= q <= 0x7fff_ffff) by (nonlinear_arith)
        requires
            count > 0,
            -0x8000_0000 * count <= sum <= 0x7fff_ffff * count,
            q == div_toward_zero(sum as int, count as int),
    ;
    q as i32
}


/// The signed 32-bit integer that four bytes write in big-endian order.
pub open spec fn be_i32(b0: u8, b1: u8, b2: u8, b3: u8) -> int {
    let u = b0 * 0x100_0000 + b1 * 0x1_0000 + b2 * 0x100 + b3;
    if u >= 0x8000_0000 {
        u - 0x1_0000_0000
    } else {
        u
    }
}

/// Reads a big-endian `i32`.
pub fn i32_from_be(b0: u8, b1: u8, b2: u8, b3: u8) -> (v: i32)
    ensures
        v == be_i32(b0, b1, b2, b3),
{
    let u: u64 = (b0 as u64) * 0x100_0000 + (b1 as u64) * 0x1_0000 + (b2 as u64) * 0x100
        + b3 as u64;
    if u >= 0x8000_0000 {
        (u as i64 - 0x1_0000_0000) as i32
    } else {
        u as i32
    }
}

/// What the server does after a message.
#[derive(Debug, Clone, Copy, PartialEq, Eq, Structural)]
pub enum MeansAction {
    /// Wait for the next message.
    Continue,
    /// Send this mean, as a big-endian `i32`, and wait for the next message.
    Reply(i32),
    /// Close the connection.
    Close,
}

/// Handles one nine-byte message: `I` with a timestamp and a price inserts the
/// price (closing the connection where the timestamp was taken); `Q` with two
/// timestamps answers the mean price between them; any other type closes the
/// connection.
pub fn handle_message(prices: &mut Vec<[i32; 2]>, message: &[u8; 9]) -> (a: MeansAction)
    requires
        old(prices)@.len() <= 0x1_0000_0000,
    ensures
        ({
            let m = message@;
            let num1 = be_i32(m[1], m[2], m[3], m[4]);
            let num2 = be_i32(m[5], m[6], m[7], m[8]);
            if m[0] == 73 {
                if has_date(old(prices)@, num1 as i32) {
                    a == MeansAction::Close && final(prices)@ == old(prices)@
                } else {
                    a == MeansAction::Continue && final(prices)@ == old(prices)@.push(
                        [num1 as i32, num2 as i32],
                    )
                }
            } else if m[0] == 81 {
                a == MeansAction::Reply(mean_price(old(prices)@, num1 as i32, num2 as i32) as i32)
                    && final(prices)@ == old(prices)@
            } else {
                a == MeansAction::Close && final(prices)@ == old(prices)@
            }
        }),
{
    let message_type = message[0];
    let num1 = i32_from_be(message[1], message[2], message[3], message[4]);
    let num2 = i32_from_be(message[5], message[6], message[7], message[8]);
    if message_type == 73 {
        match insert_data(prices, num1, num2) {
            Ok(_) => MeansAction::Continue,
            Err(_) => MeansAction::Close,
        }
    } else if message_type == 81 {
        let res = query_data(prices, num1, num2);
        MeansAction::Reply(res)
    } else {
        MeansAction::Close
    }
}

/// Over prices with distinct timestamps, recording a price at a new timestamp
/// keeps the timestamps distinct, and the mean over that timestamp alone is then
/// the recorded price.
pub proof fn lemma_insert_then_query(prices: Seq<[i32; 2]>, date: i32, ammount: i32)
    requires
        distinct_dates(prices),
        !has_date(prices, date),
    ensures
        distinct_dates(prices.push([date, ammount])),
        mean_price(prices.push([date, ammount]), date, date) == ammount,
{
    let p = prices.push([date, ammount]);
    assert(p.drop_last() =~= prices);
    lemma_no_date_count(prices, date);
    assert(range_count(p, date, date) == 1);
    assert(range_sum(p, date, date) == ammount);
}

proof fn lemma_no_date_count(prices: Seq<[i32; 2]>, date: i32)
    requires
        !has_date(prices, date),
    ensures
        range_count(prices, date, date) == 0,
        range_sum(prices, date, date) == 0,
    decreases prices.len(),
{
    if prices.len() > 0 {
        assert(prices.last() == prices[prices.len() - 1]);
        assert(!has_date(prices.drop_last(), date)) by {
            if has_date(prices.drop_last(), date) {
                let i = choose|i: int|
                    0 <= i < prices.drop_last().len() && (#[trigger] prices.drop_last()[i])[0] == date;
                assert(prices[i] == prices.drop_last()[i]);
            }
        }
        lemma_no_date_count(prices.drop_last(), date);
    }
}

/// A range whose start is after its end has mean 0.
pub proof fn lemma_empty_range_mean(prices: Seq<[i32; 2]>, date_from: i32, date_to: i32)
    requires
        date_from > date_to,
    ensures
        mean_price(prices, date_from, date_to) == 0,
{
}

} // verus!
