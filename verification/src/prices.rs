//! Prices over time: a client records them and asks for their mean over a period.

use vstd::prelude::*;

use std::collections::BTreeMap;

use crate::bytes::be_i32;
use crate::bytes::read_i32;

verus! {

/// The letter `I`, which begins a message that records a price.
pub const INSERT: u8 = 0x49;

/// The letter `Q`, which begins a question.
pub const QUERY: u8 = 0x51;

/// What a client says.
#[derive(Debug, Clone, Copy, PartialEq, Eq, Structural)]
pub enum Message {
    /// The price at a time.
    Insert { timestamp: i32, price: i32 },
    /// A question for the mean price from one time to another, both included.
    Query { mintime: i32, maxtime: i32 },
}

/// The message that nine bytes carry: a letter and two numbers.
pub open spec fn message(buf: Seq<u8>) -> Option<Message> {
    let first = be_i32(buf.skip(1));
    let second = be_i32(buf.skip(5));
    if buf[0] == INSERT {
        Some(Message::Insert { timestamp: first, price: second })
    } else if buf[0] == QUERY {
        Some(Message::Query { mintime: first, maxtime: second })
    } else {
        None
    }
}

/// Reads a message.
pub fn parse_message(buf: &[u8; 9]) -> (out: Option<Message>)
    ensures
        out == message(buf@),
{
    let first: i32 = read_i32(buf.as_slice(), 1);
    let second: i32 = read_i32(buf.as_slice(), 5);
    if buf[0] == INSERT {
        Some(Message::Insert { timestamp: first, price: second })
    } else if buf[0] == QUERY {
        Some(Message::Query { mintime: first, maxtime: second })
    } else {
        None
    }
}

/// The price at time `t`, or nothing.
pub open spec fn price_at(prices: Map<i32, i32>, t: int) -> int {
    if prices.contains_key(t as i32) {
        prices[t as i32] as int
    } else {
        0
    }
}

/// The sum of the prices from `from` to `to`, both included.
pub open spec fn total(prices: Map<i32, i32>, from: int, to: int) -> int
    decreases to - from + 1,
{
    if from > to {
        0
    } else {
        total(prices, from, to - 1) + price_at(prices, to)
    }
}

/// How many prices there are from `from` to `to`, both included.
pub open spec fn count(prices: Map<i32, i32>, from: int, to: int) -> nat
    decreases to - from + 1,
{
    if from > to {
        0
    } else {
        count(prices, from, to - 1) + if prices.contains_key(to as i32) {
            1nat
        } else {
            0nat
        }
    }
}

/// The quotient of `a` and `n`, without its fraction.
pub open spec fn truncated_quotient(a: int, n: int) -> int {
    if a >= 0 {
        a / n
    } else {
        -((-a) / n)
    }
}

/// The mean price from `from` to `to`, without its fraction, and zero where there is no price.
pub open spec fn mean(prices: Map<i32, i32>, from: int, to: int) -> int {
    if count(prices, from, to) == 0 {
        0
    } else {
        truncated_quotient(total(prices, from, to), count(prices, from, to) as int)
    }
}

proof fn lemma_no_price_between(prices: Map<i32, i32>, from: int, a: int, b: int)
    requires
        a <= b,
        forall|t: int| a < t <= b ==> !prices.contains_key(#[trigger] (t as i32)),
    ensures
        total(prices, from, a) == total(prices, from, b),
        count(prices, from, a) == count(prices, from, b),
    decreases b - a,
{
    if a < b {
        assert(!prices.contains_key(b as i32));
        lemma_no_price_between(prices, from, a, b - 1);
    }
}

proof fn lemma_total_is_bounded(prices: Map<i32, i32>, from: int, to: int)
    ensures
        i32::MIN * count(prices, from, to) <= total(prices, from, to) <= i32::MAX * count(prices, from, to),
        count(prices, from, to) <= if from > to {
            0
        } else {
            to - from + 1
        },
    decreases to - from + 1,
{
    if from <= to {
        lemma_total_is_bounded(prices, from, to - 1);
    }
}

proof fn lemma_quotient_is_bounded(a: int, n: int, low: int, high: int)
    requires
        n > 0,
        low <= 0 <= high,
        low * n <= a <= high * n,
    ensures
        low <= truncated_quotient(a, n) <= high,
{
    if a >= 0 {
        assert(0 <= a / n <= high) by (nonlinear_arith)
            requires
                n > 0,
                0 <= a <= high * n,
        ;
    } else {
        let b = -a;
        assert((-low) * n == -(low * n)) by (nonlinear_arith);
        assert(0 <= b / n <= -low) by (nonlinear_arith)
            requires
                n > 0,
                0 <= b <= (-low) * n,
        ;
    }
}

proof fn lemma_keys_increase(keys: Seq<i32>)
    requires
        vstd::std_specs::btree::increasing_seq(keys),
    ensures
        forall|i: int, j: int| 0 <= i < j < keys.len() ==> #[trigger] keys[i] < #[trigger] keys[j],
{
    assert forall|i: int, j: int| 0 <= i < j < keys.len() implies #[trigger] keys[i]
        < #[trigger] keys[j] by {
        assert(vstd::std_specs::cmp::OrdSpec::cmp_spec(&keys[i], &keys[j]) is Less);
    }
}

/// The prices that a client has recorded.
#[derive(Debug)]
pub struct PriceHistory {
    prices: BTreeMap<i32, i32>,
}

impl View for PriceHistory {
    type V = Map<i32, i32>;

    closed spec fn view(&self) -> Map<i32, i32> {
        self.prices@
    }
}

impl PriceHistory {
    /// No price is recorded yet.
    pub fn new() -> (out: PriceHistory)
        ensures
            out@ == Map::<i32, i32>::empty(),
    {
        PriceHistory { prices: BTreeMap::new() }
    }

    /// Records a price, in place of the one that there may be at the same time.
    pub fn insert(&mut self, timestamp: i32, price: i32)
        ensures
            final(self)@ == old(self)@.insert(timestamp, price),
    {
        self.prices.insert(timestamp, price);
    }

    /// The mean price over a period.
    pub fn average(&self, mintime: i32, maxtime: i32) -> (out: i32)
        ensures
            out == mean(self@, mintime as int, maxtime as int),
    {
        let ghost prices = self@;
        let mut sum: i128 = 0;
        let mut n: i128 = 0;
        let entries = self.prices.iter();
        let ghost kv = vstd::std_specs::iter::IteratorSpec::remaining(&entries);
        proof {
            let keys = kv.map_values(|e: (&i32, &i32)| *e.0);
            assert(vstd::std_specs::btree::increasing_seq(keys));
            lemma_keys_increase(keys);
            assert forall|i: int, j: int| 0 <= i < j < kv.len() implies *(#[trigger] kv[i]).0 < *(
            #[trigger] kv[j]).0 by {
                assert(keys[i] < keys[j]);
            }
            lemma_up_to(prices, kv, mintime as int, maxtime as int, -1);
        }
        for e in it: entries
            invariant
                it.seq() == kv,
                prices == self@,
                lists(prices, kv),
                sum == total(prices, mintime as int, up_to(kv, it.index() - 1, maxtime as int)),
                n == count(prices, mintime as int, up_to(kv, it.index() - 1, maxtime as int)),
        {
            let (t, price) = e;
            let ghost i = it.index();
            proof {
                lemma_up_to(prices, kv, mintime as int, maxtime as int, i as int);
                lemma_total_is_bounded(prices, mintime as int, up_to(kv, i - 1, maxtime as int));
            }
            if mintime <= *t && *t <= maxtime {
                sum = sum + *price as i128;
                n = n + 1;
            }
        }
        proof {
            lemma_total_is_bounded(prices, mintime as int, maxtime as int);
        }
        if n == 0 {
            return 0;
        }
        proof {
            lemma_quotient_is_bounded(sum as int, n as int, i32::MIN as int, i32::MAX as int);
        }
        if sum >= 0 {
            (sum as u128 / n as u128) as i32
        } else {
            let negated: u128 = (-sum) as u128;
            (-((negated / n as u128) as i128)) as i32
        }
    }

    /// Does what a message asks for: a question is answered.
    pub fn handle(&mut self, message: Message) -> (out: Option<i32>)
        ensures
            match message {
                Message::Insert { timestamp, price } => out is None && final(self)@ == old(
                    self,
                )@.insert(timestamp, price),
                Message::Query { mintime, maxtime } => {
                    &&& final(self)@ == old(self)@
                    &&& out matches Some(answer)
                    &&& answer == mean(old(self)@, mintime as int, maxtime as int)
                },
            },
    {
        match message {
            Message::Insert { timestamp, price } => {
                self.insert(timestamp, price);
                None
            },
            Message::Query { mintime, maxtime } => Some(self.average(mintime, maxtime)),
        }
    }
}

/// Whether `kv` lists the prices in the order of time.
spec fn lists(prices: Map<i32, i32>, kv: Seq<(&i32, &i32)>) -> bool {
    &&& forall|i: int|
        0 <= i < kv.len() ==> prices.contains_key(*(#[trigger] kv[i]).0) && prices[*kv[i].0]
            == *kv[i].1
    &&& forall|k: i32| #[trigger]
        prices.contains_key(k) ==> exists|i: int| 0 <= i < kv.len() && *(#[trigger] kv[i]).0 == k
    &&& forall|i: int, j: int|
        0 <= i < j < kv.len() ==> *(#[trigger] kv[i]).0 < *(#[trigger] kv[j]).0
}

/// The last time, no later than `to`, before the entry behind entry `i`.
spec fn up_to(kv: Seq<(&i32, &i32)>, i: int, to: int) -> int {
    if i + 1 < kv.len() && *kv[i + 1].0 <= to {
        *kv[i + 1].0 - 1
    } else {
        to
    }
}

proof fn lemma_up_to(prices: Map<i32, i32>, kv: Seq<(&i32, &i32)>, from: int, to: int, i: int)
    requires
        lists(prices, kv),
        -1 <= i < kv.len(),
        i32::MIN <= from <= i32::MAX,
        i32::MIN <= to <= i32::MAX,
    ensures
        i == -1 ==> total(prices, from, up_to(kv, -1, to)) == 0 && count(
            prices,
            from,
            up_to(kv, -1, to),
        ) == 0,
        i >= 0 && from <= *kv[i].0 <= to ==> {
            &&& total(prices, from, up_to(kv, i, to)) == total(prices, from, up_to(kv, i - 1, to))
                + *kv[i].1
            &&& count(prices, from, up_to(kv, i, to)) == count(prices, from, up_to(kv, i - 1, to)) + 1
        },
        i >= 0 && !(from <= *kv[i].0 <= to) ==> {
            &&& total(prices, from, up_to(kv, i, to)) == total(prices, from, up_to(kv, i - 1, to))
            &&& count(prices, from, up_to(kv, i, to)) == count(prices, from, up_to(kv, i - 1, to))
        },
{
    let b = up_to(kv, i, to);
    let a = if i >= 0 {
        if *kv[i].0 <= to {
            *kv[i].0 as int
        } else {
            to
        }
    } else {
        from - 1
    };
    if a <= b {
        assert forall|t: int| a < t <= b implies !prices.contains_key(#[trigger] (t as i32)) by {
            if prices.contains_key(t as i32) {
                let k = choose|k: int| 0 <= k < kv.len() && *(#[trigger] kv[k]).0 == t as i32;
                if i >= 0 && k <= i {
                    assert(k == i || *kv[k].0 < *kv[i].0);
                } else if i + 1 < kv.len() {
                    assert(k == i + 1 || *kv[i + 1].0 < *kv[k].0);
                }
            }
        }
        lemma_no_price_between(prices, from, a, b);
    }
}

proof fn lemma_total_is_within(prices: Map<i32, i32>, from: int, to: int, low: int, high: int)
    requires
        forall|t: int|
            from <= t <= to && prices.contains_key(#[trigger] (t as i32)) ==> low <= prices[t as i32]
                <= high,
    ensures
        low * count(prices, from, to) <= total(prices, from, to) <= high * count(prices, from, to),
    decreases to - from + 1,
{
    if from <= to {
        lemma_total_is_within(prices, from, to - 1, low, high);
        let n = count(prices, from, to - 1);
        assert(low * (n + 1) == low * n + low) by (nonlinear_arith);
        assert(high * (n + 1) == high * n + high) by (nonlinear_arith);
        if prices.contains_key(to as i32) {
            assert(low <= prices[to as i32] <= high);
        }
    } else {
        assert(low * 0 == 0 && high * 0 == 0) by (nonlinear_arith);
    }
}

/// The mean of prices that lie between two bounds lies between them. Where there is no price, the
/// mean is zero, which must lie between them itself.
pub proof fn law_mean_is_within(prices: Map<i32, i32>, from: int, to: int, low: int, high: int)
    requires
        count(prices, from, to) > 0 || low <= 0 <= high,
        forall|t: int|
            from <= t <= to && prices.contains_key(#[trigger] (t as i32)) ==> low <= prices[t as i32]
                <= high,
    ensures
        low <= mean(prices, from, to) <= high,
{
    lemma_total_is_within(prices, from, to, low, high);
    let a = total(prices, from, to);
    let n = count(prices, from, to) as int;
    if n == 0 {
    } else if a >= 0 {
        assert(low <= a / n <= high) by (nonlinear_arith)
            requires
                n > 0,
                low * n <= a <= high * n,
        ;
    } else {
        let b = -a;
        assert((-low) * n == -(low * n)) by (nonlinear_arith);
        assert((-high) * n == -(high * n)) by (nonlinear_arith);
        assert(-high <= b / n <= -low) by (nonlinear_arith)
            requires
                n > 0,
                (-high) * n <= b <= (-low) * n,
        ;
    }
}

/// A price outside a period has no part in the mean over it.
pub proof fn law_other_times_do_not_matter(
    prices: Map<i32, i32>,
    timestamp: i32,
    price: i32,
    from: int,
    to: int,
)
    requires
        i32::MIN <= from,
        to <= i32::MAX,
        !(from <= timestamp <= to),
    ensures
        mean(prices.insert(timestamp, price), from, to) == mean(prices, from, to),
{
    lemma_other_times_do_not_matter(prices, timestamp, price, from, to);
}

proof fn lemma_other_times_do_not_matter(
    prices: Map<i32, i32>,
    timestamp: i32,
    price: i32,
    from: int,
    to: int,
)
    requires
        i32::MIN <= from,
        to <= i32::MAX,
        !(from <= timestamp <= to),
    ensures
        total(prices.insert(timestamp, price), from, to) == total(prices, from, to),
        count(prices.insert(timestamp, price), from, to) == count(prices, from, to),
    decreases to - from + 1,
{
    if from <= to {
        lemma_other_times_do_not_matter(prices, timestamp, price, from, to - 1);
        assert(to as i32 != timestamp);
    }
}

/// A message is a letter and two numbers: `I`, a time and a price, or `Q` and two times. Nothing else
/// is one.
pub proof fn law_messages_are_a_letter_and_two_numbers(
    letter: u8,
    first: Seq<u8>,
    second: Seq<u8>,
)
    requires
        first.len() == 4,
        second.len() == 4,
    ensures
        letter == 73 ==> message(seq![letter] + first + second) == Some(
            Message::Insert { timestamp: be_i32(first), price: be_i32(second) },
        ),
        letter == 81 ==> message(seq![letter] + first + second) == Some(
            Message::Query { mintime: be_i32(first), maxtime: be_i32(second) },
        ),
        letter != 73 && letter != 81 ==> message(seq![letter] + first + second) is None,
{
    let buf = seq![letter] + first + second;
    assert(buf.skip(1) == first + second);
    assert(buf.skip(5) == second);
    assert(buf[0] == letter);
}

/// What there is over a period: nothing if nothing was recorded, one price more and its amount for
/// a price at a time without one, and the parts of a period together.
pub proof fn law_prices_are_counted_and_summed(
    prices: Map<i32, i32>,
    from: int,
    middle: int,
    to: int,
    timestamp: i32,
    price: i32,
)
    requires
        i32::MIN <= from,
        to <= i32::MAX,
        from - 1 <= middle <= to,
    ensures
        total(Map::empty(), from, to) == 0,
        count(Map::empty(), from, to) == 0,
        total(prices, from, to) == total(prices, from, middle) + total(prices, middle + 1, to),
        count(prices, from, to) == count(prices, from, middle) + count(prices, middle + 1, to),
        from <= timestamp <= to && !prices.contains_key(timestamp) ==> {
            &&& total(prices.insert(timestamp, price), from, to) == total(prices, from, to) + price
            &&& count(prices.insert(timestamp, price), from, to) == count(prices, from, to) + 1
        },
        from <= timestamp <= to && prices.contains_key(timestamp) ==> {
            &&& total(prices.insert(timestamp, price), from, to) == total(prices, from, to) + price
                - prices[timestamp]
            &&& count(prices.insert(timestamp, price), from, to) == count(prices, from, to)
        },
    decreases to - from + 1,
{
    if from <= to {
        if middle < to {
            law_prices_are_counted_and_summed(prices, from, middle, to - 1, timestamp, price);
        } else {
            law_prices_are_counted_and_summed(prices, from, middle - 1, to - 1, timestamp, price);
        }
        if timestamp == to {
            lemma_other_times_do_not_matter(prices, timestamp, price, from, to - 1);
        } else {
            assert(to as i32 != timestamp);
        }
    }
}

/// The mean is the sum shared out over the prices, and what is left over is less than one for each
/// and has the sign of the sum. Where there is no price, or the period is reversed, it is zero.
pub proof fn law_mean_shares_out_the_sum(prices: Map<i32, i32>, from: int, to: int)
    ensures
        count(prices, from, to) == 0 ==> mean(prices, from, to) == 0,
        from > to ==> mean(prices, from, to) == 0,
        count(prices, from, to) > 0 ==> ({
            let n = count(prices, from, to) as int;
            let left = total(prices, from, to) - mean(prices, from, to) * n;
            &&& -n < left < n
            &&& total(prices, from, to) >= 0 ==> left >= 0
            &&& total(prices, from, to) <= 0 ==> left <= 0
        }),
{
    let n = count(prices, from, to) as int;
    let a = total(prices, from, to);
    if n > 0 {
        let b = if a >= 0 {
            a
        } else {
            -a
        };
        let q = b / n;
        vstd::arithmetic::div_mod::lemma_fundamental_div_mod(b, n);
        vstd::arithmetic::div_mod::lemma_mod_bound(b, n);
        assert(n * q == q * n) by (nonlinear_arith);
        assert((-q) * n == -(q * n)) by (nonlinear_arith);
    }
}

} // verus!
