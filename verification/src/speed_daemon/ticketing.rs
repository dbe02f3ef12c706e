//! Who is too fast, and who gets the ticket.

use vstd::prelude::*;
use vstd::string::*;

use crate::speed_daemon::history::CameraComparison;
use crate::speed_daemon::history::CameraComparisonView;
use crate::speed_daemon::message::encode_ticket;
use crate::speed_daemon::message::ticket_bytes;
use crate::speed_daemon::message::Ticket;
use crate::speed_daemon::message::TicketView;

verus! {

/// The seconds of a day.
pub const DAY: u32 = 86400;

/// The average speed over a distance in miles and a time in seconds, in miles per hour, rounded to
/// the nearest whole number, halves upwards. What sixteen bits do not hold is the most that they
/// hold, and so is the speed of a car that was in two places at one time.
pub open spec fn average(distance: int, time: int) -> int {
    if time == 0 {
        if distance == 0 {
            0
        } else {
            u16::MAX as int
        }
    } else {
        let rounded = (2 * 3600 * distance + time) / (2 * time);
        if rounded > u16::MAX {
            u16::MAX as int
        } else {
            rounded
        }
    }
}

/// The distance between two numbers.
pub open spec fn difference(a: int, b: int) -> int {
    if a < b {
        b - a
    } else {
        a - b
    }
}

/// The average speed between two places.
pub open spec fn speed(c: CameraComparisonView) -> int {
    average(
        difference(c.mile1 as int, c.mile2 as int),
        difference(c.timestamp1 as int, c.timestamp2 as int),
    )
}

/// Computes an average speed.
pub fn average_speed(distance: u16, time: u32) -> (out: u16)
    ensures
        out == average(distance as int, time as int),
{
    if time == 0 {
        return if distance == 0 {
            0
        } else {
            u16::MAX
        };
    }
    let rounded: u64 = (7200 * distance as u64 + time as u64) / (2 * time as u64);
    if rounded > u16::MAX as u64 {
        u16::MAX
    } else {
        rounded as u16
    }
}

/// A speed that is not cut off is within half a mile per hour of the exact quotient.
pub proof fn law_speed_is_rounded(distance: int, time: int)
    requires
        0 <= distance,
        0 < time,
        (2 * 3600 * distance + time) / (2 * time) <= u16::MAX,
    ensures
        (2 * average(distance, time) - 1) * time <= 2 * (3600 * distance),
        2 * (3600 * distance) < (2 * average(distance, time) + 1) * time,
{
    let a = 7200 * distance + time;
    let b = 2 * time;
    let q = a / b;
    assert(q * b <= a < q * b + b) by (nonlinear_arith)
        requires
            b > 0,
            q == a / b,
    ;
    assert(q * b == (2 * q) * time) by (nonlinear_arith)
        requires
            b == 2 * time,
    ;
    assert((2 * q - 1) * time == (2 * q) * time - time) by (nonlinear_arith);
    assert((2 * q + 1) * time == (2 * q) * time + time) by (nonlinear_arith);
}

/// What holding two reports against each other comes to.
#[derive(Debug, PartialEq, Eq)]
pub enum SpeedCheck {
    /// The car kept to the limit.
    Within,
    /// The car was too fast.
    TooFast(Ticket),
    /// The car was so fast that its speed cannot be written on a ticket.
    OffTheScale,
}

/// The ticket for a car that was too fast.
pub open spec fn ticket(c: CameraComparisonView) -> TicketView {
    TicketView {
        plate: c.plate,
        road: c.road,
        mile1: c.mile1,
        timestamp1: c.timestamp1,
        mile2: c.mile2,
        timestamp2: c.timestamp2,
        speed: (speed(c) * 100) as u16,
    }
}

/// Decides whether a car was too fast between two places.
pub fn check_speed(comparison: CameraComparison) -> (out: SpeedCheck)
    ensures
        match out {
            SpeedCheck::Within => speed(comparison@) <= comparison.limit,
            SpeedCheck::TooFast(t) => {
                &&& speed(comparison@) > comparison.limit
                &&& speed(comparison@) * 100 <= u16::MAX
                &&& t@ == ticket(comparison@)
            },
            SpeedCheck::OffTheScale => speed(comparison@) > comparison.limit && speed(comparison@)
                * 100 > u16::MAX,
        },
        out matches SpeedCheck::TooFast(t) ==> {
            &&& t.plate@ == comparison.plate@
            &&& t.road == comparison.road
            &&& t.mile1 == comparison.mile1
            &&& t.timestamp1 == comparison.timestamp1
            &&& t.mile2 == comparison.mile2
            &&& t.timestamp2 == comparison.timestamp2
            &&& t.speed == speed(comparison@) * 100
        },
{
    let CameraComparison { plate, road, limit, mile1, timestamp1, mile2, timestamp2 } = comparison;
    let distance: u16 = if mile1 < mile2 {
        mile2 - mile1
    } else {
        mile1 - mile2
    };
    let time: u32 = if timestamp1 < timestamp2 {
        timestamp2 - timestamp1
    } else {
        timestamp1 - timestamp2
    };
    let speed: u16 = average_speed(distance, time);
    if speed <= limit {
        return SpeedCheck::Within;
    }
    match speed.checked_mul(100) {
        Some(hundredths) => SpeedCheck::TooFast(
            Ticket { plate, road, mile1, timestamp1, mile2, timestamp2, speed: hundredths },
        ),
        None => SpeedCheck::OffTheScale,
    }
}

/// The day of a time.
pub open spec fn day(timestamp: u32) -> u32 {
    timestamp / DAY
}

/// A car and a day.
pub type TicketedDay = (Seq<char>, u32);

/// The first and the last day of a ticket.
pub open spec fn ticket_days(t: TicketView) -> (TicketedDay, TicketedDay) {
    ((t.plate, day(t.timestamp1)), (t.plate, day(t.timestamp2)))
}

/// Whether neither day of a ticket is among `days`.
pub open spec fn is_fresh(days: Set<TicketedDay>, t: TicketView) -> bool {
    !days.contains(ticket_days(t).0) && !days.contains(ticket_days(t).1)
}

/// What a dispatcher knows: for which cars and days it has sent tickets.
#[derive(Debug)]
pub struct DispatcherState {
    ticketed_days: Vec<(String, u32)>,
}

impl View for DispatcherState {
    type V = Set<TicketedDay>;

    closed spec fn view(&self) -> Set<TicketedDay> {
        Set::new(
            |d: TicketedDay|
                exists|i: int|
                    0 <= i < self.ticketed_days@.len() && (#[trigger] self.ticketed_days@[i]).0@ == d.0
                        && self.ticketed_days@[i].1 == d.1,
        )
    }
}

impl DispatcherState {
    /// No ticket has been sent.
    pub fn new() -> (out: DispatcherState)
        ensures
            out@ == Set::<TicketedDay>::empty(),
    {
        let out = DispatcherState { ticketed_days: Vec::new() };
        assert(out@ =~= Set::<TicketedDay>::empty());
        out
    }

    /// Whether a ticket has been sent for this car and day.
    fn is_ticketed(&self, plate: &String, day: u32) -> (out: bool)
        ensures
            out == self@.contains((plate@, day)),
    {
        let mut i: usize = 0;
        while i < self.ticketed_days.len()
            invariant
                i <= self.ticketed_days@.len(),
                forall|k: int|
                    0 <= k < i ==> !((#[trigger] self.ticketed_days@[k]).0@ == plate@
                        && self.ticketed_days@[k].1 == day),
            decreases self.ticketed_days@.len() - i,
        {
            if self.ticketed_days[i].1 == day && self.ticketed_days[i].0 == *plate {
                return true;
            }
            i = i + 1;
        }
        false
    }

    /// Marks this car and day.
    fn mark(&mut self, plate: String, day: u32)
        ensures
            final(self)@ == old(self)@.insert((plate@, day)),
    {
        let ghost before = self.ticketed_days@;
        self.ticketed_days.push((plate, day));
        proof {
            let now = self.ticketed_days@;
            assert forall|d: TicketedDay| self@.contains(d) == old(self)@.insert((plate@, day)).contains(
                d,
            ) by {
                if old(self)@.contains(d) {
                    let i = choose|i: int|
                        0 <= i < before.len() && (#[trigger] before[i]).0@ == d.0 && before[i].1 == d.1;
                    assert(now[i] == before[i]);
                }
                if d == (plate@, day) {
                    assert(now[before.len() as int].0@ == d.0);
                }
                if self@.contains(d) {
                    let i = choose|i: int|
                        0 <= i < now.len() && (#[trigger] now[i]).0@ == d.0 && now[i].1 == d.1;
                    if i < before.len() {
                        assert(now[i] == before[i]);
                    }
                }
            }
            assert(self@ =~= old(self)@.insert((plate@, day)));
        }
    }

    /// Decides about a ticket: it is sent, as these bytes, where none has been sent for its car and
    /// either of its days; and then both days count as ticketed.
    pub fn send_ticket(&mut self, ticket: Ticket) -> (out: Option<Vec<u8>>)
        ensures
            is_fresh(old(self)@, ticket@) ==> {
                &&& out matches Some(bytes)
                &&& bytes@ == ticket_bytes(ticket@)
                &&& final(self)@ == old(self)@.insert(ticket_days(ticket@).0).insert(
                    ticket_days(ticket@).1,
                )
            },
            !is_fresh(old(self)@, ticket@) ==> out is None && final(self)@ == old(self)@,
    {
        let day1: u32 = ticket.timestamp1 / DAY;
        let day2: u32 = ticket.timestamp2 / DAY;
        if self.is_ticketed(&ticket.plate, day1) || self.is_ticketed(&ticket.plate, day2) {
            return None;
        }
        let bytes = encode_ticket(&ticket);
        self.mark(ticket.plate.clone(), day1);
        self.mark(ticket.plate, day2);
        Some(bytes)
    }
}

/// The tickets that a dispatcher sends, of those that come to it, and the days that count as
/// ticketed in the end.
pub open spec fn sent(days: Set<TicketedDay>, tickets: Seq<TicketView>) -> (
    Seq<TicketView>,
    Set<TicketedDay>,
)
    decreases tickets.len(),
{
    if tickets.len() == 0 {
        (Seq::empty(), days)
    } else {
        let (before, marked) = sent(days, tickets.drop_last());
        let t = tickets.last();
        if is_fresh(marked, t) {
            (before.push(t), marked.insert(ticket_days(t).0).insert(ticket_days(t).1))
        } else {
            (before, marked)
        }
    }
}

/// Whether two tickets are for the same car and share a day.
pub open spec fn share_a_day(a: TicketView, b: TicketView) -> bool {
    ||| ticket_days(a).0 == ticket_days(b).0
    ||| ticket_days(a).0 == ticket_days(b).1
    ||| ticket_days(a).1 == ticket_days(b).0
    ||| ticket_days(a).1 == ticket_days(b).1
}

/// A dispatcher sends no two tickets for one car that share a day.
pub proof fn law_one_ticket_a_day(days: Set<TicketedDay>, tickets: Seq<TicketView>)
    ensures
        forall|i: int, j: int|
            0 <= i < j < sent(days, tickets).0.len() ==> !share_a_day(
                #[trigger] sent(days, tickets).0[i],
                #[trigger] sent(days, tickets).0[j],
            ),
{
    lemma_sent(days, tickets);
}

proof fn lemma_sent(days: Set<TicketedDay>, tickets: Seq<TicketView>)
    ensures
        forall|i: int, j: int|
            0 <= i < j < sent(days, tickets).0.len() ==> !share_a_day(
                #[trigger] sent(days, tickets).0[i],
                #[trigger] sent(days, tickets).0[j],
            ),
        forall|i: int|
            0 <= i < sent(days, tickets).0.len() ==> sent(days, tickets).1.contains(
                ticket_days(#[trigger] sent(days, tickets).0[i]).0,
            ) && sent(days, tickets).1.contains(ticket_days(sent(days, tickets).0[i]).1),
    decreases tickets.len(),
{
    if tickets.len() > 0 {
        lemma_sent(days, tickets.drop_last());
        let (before, marked) = sent(days, tickets.drop_last());
        let (now, marked_now) = sent(days, tickets);
        assert forall|i: int| 0 <= i < now.len() implies marked_now.contains(
            ticket_days(#[trigger] now[i]).0,
        ) && marked_now.contains(ticket_days(now[i]).1) by {
            if i < before.len() {
                assert(now[i] == before[i]);
            }
        }
        assert forall|i: int, j: int| 0 <= i < j < now.len() implies !share_a_day(
            #[trigger] now[i],
            #[trigger] now[j],
        ) by {
            assert(now[i] == before[i]);
            if j < before.len() {
                assert(now[j] == before[j]);
            }
        }
    }
}

/// The average speed is the whole number nearest to the distance over the time, in miles per hour, with
/// halves upwards, as far as sixteen bits go; without any time it is as fast as they hold, unless there
/// is no distance either.
pub proof fn law_speed_is_the_nearest_whole_number(distance: int, time: int)
    requires
        0 <= distance,
        0 <= time,
    ensures
        0 <= average(distance, time) <= 65535,
        time > 0 && average(distance, time) < 65535 ==> 7200 * distance < (2 * average(
            distance,
            time,
        ) + 1) * time,
        time > 0 ==> (2 * average(distance, time) - 1) * time <= 7200 * distance,
        time == 0 && distance == 0 ==> average(distance, time) == 0,
        time == 0 && distance > 0 ==> average(distance, time) == 65535,
{
    if time > 0 {
        let a = 7200 * distance + time;
        let b = 2 * time;
        let q = a / b;
        assert(q * b <= a < q * b + b && q >= 0) by (nonlinear_arith)
            requires
                a >= 0,
                b > 0,
                q == a / b,
        ;
        assert(q * b == (2 * q) * time) by (nonlinear_arith)
            requires
                b == 2 * time,
        ;
        assert((2 * q - 1) * time == (2 * q) * time - time) by (nonlinear_arith);
        assert((2 * q + 1) * time == (2 * q) * time + time) by (nonlinear_arith);
        let s = average(distance, time);
        assert((2 * s - 1) * time <= (2 * q - 1) * time) by (nonlinear_arith)
            requires
                s <= q,
                time > 0,
        ;
    }
}

/// The speed of a car is the same whichever way it drives, and the same whichever observation comes
/// first: it is taken over the miles and the seconds between the two.
pub proof fn law_speed_is_taken_between(c: CameraComparisonView, miles: int, seconds: int)
    requires
        0 <= miles,
        0 <= seconds,
        c.mile1 + miles == c.mile2 || c.mile2 + miles == c.mile1,
        c.timestamp1 + seconds == c.timestamp2 || c.timestamp2 + seconds == c.timestamp1,
    ensures
        speed(c) == average(miles, seconds),
{
}

/// On a ticket each mile stands beside its own time, in the order of the comparison, whichever mile is
/// greater; the plate and the road are those of the comparison, and the speed is in hundredths.
pub proof fn law_tickets_say_what_was_seen(c: CameraComparisonView)
    ensures
        ticket(c).plate == c.plate,
        ticket(c).road == c.road,
        (ticket(c).mile1, ticket(c).timestamp1) == (c.mile1, c.timestamp1),
        (ticket(c).mile2, ticket(c).timestamp2) == (c.mile2, c.timestamp2),
        speed(c) * 100 <= 65535 ==> ticket(c).speed == speed(c) * 100,
{
    law_speed_is_the_nearest_whole_number(
        difference(c.mile1 as int, c.mile2 as int),
        difference(c.timestamp1 as int, c.timestamp2 as int),
    );
}

/// A day is 86400 seconds, and they are counted on without end: two times have the same day exactly if
/// they lie in the same one.
pub proof fn law_days_are_counted(a: u32, b: u32)
    ensures
        86400 * day(a) <= a < 86400 * (day(a) + 1),
        day(a) == day(b) <==> 86400 * day(a) <= b < 86400 * (day(a) + 1),
        a + 86400 <= b ==> day(a) < day(b),
{
}

/// The days of a ticket are those of its two times, and they are its car's.
pub proof fn law_ticket_days_are_of_its_times(t: TicketView)
    ensures
        ticket_days(t).0.0 == t.plate,
        ticket_days(t).1.0 == t.plate,
        86400 * ticket_days(t).0.1 <= t.timestamp1 < 86400 * (ticket_days(t).0.1 + 1),
        86400 * ticket_days(t).1.1 <= t.timestamp2 < 86400 * (ticket_days(t).1.1 + 1),
{
}

/// Whether two times lie within one day.
pub open spec fn within_one_day(a: u32, b: u32) -> bool {
    a as int / 86400 == b as int / 86400
}

/// A ticket for a car of which no ticket was sent is sent, and then each other ticket for it is sent
/// exactly if none of its times lies within one day with a time of the first; tickets for other cars
/// are sent as if there were none for it.
pub proof fn law_tickets_for_other_days_are_sent(
    days: Set<TicketedDay>,
    first: TicketView,
    second: TicketView,
)
    requires
        forall|d: u32| !#[trigger] days.contains((first.plate, d)),
    ensures
        sent(days, seq![first]).0 == seq![first],
        first.plate == second.plate ==> sent(days, seq![first, second]).0 == if within_one_day(
            first.timestamp1,
            second.timestamp1,
        ) || within_one_day(first.timestamp1, second.timestamp2) || within_one_day(
            first.timestamp2,
            second.timestamp1,
        ) || within_one_day(first.timestamp2, second.timestamp2) {
            seq![first]
        } else {
            seq![first, second]
        },
        first.plate != second.plate ==> sent(days, seq![first, second]).0 == seq![first] + sent(
            days,
            seq![second],
        ).0,
{
    let none = Seq::<TicketView>::empty();
    assert(seq![first].drop_last() == none);
    assert(seq![second].drop_last() == none);
    assert(seq![first, second].drop_last() == seq![first]);
    assert(sent(days, none) == (none, days));
    assert(!days.contains((first.plate, day(first.timestamp1))));
    assert(!days.contains((first.plate, day(first.timestamp2))));
    assert(sent(days, seq![first]).0 == none.push(first));
    assert(none.push(first) == seq![first]);
    assert(seq![first].push(second) == seq![first, second]);
    assert(none.push(second) == seq![second]);
    assert(seq![first] + seq![second] == seq![first, second]);
    assert(seq![first] + none == seq![first]);
    if first.plate == second.plate {
        assert(!days.contains((first.plate, day(second.timestamp1))));
        assert(!days.contains((first.plate, day(second.timestamp2))));
    }
}

/// Two tickets for a car are both sent if none was sent for it before and the times of the one are a
/// day or more apart from those of the other.
pub proof fn law_tickets_a_day_apart_are_sent(
    days: Set<TicketedDay>,
    first: TicketView,
    second: TicketView,
)
    requires
        first.plate == second.plate,
        forall|d: u32| !#[trigger] days.contains((first.plate, d)),
        difference(first.timestamp1 as int, second.timestamp1 as int) >= 86400,
        difference(first.timestamp1 as int, second.timestamp2 as int) >= 86400,
        difference(first.timestamp2 as int, second.timestamp1 as int) >= 86400,
        difference(first.timestamp2 as int, second.timestamp2 as int) >= 86400,
    ensures
        sent(days, seq![first, second]).0 == seq![first, second],
{
    law_tickets_for_other_days_are_sent(days, first, second);
}

/// A day that has its ticket keeps it: nothing that is sent later makes room for another.
pub proof fn law_ticketed_days_stay(days: Set<TicketedDay>, tickets: Seq<TicketView>, d: TicketedDay)
    requires
        days.contains(d),
    ensures
        sent(days, tickets).1.contains(d),
        forall|i: int|
            0 <= i < sent(days, tickets).0.len() ==> ticket_days(
                #[trigger] sent(days, tickets).0[i],
            ).0 != d && ticket_days(sent(days, tickets).0[i]).1 != d,
    decreases tickets.len(),
{
    if tickets.len() > 0 {
        law_ticketed_days_stay(days, tickets.drop_last(), d);
    }
}

} // verus!
