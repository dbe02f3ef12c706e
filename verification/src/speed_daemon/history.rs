//! What the cameras have seen, and which of their reports belong together.

use vstd::hash_map::StringHashMap;
use vstd::prelude::*;
use vstd::string::*;

use std::collections::BTreeMap;
use std::collections::HashMap;

use crate::speed_daemon::message::PlateReading;
use crate::speed_daemon::message::PlateReadingView;

verus! {

/// Where a camera stands, and how fast a car may be there.
#[derive(Debug, Clone, Copy, PartialEq, Eq, Structural)]
pub struct CameraState {
    pub road: u16,
    pub mile: u16,
    pub limit: u16,
}

/// A plate that a camera saw, and which camera.
#[derive(Debug, PartialEq, Eq)]
pub struct PlateReport {
    pub camera_state: CameraState,
    pub plate_reading: PlateReading,
}

/// The mathematical counterpart of [`PlateReport`].
pub struct PlateReportView {
    pub camera_state: CameraState,
    pub plate_reading: PlateReadingView,
}

impl View for PlateReport {
    type V = PlateReportView;

    open spec fn view(&self) -> PlateReportView {
        PlateReportView { camera_state: self.camera_state, plate_reading: self.plate_reading@ }
    }
}

/// Two places at which a car was seen on a road, the earlier one first.
#[derive(Debug, PartialEq, Eq)]
pub struct CameraComparison {
    pub plate: String,
    pub road: u16,
    pub limit: u16,
    pub mile1: u16,
    pub timestamp1: u32,
    pub mile2: u16,
    pub timestamp2: u32,
}

/// The mathematical counterpart of [`CameraComparison`].
pub struct CameraComparisonView {
    pub plate: Seq<char>,
    pub road: u16,
    pub limit: u16,
    pub mile1: u16,
    pub timestamp1: u32,
    pub mile2: u16,
    pub timestamp2: u32,
}

impl View for CameraComparison {
    type V = CameraComparisonView;

    open spec fn view(&self) -> CameraComparisonView {
        CameraComparisonView {
            plate: self.plate@,
            road: self.road,
            limit: self.limit,
            mile1: self.mile1,
            timestamp1: self.timestamp1,
            mile2: self.mile2,
            timestamp2: self.timestamp2,
        }
    }
}

/// Whether `k` is the last time before `t` at which the car was seen.
pub open spec fn is_before(seen: Map<u32, u16>, t: u32, k: u32) -> bool {
    &&& seen.contains_key(k)
    &&& k < t
    &&& forall|j: u32| #[trigger] seen.contains_key(j) && j < t ==> j <= k
}

/// Whether `k` is the first time after `t` at which the car was seen.
pub open spec fn is_after(seen: Map<u32, u16>, t: u32, k: u32) -> bool {
    &&& seen.contains_key(k)
    &&& k > t
    &&& forall|j: u32| #[trigger] seen.contains_key(j) && j > t ==> j >= k
}

/// The last time before `t` at which the car was seen, if there is one.
pub open spec fn before(seen: Map<u32, u16>, t: u32) -> Option<u32> {
    if exists|k: u32| is_before(seen, t, k) {
        Some(choose|k: u32| is_before(seen, t, k))
    } else {
        None
    }
}

/// The first time after `t` at which the car was seen, if there is one.
pub open spec fn after(seen: Map<u32, u16>, t: u32) -> Option<u32> {
    if exists|k: u32| is_after(seen, t, k) {
        Some(choose|k: u32| is_after(seen, t, k))
    } else {
        None
    }
}

/// The comparison of a report with the one before it.
pub open spec fn comparison_before(seen: Map<u32, u16>, r: PlateReportView) -> Seq<
    CameraComparisonView,
> {
    match before(seen, r.plate_reading.timestamp) {
        Some(k) => seq![
            CameraComparisonView {
                plate: r.plate_reading.plate,
                road: r.camera_state.road,
                limit: r.camera_state.limit,
                mile1: seen[k],
                timestamp1: k,
                mile2: r.camera_state.mile,
                timestamp2: r.plate_reading.timestamp,
            },
        ],
        None => Seq::empty(),
    }
}

/// The comparison of a report with the one after it.
pub open spec fn comparison_after(seen: Map<u32, u16>, r: PlateReportView) -> Seq<
    CameraComparisonView,
> {
    match after(seen, r.plate_reading.timestamp) {
        Some(k) => seq![
            CameraComparisonView {
                plate: r.plate_reading.plate,
                road: r.camera_state.road,
                limit: r.camera_state.limit,
                mile1: r.camera_state.mile,
                timestamp1: r.plate_reading.timestamp,
                mile2: seen[k],
                timestamp2: k,
            },
        ],
        None => Seq::empty(),
    }
}

/// The views of a sequence of comparisons.
pub open spec fn comparison_views(s: Seq<CameraComparison>) -> Seq<CameraComparisonView> {
    s.map_values(|c: CameraComparison| c@)
}

/// Finds the last time before `t`, and the mile at which the car was then.
fn find_before(seen: &BTreeMap<u32, u16>, t: u32) -> (out: Option<(u32, u16)>)
    ensures
        match out {
            Some((k, mile)) => before(seen@, t) == Some(k) && seen@[k] == mile,
            None => before(seen@, t) is None,
        },
{
    let mut best: Option<(u32, u16)> = None;
    let entries = seen.iter();
    let ghost kv = vstd::std_specs::iter::IteratorSpec::remaining(&entries);
    for e in it: entries
        invariant
            it.seq() == kv,
            forall|i: int|
                0 <= i < kv.len() ==> seen@.contains_key(*(#[trigger] kv[i]).0) && seen@[*kv[i].0]
                    == *kv[i].1,
            match best {
                Some((k, mile)) => {
                    &&& seen@.contains_key(k) && seen@[k] == mile && k < t
                    &&& forall|i: int| 0 <= i < it.index() && *(#[trigger] kv[i]).0 < t ==> *kv[i].0 <= k
                },
                None => forall|i: int| 0 <= i < it.index() ==> *(#[trigger] kv[i]).0 >= t,
            },
    {
        let (k, mile) = e;
        if *k < t {
            let later = match best {
                Some((b, _mile)) => b < *k,
                None => true,
            };
            if later {
                best = Some((*k, *mile));
            }
        }
    }
    proof {
        assert forall|j: u32| #[trigger] seen@.contains_key(j) implies exists|i: int|
            0 <= i < kv.len() && *(#[trigger] kv[i]).0 == j by {
            assert(kv.contains((&j, &seen@[j])));
        }
        if let Some((k, mile)) = best {
            assert(is_before(seen@, t, k));
        }
    }
    best
}

/// Finds the first time after `t`, and the mile at which the car was then.
fn find_after(seen: &BTreeMap<u32, u16>, t: u32) -> (out: Option<(u32, u16)>)
    ensures
        match out {
            Some((k, mile)) => after(seen@, t) == Some(k) && seen@[k] == mile,
            None => after(seen@, t) is None,
        },
{
    let mut best: Option<(u32, u16)> = None;
    let entries = seen.iter();
    let ghost kv = vstd::std_specs::iter::IteratorSpec::remaining(&entries);
    for e in it: entries
        invariant
            it.seq() == kv,
            forall|i: int|
                0 <= i < kv.len() ==> seen@.contains_key(*(#[trigger] kv[i]).0) && seen@[*kv[i].0]
                    == *kv[i].1,
            match best {
                Some((k, mile)) => {
                    &&& seen@.contains_key(k) && seen@[k] == mile && k > t
                    &&& forall|i: int| 0 <= i < it.index() && *(#[trigger] kv[i]).0 > t ==> *kv[i].0 >= k
                },
                None => forall|i: int| 0 <= i < it.index() ==> *(#[trigger] kv[i]).0 <= t,
            },
    {
        let (k, mile) = e;
        if *k > t {
            let earlier = match best {
                Some((b, _mile)) => *k < b,
                None => true,
            };
            if earlier {
                best = Some((*k, *mile));
            }
        }
    }
    proof {
        assert forall|j: u32| #[trigger] seen@.contains_key(j) implies exists|i: int|
            0 <= i < kv.len() && *(#[trigger] kv[i]).0 == j by {
            assert(kv.contains((&j, &seen@[j])));
        }
        if let Some((k, mile)) = best {
            assert(is_after(seen@, t, k));
        }
    }
    best
}

/// What the cameras of all roads have seen.
pub struct PlateHistory {
    /// The place of each plate in `cars`.
    plates: StringHashMap<usize>,
    /// For each plate and road, where the car was at which time.
    cars: Vec<HashMap<u16, BTreeMap<u32, u16>>>,
}

impl PlateHistory {
    /// Each plate has a place of its own.
    pub closed spec fn wf(self) -> bool {
        &&& forall|p: Seq<char>| #[trigger]
            self.plates@.contains_key(p) ==> self.plates@[p] < self.cars@.len()
        &&& forall|p: Seq<char>, q: Seq<char>|
            #![trigger self.plates@[p], self.plates@[q]]
            self.plates@.contains_key(p) && self.plates@.contains_key(q) && p != q
                ==> self.plates@[p] != self.plates@[q]
    }

    /// Where the car with this plate was on this road at which time.
    pub closed spec fn seen(self, road: u16, plate: Seq<char>) -> Map<u32, u16> {
        if self.plates@.contains_key(plate) {
            let car = self.cars@[self.plates@[plate] as int]@;
            if car.contains_key(road) {
                car[road]@
            } else {
                Map::empty()
            }
        } else {
            Map::empty()
        }
    }

    /// No car has been seen.
    pub fn new() -> (out: PlateHistory)
        ensures
            out.wf(),
            forall|road: u16, plate: Seq<char>| #[trigger]
                out.seen(road, plate) == Map::<u32, u16>::empty(),
    {
        PlateHistory { plates: StringHashMap::new(), cars: Vec::new() }
    }

    /// The place of a plate, which it may get only now.
    fn place(&mut self, plate: &str) -> (i: usize)
        requires
            old(self).wf(),
        ensures
            final(self).wf(),
            final(self).plates@.contains_key(plate@) && final(self).plates@[plate@] == i,
            i < final(self).cars@.len(),
            forall|r: u16, p: Seq<char>| #[trigger] final(self).seen(r, p) == old(self).seen(r, p),
    {
        match self.plates.get(plate) {
            Some(i) => *i,
            None => {
                let i: usize = self.cars.len();
                self.cars.push(HashMap::new());
                self.plates.insert(plate.to_owned(), i);
                i
            },
        }
    }

    /// Takes a report in, and gives what it is to be held against: the report before it and the
    /// one after it, of the same car on the same road.
    pub fn record(&mut self, report: PlateReport) -> (out: Vec<CameraComparison>)
        requires
            old(self).wf(),
        ensures
            final(self).wf(),
            ({
                let road = report.camera_state.road;
                let plate = report.plate_reading.plate@;
                let seen = old(self).seen(road, plate).insert(
                    report.plate_reading.timestamp,
                    report.camera_state.mile,
                );
                &&& final(self).seen(road, plate) == seen
                &&& forall|r: u16, p: Seq<char>|
                    (r, p) != (road, plate) ==> #[trigger] final(self).seen(r, p) == old(self).seen(
                        r,
                        p,
                    )
                &&& comparison_views(out@) == comparison_before(seen, report@) + comparison_after(
                    seen,
                    report@,
                )
            }),
            forall|i: int|
                0 <= i < out@.len() ==> {
                    &&& (#[trigger] out@[i]).plate@ == report.plate_reading.plate@
                    &&& out@[i].road == report.camera_state.road
                    &&& out@[i].limit == report.camera_state.limit
                    &&& out@[i].timestamp1 < out@[i].timestamp2
                    &&& (out@[i].mile1 == report.camera_state.mile && out@[i].timestamp1
                        == report.plate_reading.timestamp) || (out@[i].mile2
                        == report.camera_state.mile && out@[i].timestamp2
                        == report.plate_reading.timestamp)
                },
    {
        let camera = report.camera_state;
        let PlateReading { plate, timestamp } = report.plate_reading;
        let place: usize = self.place(plate.as_str());
        let ghost placed = *self;
        let readings = self.cars[place].entry(camera.road).or_insert(BTreeMap::new());
        readings.insert(timestamp, camera.mile);
        let prev: Option<(u32, u16)> = find_before(readings, timestamp);
        let next: Option<(u32, u16)> = find_after(readings, timestamp);
        let ghost seen = readings@;
        let mut out: Vec<CameraComparison> = Vec::new();
        if let Some((prev_timestamp, prev_mile)) = prev {
            out.push(
                CameraComparison {
                    plate: plate.clone(),
                    road: camera.road,
                    limit: camera.limit,
                    mile1: prev_mile,
                    timestamp1: prev_timestamp,
                    mile2: camera.mile,
                    timestamp2: timestamp,
                },
            );
        }
        let ghost first = out@;
        assert(comparison_views(first) == comparison_before(seen, report@));
        if let Some((next_timestamp, next_mile)) = next {
            out.push(
                CameraComparison {
                    plate,
                    road: camera.road,
                    limit: camera.limit,
                    mile1: camera.mile,
                    timestamp1: timestamp,
                    mile2: next_mile,
                    timestamp2: next_timestamp,
                },
            );
        }
        assert(comparison_views(out@) == comparison_views(first) + comparison_after(seen, report@));
        proof {
            let road = camera.road;
            let p0 = report.plate_reading.plate@;
            assert(seen == placed.seen(road, p0).insert(timestamp, camera.mile));
            assert(self.plates@ == placed.plates@);
            assert(self.cars@[place as int]@.contains_key(road));
            assert(self.cars@[place as int]@[road]@ == seen);
            assert(self.seen(road, p0) == seen);
            assert forall|r: u16, p: Seq<char>| (r, p) != (road, p0) implies #[trigger] self.seen(
                r,
                p,
            ) == placed.seen(r, p) by {}
        }
        out
    }
}

/// Where the car was seen before `t`, there is a last such time; and there is only one.
pub proof fn law_earlier_report_is_found(seen: Map<u32, u16>, t: u32, j: u32)
    requires
        seen.contains_key(j),
        j < t,
    ensures
        before(seen, t) matches Some(k) && is_before(seen, t, k),
        forall|k: u32| is_before(seen, t, k) ==> before(seen, t) == Some(k),
    decreases t - j,
{
    if forall|i: u32| #[trigger] seen.contains_key(i) && i < t ==> i <= j {
        assert(is_before(seen, t, j));
    } else {
        let i = choose|i: u32| #[trigger] seen.contains_key(i) && i < t && i > j;
        law_earlier_report_is_found(seen, t, i);
    }
}

/// Where the car was seen after `t`, there is a first such time; and there is only one.
pub proof fn law_later_report_is_found(seen: Map<u32, u16>, t: u32, j: u32)
    requires
        seen.contains_key(j),
        j > t,
    ensures
        after(seen, t) matches Some(k) && is_after(seen, t, k),
        forall|k: u32| is_after(seen, t, k) ==> after(seen, t) == Some(k),
    decreases j - t,
{
    if forall|i: u32| #[trigger] seen.contains_key(i) && i > t ==> i >= j {
        assert(is_after(seen, t, j));
    } else {
        let i = choose|i: u32| #[trigger] seen.contains_key(i) && i > t && i < j;
        law_later_report_is_found(seen, t, i);
    }
}

/// The reports of a car may come in any order: two that are neighbours among `all` of them are held
/// against each other by whichever comes later, when no more than `seen` has come.
pub proof fn law_neighbours_are_compared_in_any_order(
    all: Map<u32, u16>,
    seen: Map<u32, u16>,
    first: u32,
    second: u32,
)
    requires
        is_before(all, second, first),
        forall|j: u32| #[trigger] seen.contains_key(j) ==> all.contains_key(j),
        seen.contains_key(first),
        seen.contains_key(second),
    ensures
        before(seen, second) == Some(first),
        after(seen, first) == Some(second),
{
    assert(is_before(seen, second, first));
    law_earlier_report_is_found(seen, second, first);
    assert(is_after(seen, first, second)) by {
        assert forall|j: u32| #[trigger] seen.contains_key(j) && j > first implies j >= second by {
            assert(all.contains_key(j));
        }
    }
    law_later_report_is_found(seen, first, second);
}

/// Of two reports that are neighbours, it makes no difference which comes last: what is held against
/// each other is the same.
pub proof fn law_order_of_reports_makes_no_difference(
    seen: Map<u32, u16>,
    first: PlateReportView,
    second: PlateReportView,
)
    requires
        first.plate_reading.plate == second.plate_reading.plate,
        first.camera_state.road == second.camera_state.road,
        first.camera_state.limit == second.camera_state.limit,
        seen.contains_key(second.plate_reading.timestamp),
        seen[first.plate_reading.timestamp] == first.camera_state.mile,
        seen[second.plate_reading.timestamp] == second.camera_state.mile,
        is_before(seen, second.plate_reading.timestamp, first.plate_reading.timestamp),
    ensures
        comparison_before(seen, second) == comparison_after(seen, first),
        comparison_before(seen, second).len() == 1,
{
    law_neighbours_are_compared_in_any_order(
        seen,
        seen,
        first.plate_reading.timestamp,
        second.plate_reading.timestamp,
    );
}

/// What is compared happened in the order in which it is given, and never at one time.
pub proof fn law_compared_reports_are_in_order(seen: Map<u32, u16>, r: PlateReportView)
    ensures
        forall|i: int|
            #![trigger comparison_before(seen, r)[i]]
            0 <= i < comparison_before(seen, r).len() ==> comparison_before(seen, r)[i].timestamp1
                < comparison_before(seen, r)[i].timestamp2,
        forall|i: int|
            #![trigger comparison_after(seen, r)[i]]
            0 <= i < comparison_after(seen, r).len() ==> comparison_after(seen, r)[i].timestamp1
                < comparison_after(seen, r)[i].timestamp2,
{
}

/// A report is held against the last one before it and the first one after it, each with its own mile
/// and time; and what is compared carries the plate of the report and the road and the limit of its
/// camera.
pub proof fn law_reports_are_held_against_their_neighbours(
    seen: Map<u32, u16>,
    r: PlateReportView,
    j: u32,
)
    ensures
        ({
            let all = comparison_before(seen, r) + comparison_after(seen, r);
            forall|i: int|
                0 <= i < all.len() ==> {
                    &&& (#[trigger] all[i]).plate == r.plate_reading.plate
                    &&& all[i].road == r.camera_state.road
                    &&& all[i].limit == r.camera_state.limit
                }
        }),
        comparison_before(seen, r).len() <= 1,
        comparison_after(seen, r).len() <= 1,
        seen.contains_key(j) && j < r.plate_reading.timestamp ==> comparison_before(seen, r).len()
            == 1 && j <= comparison_before(seen, r)[0].timestamp1,
        seen.contains_key(j) && j > r.plate_reading.timestamp ==> comparison_after(seen, r).len()
            == 1 && comparison_after(seen, r)[0].timestamp2 <= j,
        comparison_before(seen, r).len() == 1 ==> ({
            let c = comparison_before(seen, r)[0];
            &&& seen.contains_key(c.timestamp1)
            &&& c.timestamp1 < r.plate_reading.timestamp
            &&& c.mile1 == seen[c.timestamp1]
            &&& c.mile2 == r.camera_state.mile
            &&& c.timestamp2 == r.plate_reading.timestamp
        }),
        comparison_after(seen, r).len() == 1 ==> ({
            let c = comparison_after(seen, r)[0];
            &&& seen.contains_key(c.timestamp2)
            &&& r.plate_reading.timestamp < c.timestamp2
            &&& c.mile2 == seen[c.timestamp2]
            &&& c.mile1 == r.camera_state.mile
            &&& c.timestamp1 == r.plate_reading.timestamp
        }),
{
    let t = r.plate_reading.timestamp;
    if seen.contains_key(j) && j < t {
        law_earlier_report_is_found(seen, t, j);
    }
    if seen.contains_key(j) && j > t {
        law_later_report_is_found(seen, t, j);
    }
}

/// What a report and a comparison show of themselves is what they hold, and comparisons keep their
/// places.
pub proof fn law_reports_show_what_they_hold(
    r: PlateReport,
    c: CameraComparison,
    all: Seq<CameraComparison>,
    i: int,
)
    ensures
        r@.camera_state == r.camera_state,
        r@.plate_reading.plate == r.plate_reading.plate@,
        r@.plate_reading.timestamp == r.plate_reading.timestamp,
        c@.plate == c.plate@,
        c@.road == c.road,
        c@.limit == c.limit,
        c@.mile1 == c.mile1,
        c@.timestamp1 == c.timestamp1,
        c@.mile2 == c.mile2,
        c@.timestamp2 == c.timestamp2,
        comparison_views(all).len() == all.len(),
        0 <= i < all.len() ==> comparison_views(all)[i] == all[i]@,
{
}

} // verus!
