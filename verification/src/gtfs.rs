//! Schedule data model and the shape-timeline interpolator: assigning a
//! wall-clock time to every point along a vehicle's route.
use vstd::prelude::*;
use vstd::string::StrSliceExecFns;

verus! {

/// A geographic coordinate held as integer micro-degrees.
#[derive(Clone, Copy, Debug, PartialEq, Eq, Structural)]
pub struct Coord {
    pub lat_micro: i64,
    pub lon_micro: i64,
}

/// A scheduled stop of one trip, with times in milliseconds since midnight
/// (values beyond 24h are legal: overnight blocks keep counting).
#[derive(Debug)]
pub struct Stop {
    pub trip_id: String,
    pub stop_id: String,
    pub stop_name: String,
    pub arrival_time: u64,
    pub departure_time: u64,
    pub coord: Coord,
}

/// A vertex of a route's path, ordered by sequence number; `time` is assigned
/// by the interpolator (milliseconds).
#[derive(Debug)]
pub struct ShapePoint {
    pub shape_id: String,
    pub coord: Coord,
    pub shape_pt_sequence: u64,
    pub time: Option<u64>,
}

/// One physical vehicle's concatenated trips: its stops and route vertices.
#[derive(Debug)]
pub struct PartialBlock {
    pub block_id: String,
    pub route_id: String,
    pub stops: Vec<Stop>,
    pub shape_points: Vec<ShapePoint>,
}

impl Clone for Stop {
    fn clone(&self) -> (r: Self)
        ensures
            r == *self,
    {
        Stop {
            trip_id: self.trip_id.clone(),
            stop_id: self.stop_id.clone(),
            stop_name: self.stop_name.clone(),
            arrival_time: self.arrival_time,
            departure_time: self.departure_time,
            coord: self.coord,
        }
    }
}

impl Clone for ShapePoint {
    fn clone(&self) -> (r: Self)
        ensures
            r == *self,
    {
        ShapePoint {
            shape_id: self.shape_id.clone(),
            coord: self.coord,
            shape_pt_sequence: self.shape_pt_sequence,
            time: self.time,
        }
    }
}

impl Clone for PartialBlock {
    fn clone(&self) -> (r: Self)
        ensures
            r.block_id == self.block_id,
            r.route_id == self.route_id,
            r.stops@ == self.stops@,
            r.shape_points@ == self.shape_points@,
    {
        let stops = self.stops.clone();
        let shape_points = self.shape_points.clone();
        proof {
            assert(stops@ =~= self.stops@);
            assert(shape_points@ =~= self.shape_points@);
        }
        PartialBlock {
            block_id: self.block_id.clone(),
            route_id: self.route_id.clone(),
            stops,
            shape_points,
        }
    }
}

/// Gather the shape points of every block into one vector, in block order.
pub fn get_shape_points_from_trips(trips: &[PartialBlock]) -> (r: Vec<ShapePoint>)
    ensures
        r@.len() == trips@.map_values(|t: PartialBlock| t.shape_points@).flatten().len(),
        r@ == trips@.map_values(|t: PartialBlock| t.shape_points@).flatten(),
{
    let mut shape_points: Vec<ShapePoint> = Vec::new();
    let ghost all = trips@.map_values(|t: PartialBlock| t.shape_points@);
    proof {
        assert(all.take(0).flatten() =~= Seq::<ShapePoint>::empty());
    }
    for i in 0..trips.len()
        invariant
            all == trips@.map_values(|t: PartialBlock| t.shape_points@),
            shape_points@ == all.take(i as int).flatten(),
    {
        let trip = &trips[i];
        let mut j: usize = 0;
        while j < trip.shape_points.len()
            invariant
                all == trips@.map_values(|t: PartialBlock| t.shape_points@),
                i < trips@.len(),
                trip == trips@[i as int],
                j <= trip.shape_points@.len(),
                shape_points@ == all.take(i as int).flatten() + trip.shape_points@.take(
                    j as int,
                ),
            decreases trip.shape_points@.len() - j,
        {
            shape_points.push(trip.shape_points[j].clone());
            proof {
                assert(trip.shape_points@.take(j + 1) =~= trip.shape_points@.take(j as int).push(
                    trip.shape_points@[j as int],
                ));
            }
            j += 1;
        }
        proof {
            assert(trip.shape_points@.take(trip.shape_points@.len() as int) =~= trip.shape_points@);
            assert(all.take(i + 1) =~= all.take(i as int).push(trip.shape_points@));
            all.take(i as int).lemma_flatten_push(trip.shape_points@);
        }
    }
    proof {
        assert(all.take(trips@.len() as int) =~= all);
    }
    shape_points
}

/// Whether a timed point survives the window filter.
pub open spec fn in_window(p: ShapePoint, start: u64, end: u64) -> bool {
    p.time is Some && start <= p.time->0 <= end
}

/// Discard every shape point without a time, or whose time falls outside the
/// requested `[start, end]` window (milliseconds).
pub fn filter_points_to_window(points: Vec<ShapePoint>, start: u64, end: u64) -> (r: Vec<
    ShapePoint,
>)
    ensures
        r@ == points@.filter(|p: ShapePoint| in_window(p, start, end)),
{
    let ghost pred = |p: ShapePoint| in_window(p, start, end);
    let mut r: Vec<ShapePoint> = Vec::new();
    proof {
        reveal(Seq::filter);
        assert(points@.take(0).filter(pred) =~= Seq::<ShapePoint>::empty());
    }
    let mut i: usize = 0;
    while i < points.len()
        invariant
            i <= points@.len(),
            r@ == points@.take(i as int).filter(pred),
            pred == (|p: ShapePoint| in_window(p, start, end)),
        decreases points@.len() - i,
    {
        let p = &points[i];
        let keep = match p.time {
            Some(t) => start <= t && t <= end,
            None => false,
        };
        if keep {
            r.push(points[i].clone());
        }
        proof {
            reveal(Seq::filter);
            assert(points@.take(i + 1).drop_last() =~= points@.take(i as int));
            assert(points@.take(i + 1).last() == points@[i as int]);
            assert(keep == pred(points@[i as int]));
        }
        i += 1;
    }
    proof {
        assert(points@.take(points@.len() as int) =~= points@);
    }
    r
}

/// Whether the stop at position `i` belongs to the window: it overlaps
/// `[start, end]` itself, or it is an interior stop directly beyond one edge
/// of the window while its neighbour is inside.
pub open spec fn stop_in_range(stops: Seq<Stop>, i: int, start: u64, end: u64) -> bool {
    let arr = stops[i].arrival_time;
    let dep = stops[i].departure_time;
    (dep >= start && arr <= end) || (0 < i < stops.len() - 1 && ((stops[i - 1].departure_time < end
        && arr > end) || (stops[i + 1].arrival_time > start && dep < start)))
}

/// The stops the window keeps, in order.
pub open spec fn stops_in_range_spec(stops: Seq<Stop>, i: int, start: u64, end: u64) -> Seq<Stop>
    decreases stops.len() - i,
{
    if i < 0 || i >= stops.len() {
        Seq::empty()
    } else {
        (if stop_in_range(stops, i, start, end) {
            seq![stops[i]]
        } else {
            Seq::empty()
        }) + stops_in_range_spec(stops, i + 1, start, end)
    }
}

/// Keep the stops that belong to the `[start, end]` window, including an
/// interior stop directly beyond the window's edge whose neighbour is inside.
pub fn filter_stops_in_range(stops: &Vec<Stop>, start: u64, end: u64) -> (r: Vec<Stop>)
    ensures
        r@ == stops_in_range_spec(stops@, 0, start, end),
{
    let mut r: Vec<Stop> = Vec::new();
    let mut i: usize = 0;
    proof {
        assert(r@ + stops_in_range_spec(stops@, 0, start, end) =~= stops_in_range_spec(
            stops@,
            0,
            start,
            end,
        ));
    }
    while i < stops.len()
        invariant
            i <= stops@.len(),
            stops_in_range_spec(stops@, 0, start, end) == r@ + stops_in_range_spec(
                stops@,
                i as int,
                start,
                end,
            ),
        decreases stops@.len() - i,
    {
        let keep_direct = stops[i].departure_time >= start && stops[i].arrival_time <= end;
        let keep_edge = if !keep_direct && i > 0 && i < stops.len() - 1 {
            (stops[i - 1].departure_time < end && stops[i].arrival_time > end) || (stops[i
                + 1].arrival_time > start && stops[i].departure_time < start)
        } else {
            false
        };
        if keep_direct || keep_edge {
            r.push(stops[i].clone());
            proof {
                assert(seq![stops@[i as int]] + stops_in_range_spec(stops@, i + 1, start, end)
                    =~= seq![stops@[i as int]] + stops_in_range_spec(stops@, i + 1, start, end));
            }
        } else {
            proof {
                assert(Seq::<Stop>::empty() + stops_in_range_spec(stops@, i + 1, start, end)
                    =~= stops_in_range_spec(stops@, i + 1, start, end));
            }
        }
        proof {
            if keep_direct || keep_edge {
                assert(stop_in_range(stops@, i as int, start, end));
                assert(r@ + stops_in_range_spec(stops@, i + 1, start, end) =~= r@.drop_last() + (
                seq![stops@[i as int]] + stops_in_range_spec(stops@, i + 1, start, end)));
            } else {
                assert(!stop_in_range(stops@, i as int, start, end));
            }
        }
        i += 1;
    }
    proof {
        assert(stops_in_range_spec(stops@, stops@.len() as int, start, end)
            =~= Seq::<Stop>::empty());
        assert(r@ + Seq::<Stop>::empty() =~= r@);
    }
    r
}

/// The moment a vehicle is taken to sit at a stop: the midpoint of arrival
/// and departure, in milliseconds.
pub open spec fn stop_center_ms(s: Stop) -> u64 {
    (((s.arrival_time + s.departure_time) / 2) as u64)
}

/// The result of matching stops onto shape points: for each stop in order,
/// the nearest shape point gets the stop's midpoint time; when a point is
/// timed twice, the pair (its first time, the overwriting time) is remembered
/// for wraparound handling of circular blocks.
pub open spec fn assign_stop_times_spec(
    points: Seq<ShapePoint>,
    stops: Seq<Stop>,
    dists: Seq<Vec<u64>>,
    circ: Option<(u64, u64)>,
) -> (Seq<ShapePoint>, Option<(u64, u64)>)
    decreases stops.len(),
{
    if stops.len() == 0 || points.len() == 0 {
        (points, circ)
    } else {
        let idx = crate::cell_data::min_dist_index(dists[0]@);
        let center = stop_center_ms(stops[0]);
        let old_point = points[idx];
        let circ2 = if old_point.time is Some {
            Some((old_point.time->0, center))
        } else {
            circ
        };
        let points2 = points.update(
            idx,
            ShapePoint {
                shape_id: old_point.shape_id,
                coord: old_point.coord,
                shape_pt_sequence: old_point.shape_pt_sequence,
                time: Some(center),
            },
        );
        assign_stop_times_spec(points2, stops.drop_first(), dists.drop_first(), circ2)
    }
}

/// For each stop, in order, give the nearest shape point (`dists[s][p]` is
/// the distance from stop `s` to point `p`; ties go to the first point) the
/// stop's midpoint time. Returns the points and, if some point was timed
/// twice, the remembered (first time, last time) pair of a circular block.
pub fn assign_stop_times(
    points: Vec<ShapePoint>,
    stops: &Vec<Stop>,
    dists: &Vec<Vec<u64>>,
) -> (r: (Vec<ShapePoint>, Option<(u64, u64)>))
    requires
        dists@.len() == stops@.len(),
        forall|s: int| 0 <= s < dists@.len() ==> (#[trigger] dists@[s])@.len() == points@.len(),
    ensures
        (r.0@, r.1) == assign_stop_times_spec(points@, stops@, dists@, None),
{
    let ghost points0 = points@;
    let mut points = points;
    let mut circ: Option<(u64, u64)> = None;
    let mut s: usize = 0;
    proof {
        assert(dists@.skip(0) =~= dists@);
        assert(stops@.skip(0) =~= stops@);
    }
    while s < stops.len()
        invariant
            s <= stops@.len(),
            dists@.len() == stops@.len(),
            forall|w: int| 0 <= w < dists@.len() ==> (#[trigger] dists@[w])@.len() == points0.len(),
            points@.len() == points0.len(),
            assign_stop_times_spec(points0, stops@, dists@, None) == assign_stop_times_spec(
                points@,
                stops@.skip(s as int),
                dists@.skip(s as int),
                circ,
            ),
        decreases stops@.len() - s,
    {
        proof {
            assert(stops@.skip(s as int)[0] == stops@[s as int]);
            assert(stops@.skip(s as int).drop_first() =~= stops@.skip(s + 1));
            assert(dists@.skip(s as int)[0] == dists@[s as int]);
            assert(dists@.skip(s as int).drop_first() =~= dists@.skip(s + 1));
        }
        if points.len() == 0 {
            s += 1;
            proof {
                assert(assign_stop_times_spec(
                    points@,
                    stops@.skip(s - 1),
                    dists@.skip(s - 1),
                    circ,
                ) == assign_stop_times_spec(points@, stops@.skip(s as int), dists@.skip(s as int), circ));
            }
        } else {
            let row = &dists[s];
            proof {
                crate::cell_data::lemma_min_dist_index_ensures(row@);
            }
            let ghost m = points@;
            let mut idx: usize = 0;
            let mut j: usize = 1;
            while j < row.len()
                invariant
                    row@ == dists@[s as int]@,
                    row@.len() == m.len(),
                    m == points@,
                    0 <= idx < j <= row@.len(),
                    row@.len() > 0,
                    forall|w: int| 0 <= w < j ==> row@[idx as int] <= #[trigger] row@[w],
                    forall|w: int| 0 <= w < idx ==> #[trigger] row@[w] > row@[idx as int],
                decreases row@.len() - j,
            {
                if row[j] < row[idx] {
                    proof {
                        assert forall|w: int| 0 <= w < j implies #[trigger] row@[w] > row@[
                            j as int] by {
                            assert(row@[idx as int] <= row@[w]);
                        }
                    }
                    idx = j;
                }
                j += 1;
            }
            proof {
                let mi = crate::cell_data::min_dist_index(row@);
                if mi < idx {
                    assert(row@[mi] > row@[idx as int]);
                    assert(row@[mi] <= row@[idx as int]);
                }
                if idx < mi {
                    assert(row@[idx as int] > row@[mi]);
                    assert(row@[mi] <= row@[idx as int]);
                }
                assert(idx as int == mi);
            }
            let arr = stops[s].arrival_time;
            let dep = stops[s].departure_time;
            let center: u64 = (((arr as u128) + (dep as u128)) / 2) as u64;
            proof {
                assert(center == stop_center_ms(stops@[s as int]));
            }
            let old_point = &points[idx];
            if let Some(t0) = old_point.time {
                circ = Some((t0, center));
            }
            let new_point = ShapePoint {
                shape_id: old_point.shape_id.clone(),
                coord: old_point.coord,
                shape_pt_sequence: old_point.shape_pt_sequence,
                time: Some(center),
            };
            points.set(idx, new_point);
            proof {
                assert(points@ =~= m.update(
                    idx as int,
                    ShapePoint {
                        shape_id: m[idx as int].shape_id,
                        coord: m[idx as int].coord,
                        shape_pt_sequence: m[idx as int].shape_pt_sequence,
                        time: Some(center),
                    },
                ));
            }
            s += 1;
        }
    }
    proof {
        assert(stops@.skip(stops@.len() as int) =~= Seq::<Stop>::empty());
        assert(dists@.skip(dists@.len() as int) =~= Seq::<Vec<u64>>::empty());
    }
    (points, circ)
}

/// Positions `a < b` hold timed points with nothing but untimed points
/// between them: one interpolation window.
pub open spec fn adjacent_timed(points: Seq<ShapePoint>, a: int, b: int) -> bool {
    &&& 0 <= a < b < points.len()
    &&& points[a].time is Some
    &&& points[b].time is Some
    &&& forall|j: int| a < j < b ==> (#[trigger] points[j]).time is None
}

/// Whether one interpolation window yields a strictly positive duration:
/// directly, or across the wrap boundary of a circular block using the
/// remembered (first-observed, last-observed) time pair.
pub open spec fn segment_ok(ta: u64, tb: u64, circ: Option<(u64, u64)>) -> bool {
    if tb > ta {
        true
    } else if tb == ta {
        false
    } else {
        match circ {
            Some(c) => c.1 == ta && tb > c.0,
            None => false,
        }
    }
}

/// The base time that a window interpolates from: the earlier point's time,
/// or the remembered first-observed time when the window crosses the wrap.
pub open spec fn segment_base(ta: u64, tb: u64, circ: Option<(u64, u64)>) -> u64 {
    if tb >= ta {
        ta
    } else {
        match circ {
            Some(c) => c.0,
            None => ta,
        }
    }
}

/// The interpolated time of the point at `j`, strictly inside the window
/// `(a, b)`: linear by index distance.
pub open spec fn interp_time(
    points: Seq<ShapePoint>,
    a: int,
    b: int,
    circ: Option<(u64, u64)>,
    j: int,
) -> u64 {
    let ta = points[a].time->0;
    let tb = points[b].time->0;
    let base = segment_base(ta, tb, circ);
    (((base + ((tb - base) / (b - a)) * (j - a))) as u64)
}

/// The position of the last timed point, or -1 when no point is timed.
pub open spec fn last_timed_index(points: Seq<ShapePoint>) -> int
    decreases points.len(),
{
    if points.len() == 0 {
        -1
    } else if points.last().time is Some {
        points.len() - 1
    } else {
        last_timed_index(points.drop_last())
    }
}

pub proof fn lemma_last_timed_ensures(points: Seq<ShapePoint>)
    ensures
        -1 <= last_timed_index(points) < points.len(),
        last_timed_index(points) >= 0 ==> points[last_timed_index(points)].time is Some,
        forall|j: int|
            last_timed_index(points) < j < points.len() ==> (#[trigger] points[j]).time is None,
    decreases points.len(),
{
    if points.len() > 0 && points.last().time is None {
        lemma_last_timed_ensures(points.drop_last());
        assert(forall|j: int|
            0 <= j < points.len() - 1 ==> points[j] == points.drop_last()[j]);
    }
}

/// Whether the wraparound tail has work to do: a remembered wrap pair, and
/// untimed points after the last timed one.
pub open spec fn tail_applies(points: Seq<ShapePoint>, circ: Option<(u64, u64)>) -> bool {
    circ is Some && 0 <= last_timed_index(points) < points.len() - 1
}

/// Whether the wraparound tail can be computed: the remembered last-observed
/// time is not before the last timed point, and the latest filled time is
/// representable.
pub open spec fn tail_ok(points: Seq<ShapePoint>, circ: Option<(u64, u64)>) -> bool {
    let l = last_timed_index(points);
    let tl = points[l].time->0;
    let n = points.len();
    match circ {
        Some(c) => c.1 >= tl && c.0 + ((c.1 - tl) / (n - l)) * (n - 1 - l) <= u64::MAX,
        None => true,
    }
}

/// The time the wraparound tail gives the point at `j`, past the last timed
/// point `l`.
pub open spec fn tail_time(points: Seq<ShapePoint>, circ: Option<(u64, u64)>, j: int) -> u64 {
    let l = last_timed_index(points);
    let tl = points[l].time->0;
    let n = points.len();
    match circ {
        Some(c) => (((c.0 + ((c.1 - tl) / (n - l)) * (j - l))) as u64),
        None => 0,
    }
}

/// Every interpolation window yields a positive duration and the tail, where
/// it applies, can be computed: the whole pass succeeds.
pub open spec fn interpolation_ok(points: Seq<ShapePoint>, circ: Option<(u64, u64)>) -> bool {
    &&& forall|a: int, b: int|
        #[trigger] adjacent_timed(points, a, b) ==> segment_ok(
            points[a].time->0,
            points[b].time->0,
            circ,
        )
    &&& (tail_applies(points, circ) ==> tail_ok(points, circ))
}

proof fn lemma_div_mul_le(diff: u64, num: u64, k: u64)
    requires
        num > 0,
        k <= num,
    ensures
        ((diff as int) / (num as int)) * (k as int) <= diff,
        ((diff as int) / (num as int)) * (k as int) >= 0,
{
    let per = (diff as int) / (num as int);
    vstd::arithmetic::div_mod::lemma_fundamental_div_mod(diff as int, num as int);
    assert(per * num <= diff);
    assert(per >= 0) by (nonlinear_arith)
        requires
            per == (diff as int) / (num as int),
            diff >= 0,
            num > 0,
    ;
    assert(per * k <= per * num) by (nonlinear_arith)
        requires
            per >= 0,
            k <= num,
    ;
    assert(per * k >= 0) by (nonlinear_arith)
        requires
            per >= 0,
            k >= 0,
    ;
}

/// Fill every untimed point that lies between two timed ones, linearly by
/// index distance, treating a backwards window as a wrap of a circular block
/// via the remembered `circ` pair; then fill the points after the last timed
/// one from the wrap pair. A window that yields no strictly positive
/// duration, or a tail that cannot be computed, is a fatal inconsistency.
///
/// On success: timed points keep their times; a point strictly between the
/// adjacent timed pair `(a, b)` gets the window's interpolated time; points
/// after the last timed one get the tail time when a wrap pair exists; every
/// other point is unchanged, and no point's identity, place or sequence
/// number changes.
#[verifier::rlimit(100)]
#[verifier::loop_isolation(false)]
pub fn interpolate_times(points: Vec<ShapePoint>, circ: Option<(u64, u64)>) -> (r: Result<
    Vec<ShapePoint>,
    crate::SimulationError,
>)
    ensures
        r is Ok <==> interpolation_ok(points@, circ),
        r matches Err(e) ==> e == crate::SimulationError::InconsistentSchedule,
        r matches Ok(out) ==> {
            &&& out@.len() == points@.len()
            &&& forall|j: int|
                0 <= j < points@.len() ==> (#[trigger] out@[j]).shape_id == points@[j].shape_id
                    && out@[j].coord == points@[j].coord && out@[j].shape_pt_sequence
                    == points@[j].shape_pt_sequence
            &&& forall|j: int|
                0 <= j < points@.len() && (#[trigger] points@[j]).time is Some ==> out@[j].time
                    == points@[j].time
            &&& forall|a: int, b: int, j: int|
                #[trigger] adjacent_timed(points@, a, b) && a < j < b ==> (#[trigger] out@[j]).time
                    == Some(interp_time(points@, a, b, circ, j))
            &&& (tail_applies(points@, circ) ==> forall|j: int|
                last_timed_index(points@) < j < points@.len() ==> (#[trigger] out@[j]).time
                    == Some(tail_time(points@, circ, j)))
            &&& forall|j: int|
                0 <= j < points@.len() && (#[trigger] points@[j]).time is None && !(exists|a: int, b: int|
                    #[trigger] adjacent_timed(points@, a, b) && a < j < b) && !(tail_applies(
                    points@,
                    circ,
                ) && j > last_timed_index(points@)) ==> out@[j] == points@[j]
        },
{
    let ghost orig = points@;
    let n = points.len();
    let mut out = points;
    let mut last: Option<usize> = None;
    let mut i: usize = 0;
    while i < n
        invariant
            n == orig.len(),
            out@.len() == n,
            i <= n,
            forall|j: int| i <= j < n ==> out@[j] == orig[j],
            forall|j: int|
                0 <= j < n ==> (#[trigger] out@[j]).shape_id == orig[j].shape_id && out@[j].coord
                    == orig[j].coord && out@[j].shape_pt_sequence == orig[j].shape_pt_sequence,
            forall|j: int|
                0 <= j < i && (#[trigger] orig[j]).time is Some ==> out@[j] == orig[j],
            match last {
                None => i <= n && (forall|j: int|
                    0 <= j < i ==> (#[trigger] orig[j]).time is None && out@[j] == orig[j]),
                Some(l) => l < i <= n && orig[l as int].time is Some && (forall|j: int|
                    l < j < i ==> (#[trigger] orig[j]).time is None && out@[j] == orig[j]),
            },
            forall|a: int, b: int|
                #[trigger] adjacent_timed(orig, a, b) && b < i ==> segment_ok(
                    orig[a].time->0,
                    orig[b].time->0,
                    circ,
                ),
            forall|a: int, b: int, j: int|
                #[trigger] adjacent_timed(orig, a, b) && b < i && a < j < b ==> (
                #[trigger] out@[j]).time == Some(interp_time(orig, a, b, circ, j)),
            forall|j: int|
                0 <= j < i && (#[trigger] orig[j]).time is None && !(exists|a: int, b: int|
                    #[trigger] adjacent_timed(orig, a, b) && a < j < b) ==> out@[j] == orig[j],
        decreases n - i,
    {
        let timed_here = out[i].time.is_some();
        proof {
            assert(out@[i as int] == orig[i as int]);
        }
        if timed_here {
            if let Some(l) = last {
                proof {
                    assert(adjacent_timed(orig, l as int, i as int));
                }
                let ta = match out[l].time {
                    Some(t) => t,
                    None => {
                        proof {
                            assert(false);
                        }
                        0
                    },
                };
                let tb = match out[i].time {
                    Some(t) => t,
                    None => {
                        proof {
                            assert(false);
                        }
                        0
                    },
                };
                proof {
                    assert(out@[l as int] == orig[l as int]);
                    assert(ta == orig[l as int].time->0);
                    assert(tb == orig[i as int].time->0);
                }
                let base: u64;
                if tb > ta {
                    base = ta;
                } else if tb == ta {
                    proof {
                        assert(!segment_ok(orig[l as int].time->0, orig[i as int].time->0, circ));
                        assert(!interpolation_ok(orig, circ));
                    }
                    return Err(crate::SimulationError::InconsistentSchedule);
                } else {
                    match circ {
                        Some((first, sec)) => {
                            if sec != ta || tb <= first {
                                proof {
                                    assert(!segment_ok(
                                        orig[l as int].time->0,
                                        orig[i as int].time->0,
                                        circ,
                                    ));
                                    assert(!interpolation_ok(orig, circ));
                                }
                                return Err(crate::SimulationError::InconsistentSchedule);
                            }
                            base = first;
                        },
                        None => {
                            proof {
                                assert(!segment_ok(
                                    orig[l as int].time->0,
                                    orig[i as int].time->0,
                                    circ,
                                ));
                                assert(!interpolation_ok(orig, circ));
                            }
                            return Err(crate::SimulationError::InconsistentSchedule);
                        },
                    }
                }
                proof {
                    assert(segment_ok(orig[l as int].time->0, orig[i as int].time->0, circ));
                    assert(base == segment_base(ta, tb, circ));
                    assert(tb > base);
                }
                let diff = tb - base;
                let num = (i - l) as u64;
                let per = diff / num;
                let ghost out_before = out@;
                let mut j: usize = l + 1;
                while j < i
                    invariant
                        l < j <= i <= n,
                        out@.len() == n,
                        num == i - l,
                        per == diff / num,
                        diff == tb - base,
                        tb > base,
                        base == segment_base(ta, tb, circ),
                        ta == orig[l as int].time->0,
                        tb == orig[i as int].time->0,
                        forall|w: int| !(l < w < j) && 0 <= w < n ==> out@[w] == out_before[w],
                        forall|w: int|
                            l < w < j ==> (#[trigger] out@[w]).time == Some(
                                ((base + ((tb - base) / (i - l)) * (w - l)) as u64),
                            ) && out@[w].shape_id == out_before[w].shape_id && out@[w].coord
                                == out_before[w].coord && out@[w].shape_pt_sequence
                                == out_before[w].shape_pt_sequence,
                    decreases i - j,
                {
                    proof {
                        lemma_div_mul_le(diff, num, (j - l) as u64);
                        assert(per * ((j - l) as u64) <= diff);
                    }
                    let t = base + per * ((j - l) as u64);
                    let old_p = &out[j];
                    let new_p = ShapePoint {
                        shape_id: old_p.shape_id.clone(),
                        coord: old_p.coord,
                        shape_pt_sequence: old_p.shape_pt_sequence,
                        time: Some(t),
                    };
                    out.set(j, new_p);
                    j += 1;
                }
                proof {
                    assert forall|a: int, b: int, w: int|
                        #[trigger] adjacent_timed(orig, a, b) && b < i + 1 && a < w < b implies (
                    #[trigger] out@[w]).time == Some(interp_time(orig, a, b, circ, w)) by {
                        if b == i {
                            assert(a == l) by {
                                if a < l {
                                    assert(orig[l as int].time is Some);
                                } else if a > l {
                                    assert(orig[a].time is None);
                                }
                            }
                            assert(out@[w].time == Some(
                                ((base + ((tb - base) / (i - l)) * (w - l)) as u64),
                            ));
                        } else {
                            assert(b < i);
                            assert(!(l < w < i)) by {
                                if l < w {
                                    assert(orig[b].time is Some);
                                    assert(l < b < i);
                                }
                            }
                            assert(out@[w] == out_before[w]);
                        }
                    }
                }
                last = Some(i);
            } else {
                last = Some(i);
            }
        }
        i += 1;
    }
    // wraparound: fill the points after the last timed one
    proof {
        lemma_last_timed_ensures(orig);
        match last {
            None => {
                if last_timed_index(orig) >= 0 {
                    assert(orig[last_timed_index(orig)].time is Some);
                }
            },
            Some(l) => {
                let lti = last_timed_index(orig);
                if lti > l as int {
                    assert(orig[lti].time is None);
                } else if lti < l as int {
                    assert(orig[l as int].time is None);
                }
            },
        }
    }
    if let Some((first, sec)) = circ {
        if let Some(l) = last {
            if l < n - 1 {
                let tl = match out[l].time {
                    Some(t) => t,
                    None => {
                        proof {
                            assert(false);
                        }
                        0
                    },
                };
                proof {
                    assert(out@[l as int] == orig[l as int]);
                    assert(tl == orig[l as int].time->0);
                }
                if sec < tl {
                    proof {
                        assert(tail_applies(orig, circ));
                        assert(!tail_ok(orig, circ));
                    }
                    return Err(crate::SimulationError::InconsistentSchedule);
                }
                let num = (n - l) as u64;
                let per = (sec - tl) / num;
                proof {
                    lemma_div_mul_le((sec - tl) as u64, num, (n - 1 - l) as u64);
                }
                let reach = per * ((n - 1 - l) as u64);
                if first > u64::MAX - reach {
                    proof {
                        assert(tail_applies(orig, circ));
                        assert(!tail_ok(orig, circ));
                    }
                    return Err(crate::SimulationError::InconsistentSchedule);
                }
                proof {
                    assert(tail_ok(orig, circ));
                }
                let ghost out_before = out@;
                let mut j: usize = l + 1;
                while j < n
                    invariant
                        l < j <= n,
                        out@.len() == n,
                        num == n - l,
                        per == ((sec - tl) as u64) / num,
                        sec >= tl,
                        tl == orig[l as int].time->0,
                        first + per * ((n - 1 - l) as u64) <= u64::MAX,
                        forall|w: int| !(l < w < j) && 0 <= w < n ==> out@[w] == out_before[w],
                        forall|w: int|
                            l < w < j ==> (#[trigger] out@[w]).time == Some(
                                ((first + (((sec - tl) as int / (n - l) as int)) * (w
                                    - l)) as u64),
                            ) && out@[w].shape_id == out_before[w].shape_id && out@[w].coord
                                == out_before[w].coord && out@[w].shape_pt_sequence
                                == out_before[w].shape_pt_sequence,
                    decreases n - j,
                {
                    proof {
                        lemma_div_mul_le((sec - tl) as u64, num, (j - l) as u64);
                        assert(per * ((j - l) as u64) <= per * ((n - 1 - l) as u64))
                            by (nonlinear_arith)
                            requires
                                per >= 0,
                                0 <= j - l <= n - 1 - l,
                        ;
                    }
                    let t = first + per * ((j - l) as u64);
                    let old_p = &out[j];
                    let new_p = ShapePoint {
                        shape_id: old_p.shape_id.clone(),
                        coord: old_p.coord,
                        shape_pt_sequence: old_p.shape_pt_sequence,
                        time: Some(t),
                    };
                    out.set(j, new_p);
                    j += 1;
                }
                proof {
                    assert forall|w: int|
                        last_timed_index(orig) < w < orig.len() implies (#[trigger] out@[w]).time
                        == Some(tail_time(orig, circ, w)) by {
                        assert(l < w < n);
                    }
                }
            }
        }
    }
    proof {
        assert forall|a: int, b: int|
            #[trigger] adjacent_timed(orig, a, b) implies segment_ok(
            orig[a].time->0,
            orig[b].time->0,
            circ,
        ) by {
            assert(b < n);
        }
        assert(interpolation_ok(orig, circ));
    }
    Ok(out)
}

/// A decimal digit.
pub open spec fn is_digit(c: char) -> bool {
    '0' <= c && c <= '9'
}

/// The value of a decimal digit.
pub open spec fn digit_val(c: char) -> int {
    c as int - 48
}

/// Every character a decimal digit.
pub open spec fn all_digits(s: Seq<char>) -> bool {
    forall|i: int| 0 <= i < s.len() ==> is_digit(#[trigger] s[i])
}

/// The number a digit string denotes.
pub open spec fn dec_value(s: Seq<char>) -> int
    decreases s.len(),
{
    if s.len() == 0 {
        0
    } else {
        dec_value(s.drop_last()) * 10 + digit_val(s.last())
    }
}

/// The position of the first colon, or the length when there is none.
pub open spec fn first_colon(s: Seq<char>) -> int
    decreases s.len(),
{
    if s.len() == 0 {
        0
    } else if s[0] == ':' {
        0
    } else {
        1 + first_colon(s.drop_first())
    }
}

pub proof fn lemma_first_colon_ensures(s: Seq<char>)
    ensures
        0 <= first_colon(s) <= s.len(),
        first_colon(s) < s.len() ==> s[first_colon(s)] == ':',
        forall|j: int| 0 <= j < first_colon(s) ==> s[j] != ':',
    decreases s.len(),
{
    if s.len() > 0 && s[0] != ':' {
        lemma_first_colon_ensures(s.drop_first());
        assert(forall|j: int| 1 <= j < s.len() ==> s[j] == s.drop_first()[j - 1]);
    }
}

/// The three components of a clock string "H:M:S": what splitting at the
/// exactly two colons yields, or nothing when the colon count is not two.
pub open spec fn time_parts(s: Seq<char>) -> Option<(Seq<char>, Seq<char>, Seq<char>)> {
    let p1 = first_colon(s);
    if p1 == s.len() {
        None
    } else {
        let rest = s.skip(p1 + 1);
        let q = first_colon(rest);
        if q == rest.len() {
            None
        } else {
            let sec = rest.skip(q + 1);
            if first_colon(sec) == sec.len() {
                Some((s.take(p1), rest.take(q), sec))
            } else {
                None
            }
        }
    }
}

/// Non-empty, digits-only clock components.
pub open spec fn valid_clock_parts(p: (Seq<char>, Seq<char>, Seq<char>)) -> bool {
    &&& p.0.len() > 0
    &&& p.1.len() > 0
    &&& p.2.len() > 0
    &&& all_digits(p.0)
    &&& all_digits(p.1)
    &&& all_digits(p.2)
}

/// The milliseconds a clock string denotes. Hours may exceed 24: overnight
/// schedules keep counting.
pub open spec fn clock_parts_ms(p: (Seq<char>, Seq<char>, Seq<char>)) -> int {
    (dec_value(p.0) * 3600 + dec_value(p.1) * 60 + dec_value(p.2)) * 1000
}

proof fn lemma_dec_value_nonneg(s: Seq<char>)
    requires
        all_digits(s),
    ensures
        dec_value(s) >= 0,
    decreases s.len(),
{
    if s.len() > 0 {
        assert(is_digit(s.last()));
        assert(forall|i: int| 0 <= i < s.len() - 1 ==> s.drop_last()[i] == s[i]);
        lemma_dec_value_nonneg(s.drop_last());
        assert(dec_value(s.drop_last()) * 10 >= 0) by (nonlinear_arith)
            requires
                dec_value(s.drop_last()) >= 0,
        ;
    }
}

proof fn lemma_dec_value_prefix_le(s: Seq<char>, i: int)
    requires
        all_digits(s),
        0 <= i <= s.len(),
    ensures
        dec_value(s.take(i)) <= dec_value(s),
    decreases s.len() - i,
{
    if i < s.len() {
        lemma_dec_value_prefix_le(s, i + 1);
        assert(s.take(i + 1).drop_last() =~= s.take(i));
        assert(s.take(i + 1).last() == s[i]);
        assert(is_digit(s[i]));
        assert(all_digits(s.take(i))) by {
            assert(forall|j: int| 0 <= j < i ==> s.take(i)[j] == s[j]);
        }
        lemma_dec_value_nonneg(s.take(i));
        assert(dec_value(s.take(i)) * 10 >= dec_value(s.take(i))) by (nonlinear_arith)
            requires
                dec_value(s.take(i)) >= 0,
        ;
    } else {
        assert(s.take(i) =~= s);
    }
}

/// Parse the digits of `s` between `from` and `to` as a decimal number:
/// `Some` exactly when the range is non-empty, all digits, and the value
/// fits in a `u64`.
fn parse_decimal_range(s: &str, from: usize, to: usize) -> (r: Option<u64>)
    requires
        from <= to <= s@.len(),
    ensures
        r is Some <==> (to > from && all_digits(s@.subrange(from as int, to as int)) && dec_value(
            s@.subrange(from as int, to as int),
        ) <= u64::MAX),
        r matches Some(v) ==> v == dec_value(s@.subrange(from as int, to as int)),
{
    let ghost part = s@.subrange(from as int, to as int);
    if to == from {
        return None;
    }
    let mut acc: u64 = 0;
    let mut k: usize = from;
    while k < to
        invariant
            from <= k <= to <= s@.len(),
            part == s@.subrange(from as int, to as int),
            forall|j: int| 0 <= j < k - from ==> is_digit(#[trigger] part[j]),
            acc == dec_value(part.take(k - from)),
        decreases to - k,
    {
        let c = s.get_char(k);
        proof {
            assert(part[k - from] == s@[k as int]);
        }
        if !(c >= '0' && c <= '9') {
            proof {
                assert(!is_digit(part[k - from]));
                assert(!all_digits(part));
            }
            return None;
        }
        let d: u64 = ((c as u32) - 48) as u64;
        proof {
            assert(d == digit_val(part[k - from]));
            assert(part.take(k - from + 1).drop_last() =~= part.take(k - from));
            assert(part.take(k - from + 1).last() == part[k - from]);
        }
        if acc > (u64::MAX - d) / 10 {
            proof {
                assert(acc * 10 + d > u64::MAX) by (nonlinear_arith)
                    requires
                        acc > (u64::MAX - d) / 10,
                        0 <= d <= 9,
                ;
                assert(dec_value(part.take(k - from + 1)) > u64::MAX);
                if all_digits(part) {
                    lemma_dec_value_prefix_le(part, k - from + 1);
                    assert(dec_value(part) > u64::MAX);
                }
            }
            return None;
        }
        proof {
            assert(acc * 10 + d <= u64::MAX) by (nonlinear_arith)
                requires
                    acc <= (u64::MAX - d) / 10,
                    0 <= d <= 9,
            ;
        }
        acc = acc * 10 + d;
        k += 1;
    }
    proof {
        assert(part.take(to - from) =~= part);
    }
    Some(acc)
}

/// Parse a clock string "H:M:S" (hours may exceed 24) into milliseconds.
/// Exactly two colons, three non-empty digit components, and a representable
/// value are required; anything else is a malformed time string.
#[verifier::loop_isolation(false)]
pub fn parse_duration(time_str: &str) -> (r: Result<u64, crate::SimulationError>)
    ensures
        r is Ok <==> (time_parts(time_str@) matches Some(p) && valid_clock_parts(p)
            && clock_parts_ms(p) <= u64::MAX),
        r matches Ok(v) ==> v == clock_parts_ms(time_parts(time_str@)->0),
        r matches Err(e) ==> e == crate::SimulationError::MalformedTimeString,
{
    let ghost s = time_str@;
    let n = time_str.unicode_len();
    proof {
        lemma_first_colon_ensures(s);
    }
    // find the first colon
    let mut p1: usize = 0;
    while p1 < n && time_str.get_char(p1) != ':'
        invariant
            0 <= p1 <= n == s.len(),
            forall|j: int| 0 <= j < p1 ==> s[j] != ':',
        decreases n - p1,
    {
        p1 += 1;
    }
    proof {
        let fc = first_colon(s);
        if fc < p1 {
            assert(s[fc] == ':');
        }
        if p1 < fc {
            assert(s[p1 as int] == ':');
        }
        assert(p1 == fc);
    }
    if p1 == n {
        return Err(crate::SimulationError::MalformedTimeString);
    }
    // find the second colon
    let ghost rest = s.skip(p1 + 1);
    proof {
        lemma_first_colon_ensures(rest);
        assert(forall|j: int| 0 <= j < rest.len() ==> rest[j] == s[p1 + 1 + j]);
    }
    let mut p2: usize = p1 + 1;
    while p2 < n && time_str.get_char(p2) != ':'
        invariant
            p1 + 1 <= p2 <= n == s.len(),
            rest == s.skip(p1 + 1),
            forall|j: int| p1 + 1 <= j < p2 ==> s[j] != ':',
        decreases n - p2,
    {
        p2 += 1;
    }
    proof {
        let q = first_colon(rest);
        if q < p2 - p1 - 1 {
            assert(rest[q] == s[p1 + 1 + q]);
            assert(s[p1 + 1 + q] == ':');
        }
        if p2 - p1 - 1 < q && p2 < n {
            assert(rest[p2 - p1 - 1] == ':');
        }
        if p2 == n {
            if q < rest.len() {
                assert(rest[q] == ':');
                assert(s[p1 + 1 + q] == ':');
            }
            assert(q == rest.len());
        } else {
            assert(q == p2 - p1 - 1);
        }
    }
    if p2 == n {
        return Err(crate::SimulationError::MalformedTimeString);
    }
    // no third colon may follow
    let ghost sec_part = rest.skip(p2 - p1);
    proof {
        lemma_first_colon_ensures(sec_part);
        assert(forall|j: int| 0 <= j < sec_part.len() ==> sec_part[j] == s[p2 + 1 + j]);
    }
    let mut p3: usize = p2 + 1;
    while p3 < n && time_str.get_char(p3) != ':'
        invariant
            p2 + 1 <= p3 <= n == s.len(),
            sec_part == s.skip(p1 + 1).skip(p2 - p1),
            forall|j: int| p2 + 1 <= j < p3 ==> s[j] != ':',
        decreases n - p3,
    {
        p3 += 1;
    }
    if p3 < n {
        proof {
            let q3 = first_colon(sec_part);
            assert(s[p3 as int] == ':');
            assert(sec_part[p3 - p2 - 1] == ':');
            assert(q3 < sec_part.len()) by {
                if q3 == sec_part.len() {
                    assert(sec_part[p3 - p2 - 1] != ':');
                }
            }
            assert(time_parts(s) is None);
        }
        return Err(crate::SimulationError::MalformedTimeString);
    }
    proof {
        let q3 = first_colon(sec_part);
        if q3 < sec_part.len() {
            assert(sec_part[q3] == ':');
            assert(s[p2 + 1 + q3] == ':');
        }
        assert(q3 == sec_part.len());
        assert(time_parts(s) matches Some(p) && p.0 == s.take(p1 as int) && p.1 == rest.take(
            p2 - p1 - 1,
        ) && p.2 == sec_part);
        assert(s.take(p1 as int) =~= s.subrange(0, p1 as int));
        assert(rest.take(p2 - p1 - 1) =~= s.subrange(p1 + 1, p2 as int));
        assert(sec_part =~= s.subrange(p2 + 1, n as int));
    }
    let ghost parts0 = time_parts(s)->0;
    let hv = match parse_decimal_range(time_str, 0, p1) {
        Some(v) => v,
        None => {
            proof {
                if valid_clock_parts(parts0) {
                    lemma_dec_value_nonneg(parts0.1);
                    lemma_dec_value_nonneg(parts0.2);
                    assert(dec_value(parts0.0) > u64::MAX);
                    assert(clock_parts_ms(parts0) > u64::MAX) by (nonlinear_arith)
                        requires
                            dec_value(parts0.0) > u64::MAX,
                            dec_value(parts0.1) >= 0,
                            dec_value(parts0.2) >= 0,
                            clock_parts_ms(parts0) == (dec_value(parts0.0) * 3600 + dec_value(
                                parts0.1,
                            ) * 60 + dec_value(parts0.2)) * 1000,
                    ;
                }
            }
            return Err(crate::SimulationError::MalformedTimeString);
        },
    };
    let mv = match parse_decimal_range(time_str, p1 + 1, p2) {
        Some(v) => v,
        None => {
            proof {
                if valid_clock_parts(parts0) {
                    lemma_dec_value_nonneg(parts0.0);
                    lemma_dec_value_nonneg(parts0.2);
                    assert(dec_value(parts0.1) > u64::MAX);
                    assert(clock_parts_ms(parts0) > u64::MAX) by (nonlinear_arith)
                        requires
                            dec_value(parts0.1) > u64::MAX,
                            dec_value(parts0.0) >= 0,
                            dec_value(parts0.2) >= 0,
                            clock_parts_ms(parts0) == (dec_value(parts0.0) * 3600 + dec_value(
                                parts0.1,
                            ) * 60 + dec_value(parts0.2)) * 1000,
                    ;
                }
            }
            return Err(crate::SimulationError::MalformedTimeString);
        },
    };
    let sv = match parse_decimal_range(time_str, p2 + 1, n) {
        Some(v) => v,
        None => {
            proof {
                if valid_clock_parts(parts0) {
                    lemma_dec_value_nonneg(parts0.0);
                    lemma_dec_value_nonneg(parts0.1);
                    assert(dec_value(parts0.2) > u64::MAX);
                    assert(clock_parts_ms(parts0) > u64::MAX) by (nonlinear_arith)
                        requires
                            dec_value(parts0.2) > u64::MAX,
                            dec_value(parts0.0) >= 0,
                            dec_value(parts0.1) >= 0,
                            clock_parts_ms(parts0) == (dec_value(parts0.0) * 3600 + dec_value(
                                parts0.1,
                            ) * 60 + dec_value(parts0.2)) * 1000,
                    ;
                }
            }
            return Err(crate::SimulationError::MalformedTimeString);
        },
    };
    let ghost parts = time_parts(s)->0;
    proof {
        assert(valid_clock_parts(parts));
        lemma_dec_value_nonneg(parts.0);
        lemma_dec_value_nonneg(parts.1);
        lemma_dec_value_nonneg(parts.2);
    }
    let s1 = match hv.checked_mul(3600) {
        Some(v) => v,
        None => {
            proof {
                assert(clock_parts_ms(parts) >= hv * 3600 * 1000 > u64::MAX) by (nonlinear_arith)
                    requires
                        hv * 3600 > u64::MAX,
                        clock_parts_ms(parts) == (hv * 3600 + dec_value(parts.1) * 60 + dec_value(
                            parts.2,
                        )) * 1000,
                        dec_value(parts.1) >= 0,
                        dec_value(parts.2) >= 0,
                ;
            }
            return Err(crate::SimulationError::MalformedTimeString);
        },
    };
    let s2 = match mv.checked_mul(60) {
        Some(v) => v,
        None => {
            proof {
                assert(clock_parts_ms(parts) >= mv * 60 * 1000 > u64::MAX) by (nonlinear_arith)
                    requires
                        mv * 60 > u64::MAX,
                        clock_parts_ms(parts) == (dec_value(parts.0) * 3600 + mv * 60 + dec_value(
                            parts.2,
                        )) * 1000,
                        dec_value(parts.0) >= 0,
                        dec_value(parts.2) >= 0,
                ;
            }
            return Err(crate::SimulationError::MalformedTimeString);
        },
    };
    let s3 = match s1.checked_add(s2) {
        Some(v) => v,
        None => {
            proof {
                assert(clock_parts_ms(parts) > u64::MAX) by (nonlinear_arith)
                    requires
                        s1 == hv * 3600,
                        s2 == mv * 60,
                        s1 + s2 > u64::MAX,
                        clock_parts_ms(parts) == (hv * 3600 + mv * 60 + dec_value(parts.2)) * 1000,
                        dec_value(parts.2) >= 0,
                ;
            }
            return Err(crate::SimulationError::MalformedTimeString);
        },
    };
    let s4 = match s3.checked_add(sv) {
        Some(v) => v,
        None => {
            proof {
                assert(clock_parts_ms(parts) > u64::MAX) by (nonlinear_arith)
                    requires
                        s3 == hv * 3600 + mv * 60,
                        s3 + sv > u64::MAX,
                        clock_parts_ms(parts) == (hv * 3600 + mv * 60 + sv) * 1000,
                ;
            }
            return Err(crate::SimulationError::MalformedTimeString);
        },
    };
    let ms = match s4.checked_mul(1000) {
        Some(v) => v,
        None => {
            proof {
                assert(clock_parts_ms(parts) > u64::MAX);
            }
            return Err(crate::SimulationError::MalformedTimeString);
        },
    };
    proof {
        assert(ms == clock_parts_ms(parts));
    }
    Ok(ms)
}

/// The character of one decimal digit.
pub open spec fn digit_char(d: int) -> char {
    ((48 + d) as u8) as char
}

/// The decimal digits of a number, most significant first.
pub open spec fn dec_digits(n: int) -> Seq<char>
    recommends
        n >= 0,
    decreases n,
{
    if n < 10 {
        seq![digit_char(n)]
    } else {
        dec_digits(n / 10) + seq![digit_char(n % 10)]
    }
}

/// A clock field padded to two characters.
pub open spec fn pad2(s: Seq<char>) -> Seq<char> {
    if s.len() >= 2 {
        s
    } else {
        seq!['0'] + s
    }
}

/// The clock string of a millisecond count: hours (which may exceed 24),
/// minutes and seconds, each padded to two digits, separated by colons.
pub open spec fn clock_string_of(ms: u64) -> Seq<char> {
    let total = (ms as int) / 1000;
    pad2(dec_digits(total / 3600)) + seq![':'] + pad2(dec_digits((total % 3600) / 60)) + seq![':']
        + pad2(dec_digits(total % 60))
}

proof fn lemma_dec_digits_len(n: int)
    requires
        n >= 0,
    ensures
        dec_digits(n).len() >= 1,
        n < 10 ==> dec_digits(n).len() == 1,
        n >= 10 ==> dec_digits(n).len() >= 2,
    decreases n,
{
    if n >= 10 {
        lemma_dec_digits_len(n / 10);
    }
}

/// Append the decimal digits of `x`.
fn append_decimal(out: &mut String, x: u64)
    ensures
        final(out)@ == old(out)@ + dec_digits(x as int),
    decreases x,
{
    if x >= 10 {
        append_decimal(out, x / 10);
    }
    let d = x % 10;
    let ds: &str = match d {
        0 => "0",
        1 => "1",
        2 => "2",
        3 => "3",
        4 => "4",
        5 => "5",
        6 => "6",
        7 => "7",
        8 => "8",
        _ => "9",
    };
    proof {
        reveal_strlit("0");
        reveal_strlit("1");
        reveal_strlit("2");
        reveal_strlit("3");
        reveal_strlit("4");
        reveal_strlit("5");
        reveal_strlit("6");
        reveal_strlit("7");
        reveal_strlit("8");
        reveal_strlit("9");
        assert(ds@ =~= seq![digit_char(d as int)]);
    }
    out.append(ds);
    proof {
        if x < 10 {
            assert(old(out)@ + seq![digit_char(x as int)] =~= old(out)@ + dec_digits(x as int));
        } else {
            assert((old(out)@ + dec_digits((x as int) / 10)) + seq![digit_char((x as int) % 10)]
                =~= old(out)@ + dec_digits(x as int));
        }
    }
}

/// Format a millisecond count as a clock string "H:MM:SS" (hours padded to
/// at least two digits as well, and free to exceed 24).
pub fn duration_to_string(ms: u64) -> (r: String)
    ensures
        r@ == clock_string_of(ms),
{
    let total = ms / 1000;
    let h = total / 3600;
    let m = (total % 3600) / 60;
    let s = total % 60;
    let mut out = String::new();
    proof {
        lemma_dec_digits_len(h as int);
        lemma_dec_digits_len(m as int);
        lemma_dec_digits_len(s as int);
        reveal_strlit("0");
        reveal_strlit(":");
    }
    let ghost e = Seq::<char>::empty();
    if h < 10 {
        out.append("0");
    }
    append_decimal(&mut out, h);
    proof {
        if h < 10 {
            assert((e + seq!['0']) + dec_digits(h as int) =~= pad2(dec_digits(h as int)));
        } else {
            assert(e + dec_digits(h as int) =~= pad2(dec_digits(h as int)));
        }
        assert(out@ == pad2(dec_digits(h as int)));
    }
    out.append(":");
    if m < 10 {
        out.append("0");
    }
    append_decimal(&mut out, m);
    proof {
        if m < 10 {
            assert(((pad2(dec_digits(h as int)) + seq![':']) + seq!['0']) + dec_digits(m as int)
                =~= pad2(dec_digits(h as int)) + seq![':'] + pad2(dec_digits(m as int)));
        } else {
            assert((pad2(dec_digits(h as int)) + seq![':']) + dec_digits(m as int) =~= pad2(
                dec_digits(h as int),
            ) + seq![':'] + pad2(dec_digits(m as int)));
        }
    }
    out.append(":");
    if s < 10 {
        out.append("0");
    }
    append_decimal(&mut out, s);
    proof {
        let hm = pad2(dec_digits(h as int)) + seq![':'] + pad2(dec_digits(m as int));
        if s < 10 {
            assert(((hm + seq![':']) + seq!['0']) + dec_digits(s as int) =~= hm + seq![':'] + pad2(
                dec_digits(s as int),
            ));
        } else {
            assert((hm + seq![':']) + dec_digits(s as int) =~= hm + seq![':'] + pad2(
                dec_digits(s as int),
            ));
        }
        assert(out@ =~= clock_string_of(ms));
    }
    out
}

} // verus!
