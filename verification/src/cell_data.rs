//! Radio-cell data model and the tower resolver: the nearest-cell lookup for
//! every shape point of a vehicle's route.
use vstd::prelude::*;
use crate::gtfs::{Coord, PartialBlock, ShapePoint};

verus! {

/// The composite identity of a radio cell: tower id and network id.
#[derive(Clone, Copy, Debug, PartialEq, Eq, Structural)]
pub struct CellKey {
    pub id: u64,
    pub mnc: u64,
}

/// Total order on cell identities: by tower id, then network id.
pub open spec fn cell_key_le(a: CellKey, b: CellKey) -> bool {
    a.id < b.id || (a.id == b.id && a.mnc <= b.mnc)
}

/// A cellular base station: identity, location, and declared coverage range
/// in millimetres.
#[derive(Clone, Copy, Debug, PartialEq, Eq, Structural)]
pub struct RadioCell {
    pub id: u64,
    pub mnc: u64,
    pub coord: Coord,
    pub range: u64,
}

impl RadioCell {
    /// The composite identity of this cell.
    pub open spec fn spec_key(&self) -> CellKey {
        CellKey { id: self.id, mnc: self.mnc }
    }

    /// The composite identity of this cell.
    #[verifier::when_used_as_spec(spec_key)]
    pub fn key(&self) -> (k: CellKey)
        ensures
            k == self.spec_key(),
    {
        CellKey { id: self.id, mnc: self.mnc }
    }
}

/// One vehicle's route joined with its resolved cells: `cell_data[i]` is the
/// cell serving `trip.shape_points[i]`, or `None` where no candidate existed.
#[derive(Debug)]
pub struct TripAndCellData {
    pub trip: PartialBlock,
    pub cell_data: Vec<Option<CellKey>>,
}

impl TripAndCellData {
    /// The resolved-cell list covers the shape points one for one.
    pub open spec fn wf(self) -> bool {
        self.cell_data@.len() == self.trip.shape_points@.len()
    }
}

impl Clone for TripAndCellData {
    fn clone(&self) -> (r: Self)
        ensures
            r.trip.block_id == self.trip.block_id,
            r.trip.route_id == self.trip.route_id,
            r.trip.stops@ == self.trip.stops@,
            r.trip.shape_points@ == self.trip.shape_points@,
            r.cell_data@ == self.cell_data@,
    {
        let cell_data = self.cell_data.clone();
        proof {
            assert(cell_data@ =~= self.cell_data@);
        }
        TripAndCellData { trip: self.trip.clone(), cell_data }
    }
}

/// The vehicles of one route, in schedule order.
#[derive(Debug)]
pub struct RouteTrips {
    pub route_id: String,
    pub trips: Vec<TripAndCellData>,
}

impl RouteTrips {
    pub open spec fn wf(self) -> bool {
        forall|i: int| 0 <= i < self.trips@.len() ==> (#[trigger] self.trips@[i]).wf()
    }
}

/// All vehicles, grouped by route, joined with the set of radio cells that
/// serve at least one of their shape points.
#[derive(Debug)]
pub struct MultiTripAndCellData {
    pub trips: Vec<RouteTrips>,
    pub radio_cells: Vec<RadioCell>,
}

impl MultiTripAndCellData {
    pub open spec fn wf(self) -> bool {
        forall|i: int| 0 <= i < self.trips@.len() ==> (#[trigger] self.trips@[i]).wf()
    }
}

/// Index of the least distance, first among equals. With the candidate list
/// held in a fixed deterministic order, this is the explicit tie-break rule
/// of the resolver.
pub open spec fn min_dist_index(d: Seq<u64>) -> int
    recommends
        d.len() > 0,
    decreases d.len(),
{
    if d.len() <= 1 {
        0
    } else {
        let m = min_dist_index(d.drop_first()) + 1;
        if d[0] <= d[m] {
            0
        } else {
            m
        }
    }
}

pub proof fn lemma_min_dist_index_ensures(d: Seq<u64>)
    requires
        d.len() > 0,
    ensures
        0 <= min_dist_index(d) < d.len(),
        forall|j: int| 0 <= j < d.len() ==> d[min_dist_index(d)] <= #[trigger] d[j],
        forall|j: int| 0 <= j < min_dist_index(d) ==> #[trigger] d[j] > d[min_dist_index(d)],
    decreases d.len(),
{
    if d.len() > 1 {
        lemma_min_dist_index_ensures(d.drop_first());
        let m = min_dist_index(d.drop_first()) + 1;
        assert(forall|j: int| 1 <= j < d.len() ==> d[j] == d.drop_first()[j - 1]);
        let r = min_dist_index(d);
        assert forall|j: int| 0 <= j < d.len() implies d[r] <= d[j] by {
            if j >= 1 {
                assert(d.drop_first()[m - 1] <= d.drop_first()[j - 1]);
            }
        }
        assert forall|j: int| 0 <= j < r implies d[j] > d[r] by {
            if j >= 1 {
                assert(d.drop_first()[j - 1] > d.drop_first()[m - 1]);
            }
        }
    }
}

/// Select the candidate cell nearest to one shape point: `dists[i]` is the
/// ellipsoidal distance from the point to `cells[i]`, in millimetres. Ties
/// go to the first candidate in list order, so a candidate list held in a
/// fixed order makes the resolution deterministic. A point with at least one
/// candidate is never left unattached: the winner is returned even when the
/// distance exceeds its declared range (the caller may log the anomaly).
pub fn find_closest_tower_from_map(cells: &Vec<RadioCell>, dists: &Vec<u64>) -> (r: Option<
    RadioCell,
>)
    requires
        dists@.len() == cells@.len(),
    ensures
        r is Some <==> cells@.len() > 0,
        cells@.len() > 0 ==> r == Some(cells@[min_dist_index(dists@)]),
{
    if cells.len() == 0 {
        return None;
    }
    proof {
        lemma_min_dist_index_ensures(dists@);
    }
    let ghost d = dists@;
    let mut best: usize = 0;
    let mut j: usize = 1;
    while j < dists.len()
        invariant
            d == dists@,
            d.len() == cells@.len(),
            0 <= best < j <= d.len(),
            d.len() > 0,
            forall|w: int| 0 <= w < j ==> d[best as int] <= d[w],
            forall|w: int| 0 <= w < best ==> d[w] > d[best as int],
        decreases d.len() - j,
    {
        if dists[j] < dists[best] {
            proof {
                assert forall|w: int| 0 <= w < j implies d[w] > d[j as int] by {
                    assert(d[best as int] <= d[w]);
                }
            }
            best = j;
        }
        j += 1;
    }
    proof {
        let m = min_dist_index(d);
        if m < best {
            assert(d[m] > d[best as int]);
            assert(d[best as int] <= d[m]);
        }
        if best < m {
            assert(d[best as int] > d[m]);
            assert(d[m] <= d[best as int]);
        }
    }
    Some(cells[best])
}

/// Resolve every shape point to its nearest tower: `r[i]` is the identity of
/// the cell serving `points[i]`, or `None` when there are no towers at all.
/// `dists[i][c]` is the distance from point `i` to tower `c`.
pub fn find_closest_towers(
    points: &Vec<ShapePoint>,
    towers: &Vec<RadioCell>,
    dists: &Vec<Vec<u64>>,
) -> (r: Vec<Option<CellKey>>)
    requires
        dists@.len() == points@.len(),
        forall|i: int| 0 <= i < dists@.len() ==> (#[trigger] dists@[i])@.len() == towers@.len(),
    ensures
        r@.len() == points@.len(),
        forall|i: int|
            0 <= i < points@.len() ==> r@[i] == (if towers@.len() > 0 {
                Some(towers@[min_dist_index(dists@[i]@)].spec_key())
            } else {
                None::<CellKey>
            }),
{
    let mut r: Vec<Option<CellKey>> = Vec::new();
    let mut i: usize = 0;
    while i < points.len()
        invariant
            i <= points@.len(),
            dists@.len() == points@.len(),
            forall|w: int| 0 <= w < dists@.len() ==> (#[trigger] dists@[w])@.len() == towers@.len(),
            r@.len() == i,
            forall|w: int|
                0 <= w < i ==> r@[w] == (if towers@.len() > 0 {
                    Some(towers@[min_dist_index(dists@[w]@)].spec_key())
                } else {
                    None::<CellKey>
                }),
        decreases points@.len() - i,
    {
        let entry = match find_closest_tower_from_map(towers, &dists[i]) {
            Some(c) => Some(c.key()),
            None => None,
        };
        r.push(entry);
        i += 1;
    }
    r
}

/// Insert a winning cell into the ordered tower set, unless a cell with the
/// same identity is already there.
pub open spec fn cell_insert_unique(s: Seq<RadioCell>, c: RadioCell) -> Seq<RadioCell>
    decreases s.len(),
{
    if s.len() == 0 {
        seq![c]
    } else if s[0].spec_key() == c.spec_key() {
        s
    } else if cell_key_le(s[0].spec_key(), c.spec_key()) {
        seq![s[0]] + cell_insert_unique(s.drop_first(), c)
    } else {
        seq![c] + s
    }
}

/// The deduplicated set of towers that win at least one shape point, ordered
/// by composite id: each point contributes the nearest of the candidates.
pub open spec fn towers_in_range_spec(
    acc: Seq<RadioCell>,
    cands: Seq<RadioCell>,
    dists: Seq<Vec<u64>>,
) -> Seq<RadioCell>
    decreases dists.len(),
{
    if dists.len() == 0 || cands.len() == 0 {
        acc
    } else {
        towers_in_range_spec(
            cell_insert_unique(acc, cands[min_dist_index(dists[0]@)]),
            cands,
            dists.drop_first(),
        )
    }
}

proof fn lemma_cell_insert_unique_split(s: Seq<RadioCell>, c: RadioCell, k: int)
    requires
        0 <= k <= s.len(),
        forall|i: int|
            0 <= i < k ==> cell_key_le((#[trigger] s[i]).spec_key(), c.spec_key()) && s[i].spec_key()
                != c.spec_key(),
    ensures
        cell_insert_unique(s, c) == s.take(k) + cell_insert_unique(s.skip(k), c),
    decreases k,
{
    if k == 0 {
        assert(s.skip(0) =~= s);
        assert(s.take(0) + cell_insert_unique(s, c) =~= cell_insert_unique(s, c));
    } else {
        lemma_cell_insert_unique_split(s.drop_first(), c, k - 1);
        assert(s.drop_first().take(k - 1) =~= s.take(k).drop_first());
        assert(s.drop_first().skip(k - 1) =~= s.skip(k));
        assert(seq![s[0]] + (s.take(k).drop_first() + cell_insert_unique(s.skip(k), c)) =~= (
        s.take(k) + cell_insert_unique(s.skip(k), c)));
    }
}

/// Collect the towers that serve at least one shape point, one nearest
/// candidate per point, deduplicated by identity and ordered by composite id.
pub fn find_towers_in_range(
    candidates: &Vec<RadioCell>,
    points: &Vec<ShapePoint>,
    dists: &Vec<Vec<u64>>,
) -> (r: Vec<RadioCell>)
    requires
        dists@.len() == points@.len(),
        forall|i: int|
            0 <= i < dists@.len() ==> (#[trigger] dists@[i])@.len() == candidates@.len(),
    ensures
        r@ == towers_in_range_spec(Seq::empty(), candidates@, dists@),
{
    let mut r: Vec<RadioCell> = Vec::new();
    proof {
        assert(dists@.skip(0) =~= dists@);
    }
    let mut i: usize = 0;
    while i < points.len()
        invariant
            i <= points@.len(),
            dists@.len() == points@.len(),
            forall|w: int|
                0 <= w < dists@.len() ==> (#[trigger] dists@[w])@.len() == candidates@.len(),
            towers_in_range_spec(Seq::empty(), candidates@, dists@) == towers_in_range_spec(
                r@,
                candidates@,
                dists@.skip(i as int),
            ),
        decreases points@.len() - i,
    {
        proof {
            assert(dists@.skip(i as int)[0] == dists@[i as int]);
            assert(dists@.skip(i as int).drop_first() =~= dists@.skip(i + 1));
        }
        if let Some(winner) = find_closest_tower_from_map(candidates, &dists[i]) {
            let ghost m = r@;
            let mut idx: usize = 0;
            let mut dup = false;
            while idx < r.len() && !dup && (r[idx].id < winner.id || (r[idx].id == winner.id
                && r[idx].mnc <= winner.mnc))
                invariant
                    0 <= idx <= r@.len(),
                    m == r@,
                    forall|w: int|
                        0 <= w < idx ==> cell_key_le(
                            (#[trigger] r@[w]).spec_key(),
                            winner.spec_key(),
                        ) && r@[w].spec_key() != winner.spec_key(),
                    dup ==> idx < r@.len() && r@[idx as int].spec_key() == winner.spec_key(),
                decreases r@.len() - idx, (if dup {
                    0int
                } else {
                    1int
                }),
            {
                if r[idx].id == winner.id && r[idx].mnc == winner.mnc {
                    dup = true;
                } else {
                    idx += 1;
                }
            }
            if !dup {
                r.insert(idx, winner);
                proof {
                    lemma_cell_insert_unique_split(m, winner, idx as int);
                    if (idx as int) < m.len() {
                        assert(m.skip(idx as int)[0] == m[idx as int]);
                        assert(cell_insert_unique(m.skip(idx as int), winner) =~= seq![winner]
                            + m.skip(idx as int));
                    } else {
                        assert(m.skip(idx as int) =~= Seq::<RadioCell>::empty());
                    }
                    assert(r@ =~= m.take(idx as int) + (seq![winner] + m.skip(idx as int)));
                    assert(r@ =~= cell_insert_unique(m, winner));
                }
            } else {
                proof {
                    lemma_cell_insert_unique_split(m, winner, idx as int);
                    assert(m.skip(idx as int)[0] == m[idx as int]);
                    assert(cell_insert_unique(m.skip(idx as int), winner) == m.skip(idx as int));
                    assert(m.take(idx as int) + m.skip(idx as int) =~= m);
                    assert(r@ == cell_insert_unique(m, winner));
                }
            }
            proof {
                assert(winner == candidates@[min_dist_index(dists@[i as int]@)]);
            }
        }
        i += 1;
    }
    proof {
        assert(dists@.skip(dists@.len() as int) =~= Seq::<Vec<u64>>::empty());
    }
    r
}

} // verus!
