//! The reconnect-event batcher: compresses per-vehicle attachment sequences
//! into a deduplicated, optionally time-batched stream of topology add/remove
//! events, merged across vehicles into one ordered update list.
use vstd::prelude::*;
use crate::SimulationError;
use crate::cell_data::{CellKey, MultiTripAndCellData, RadioCell, RouteTrips, TripAndCellData};
use crate::gtfs::{Coord, ShapePoint};

verus! {

/// Whether a reconnect event attaches or detaches a child node.
#[allow(non_camel_case_types)]
#[derive(Clone, Copy, Debug, PartialEq, Eq, Structural)]
pub enum ISQPEventAction {
    add,
    remove,
}

/// One add or remove operation linking a mobile child node to a parent node.
#[derive(Clone, Copy, Debug, PartialEq, Eq, Structural)]
pub struct ISQPEvent {
    pub parent_id: u64,
    pub child_id: u64,
    pub action: ISQPEventAction,
}

/// All events that become visible at one output timestamp (milliseconds).
#[derive(Debug)]
pub struct TopologyUpdate {
    pub timestamp: u64,
    pub events: Vec<ISQPEvent>,
}

impl Clone for TopologyUpdate {
    fn clone(&self) -> (r: Self)
        ensures
            r.timestamp == self.timestamp,
            r.events@ == self.events@,
    {
        let events = self.events.clone();
        proof {
            assert(events@ =~= self.events@);
        }
        TopologyUpdate { timestamp: self.timestamp, events }
    }
}

/// One net attachment change of a vehicle: at output time `timestamp` the
/// vehicle's child node leaves parent `from` and joins parent `to`.
#[derive(Clone, Copy, Debug, PartialEq, Eq, Structural)]
pub struct Reconnect {
    pub timestamp: u64,
    pub from: u64,
    pub to: u64,
}

/// The attachment a vehicle currently holds while the batcher scans it:
/// the parent as of the last flushed window, overridden by a pending move.
pub open spec fn effective_parent(stable: u64, pending: Option<u64>) -> u64 {
    match pending {
        Some(p) => p,
        None => stable,
    }
}

/// What a window flush emits: the net move of the window, or nothing when the
/// pending move returns to the parent the window started from.
pub open spec fn flush_reconnects(stable: u64, pending: Option<u64>, widx: u64, gap: u64) -> Seq<
    Reconnect,
> {
    match pending {
        Some(p) => if p != stable {
            seq![Reconnect { timestamp: (widx * gap) as u64, from: stable, to: p }]
        } else {
            Seq::empty()
        },
        None => Seq::empty(),
    }
}

/// Net attachment changes of one vehicle without batching: every change of
/// parent emits one reconnect at the exact change time.
pub open spec fn unbatched_reconnects(seq: Seq<(u64, u64)>, current: u64) -> Seq<Reconnect>
    decreases seq.len(),
{
    if seq.len() == 0 {
        Seq::empty()
    } else {
        let t = seq[0].0;
        let p = seq[0].1;
        if p == current {
            unbatched_reconnects(seq.drop_first(), current)
        } else {
            seq![Reconnect { timestamp: t, from: current, to: p }] + unbatched_reconnects(
                seq.drop_first(),
                p,
            )
        }
    }
}

/// Net attachment changes of one vehicle with batching: time is partitioned
/// into windows of width `window` starting at zero; each occupied window
/// collapses to at most one net reconnect, emitted at `window index * gap`.
pub open spec fn batched_reconnects(
    seq: Seq<(u64, u64)>,
    stable: u64,
    pending: Option<u64>,
    widx: u64,
    window: u64,
    gap: u64,
) -> Seq<Reconnect>
    decreases seq.len(),
{
    if seq.len() == 0 {
        flush_reconnects(stable, pending, widx, gap)
    } else {
        let t = seq[0].0;
        let p = seq[0].1;
        let wi = t / window;
        if wi == widx {
            let pending2 = if p != effective_parent(stable, pending) {
                Some(p)
            } else {
                pending
            };
            batched_reconnects(seq.drop_first(), stable, pending2, widx, window, gap)
        } else {
            let emitted = flush_reconnects(stable, pending, widx, gap);
            let stable2 = effective_parent(stable, pending);
            let pending2 = if p != stable2 {
                Some(p)
            } else {
                None
            };
            emitted + batched_reconnects(seq.drop_first(), stable2, pending2, wi, window, gap)
        }
    }
}

/// The net attachment changes of one vehicle, batched or not.
pub open spec fn vehicle_reconnects_spec(
    seq: Seq<(u64, u64)>,
    initial: u64,
    batching: Option<(u64, u64)>,
) -> Seq<Reconnect> {
    match batching {
        None => unbatched_reconnects(seq, initial),
        Some(cfg) => batched_reconnects(seq, initial, None, 0, cfg.0, cfg.1),
    }
}

/// Precondition on one vehicle's attachment sequence: times nondecreasing, and
/// under batching the window width positive with all output timestamps
/// representable.
pub open spec fn valid_attachment_seq(seq: Seq<(u64, u64)>, batching: Option<(u64, u64)>) -> bool {
    &&& forall|i: int, j: int| 0 <= i <= j < seq.len() ==> seq[i].0 <= seq[j].0
    &&& match batching {
        None => true,
        Some(cfg) => cfg.0 > 0 && forall|i: int|
            0 <= i < seq.len() ==> (seq[i].0 / cfg.0) * cfg.1 <= u64::MAX,
    }
}

/// Scan one vehicle's time-ordered attachment sequence and return its net
/// reconnects, per the batching configuration `batching = (window, gap)`.
pub fn vehicle_reconnects(seq: &Vec<(u64, u64)>, initial: u64, batching: Option<(u64, u64)>) -> (r:
    Vec<Reconnect>)
    requires
        valid_attachment_seq(seq@, batching),
    ensures
        r@ == vehicle_reconnects_spec(seq@, initial, batching),
{
    let mut r: Vec<Reconnect> = Vec::new();
    proof {
        assert(seq@.skip(0) =~= seq@);
    }
    match batching {
        None => {
            let mut current: u64 = initial;
            let mut i: usize = 0;
            proof {
                assert(r@ + unbatched_reconnects(seq@, initial) =~= unbatched_reconnects(
                    seq@,
                    initial,
                ));
            }
            while i < seq.len()
                invariant
                    i <= seq@.len(),
                    unbatched_reconnects(seq@, initial) == r@ + unbatched_reconnects(
                        seq@.skip(i as int),
                        current,
                    ),
                decreases seq@.len() - i,
            {
                let t = seq[i].0;
                let p = seq[i].1;
                proof {
                    assert(seq@.skip(i as int)[0] == seq@[i as int]);
                    assert(seq@.skip(i as int).drop_first() =~= seq@.skip(i + 1));
                }
                if p != current {
                    r.push(Reconnect { timestamp: t, from: current, to: p });
                    current = p;
                }
                i += 1;
            }
            proof {
                assert(seq@.skip(seq@.len() as int) =~= Seq::<(u64, u64)>::empty());
                assert(r@ =~= r@ + unbatched_reconnects(Seq::empty(), current));
            }
        },
        Some((window, gap)) => {
            let mut stable: u64 = initial;
            let mut pending: Option<u64> = None;
            let mut widx: u64 = 0;
            let mut i: usize = 0;
            proof {
                assert(r@ + batched_reconnects(seq@, initial, None, 0, window, gap)
                    =~= batched_reconnects(seq@, initial, None, 0, window, gap));
            }
            while i < seq.len()
                invariant
                    i <= seq@.len(),
                    valid_attachment_seq(seq@, batching),
                    batching == Some((window, gap)),
                    i < seq@.len() ==> widx <= seq@[i as int].0 / window,
                    widx * gap <= u64::MAX,
                    batched_reconnects(seq@, initial, None, 0, window, gap) == r@
                        + batched_reconnects(
                        seq@.skip(i as int),
                        stable,
                        pending,
                        widx,
                        window,
                        gap,
                    ),
                decreases seq@.len() - i,
            {
                let t = seq[i].0;
                let p = seq[i].1;
                let wi = t / window;
                proof {
                    assert(seq@.skip(i as int)[0] == seq@[i as int]);
                    assert(seq@.skip(i as int).drop_first() =~= seq@.skip(i + 1));
                }
                if wi == widx {
                    let eff = match pending {
                        Some(q) => q,
                        None => stable,
                    };
                    if p != eff {
                        pending = Some(p);
                    }
                } else {
                    if let Some(q) = pending {
                        if q != stable {
                            r.push(Reconnect { timestamp: widx * gap, from: stable, to: q });
                        }
                        stable = q;
                    }
                    pending = if p != stable {
                        Some(p)
                    } else {
                        None
                    };
                    widx = wi;
                }
                proof {
                    if i + 1 < seq@.len() {
                        assert(seq@[i as int].0 <= seq@[i + 1].0);
                        vstd::arithmetic::div_mod::lemma_div_is_ordered(
                            seq@[i as int].0 as int,
                            seq@[i + 1].0 as int,
                            window as int,
                        );
                    }
                }
                i += 1;
            }
            // trailing flush of the still-pending move
            proof {
                assert(seq@.skip(seq@.len() as int) =~= Seq::<(u64, u64)>::empty());
            }
            if let Some(q) = pending {
                if q != stable {
                    r.push(Reconnect { timestamp: widx * gap, from: stable, to: q });
                }
            }
            proof {
                assert(batched_reconnects(seq@, initial, None, 0, window, gap) =~= r@);
            }
        },
    }
    r
}

/// The mathematical content of an update list: each entry as its timestamp
/// and its event sequence.
pub open spec fn updates_view(us: Seq<TopologyUpdate>) -> Seq<(u64, Seq<ISQPEvent>)> {
    us.map_values(|u: TopologyUpdate| (u.timestamp, u.events@))
}

/// The two events a net reconnect contributes: the remove, then its add.
pub open spec fn pair_events(r: Reconnect, child: u64) -> Seq<ISQPEvent> {
    seq![
        ISQPEvent { parent_id: r.from, child_id: child, action: ISQPEventAction::remove },
        ISQPEvent { parent_id: r.to, child_id: child, action: ISQPEventAction::add },
    ]
}

/// Append events at timestamp `ts`, keeping the list ordered: events join an
/// existing entry with that timestamp, or a new entry opens at the first
/// position whose timestamp is not below `ts`.
pub open spec fn insert_events_at(
    m: Seq<(u64, Seq<ISQPEvent>)>,
    ts: u64,
    ev: Seq<ISQPEvent>,
) -> Seq<(u64, Seq<ISQPEvent>)>
    decreases m.len(),
{
    if m.len() == 0 {
        seq![(ts, ev)]
    } else if m[0].0 == ts {
        seq![(m[0].0, m[0].1 + ev)] + m.drop_first()
    } else if m[0].0 < ts {
        seq![m[0]] + insert_events_at(m.drop_first(), ts, ev)
    } else {
        seq![(ts, ev)] + m
    }
}

/// Merge one vehicle's reconnects, in order, into an update list.
pub open spec fn insert_vehicle(
    m: Seq<(u64, Seq<ISQPEvent>)>,
    rs: Seq<Reconnect>,
    child: u64,
) -> Seq<(u64, Seq<ISQPEvent>)>
    decreases rs.len(),
{
    if rs.len() == 0 {
        m
    } else {
        insert_vehicle(
            insert_events_at(m, rs[0].timestamp, pair_events(rs[0], child)),
            rs.drop_first(),
            child,
        )
    }
}

/// Splitting `insert_events_at` at a prefix of entries whose timestamps lie
/// below the inserted one.
proof fn lemma_insert_events_at_split(
    m: Seq<(u64, Seq<ISQPEvent>)>,
    ts: u64,
    ev: Seq<ISQPEvent>,
    k: int,
)
    requires
        0 <= k <= m.len(),
        forall|i: int| 0 <= i < k ==> m[i].0 < ts,
    ensures
        insert_events_at(m, ts, ev) == m.take(k) + insert_events_at(m.skip(k), ts, ev),
    decreases k,
{
    if k == 0 {
        assert(m.take(0) =~= Seq::<(u64, Seq<ISQPEvent>)>::empty());
        assert(m.skip(0) =~= m);
        assert(m.take(0) + insert_events_at(m, ts, ev) =~= insert_events_at(m, ts, ev));
    } else {
        assert(m.len() > 0 && m[0].0 < ts);
        lemma_insert_events_at_split(m.drop_first(), ts, ev, k - 1);
        assert(m.drop_first().take(k - 1) =~= m.take(k).drop_first());
        assert(m.drop_first().skip(k - 1) =~= m.skip(k));
        assert(seq![m[0]] + (m.take(k).drop_first() + insert_events_at(m.skip(k), ts, ev)) =~= (
        m.take(k) + insert_events_at(m.skip(k), ts, ev)));
    }
}

/// Append the events of one net reconnect to the ordered update list: they
/// join the update at their exact timestamp, or open a new one in order.
fn push_events_at(updates: &mut Vec<TopologyUpdate>, ts: u64, rem: ISQPEvent, add_ev: ISQPEvent)
    ensures
        updates_view(final(updates)@) == insert_events_at(
            updates_view(old(updates)@),
            ts,
            seq![rem, add_ev],
        ),
{
    let ghost m = updates_view(updates@);
    let mut idx: usize = 0;
    while idx < updates.len() && updates[idx].timestamp < ts
        invariant
            0 <= idx <= updates@.len(),
            m == updates_view(updates@),
            forall|i: int| 0 <= i < idx ==> m[i].0 < ts,
        decreases updates@.len() - idx,
    {
        idx += 1;
    }
    proof {
        lemma_insert_events_at_split(m, ts, seq![rem, add_ev], idx as int);
    }
    if idx < updates.len() && updates[idx].timestamp == ts {
        let mut u = updates.remove(idx);
        u.events.push(rem);
        u.events.push(add_ev);
        let ghost u_view = (u.timestamp, u.events@);
        updates.insert(idx, u);
        proof {
            assert(m.skip(idx as int).drop_first() =~= m.skip(idx + 1));
            assert(u_view.1 =~= m[idx as int].1 + seq![rem, add_ev]);
            assert(insert_events_at(m.skip(idx as int), ts, seq![rem, add_ev]) =~= seq![u_view]
                + m.skip(idx + 1));
            assert(updates_view(updates@) =~= m.take(idx as int) + (seq![u_view] + m.skip(
                idx + 1,
            )));
        }
    } else {
        let mut events: Vec<ISQPEvent> = Vec::new();
        events.push(rem);
        events.push(add_ev);
        let ghost ev = events@;
        updates.insert(idx, TopologyUpdate { timestamp: ts, events });
        proof {
            assert(ev =~= seq![rem, add_ev]);
            if idx < m.len() {
                assert(m.skip(idx as int)[0] == m[idx as int]);
                assert(insert_events_at(m.skip(idx as int), ts, ev) =~= seq![(ts, ev)] + m.skip(
                    idx as int,
                ));
            } else {
                assert(m.skip(idx as int) =~= Seq::<(u64, Seq<ISQPEvent>)>::empty());
            }
            assert(updates_view(updates@) =~= m.take(idx as int) + (seq![(ts, ev)] + m.skip(
                idx as int,
            )));
        }
    }
}

/// Merge one vehicle's net reconnects into the ordered update list, each as a
/// (remove, add) pair for the vehicle's child node.
fn apply_vehicle_reconnects(updates: &mut Vec<TopologyUpdate>, rs: &Vec<Reconnect>, child: u64)
    ensures
        updates_view(final(updates)@) == insert_vehicle(updates_view(old(updates)@), rs@, child),
{
    let ghost m0 = updates_view(updates@);
    let mut i: usize = 0;
    proof {
        assert(rs@.skip(0) =~= rs@);
    }
    while i < rs.len()
        invariant
            i <= rs@.len(),
            insert_vehicle(m0, rs@, child) == insert_vehicle(
                updates_view(updates@),
                rs@.skip(i as int),
                child,
            ),
        decreases rs@.len() - i,
    {
        let r = rs[i];
        proof {
            assert(rs@.skip(i as int)[0] == rs@[i as int]);
            assert(rs@.skip(i as int).drop_first() =~= rs@.skip(i + 1));
        }
        push_events_at(
            updates,
            r.timestamp,
            ISQPEvent { parent_id: r.from, child_id: child, action: ISQPEventAction::remove },
            ISQPEvent { parent_id: r.to, child_id: child, action: ISQPEventAction::add },
        );
        proof {
            assert(seq![
                ISQPEvent { parent_id: r.from, child_id: child, action: ISQPEventAction::remove },
                ISQPEvent { parent_id: r.to, child_id: child, action: ISQPEventAction::add },
            ] =~= pair_events(r, child));
        }
        i += 1;
    }
    proof {
        assert(rs@.skip(rs@.len() as int) =~= Seq::<Reconnect>::empty());
    }
}

/// Insert a `(time, node)` pair behind every pair whose time is not later:
/// the insertion step of a stable sort by time.
pub open spec fn pair_insert(s: Seq<(u64, u64)>, p: (u64, u64)) -> Seq<(u64, u64)>
    decreases s.len(),
{
    if s.len() == 0 {
        seq![p]
    } else if s[0].0 <= p.0 {
        seq![s[0]] + pair_insert(s.drop_first(), p)
    } else {
        seq![p] + s
    }
}

/// A stable sort of `(time, node)` pairs by time: pairs with equal times keep
/// their input order.
pub open spec fn pairs_sorted_spec(s: Seq<(u64, u64)>) -> Seq<(u64, u64)>
    decreases s.len(),
{
    if s.len() == 0 {
        Seq::empty()
    } else {
        pair_insert(pairs_sorted_spec(s.drop_last()), s.last())
    }
}

/// Times nondecreasing along the sequence.
pub open spec fn pairs_time_sorted(s: Seq<(u64, u64)>) -> bool {
    forall|i: int, j: int| 0 <= i <= j < s.len() ==> s[i].0 <= s[j].0
}

proof fn lemma_pair_insert_split(s: Seq<(u64, u64)>, p: (u64, u64), k: int)
    requires
        0 <= k <= s.len(),
        forall|i: int| 0 <= i < k ==> s[i].0 <= p.0,
    ensures
        pair_insert(s, p) == s.take(k) + pair_insert(s.skip(k), p),
    decreases k,
{
    if k == 0 {
        assert(s.skip(0) =~= s);
        assert(s.take(0) + pair_insert(s, p) =~= pair_insert(s, p));
    } else {
        lemma_pair_insert_split(s.drop_first(), p, k - 1);
        assert(s.drop_first().take(k - 1) =~= s.take(k).drop_first());
        assert(s.drop_first().skip(k - 1) =~= s.skip(k));
        assert(seq![s[0]] + (s.take(k).drop_first() + pair_insert(s.skip(k), p)) =~= (s.take(k)
            + pair_insert(s.skip(k), p)));
    }
}

proof fn lemma_pair_insert_sorted(s: Seq<(u64, u64)>, p: (u64, u64))
    requires
        pairs_time_sorted(s),
    ensures
        pairs_time_sorted(pair_insert(s, p)),
        pair_insert(s, p).len() == s.len() + 1,
        forall|x: (u64, u64)| #[trigger]
            pair_insert(s, p).contains(x) <==> (s.contains(x) || x == p),
    decreases s.len(),
{
    if s.len() == 0 {
        assert forall|x: (u64, u64)| #[trigger]
            pair_insert(s, p).contains(x) <==> (s.contains(x) || x == p) by {
            assert(pair_insert(s, p) =~= seq![p]);
            if pair_insert(s, p).contains(x) {
                assert(x == pair_insert(s, p)[0]);
            }
            if x == p {
                assert(pair_insert(s, p)[0] == x);
            }
        }
    } else if s[0].0 <= p.0 {
        assert(pairs_time_sorted(s.drop_first()));
        lemma_pair_insert_sorted(s.drop_first(), p);
        let r = pair_insert(s, p);
        let r1 = pair_insert(s.drop_first(), p);
        assert(r =~= seq![s[0]] + r1);
        assert forall|i: int, j: int| 0 <= i <= j < r.len() implies r[i].0 <= r[j].0 by {
            if i == 0 && j > 0 {
                assert(r[j] == r1[j - 1]);
                assert(r1.contains(r1[j - 1]));
                if r1[j - 1] == p {
                } else {
                    assert(s.drop_first().contains(r1[j - 1]));
                    let w = choose|w: int|
                        0 <= w < s.drop_first().len() && s.drop_first()[w] == r1[j - 1];
                    assert(s[w + 1] == r1[j - 1]);
                }
            } else if i > 0 {
                assert(r[i] == r1[i - 1] && r[j] == r1[j - 1]);
            }
        }
        assert forall|x: (u64, u64)| #[trigger] r.contains(x) implies (s.contains(x) || x == p) by {
            let w = choose|w: int| 0 <= w < r.len() && r[w] == x;
            if w == 0 {
                assert(s[0] == x);
            } else {
                assert(r1.contains(r1[w - 1]));
                if s.drop_first().contains(x) {
                    let v = choose|v: int|
                        0 <= v < s.drop_first().len() && s.drop_first()[v] == x;
                    assert(s[v + 1] == x);
                }
            }
        }
        assert forall|x: (u64, u64)| s.contains(x) || x == p implies #[trigger] r.contains(x) by {
            if s.contains(x) {
                let w = choose|w: int| 0 <= w < s.len() && s[w] == x;
                if w == 0 {
                    assert(r[0] == x);
                } else {
                    assert(s.drop_first()[w - 1] == x);
                    assert(s.drop_first().contains(x));
                    assert(r1.contains(x));
                    let v = choose|v: int| 0 <= v < r1.len() && r1[v] == x;
                    assert(r[v + 1] == x);
                }
            } else {
                assert(r1.contains(x));
                let v = choose|v: int| 0 <= v < r1.len() && r1[v] == x;
                assert(r[v + 1] == x);
            }
        }
    } else {
        let r = pair_insert(s, p);
        assert(r =~= seq![p] + s);
        assert forall|x: (u64, u64)| #[trigger] r.contains(x) implies (s.contains(x) || x == p) by {
            let w = choose|w: int| 0 <= w < r.len() && r[w] == x;
            if w > 0 {
                assert(s[w - 1] == x);
            }
        }
        assert forall|x: (u64, u64)| s.contains(x) || x == p implies #[trigger] r.contains(x) by {
            if s.contains(x) {
                let w = choose|w: int| 0 <= w < s.len() && s[w] == x;
                assert(r[w + 1] == x);
            } else {
                assert(r[0] == x);
            }
        }
    }
}

/// A stable time sort returns a sorted permutation: same length, same
/// members, times nondecreasing.
pub proof fn lemma_pairs_sorted_spec_ensures(s: Seq<(u64, u64)>)
    ensures
        pairs_time_sorted(pairs_sorted_spec(s)),
        pairs_sorted_spec(s).len() == s.len(),
        forall|x: (u64, u64)| #[trigger] pairs_sorted_spec(s).contains(x) <==> s.contains(x),
    decreases s.len(),
{
    if s.len() == 0 {
    } else {
        lemma_pairs_sorted_spec_ensures(s.drop_last());
        lemma_pair_insert_sorted(pairs_sorted_spec(s.drop_last()), s.last());
        assert forall|x: (u64, u64)| #[trigger] pairs_sorted_spec(s).contains(x) implies s.contains(
            x,
        ) by {
            if s.drop_last().contains(x) {
                let w = choose|w: int| 0 <= w < s.drop_last().len() && s.drop_last()[w] == x;
                assert(s[w] == x);
            } else {
                assert(x == s.last());
            }
        }
        assert forall|x: (u64, u64)| s.contains(x) implies #[trigger] pairs_sorted_spec(s).contains(
            x,
        ) by {
            let w = choose|w: int| 0 <= w < s.len() && s[w] == x;
            if w < s.len() - 1 {
                assert(s.drop_last()[w] == x);
                assert(s.drop_last().contains(x));
            } else {
                assert(x == s.last());
            }
        }
    }
}

/// Stable sort of one vehicle's `(time, node)` attachment pairs by time.
pub fn sort_attachment_pairs(v: &Vec<(u64, u64)>) -> (r: Vec<(u64, u64)>)
    ensures
        r@ == pairs_sorted_spec(v@),
{
    let mut r: Vec<(u64, u64)> = Vec::new();
    proof {
        assert(v@.take(0) =~= Seq::<(u64, u64)>::empty());
    }
    let mut i: usize = 0;
    while i < v.len()
        invariant
            i <= v@.len(),
            r@ == pairs_sorted_spec(v@.take(i as int)),
        decreases v@.len() - i,
    {
        let p = v[i];
        let ghost m = r@;
        let mut idx: usize = 0;
        while idx < r.len() && r[idx].0 <= p.0
            invariant
                0 <= idx <= r@.len(),
                m == r@,
                forall|q: int| 0 <= q < idx ==> r@[q].0 <= p.0,
            decreases r@.len() - idx,
        {
            idx += 1;
        }
        r.insert(idx, p);
        proof {
            lemma_pair_insert_split(m, p, idx as int);
            if (idx as int) < m.len() {
                assert(m.skip(idx as int)[0] == m[idx as int]);
                assert(pair_insert(m.skip(idx as int), p) =~= seq![p] + m.skip(idx as int));
            } else {
                assert(m.skip(idx as int) =~= Seq::<(u64, u64)>::empty());
            }
            assert(r@ =~= m.take(idx as int) + (seq![p] + m.skip(idx as int)));
            assert(r@ =~= pair_insert(m, p));
            assert(v@.take(i + 1).drop_last() =~= v@.take(i as int));
            assert(v@.take(i + 1).last() == v@[i as int]);
        }
        i += 1;
    }
    proof {
        assert(v@.take(v@.len() as int) =~= v@);
    }
    r
}

/// The static node graph of the simulation: one node per resolved tower,
/// each with a location, a uniform capacity, and an (initially empty) child
/// list. The three lists are keyed alike and ordered by ascending node id.
#[derive(Debug)]
pub struct FixedTopology {
    pub nodes: Vec<(u64, Coord)>,
    pub slots: Vec<(u64, u16)>,
    pub children: Vec<(u64, Vec<u64>)>,
}

impl FixedTopology {
    /// Node ids strictly ascend, and the three lists describe the same nodes
    /// in the same order.
    pub open spec fn wf(self) -> bool {
        &&& self.slots@.len() == self.nodes@.len()
        &&& self.children@.len() == self.nodes@.len()
        &&& forall|i: int|
            0 <= i < self.nodes@.len() ==> (#[trigger] self.slots@[i]).0 == self.nodes@[i].0 && (
            #[trigger] self.children@[i]).0 == self.nodes@[i].0
        &&& forall|i: int, j: int|
            0 <= i < j < self.nodes@.len() ==> self.nodes@[i].0 < self.nodes@[j].0
    }

    /// The greatest node id: the last one, since ids ascend.
    pub open spec fn spec_max_node_id(self) -> u64 {
        self.nodes@.last().0
    }

    /// The greatest node id of a non-empty topology.
    pub fn max_node_id(&self) -> (r: u64)
        requires
            self.wf(),
            self.nodes@.len() > 0,
        ensures
            r == self.spec_max_node_id(),
            forall|i: int| 0 <= i < self.nodes@.len() ==> self.nodes@[i].0 <= r,
    {
        self.nodes[self.nodes.len() - 1].0
    }
}

/// The first node id that the mapping assigns to this cell identity.
pub open spec fn lookup_node(mapping: Seq<(CellKey, u64)>, key: CellKey) -> Option<u64>
    decreases mapping.len(),
{
    if mapping.len() == 0 {
        None
    } else if mapping[0].0 == key {
        Some(mapping[0].1)
    } else {
        lookup_node(mapping.drop_first(), key)
    }
}

/// Look a cell identity up in the cell-to-node mapping.
pub fn cell_id_to_node(mapping: &Vec<(CellKey, u64)>, key: CellKey) -> (r: Option<u64>)
    ensures
        r == lookup_node(mapping@, key),
{
    let mut i: usize = 0;
    proof {
        assert(mapping@.skip(0) =~= mapping@);
    }
    while i < mapping.len()
        invariant
            i <= mapping@.len(),
            lookup_node(mapping@, key) == lookup_node(mapping@.skip(i as int), key),
        decreases mapping@.len() - i,
    {
        proof {
            assert(mapping@.skip(i as int)[0] == mapping@[i as int]);
            assert(mapping@.skip(i as int).drop_first() =~= mapping@.skip(i + 1));
        }
        let entry = mapping[i];
        if entry.0.id == key.id && entry.0.mnc == key.mnc {
            proof {
                assert(entry.0 == key);
            }
            return Some(entry.1);
        }
        i += 1;
    }
    proof {
        assert(mapping@.skip(mapping@.len() as int) =~= Seq::<(CellKey, u64)>::empty());
    }
    None
}

/// One shape point can join the attachment sequence: it has a time inside the
/// simulated window, a resolved cell, and that cell has a topology node.
pub open spec fn point_entry_ok(
    p: ShapePoint,
    c: Option<CellKey>,
    mapping: Seq<(CellKey, u64)>,
    start: u64,
) -> bool {
    &&& c is Some
    &&& lookup_node(mapping, c->0) is Some
    &&& p.time is Some
    &&& p.time->0 >= start
}

/// Why one shape point cannot join the attachment sequence, if it cannot:
/// a missing cell or node mapping, or a missing or too-early time.
pub open spec fn point_entry_err(
    p: ShapePoint,
    c: Option<CellKey>,
    mapping: Seq<(CellKey, u64)>,
    start: u64,
) -> Option<SimulationError> {
    if !(c is Some && lookup_node(mapping, c->0) is Some) {
        Some(SimulationError::MissingAttachment)
    } else if !(p.time is Some && p.time->0 >= start) {
        Some(SimulationError::InconsistentSchedule)
    } else {
        None
    }
}

/// One vehicle's attachment pairs: for each shape point, its time relative to
/// the simulation start and the topology node of its resolved cell.
pub open spec fn attachment_pairs_spec(
    pts: Seq<ShapePoint>,
    cd: Seq<Option<CellKey>>,
    mapping: Seq<(CellKey, u64)>,
    start: u64,
) -> Seq<(u64, u64)> {
    Seq::new(
        pts.len(),
        |i: int| (((pts[i].time->0 - start) as u64, lookup_node(mapping, cd[i]->0)->0)),
    )
}

/// Walk one vehicle's shape points and map each to `(relative time, node)`.
///
/// Every point must carry an interpolated time at or after `start_time`
/// (`InconsistentSchedule` otherwise) and a resolved cell known to the
/// mapping (`MissingAttachment` otherwise); the first offending point, in
/// input order, decides the error.
pub fn attachment_sequence(
    trip: &TripAndCellData,
    mapping: &Vec<(CellKey, u64)>,
    start_time: u64,
) -> (r: Result<Vec<(u64, u64)>, SimulationError>)
    requires
        trip.wf(),
    ensures
        r is Ok <==> (forall|i: int|
            0 <= i < trip.trip.shape_points@.len() ==> point_entry_ok(
                trip.trip.shape_points@[i],
                trip.cell_data@[i],
                mapping@,
                start_time,
            )),
        r is Ok ==> r->Ok_0@ == attachment_pairs_spec(
            trip.trip.shape_points@,
            trip.cell_data@,
            mapping@,
            start_time,
        ),
        r matches Err(e) ==> exists|i: int|
            0 <= i < trip.trip.shape_points@.len() && #[trigger] point_entry_err(
                trip.trip.shape_points@[i],
                trip.cell_data@[i],
                mapping@,
                start_time,
            ) == Some(e) && (forall|j: int|
                0 <= j < i ==> point_entry_err(
                    trip.trip.shape_points@[j],
                    trip.cell_data@[j],
                    mapping@,
                    start_time,
                ) is None),
{
    let ghost pts = trip.trip.shape_points@;
    let ghost cd = trip.cell_data@;
    let mut out: Vec<(u64, u64)> = Vec::new();
    let mut i: usize = 0;
    while i < trip.trip.shape_points.len()
        invariant
            trip.wf(),
            pts == trip.trip.shape_points@,
            cd == trip.cell_data@,
            i <= pts.len(),
            out@.len() == i,
            forall|j: int|
                0 <= j < i ==> #[trigger] point_entry_ok(pts[j], cd[j], mapping@, start_time),
            forall|j: int|
                0 <= j < i ==> out@[j] == (((pts[j].time->0 - start_time) as u64, lookup_node(
                    mapping@,
                    cd[j]->0,
                )->0)),
        decreases pts.len() - i,
    {
        proof {
            assert forall|j: int|
                0 <= j < i implies point_entry_err(pts[j], cd[j], mapping@, start_time) is None by {
                assert(point_entry_ok(pts[j], cd[j], mapping@, start_time));
            }
        }
        let cell = match trip.cell_data[i] {
            Some(c) => c,
            None => {
                proof {
                    assert(point_entry_err(pts[i as int], cd[i as int], mapping@, start_time)
                        == Some(SimulationError::MissingAttachment));
                    assert(!point_entry_ok(pts[i as int], cd[i as int], mapping@, start_time));
                }
                return Err(SimulationError::MissingAttachment);
            },
        };
        let node = match cell_id_to_node(mapping, cell) {
            Some(n) => n,
            None => {
                proof {
                    assert(point_entry_err(pts[i as int], cd[i as int], mapping@, start_time)
                        == Some(SimulationError::MissingAttachment));
                    assert(!point_entry_ok(pts[i as int], cd[i as int], mapping@, start_time));
                }
                return Err(SimulationError::MissingAttachment);
            },
        };
        let t = match trip.trip.shape_points[i].time {
            Some(t) => t,
            None => {
                proof {
                    assert(point_entry_err(pts[i as int], cd[i as int], mapping@, start_time)
                        == Some(SimulationError::InconsistentSchedule));
                    assert(!point_entry_ok(pts[i as int], cd[i as int], mapping@, start_time));
                }
                return Err(SimulationError::InconsistentSchedule);
            },
        };
        if t < start_time {
            proof {
                assert(point_entry_err(pts[i as int], cd[i as int], mapping@, start_time) == Some(
                    SimulationError::InconsistentSchedule,
                ));
                assert(!point_entry_ok(pts[i as int], cd[i as int], mapping@, start_time));
            }
            return Err(SimulationError::InconsistentSchedule);
        }
        out.push((t - start_time, node));
        i += 1;
    }
    proof {
        assert(out@ =~= attachment_pairs_spec(pts, cd, mapping@, start_time));
    }
    Ok(out)
}

/// Order on interpolated times: a missing time sorts before any assigned one.
pub open spec fn time_le(a: Option<u64>, b: Option<u64>) -> bool {
    match a {
        None => true,
        Some(x) => match b {
            None => false,
            Some(y) => x <= y,
        },
    }
}

/// Index of the earliest-timed shape point, first among equals.
pub open spec fn min_time_index(s: Seq<ShapePoint>) -> int
    recommends
        s.len() > 0,
    decreases s.len(),
{
    if s.len() <= 1 {
        0
    } else {
        let m = min_time_index(s.drop_first()) + 1;
        if time_le(s[0].time, s[m].time) {
            0
        } else {
            m
        }
    }
}

proof fn lemma_min_time_index_ensures(s: Seq<ShapePoint>)
    requires
        s.len() > 0,
    ensures
        0 <= min_time_index(s) < s.len(),
        forall|j: int| 0 <= j < s.len() ==> time_le(s[min_time_index(s)].time, s[j].time),
        forall|j: int| 0 <= j < min_time_index(s) ==> !time_le(s[j].time, s[min_time_index(s)].time),
    decreases s.len(),
{
    if s.len() > 1 {
        lemma_min_time_index_ensures(s.drop_first());
        let m = min_time_index(s.drop_first()) + 1;
        assert(forall|j: int| 1 <= j < s.len() ==> s[j] == s.drop_first()[j - 1]);
        let r = min_time_index(s);
        assert forall|j: int| 0 <= j < s.len() implies time_le(s[r].time, s[j].time) by {
            if j >= 1 {
                assert(time_le(s.drop_first()[m - 1].time, s.drop_first()[j - 1].time));
            }
        }
        assert forall|j: int| 0 <= j < r implies !time_le(s[j].time, s[r].time) by {
            if j >= 1 {
                assert(!time_le(s.drop_first()[j - 1].time, s.drop_first()[m - 1].time));
            }
        }
    }
}

/// The earliest-timed shape point of a non-empty route, first among equals.
pub fn first_point_index_by_time(points: &Vec<ShapePoint>) -> (r: usize)
    requires
        points@.len() > 0,
    ensures
        r == min_time_index(points@),
        r < points@.len(),
{
    let ghost s = points@;
    let mut best: usize = 0;
    let mut j: usize = 1;
    while j < points.len()
        invariant
            s == points@,
            0 <= best < j <= s.len(),
            s.len() > 0,
            forall|w: int| 0 <= w < j ==> time_le(s[best as int].time, s[w].time),
            forall|w: int| 0 <= w < best ==> !time_le(s[w].time, s[best as int].time),
        decreases s.len() - j,
    {
        let a = points[best].time;
        let b = points[j].time;
        let le = match a {
            None => true,
            Some(x) => match b {
                None => false,
                Some(y) => x <= y,
            },
        };
        proof {
            assert(le == time_le(s[best as int].time, s[j as int].time));
        }
        if !le {
            proof {
                assert forall|w: int| 0 <= w < j implies !time_le(s[w].time, s[j as int].time) by {
                    assert(time_le(s[best as int].time, s[w].time));
                }
            }
            best = j;
        }
        j += 1;
    }
    proof {
        lemma_min_time_index_ensures(s);
        let m = min_time_index(s);
        if m < best {
            assert(!time_le(s[m].time, s[best as int].time));
            assert(time_le(s[m].time, s[best as int].time));
        }
        if best < m {
            assert(!time_le(s[best as int].time, s[m].time));
            assert(time_le(s[best as int].time, s[m].time));
        }
    }
    best
}

/// The sort keys of one route's vehicles: the sequence number of each
/// vehicle's earliest shape point, paired with the vehicle's position.
pub open spec fn route_sort_keys(trips: Seq<TripAndCellData>) -> Seq<(u64, u64)> {
    Seq::new(
        trips.len(),
        |k: int|
            (trips[k].trip.shape_points@[min_time_index(trips[k].trip.shape_points@)].shape_pt_sequence,
            k as u64),
    )
}

/// One route's share of the placement: its vehicles ordered by where on the
/// track they start, consecutive vehicles filling groups of `size` from
/// running counter `base`.
pub open spec fn placement_route_model(
    trips: Seq<TripAndCellData>,
    base: int,
    size: u16,
) -> Seq<(Seq<char>, u64)> {
    let sorted = pairs_sorted_spec(route_sort_keys(trips));
    Seq::new(
        trips.len(),
        |j: int| (trips[sorted[j].1 as int].trip.block_id@, (((base + j) / (size as int)) as u64)),
    )
}

/// The counter advanced to the next group boundary, so that a group never
/// spans two routes.
pub open spec fn next_group_boundary(i: int, size: int) -> int {
    if i % size == 0 {
        i
    } else {
        i + size - i % size
    }
}

/// The whole placement: routes in order, each starting at a fresh group.
pub open spec fn placement_model(routes: Seq<RouteTrips>, size: u16, base: int) -> Seq<
    (Seq<char>, u64),
>
    decreases routes.len(),
{
    if routes.len() == 0 {
        Seq::empty()
    } else {
        placement_route_model(routes[0].trips@, base, size) + placement_model(
            routes.drop_first(),
            size,
            next_group_boundary(base + routes[0].trips@.len(), size as int),
        )
    }
}

/// Vehicles over all routes.
pub open spec fn total_trip_count(routes: Seq<RouteTrips>) -> int
    decreases routes.len(),
{
    if routes.len() == 0 {
        0
    } else {
        routes[0].trips@.len() + total_trip_count(routes.drop_first())
    }
}

/// The batching configuration handed to the batcher: the window width with
/// its output gap (defaulting to zero), or none.
pub open spec fn batching_config(batch_interval: Option<u64>, batch_gap: Option<u64>) -> Option<
    (u64, u64),
> {
    match batch_interval {
        None => None,
        Some(w) => Some(
            (w, match batch_gap {
                Some(g) => g,
                None => 0,
            }),
        ),
    }
}

/// Under batching, every attachment time inside the window must map to a
/// representable output timestamp.
pub open spec fn batch_timestamps_bounded(
    routes: Seq<RouteTrips>,
    start: u64,
    cfg: Option<(u64, u64)>,
) -> bool {
    match cfg {
        None => true,
        Some(c) => forall|q: int, k: int, i: int|
            0 <= q < routes.len() && 0 <= k < routes[q].trips@.len() && 0 <= i
                < routes[q].trips@[k].trip.shape_points@.len() && (
            #[trigger] routes[q].trips@[k].trip.shape_points@[i]).time is Some
                && routes[q].trips@[k].trip.shape_points@[i].time->0 >= start ==> ((
            routes[q].trips@[k].trip.shape_points@[i].time->0 - start) as u64 / c.0) * c.1
                <= u64::MAX,
    }
}

/// The view of a placement list: block ids as character sequences.
pub open spec fn placement_view(r: Seq<(String, u64)>) -> Seq<(Seq<char>, u64)> {
    r.map_values(|e: (String, u64)| (e.0@, e.1))
}

/// The full output of a simulation run: which parent each vehicle's child
/// node starts at, and the ordered stream of topology updates.
#[derive(Debug)]
pub struct SimulatedReconnects {
    pub initial_parents: Vec<(u64, u64)>,
    pub topology_updates: Vec<TopologyUpdate>,
}

impl SimulatedReconnects {
    /// Group the vehicles of each route into non-overlapping groups of
    /// `group_size` vehicles that directly follow each other on the track:
    /// vehicles are ordered by the sequence number of their earliest shape
    /// point, and the running counter jumps to a group boundary between
    /// routes. Returns each vehicle's block id with its group.
    pub fn source_placement_from_blocks(block_map: &Vec<RouteTrips>, group_size: u16) -> (r: Vec<
        (String, u64),
    >)
        requires
            group_size > 0,
            forall|q: int, k: int|
                0 <= q < block_map@.len() && 0 <= k < (#[trigger] block_map@[q]).trips@.len() ==> (
                #[trigger] block_map@[q].trips@[k]).trip.shape_points@.len() > 0,
            total_trip_count(block_map@) + (block_map@.len() + 1) * (group_size as int)
                <= u64::MAX,
        ensures
            placement_view(r@) == placement_model(block_map@, group_size, 0),
    {
        let mut out: Vec<(String, u64)> = Vec::new();
        let mut counter: u64 = 0;
        let gs: u64 = group_size as u64;
        let mut q: usize = 0;
        proof {
            assert(block_map@.skip(0) =~= block_map@);
            assert(placement_view(out@) + placement_model(block_map@, group_size, 0)
                =~= placement_model(block_map@, group_size, 0));
        }
        while q < block_map.len()
            invariant
                q <= block_map@.len(),
                gs == group_size as u64,
                group_size > 0,
                forall|w: int, k: int|
                    0 <= w < block_map@.len() && 0 <= k < (#[trigger] block_map@[w]).trips@.len()
                        ==> (#[trigger] block_map@[w].trips@[k]).trip.shape_points@.len() > 0,
                total_trip_count(block_map@) + (block_map@.len() + 1) * (group_size as int)
                    <= u64::MAX,
                counter as int + total_trip_count(block_map@.skip(q as int)) + (block_map@.len()
                    - q + 1) * (group_size as int) <= u64::MAX + group_size,
                placement_model(block_map@, group_size, 0) == placement_view(out@)
                    + placement_model(block_map@.skip(q as int), group_size, counter as int),
            decreases block_map@.len() - q,
        {
            let route = &block_map[q];
            let ghost trips = route.trips@;
            let ghost old_out = out@;
            proof {
                assert(block_map@.skip(q as int)[0] == block_map@[q as int]);
                assert(block_map@.skip(q as int).drop_first() =~= block_map@.skip(q + 1));
                assert(total_trip_count(block_map@.skip(q as int)) == trips.len()
                    + total_trip_count(block_map@.skip(q + 1)));
                assert((block_map@.len() - q + 1) * (group_size as int) == (block_map@.len() - q)
                    * (group_size as int) + group_size) by (nonlinear_arith);
                assert((block_map@.len() - q) * (group_size as int) >= group_size as int)
                    by (nonlinear_arith)
                    requires
                        q < block_map@.len(),
                        group_size > 0,
                ;
                assert(total_trip_count(block_map@.skip(q + 1)) >= 0) by {
                    lemma_total_trip_count_nonneg(block_map@.skip(q + 1));
                }
            }
            // sort this route's vehicles by where on the track they start
            let mut keys: Vec<(u64, u64)> = Vec::new();
            let mut k: usize = 0;
            while k < route.trips.len()
                invariant
                    k <= trips.len(),
                    trips == route.trips@,
                    forall|w: int| 0 <= w < trips.len() ==> (#[trigger] trips[w]).trip.shape_points@.len() > 0,
                    keys@.len() == k,
                    forall|w: int| 0 <= w < k ==> keys@[w] == route_sort_keys(trips)[w],
                decreases trips.len() - k,
            {
                let idx = first_point_index_by_time(&route.trips[k].trip.shape_points);
                keys.push((route.trips[k].trip.shape_points[idx].shape_pt_sequence, k as u64));
                k += 1;
            }
            proof {
                assert(keys@ =~= route_sort_keys(trips));
            }
            let sorted = sort_attachment_pairs(&keys);
            let ghost base = counter as int;
            let mut j: usize = 0;
            proof {
                lemma_pairs_sorted_spec_ensures(keys@);
            }
            while j < sorted.len()
                invariant
                    j <= trips.len(),
                    trips == route.trips@,
                    sorted@ == pairs_sorted_spec(route_sort_keys(trips)),
                    sorted@.len() == trips.len(),
                    forall|x: (u64, u64)| #[trigger]
                        sorted@.contains(x) <==> route_sort_keys(trips).contains(x),
                    counter as int == base + j,
                    base + trips.len() + group_size <= u64::MAX + 1,
                    placement_view(out@) == placement_view(old_out) + Seq::new(
                        j as nat,
                        |w: int|
                            (trips[sorted@[w].1 as int].trip.block_id@, (((base + w) / (
                            group_size as int)) as u64)),
                    ),
                    gs == group_size as u64,
                    group_size > 0,
                decreases trips.len() - j,
            {
                let entry = sorted[j];
                proof {
                    assert(sorted@.contains(sorted@[j as int]));
                    assert(route_sort_keys(trips).contains(entry));
                    let w = choose|w: int|
                        0 <= w < route_sort_keys(trips).len() && route_sort_keys(trips)[w]
                            == entry;
                    assert(entry.1 == w as u64);
                }
                let pos = entry.1 as usize;
                let group: u64 = counter / gs;
                let ghost prev = out@;
                out.push((route.trips[pos].trip.block_id.clone(), group));
                proof {
                    assert(placement_view(out@) =~= placement_view(prev).push(
                        (trips[pos as int].trip.block_id@, group),
                    ));
                    assert(Seq::new(
                        (j + 1) as nat,
                        |w: int|
                            (trips[sorted@[w].1 as int].trip.block_id@, (((base + w) / (
                            group_size as int)) as u64)),
                    ) =~= Seq::new(
                        j as nat,
                        |w: int|
                            (trips[sorted@[w].1 as int].trip.block_id@, (((base + w) / (
                            group_size as int)) as u64)),
                    ).push((trips[sorted@[j as int].1 as int].trip.block_id@, (((base + j) / (
                    group_size as int)) as u64))));
                }
                counter = counter + 1;
                j += 1;
            }
            proof {
                assert(Seq::new(
                    trips.len(),
                    |w: int|
                        (trips[pairs_sorted_spec(route_sort_keys(trips))[w].1 as int].trip.block_id@,
                        (((base + w) / (group_size as int)) as u64)),
                ) =~= placement_route_model(trips, base, group_size));
                assert(placement_view(out@) =~= placement_view(old_out) + placement_route_model(
                    trips,
                    base,
                    group_size,
                ));
            }
            // a group never spans two routes: jump to the next boundary
            let rem = counter % gs;
            if rem != 0 {
                counter = counter + (gs - rem);
            }
            proof {
                assert(counter as int == next_group_boundary(base + trips.len(), group_size as int));
                assert(placement_model(block_map@.skip(q as int), group_size, base)
                    == placement_route_model(trips, base, group_size) + placement_model(
                    block_map@.skip(q + 1),
                    group_size,
                    counter as int,
                ));
                assert((placement_view(old_out) + placement_route_model(trips, base, group_size))
                    + placement_model(block_map@.skip(q + 1), group_size, counter as int)
                    =~= placement_view(old_out) + (placement_route_model(trips, base, group_size)
                    + placement_model(block_map@.skip(q + 1), group_size, counter as int)));
            }
            q += 1;
        }
        proof {
            assert(block_map@.skip(block_map@.len() as int) =~= Seq::<RouteTrips>::empty());
            assert(placement_view(out@) + placement_model(
                Seq::empty(),
                group_size,
                counter as int,
            ) =~= placement_view(out@));
        }
        out
    }
}

/// Insert a radio cell behind every cell whose composite id is not greater:
/// the insertion step of a sort by `(tower id, network id)`.
pub open spec fn cell_insert(s: Seq<RadioCell>, c: RadioCell) -> Seq<RadioCell>
    decreases s.len(),
{
    if s.len() == 0 {
        seq![c]
    } else if crate::cell_data::cell_key_le(s[0].spec_key(), c.spec_key()) {
        seq![s[0]] + cell_insert(s.drop_first(), c)
    } else {
        seq![c] + s
    }
}

/// The radio cells ordered by composite id, equal ids keeping input order.
pub open spec fn cells_sorted_spec(s: Seq<RadioCell>) -> Seq<RadioCell>
    decreases s.len(),
{
    if s.len() == 0 {
        Seq::empty()
    } else {
        cell_insert(cells_sorted_spec(s.drop_last()), s.last())
    }
}

proof fn lemma_cell_insert_split(s: Seq<RadioCell>, c: RadioCell, k: int)
    requires
        0 <= k <= s.len(),
        forall|i: int|
            0 <= i < k ==> crate::cell_data::cell_key_le((#[trigger] s[i]).spec_key(), c.spec_key()),
    ensures
        cell_insert(s, c) == s.take(k) + cell_insert(s.skip(k), c),
    decreases k,
{
    if k == 0 {
        assert(s.skip(0) =~= s);
        assert(s.take(0) + cell_insert(s, c) =~= cell_insert(s, c));
    } else {
        lemma_cell_insert_split(s.drop_first(), c, k - 1);
        assert(s.drop_first().take(k - 1) =~= s.take(k).drop_first());
        assert(s.drop_first().skip(k - 1) =~= s.skip(k));
        assert(seq![s[0]] + (s.take(k).drop_first() + cell_insert(s.skip(k), c)) =~= (s.take(k)
            + cell_insert(s.skip(k), c)));
    }
}

/// Order the radio cells by composite id, keeping input order among equals.
pub fn sort_radio_cells(v: &Vec<RadioCell>) -> (r: Vec<RadioCell>)
    ensures
        r@ == cells_sorted_spec(v@),
{
    let mut r: Vec<RadioCell> = Vec::new();
    proof {
        assert(v@.take(0) =~= Seq::<RadioCell>::empty());
    }
    let mut i: usize = 0;
    while i < v.len()
        invariant
            i <= v@.len(),
            r@ == cells_sorted_spec(v@.take(i as int)),
        decreases v@.len() - i,
    {
        let c = v[i];
        let ghost m = r@;
        let mut idx: usize = 0;
        while idx < r.len() && (r[idx].id < c.id || (r[idx].id == c.id && r[idx].mnc <= c.mnc))
            invariant
                0 <= idx <= r@.len(),
                m == r@,
                forall|q: int|
                    0 <= q < idx ==> crate::cell_data::cell_key_le(
                        (#[trigger] r@[q]).spec_key(),
                        c.spec_key(),
                    ),
            decreases r@.len() - idx,
        {
            idx += 1;
        }
        r.insert(idx, c);
        proof {
            lemma_cell_insert_split(m, c, idx as int);
            if (idx as int) < m.len() {
                assert(m.skip(idx as int)[0] == m[idx as int]);
                assert(cell_insert(m.skip(idx as int), c) =~= seq![c] + m.skip(idx as int));
            } else {
                assert(m.skip(idx as int) =~= Seq::<RadioCell>::empty());
            }
            assert(r@ =~= m.take(idx as int) + (seq![c] + m.skip(idx as int)));
            assert(r@ =~= cell_insert(m, c));
            assert(v@.take(i + 1).drop_last() =~= v@.take(i as int));
            assert(v@.take(i + 1).last() == v@[i as int]);
        }
        i += 1;
    }
    proof {
        assert(v@.take(v@.len() as int) =~= v@);
    }
    r
}

impl FixedTopology {
    /// Build the single fog layer: one node per radio cell, cells ordered by
    /// composite id, node ids contiguous from `start_id`, every node with a
    /// uniform capacity and an empty child list. Also returns the mapping
    /// from cell identity to assigned node id.
    pub fn create_single_fog_layer(
        start_id: u64,
        default_resources: u16,
        radio_cells: &Vec<RadioCell>,
    ) -> (r: (FixedTopology, Vec<(CellKey, u64)>))
        requires
            start_id + radio_cells@.len() <= u64::MAX,
        ensures
            r.0.wf(),
            r.0.nodes@ == Seq::new(
                radio_cells@.len(),
                |i: int| (((start_id + i) as u64, cells_sorted_spec(radio_cells@)[i].coord)),
            ),
            r.0.slots@ == Seq::new(
                radio_cells@.len(),
                |i: int| (((start_id + i) as u64, default_resources)),
            ),
            r.0.children@.len() == radio_cells@.len(),
            forall|i: int|
                0 <= i < radio_cells@.len() ==> (#[trigger] r.0.children@[i]).0 == (start_id
                    + i) as u64 && r.0.children@[i].1@ == Seq::<u64>::empty(),
            r.1@ == Seq::new(
                radio_cells@.len(),
                |i: int|
                    ((cells_sorted_spec(radio_cells@)[i].spec_key(), (start_id + i) as u64)),
            ),
    {
        let sorted = sort_radio_cells(radio_cells);
        let mut nodes: Vec<(u64, Coord)> = Vec::new();
        let mut slots: Vec<(u64, u16)> = Vec::new();
        let mut children: Vec<(u64, Vec<u64>)> = Vec::new();
        let mut cell_id_to_node_id: Vec<(CellKey, u64)> = Vec::new();
        let ghost cs = cells_sorted_spec(radio_cells@);
        proof {
            assert(cs.len() == radio_cells@.len()) by {
                lemma_cells_sorted_len(radio_cells@);
            }
        }
        let mut i: usize = 0;
        while i < sorted.len()
            invariant
                i <= sorted@.len(),
                sorted@ == cs,
                cs.len() == radio_cells@.len(),
                start_id + radio_cells@.len() <= u64::MAX,
                nodes@.len() == i,
                slots@.len() == i,
                children@.len() == i,
                cell_id_to_node_id@.len() == i,
                forall|w: int|
                    0 <= w < i ==> nodes@[w] == (((start_id + w) as u64, cs[w].coord)),
                forall|w: int|
                    0 <= w < i ==> slots@[w] == (((start_id + w) as u64, default_resources)),
                forall|w: int|
                    0 <= w < i ==> (#[trigger] children@[w]).0 == (start_id + w) as u64
                        && children@[w].1@ == Seq::<u64>::empty(),
                forall|w: int|
                    0 <= w < i ==> cell_id_to_node_id@[w] == ((
                    cs[w].spec_key(),
                    (start_id + w) as u64,
                )),
            decreases sorted@.len() - i,
        {
            let id: u64 = start_id + (i as u64);
            let cell = sorted[i];
            nodes.push((id, cell.coord));
            slots.push((id, default_resources));
            children.push((id, Vec::new()));
            cell_id_to_node_id.push((cell.key(), id));
            i += 1;
        }
        proof {
            assert(nodes@ =~= Seq::new(
                radio_cells@.len(),
                |w: int| (((start_id + w) as u64, cs[w].coord)),
            ));
            assert(slots@ =~= Seq::new(
                radio_cells@.len(),
                |w: int| (((start_id + w) as u64, default_resources)),
            ));
            assert(cell_id_to_node_id@ =~= Seq::new(
                radio_cells@.len(),
                |w: int| ((cs[w].spec_key(), (start_id + w) as u64)),
            ));
        }
        (FixedTopology { nodes, slots, children }, cell_id_to_node_id)
    }
}

proof fn lemma_cell_insert_len(s: Seq<RadioCell>, c: RadioCell)
    ensures
        cell_insert(s, c).len() == s.len() + 1,
    decreases s.len(),
{
    if s.len() > 0 && crate::cell_data::cell_key_le(s[0].spec_key(), c.spec_key()) {
        lemma_cell_insert_len(s.drop_first(), c);
    }
}

proof fn lemma_cells_sorted_len(s: Seq<RadioCell>)
    ensures
        cells_sorted_spec(s).len() == s.len(),
    decreases s.len(),
{
    if s.len() > 0 {
        lemma_cells_sorted_len(s.drop_last());
        lemma_cell_insert_len(cells_sorted_spec(s.drop_last()), s.last());
    }
}

/// Build the single-fog-layer topology from the resolved radio-cell set.
pub fn create_single_fog_layer_topology_from_cell_data(
    start_id: u64,
    default_resources: u16,
    cell_data: &MultiTripAndCellData,
) -> (r: (FixedTopology, Vec<(CellKey, u64)>))
    requires
        start_id + cell_data.radio_cells@.len() <= u64::MAX,
    ensures
        r.0.wf(),
        r.0.nodes@ == Seq::new(
            cell_data.radio_cells@.len(),
            |i: int|
                (((start_id + i) as u64, cells_sorted_spec(cell_data.radio_cells@)[i].coord)),
        ),
        r.0.slots@ == Seq::new(
            cell_data.radio_cells@.len(),
            |i: int| (((start_id + i) as u64, default_resources)),
        ),
        r.0.children@.len() == cell_data.radio_cells@.len(),
        forall|i: int|
            0 <= i < cell_data.radio_cells@.len() ==> (#[trigger] r.0.children@[i]).0 == (
            start_id + i) as u64 && r.0.children@[i].1@ == Seq::<u64>::empty(),
        r.1@ == Seq::new(
            cell_data.radio_cells@.len(),
            |i: int|
                ((cells_sorted_spec(cell_data.radio_cells@)[i].spec_key(), (start_id
                    + i) as u64)),
        ),
{
    FixedTopology::create_single_fog_layer(start_id, default_resources, &cell_data.radio_cells)
}

/// The vehicles of all routes, in route order then schedule order.
pub open spec fn flatten_trips(routes: Seq<RouteTrips>) -> Seq<TripAndCellData> {
    routes.map_values(|rt: RouteTrips| rt.trips@).flatten()
}

/// One vehicle's attachment pairs, ordered by time.
pub open spec fn vehicle_sorted_pairs(
    t: TripAndCellData,
    mapping: Seq<(CellKey, u64)>,
    start: u64,
) -> Seq<(u64, u64)> {
    pairs_sorted_spec(attachment_pairs_spec(t.trip.shape_points@, t.cell_data@, mapping, start))
}

/// One vehicle's net reconnects under the batching configuration.
pub open spec fn vehicle_model(
    t: TripAndCellData,
    mapping: Seq<(CellKey, u64)>,
    start: u64,
    cfg: Option<(u64, u64)>,
) -> Seq<Reconnect> {
    let sp = vehicle_sorted_pairs(t, mapping, start);
    vehicle_reconnects_spec(sp, sp[0].1, cfg)
}

/// The first shape point of a vehicle that cannot join the attachment
/// sequence decides the vehicle's error.
pub open spec fn first_point_error(
    pts: Seq<ShapePoint>,
    cd: Seq<Option<CellKey>>,
    mapping: Seq<(CellKey, u64)>,
    start: u64,
) -> Option<SimulationError>
    decreases pts.len(),
{
    if pts.len() == 0 {
        None
    } else if point_entry_err(pts[0], cd[0], mapping, start) is Some {
        point_entry_err(pts[0], cd[0], mapping, start)
    } else {
        first_point_error(pts.drop_first(), cd.drop_first(), mapping, start)
    }
}

/// Why a vehicle cannot be simulated, if it cannot: no shape points at all,
/// or a point without a usable time or cell.
pub open spec fn trip_error(
    t: TripAndCellData,
    mapping: Seq<(CellKey, u64)>,
    start: u64,
) -> Option<SimulationError> {
    if t.trip.shape_points@.len() == 0 {
        Some(SimulationError::EmptyWindow)
    } else {
        first_point_error(t.trip.shape_points@, t.cell_data@, mapping, start)
    }
}

/// A vehicle that can be simulated: at least one point, each with a usable
/// time and a mapped cell.
pub open spec fn trip_ok(t: TripAndCellData, mapping: Seq<(CellKey, u64)>, start: u64) -> bool {
    &&& t.trip.shape_points@.len() > 0
    &&& forall|i: int|
        0 <= i < t.trip.shape_points@.len() ==> point_entry_ok(
            t.trip.shape_points@[i],
            t.cell_data@[i],
            mapping,
            start,
        )
}

proof fn lemma_first_point_error_none(
    pts: Seq<ShapePoint>,
    cd: Seq<Option<CellKey>>,
    mapping: Seq<(CellKey, u64)>,
    start: u64,
)
    requires
        cd.len() == pts.len(),
        forall|i: int| 0 <= i < pts.len() ==> point_entry_ok(pts[i], cd[i], mapping, start),
    ensures
        first_point_error(pts, cd, mapping, start) is None,
    decreases pts.len(),
{
    if pts.len() > 0 {
        assert(point_entry_ok(pts[0], cd[0], mapping, start));
        assert forall|i: int|
            0 <= i < pts.drop_first().len() implies point_entry_ok(
            pts.drop_first()[i],
            cd.drop_first()[i],
            mapping,
            start,
        ) by {
            assert(pts.drop_first()[i] == pts[i + 1]);
            assert(cd.drop_first()[i] == cd[i + 1]);
        }
        lemma_first_point_error_none(pts.drop_first(), cd.drop_first(), mapping, start);
    }
}

proof fn lemma_first_point_error_at(
    pts: Seq<ShapePoint>,
    cd: Seq<Option<CellKey>>,
    mapping: Seq<(CellKey, u64)>,
    start: u64,
    i: int,
)
    requires
        cd.len() == pts.len(),
        0 <= i < pts.len(),
        point_entry_err(pts[i], cd[i], mapping, start) is Some,
        forall|j: int| 0 <= j < i ==> point_entry_err(pts[j], cd[j], mapping, start) is None,
    ensures
        first_point_error(pts, cd, mapping, start) == point_entry_err(pts[i], cd[i], mapping, start),
    decreases i,
{
    if i > 0 {
        assert forall|j: int|
            0 <= j < i - 1 implies point_entry_err(
                pts.drop_first()[j],
                cd.drop_first()[j],
                mapping,
                start,
            ) is None by {
            assert(pts.drop_first()[j] == pts[j + 1]);
            assert(cd.drop_first()[j] == cd[j + 1]);
        }
        assert(pts.drop_first()[i - 1] == pts[i]);
        assert(cd.drop_first()[i - 1] == cd[i]);
        lemma_first_point_error_at(pts.drop_first(), cd.drop_first(), mapping, start, i - 1);
    }
}

/// Merge the vehicles one after the other into an update list, each getting
/// the next child node id.
pub open spec fn merge_trips(
    m: Seq<(u64, Seq<ISQPEvent>)>,
    vs: Seq<TripAndCellData>,
    mapping: Seq<(CellKey, u64)>,
    start: u64,
    cfg: Option<(u64, u64)>,
    child: u64,
) -> Seq<(u64, Seq<ISQPEvent>)>
    decreases vs.len(),
{
    if vs.len() == 0 {
        m
    } else {
        merge_trips(
            insert_vehicle(m, vehicle_model(vs[0], mapping, start, cfg), child),
            vs.drop_first(),
            mapping,
            start,
            cfg,
            (child + 1) as u64,
        )
    }
}

proof fn lemma_merge_trips_push(
    m: Seq<(u64, Seq<ISQPEvent>)>,
    vs: Seq<TripAndCellData>,
    x: TripAndCellData,
    mapping: Seq<(CellKey, u64)>,
    start: u64,
    cfg: Option<(u64, u64)>,
    child: u64,
)
    requires
        child + vs.len() <= u64::MAX,
    ensures
        merge_trips(m, vs.push(x), mapping, start, cfg, child) == insert_vehicle(
            merge_trips(m, vs, mapping, start, cfg, child),
            vehicle_model(x, mapping, start, cfg),
            (child + vs.len()) as u64,
        ),
    decreases vs.len(),
{
    if vs.len() == 0 {
        reveal_with_fuel(merge_trips, 3);
        assert(vs.push(x)[0] == x);
        assert(vs.push(x).drop_first() =~= Seq::<TripAndCellData>::empty());
        assert(merge_trips(m, vs.push(x), mapping, start, cfg, child) == insert_vehicle(
            m,
            vehicle_model(x, mapping, start, cfg),
            child,
        ));
        assert(merge_trips(m, vs, mapping, start, cfg, child) == m);
    } else {
        assert(vs.push(x)[0] == vs[0]);
        assert(vs.push(x).drop_first() =~= vs.drop_first().push(x));
        lemma_merge_trips_push(
            insert_vehicle(m, vehicle_model(vs[0], mapping, start, cfg), child),
            vs.drop_first(),
            x,
            mapping,
            start,
            cfg,
            (child + 1) as u64,
        );
    }
}

/// The first group that the placement assigns to this block id.
pub open spec fn lookup_group(pl: Seq<(Seq<char>, u64)>, name: Seq<char>) -> Option<u64>
    decreases pl.len(),
{
    if pl.len() == 0 {
        None
    } else if pl[0].0 == name {
        Some(pl[0].1)
    } else {
        lookup_group(pl.drop_first(), name)
    }
}

proof fn lemma_lookup_group_some(pl: Seq<(Seq<char>, u64)>, name: Seq<char>)
    requires
        exists|j: int| 0 <= j < pl.len() && (#[trigger] pl[j]).0 == name,
    ensures
        lookup_group(pl, name) is Some,
    decreases pl.len(),
{
    if pl.len() > 0 && pl[0].0 != name {
        let j = choose|j: int| 0 <= j < pl.len() && (#[trigger] pl[j]).0 == name;
        assert(pl.drop_first()[j - 1] == pl[j]);
        lemma_lookup_group_some(pl.drop_first(), name);
    }
}

/// Look one block id up in the placement list.
fn lookup_placement(pl: &Vec<(String, u64)>, name: &String) -> (r: Option<u64>)
    ensures
        r == lookup_group(placement_view(pl@), name@),
{
    let mut i: usize = 0;
    proof {
        assert(placement_view(pl@).skip(0) =~= placement_view(pl@));
    }
    while i < pl.len()
        invariant
            i <= pl@.len(),
            lookup_group(placement_view(pl@), name@) == lookup_group(
                placement_view(pl@).skip(i as int),
                name@,
            ),
        decreases pl@.len() - i,
    {
        proof {
            assert(placement_view(pl@).skip(i as int)[0] == placement_view(pl@)[i as int]);
            assert(placement_view(pl@).skip(i as int).drop_first() =~= placement_view(pl@).skip(
                i + 1,
            ));
        }
        if pl[i].0.eq(name) {
            return Some(pl[i].1);
        }
        i += 1;
    }
    proof {
        assert(placement_view(pl@).skip(pl@.len() as int) =~= Seq::<(Seq<char>, u64)>::empty());
    }
    None
}

/// Every vehicle's block id appears in the placement of its route list.
proof fn lemma_placement_contains(routes: Seq<RouteTrips>, size: u16, base: int, q: int, k: int)
    requires
        0 <= q < routes.len(),
        0 <= k < routes[q].trips@.len(),
        routes[q].trips@.len() <= u64::MAX,
    ensures
        exists|j: int|
            0 <= j < placement_model(routes, size, base).len() && (#[trigger] placement_model(
                routes,
                size,
                base,
            )[j]).0 == routes[q].trips@[k].trip.block_id@,
    decreases q,
{
    let pm = placement_model(routes, size, base);
    let trips = routes[0].trips@;
    let first = placement_route_model(trips, base, size);
    if q == 0 {
        let keys = route_sort_keys(trips);
        let sorted = pairs_sorted_spec(keys);
        lemma_pairs_sorted_spec_ensures(keys);
        assert(keys.contains(keys[k]));
        assert(sorted.contains(keys[k]));
        assert(exists|j: int| 0 <= j < sorted.len() && sorted[j] == keys[k]);
        let j = choose|j: int| 0 <= j < sorted.len() && sorted[j] == keys[k];
        assert(keys[k].1 == k as u64);
        assert(sorted[j].1 as int == k);
        assert(first[j].0 == trips[sorted[j].1 as int].trip.block_id@);
        assert(pm[j] == first[j]);
        assert((pm[j]).0 == routes[q].trips@[k].trip.block_id@);
    } else {
        let base2 = next_group_boundary(base + trips.len(), size as int);
        lemma_placement_contains(routes.drop_first(), size, base2, q - 1, k);
        let rest = placement_model(routes.drop_first(), size, base2);
        assert(routes.drop_first()[q - 1] == routes[q]);
        let j = choose|j: int|
            0 <= j < rest.len() && (#[trigger] rest[j]).0 == routes.drop_first()[q
                - 1].trips@[k].trip.block_id@;
        assert(pm[first.len() + j] == rest[j]);
        assert((pm[first.len() + j]).0 == routes[q].trips@[k].trip.block_id@);
    }
}

proof fn lemma_total_trip_count_nonneg(routes: Seq<RouteTrips>)
    ensures
        total_trip_count(routes) >= 0,
    decreases routes.len(),
{
    if routes.len() > 0 {
        lemma_total_trip_count_nonneg(routes.drop_first());
    }
}

/// Every vehicle of every route has a flat position.
proof fn lemma_flatten_index(routes: Seq<RouteTrips>, q: int, k: int)
    requires
        0 <= q < routes.len(),
        0 <= k < routes[q].trips@.len(),
    ensures
        exists|w: int|
            0 <= w < flatten_trips(routes).len() && #[trigger] flatten_trips(routes)[w]
                == routes[q].trips@[k],
    decreases q,
{
    let m = routes.map_values(|rt: RouteTrips| rt.trips@);
    assert(m[0] == routes[0].trips@);
    assert(m.drop_first() =~= routes.drop_first().map_values(|rt: RouteTrips| rt.trips@));
    assert(flatten_trips(routes) == routes[0].trips@ + flatten_trips(routes.drop_first()));
    if q == 0 {
        assert(flatten_trips(routes)[k] == routes[q].trips@[k]);
    } else {
        lemma_flatten_index(routes.drop_first(), q - 1, k);
        let w0 = choose|w: int|
            0 <= w < flatten_trips(routes.drop_first()).len() && #[trigger] flatten_trips(
                routes.drop_first(),
            )[w] == routes.drop_first()[q - 1].trips@[k];
        assert(flatten_trips(routes)[routes[0].trips@.len() + w0] == routes[q].trips@[k]);
    }
}

proof fn lemma_trip_ok_no_error(t: TripAndCellData, mapping: Seq<(CellKey, u64)>, start: u64)
    requires
        t.wf(),
        trip_ok(t, mapping, start),
    ensures
        trip_error(t, mapping, start) is None,
{
    lemma_first_point_error_none(t.trip.shape_points@, t.cell_data@, mapping, start);
}

/// Assign every vehicle's child node its source group: the group that the
/// placement gives the vehicle's block id.
fn assign_node_groups(
    routes: &Vec<RouteTrips>,
    placement: &Vec<(String, u64)>,
    group_size: u16,
    ch0: u64,
) -> (r: Vec<(u64, Vec<u64>)>)
    requires
        placement_view(placement@) == placement_model(routes@, group_size, 0),
        ch0 + flatten_trips(routes@).len() <= u64::MAX,
    ensures
        r@.len() == flatten_trips(routes@).len(),
        forall|w: int|
            0 <= w < r@.len() ==> (#[trigger] r@[w]).0 == (ch0 + w) as u64 && r@[w].1@ == seq![
                lookup_group(
                    placement_model(routes@, group_size, 0),
                    flatten_trips(routes@)[w].trip.block_id@,
                )->0,
            ],
{
    let ghost vs = flatten_trips(routes@);
    let ghost pm = placement_model(routes@, group_size, 0);
    let mut r: Vec<(u64, Vec<u64>)> = Vec::new();
    let ghost mut done = Seq::<TripAndCellData>::empty();
    let mut q: usize = 0;
    proof {
        assert(routes@.skip(0) =~= routes@);
        assert(done + flatten_trips(routes@.skip(0)) =~= vs);
    }
    while q < routes.len()
        invariant
            q <= routes@.len(),
            placement_view(placement@) == pm,
            pm == placement_model(routes@, group_size, 0),
            vs == flatten_trips(routes@),
            ch0 + vs.len() <= u64::MAX,
            vs == done + flatten_trips(routes@.skip(q as int)),
            r@.len() == done.len(),
            forall|w: int|
                0 <= w < r@.len() ==> (#[trigger] r@[w]).0 == (ch0 + w) as u64 && r@[w].1@
                    == seq![lookup_group(pm, vs[w].trip.block_id@)->0],
        decreases routes@.len() - q,
    {
        proof {
            assert(routes@.skip(q as int).map_values(|rt: RouteTrips| rt.trips@)[0]
                == routes@[q as int].trips@);
            assert(routes@.skip(q as int).map_values(|rt: RouteTrips| rt.trips@).drop_first()
                =~= routes@.skip(q + 1).map_values(|rt: RouteTrips| rt.trips@));
            assert(flatten_trips(routes@.skip(q as int)) == routes@[q as int].trips@
                + flatten_trips(routes@.skip(q + 1)));
            assert(routes@[q as int].trips@.skip(0) =~= routes@[q as int].trips@);
            assert(done + (routes@[q as int].trips@.skip(0) + flatten_trips(routes@.skip(q + 1)))
                =~= done + flatten_trips(routes@.skip(q as int)));
        }
        let route = &routes[q];
        let mut k: usize = 0;
        while k < route.trips.len()
            invariant
                q < routes@.len(),
                k <= route.trips@.len(),
                route == routes@[q as int],
                placement_view(placement@) == pm,
                pm == placement_model(routes@, group_size, 0),
                vs == flatten_trips(routes@),
                ch0 + vs.len() <= u64::MAX,
                vs == done + (routes@[q as int].trips@.skip(k as int) + flatten_trips(
                    routes@.skip(q + 1),
                )),
                r@.len() == done.len(),
                forall|w: int|
                    0 <= w < r@.len() ==> (#[trigger] r@[w]).0 == (ch0 + w) as u64 && r@[w].1@
                        == seq![lookup_group(pm, vs[w].trip.block_id@)->0],
            decreases route.trips@.len() - k,
        {
            let trip = &route.trips[k];
            proof {
                let rest = routes@[q as int].trips@.skip(k as int) + flatten_trips(
                    routes@.skip(q + 1),
                );
                assert(rest[0] == routes@[q as int].trips@[k as int]);
                assert(vs[done.len() as int] == routes@[q as int].trips@[k as int]);
                assert(done.len() < vs.len());
                lemma_placement_contains(routes@, group_size, 0, q as int, k as int);
                lemma_lookup_group_some(pm, routes@[q as int].trips@[k as int].trip.block_id@);
            }
            let gid = match lookup_placement(placement, &trip.trip.block_id) {
                Some(g) => g,
                None => {
                    proof {
                        assert(false);
                    }
                    0
                },
            };
            let child: u64 = ch0 + (r.len() as u64);
            let mut gvec: Vec<u64> = Vec::new();
            gvec.push(gid);
            r.push((child, gvec));
            proof {
                let done_prev = done;
                done = done.push(routes@[q as int].trips@[k as int]);
                assert(routes@[q as int].trips@.skip(k as int) =~= seq![
                    routes@[q as int].trips@[k as int],
                ] + routes@[q as int].trips@.skip(k + 1));
                assert(done_prev + (routes@[q as int].trips@.skip(k as int) + flatten_trips(
                    routes@.skip(q + 1),
                )) =~= done + (routes@[q as int].trips@.skip(k + 1) + flatten_trips(
                    routes@.skip(q + 1),
                )));
            }
            k += 1;
        }
        proof {
            assert(routes@[q as int].trips@.skip(route.trips@.len() as int)
                =~= Seq::<TripAndCellData>::empty());
            assert(done + (Seq::<TripAndCellData>::empty() + flatten_trips(routes@.skip(q + 1)))
                =~= done + flatten_trips(routes@.skip(q + 1)));
        }
        q += 1;
    }
    proof {
        assert(routes@.skip(routes@.len() as int) =~= Seq::<RouteTrips>::empty());
        assert(flatten_trips(Seq::<RouteTrips>::empty()) =~= Seq::<TripAndCellData>::empty());
        assert(done + Seq::<TripAndCellData>::empty() =~= done);
    }
    r
}

impl SimulatedReconnects {
    /// Run the whole batcher: walk every vehicle's time-ordered attachment
    /// sequence, compress it into net reconnects (batched into fixed windows
    /// when `batch_interval` is given, with output timestamps advancing by
    /// `batch_gap` per window), and merge all vehicles' (remove, add) event
    /// pairs into one update list ordered by timestamp. Each vehicle gets a
    /// child node id one past the topology's greatest node id, in input
    /// order. Returns the reconnects, each vehicle's block id with its child
    /// node, and, when `group_size` is given, each child node's source group.
    ///
    /// Fails on the first vehicle, in input order, that has no shape points
    /// (`EmptyWindow`), a point without a resolved and mapped cell
    /// (`MissingAttachment`), or a point without a time inside the window
    /// (`InconsistentSchedule`).
    pub fn from_topology_and_cell_data(
        topology: FixedTopology,
        cell_data: MultiTripAndCellData,
        cell_id_to_node_id: Vec<(CellKey, u64)>,
        start_time: u64,
        batch_interval: Option<u64>,
        batch_gap: Option<u64>,
        group_size: Option<u16>,
    ) -> (r: Result<
        (SimulatedReconnects, Vec<(String, u64)>, Option<Vec<(u64, Vec<u64>)>>),
        SimulationError,
    >)
        requires
            topology.wf(),
            topology.nodes@.len() > 0,
            cell_data.wf(),
            topology.spec_max_node_id() + 1 + flatten_trips(cell_data.trips@).len() <= u64::MAX,
            batch_interval matches Some(w) ==> w > 0,
            batch_timestamps_bounded(
                cell_data.trips@,
                start_time,
                batching_config(batch_interval, batch_gap),
            ),
            group_size matches Some(g) ==> g > 0 && total_trip_count(cell_data.trips@) + (
            cell_data.trips@.len() + 1) * (g as int) <= u64::MAX,
        ensures
            r is Ok <==> (forall|w: int|
                0 <= w < flatten_trips(cell_data.trips@).len() ==> trip_error(
                    flatten_trips(cell_data.trips@)[w],
                    cell_id_to_node_id@,
                    start_time,
                ) is None),
            r matches Ok(out) ==> ({
                let vs = flatten_trips(cell_data.trips@);
                let mapping = cell_id_to_node_id@;
                let cfg = batching_config(batch_interval, batch_gap);
                let ch0 = (topology.spec_max_node_id() + 1) as u64;
                &&& updates_view(out.0.topology_updates@) == merge_trips(
                    Seq::empty(),
                    vs,
                    mapping,
                    start_time,
                    cfg,
                    ch0,
                )
                &&& out.0.initial_parents@ == Seq::new(
                    vs.len(),
                    |w: int|
                        ((vehicle_sorted_pairs(vs[w], mapping, start_time)[0].1, (ch0
                            + w) as u64)),
                )
                &&& placement_view(out.1@) == Seq::new(
                    vs.len(),
                    |w: int| (vs[w].trip.block_id@, (ch0 + w) as u64),
                )
                &&& match group_size {
                    None => out.2 is None,
                    Some(g) => {
                        &&& out.2 is Some
                        &&& out.2->0@.len() == vs.len()
                        &&& forall|w: int|
                            0 <= w < vs.len() ==> (#[trigger] out.2->0@[w]).0 == (ch0 + w) as u64
                                && out.2->0@[w].1@ == seq![
                                lookup_group(
                                    placement_model(cell_data.trips@, g, 0),
                                    vs[w].trip.block_id@,
                                )->0,
                            ]
                    },
                }
            }),
            r matches Err(e) ==> exists|w: int|
                0 <= w < flatten_trips(cell_data.trips@).len() && #[trigger] trip_error(
                    flatten_trips(cell_data.trips@)[w],
                    cell_id_to_node_id@,
                    start_time,
                ) == Some(e) && (forall|j: int|
                    0 <= j < w ==> trip_error(
                        flatten_trips(cell_data.trips@)[j],
                        cell_id_to_node_id@,
                        start_time,
                    ) is None),
    {
        let cfg: Option<(u64, u64)> = match batch_interval {
            Some(w) => Some(
                (w, match batch_gap {
                    Some(g) => g,
                    None => 0,
                }),
            ),
            None => None,
        };
        let ghost routes = cell_data.trips@;
        let ghost vs = flatten_trips(routes);
        let ghost mapping = cell_id_to_node_id@;
        proof {
            assert(cfg == batching_config(batch_interval, batch_gap));
        }
        let ch0: u64 = topology.max_node_id() + 1;
        let mut updates: Vec<TopologyUpdate> = Vec::new();
        let mut initial_parents: Vec<(u64, u64)> = Vec::new();
        let mut trip_to_node: Vec<(String, u64)> = Vec::new();
        let mut child: u64 = ch0;
        let ghost mut done = Seq::<TripAndCellData>::empty();
        let mut q: usize = 0;
        proof {
            assert(routes.skip(0) =~= routes);
            assert(done + flatten_trips(routes.skip(0)) =~= vs);
            assert(updates_view(updates@) =~= Seq::<(u64, Seq<ISQPEvent>)>::empty());
        }
        while q < cell_data.trips.len()
            invariant
                q <= routes.len(),
                routes == cell_data.trips@,
                vs == flatten_trips(routes),
                mapping == cell_id_to_node_id@,
                cfg == batching_config(batch_interval, batch_gap),
                cell_data.wf(),
                batch_timestamps_bounded(routes, start_time, cfg),
                cfg matches Some(c) ==> c.0 > 0,
                ch0 == (topology.spec_max_node_id() + 1) as u64,
                ch0 + vs.len() <= u64::MAX,
                vs == done + flatten_trips(routes.skip(q as int)),
                child as int == ch0 + done.len(),
                updates_view(updates@) == merge_trips(
                    Seq::empty(),
                    done,
                    mapping,
                    start_time,
                    cfg,
                    ch0,
                ),
                initial_parents@.len() == done.len(),
                forall|w: int|
                    0 <= w < done.len() ==> initial_parents@[w] == ((vehicle_sorted_pairs(
                        vs[w],
                        mapping,
                        start_time,
                    )[0].1, (ch0 + w) as u64)),
                trip_to_node@.len() == done.len(),
                forall|w: int|
                    0 <= w < done.len() ==> (#[trigger] trip_to_node@[w]).0@
                        == vs[w].trip.block_id@ && trip_to_node@[w].1 == (ch0 + w) as u64,
                forall|w: int|
                    0 <= w < done.len() ==> #[trigger] trip_ok(vs[w], mapping, start_time),
            decreases routes.len() - q,
        {
            proof {
                assert(routes.skip(q as int).map_values(|rt: RouteTrips| rt.trips@)[0] == routes[
                    q as int].trips@);
                assert(routes.skip(q as int).map_values(|rt: RouteTrips| rt.trips@).drop_first()
                    =~= routes.skip(q + 1).map_values(|rt: RouteTrips| rt.trips@));
                assert(flatten_trips(routes.skip(q as int)) == routes[q as int].trips@
                    + flatten_trips(routes.skip(q + 1)));
                assert(routes[q as int].trips@.skip(0) =~= routes[q as int].trips@);
                assert(done + (routes[q as int].trips@.skip(0) + flatten_trips(routes.skip(q + 1)))
                    =~= done + flatten_trips(routes.skip(q as int)));
            }
            let route = &cell_data.trips[q];
            let mut k: usize = 0;
            while k < route.trips.len()
                invariant
                    q < routes.len(),
                    k <= route.trips@.len(),
                    route == routes[q as int],
                    routes == cell_data.trips@,
                    vs == flatten_trips(routes),
                    mapping == cell_id_to_node_id@,
                    cfg == batching_config(batch_interval, batch_gap),
                    cell_data.wf(),
                    batch_timestamps_bounded(routes, start_time, cfg),
                    cfg matches Some(c) ==> c.0 > 0,
                    ch0 == (topology.spec_max_node_id() + 1) as u64,
                    ch0 + vs.len() <= u64::MAX,
                    vs == done + (routes[q as int].trips@.skip(k as int) + flatten_trips(
                        routes.skip(q + 1),
                    )),
                    child as int == ch0 + done.len(),
                    updates_view(updates@) == merge_trips(
                        Seq::empty(),
                        done,
                        mapping,
                        start_time,
                        cfg,
                        ch0,
                    ),
                    initial_parents@.len() == done.len(),
                    forall|w: int|
                        0 <= w < done.len() ==> initial_parents@[w] == ((vehicle_sorted_pairs(
                            vs[w],
                            mapping,
                            start_time,
                        )[0].1, (ch0 + w) as u64)),
                    trip_to_node@.len() == done.len(),
                    forall|w: int|
                        0 <= w < done.len() ==> (#[trigger] trip_to_node@[w]).0@
                            == vs[w].trip.block_id@ && trip_to_node@[w].1 == (ch0 + w) as u64,
                    forall|w: int|
                        0 <= w < done.len() ==> #[trigger] trip_ok(vs[w], mapping, start_time),
                decreases route.trips@.len() - k,
            {
                let trip = &route.trips[k];
                let ghost f = done.len() as int;
                proof {
                    let rest = routes[q as int].trips@.skip(k as int) + flatten_trips(
                        routes.skip(q + 1),
                    );
                    assert(rest[0] == routes[q as int].trips@[k as int]);
                    assert(vs[f] == routes[q as int].trips@[k as int]);
                    assert(f < vs.len());
                    assert(vs[f].wf());
                    assert forall|j: int|
                        0 <= j < f implies trip_error(vs[j], mapping, start_time) is None by {
                        assert(trip_ok(vs[j], mapping, start_time));
                        assert(vs[j] == done[j]);
                        assert(cell_data.wf());
                        assert(vs[j].wf()) by {
                            lemma_flatten_trip_wf(routes, j);
                        }
                        lemma_trip_ok_no_error(vs[j], mapping, start_time);
                    }
                }
                let pairs = match attachment_sequence(trip, &cell_id_to_node_id, start_time) {
                    Ok(p) => p,
                    Err(e) => {
                        proof {
                            let pts = vs[f].trip.shape_points@;
                            let cd = vs[f].cell_data@;
                            assert(pts.len() > 0);
                            let i = choose|i: int|
                                0 <= i < pts.len() && #[trigger] point_entry_err(
                                    pts[i],
                                    cd[i],
                                    mapping,
                                    start_time,
                                ) == Some(e) && (forall|j: int|
                                    0 <= j < i ==> point_entry_err(
                                        pts[j],
                                        cd[j],
                                        mapping,
                                        start_time,
                                    ) is None);
                            lemma_first_point_error_at(pts, cd, mapping, start_time, i);
                            assert(trip_error(vs[f], mapping, start_time) == Some(e));
                        }
                        return Err(e);
                    },
                };
                if pairs.len() == 0 {
                    proof {
                        assert(vs[f].trip.shape_points@.len() == 0);
                        assert(trip_error(vs[f], mapping, start_time) == Some(
                            SimulationError::EmptyWindow,
                        ));
                    }
                    return Err(SimulationError::EmptyWindow);
                }
                let sorted_pairs = sort_attachment_pairs(&pairs);
                proof {
                    lemma_pairs_sorted_spec_ensures(pairs@);
                    if cfg is Some {
                        let c = cfg->0;
                        let w0 = c.0;
                        let g0 = c.1;
                        assert forall|ii: int|
                            0 <= ii < sorted_pairs@.len() implies (sorted_pairs@[ii].0 / w0) * g0
                            <= u64::MAX by {
                            assert(sorted_pairs@.contains(sorted_pairs@[ii]));
                            assert(pairs@.contains(sorted_pairs@[ii]));
                            let i0 = choose|i0: int|
                                0 <= i0 < pairs@.len() && pairs@[i0] == sorted_pairs@[ii];
                            assert(pairs@[i0].0 == (vs[f].trip.shape_points@[i0].time->0
                                - start_time) as u64);
                            assert(point_entry_ok(
                                vs[f].trip.shape_points@[i0],
                                vs[f].cell_data@[i0],
                                mapping,
                                start_time,
                            ));
                            assert(routes[q as int].trips@[k as int].trip.shape_points@[i0].time
                                is Some);
                        }
                    }
                    assert(valid_attachment_seq(sorted_pairs@, cfg));
                }
                let initial = sorted_pairs[0].1;
                let rs = vehicle_reconnects(&sorted_pairs, initial, cfg);
                apply_vehicle_reconnects(&mut updates, &rs, child);
                initial_parents.push((initial, child));
                trip_to_node.push((trip.trip.block_id.clone(), child));
                proof {
                    assert(rs@ == vehicle_model(vs[f], mapping, start_time, cfg));
                    lemma_merge_trips_push(
                        Seq::empty(),
                        done,
                        vs[f],
                        mapping,
                        start_time,
                        cfg,
                        ch0,
                    );
                    let done_prev = done;
                    done = done.push(vs[f]);
                    assert(done =~= done_prev.push(vs[f]));
                    assert(routes[q as int].trips@.skip(k as int) =~= seq![
                        routes[q as int].trips@[k as int],
                    ] + routes[q as int].trips@.skip(k + 1));
                    assert(done_prev + (routes[q as int].trips@.skip(k as int) + flatten_trips(
                        routes.skip(q + 1),
                    )) =~= done + (routes[q as int].trips@.skip(k + 1) + flatten_trips(
                        routes.skip(q + 1),
                    )));
                }
                child = child + 1;
                k += 1;
            }
            proof {
                assert(routes[q as int].trips@.skip(route.trips@.len() as int)
                    =~= Seq::<TripAndCellData>::empty());
                assert(done + (Seq::<TripAndCellData>::empty() + flatten_trips(
                    routes.skip(q + 1),
                )) =~= done + flatten_trips(routes.skip(q + 1)));
            }
            q += 1;
        }
        proof {
            assert(routes.skip(routes.len() as int) =~= Seq::<RouteTrips>::empty());
            assert(flatten_trips(Seq::<RouteTrips>::empty()) =~= Seq::<TripAndCellData>::empty());
            assert(done + Seq::<TripAndCellData>::empty() =~= done);
            assert(done == vs);
            assert(initial_parents@ =~= Seq::new(
                vs.len(),
                |w: int|
                    ((vehicle_sorted_pairs(vs[w], mapping, start_time)[0].1, (ch0 + w) as u64)),
            ));
            assert(placement_view(trip_to_node@) =~= Seq::new(
                vs.len(),
                |w: int| (vs[w].trip.block_id@, (ch0 + w) as u64),
            ));
            assert forall|w: int|
                0 <= w < vs.len() implies trip_error(vs[w], mapping, start_time) is None by {
                assert(trip_ok(vs[w], mapping, start_time));
                assert(vs[w].wf()) by {
                    lemma_flatten_trip_wf(routes, w);
                }
                lemma_trip_ok_no_error(vs[w], mapping, start_time);
            }
        }
        let source_mapping: Option<Vec<(u64, Vec<u64>)>> = match group_size {
            Some(g) => {
                proof {
                    assert forall|qq: int, kk: int|
                        0 <= qq < routes.len() && 0 <= kk < (
                        #[trigger] routes[qq]).trips@.len() implies (
                    #[trigger] routes[qq].trips@[kk]).trip.shape_points@.len() > 0 by {
                        lemma_flatten_index(routes, qq, kk);
                        let w = choose|w: int|
                            0 <= w < flatten_trips(routes).len() && #[trigger] flatten_trips(
                                routes,
                            )[w] == routes[qq].trips@[kk];
                        assert(trip_ok(vs[w], mapping, start_time));
                    }
                }
                let placement = Self::source_placement_from_blocks(&cell_data.trips, g);
                let groups = assign_node_groups(&cell_data.trips, &placement, g, ch0);
                Some(groups)
            },
            None => None,
        };
        Ok(
            (
                SimulatedReconnects { initial_parents, topology_updates: updates },
                trip_to_node,
                source_mapping,
            ),
        )
    }
}

/// Every vehicle of the flat list is well formed when its container is.
proof fn lemma_flatten_trip_wf(routes: Seq<RouteTrips>, w: int)
    requires
        forall|i: int| 0 <= i < routes.len() ==> (#[trigger] routes[i]).wf(),
        0 <= w < flatten_trips(routes).len(),
    ensures
        flatten_trips(routes)[w].wf(),
    decreases routes.len(),
{
    if routes.len() > 0 {
        let m = routes.map_values(|rt: RouteTrips| rt.trips@);
        assert(m[0] == routes[0].trips@);
        assert(m.drop_first() =~= routes.drop_first().map_values(|rt: RouteTrips| rt.trips@));
        assert(flatten_trips(routes) == routes[0].trips@ + flatten_trips(routes.drop_first()));
        if w < routes[0].trips@.len() {
            assert(routes[0].wf());
            assert(flatten_trips(routes)[w] == routes[0].trips@[w]);
        } else {
            lemma_flatten_trip_wf(routes.drop_first(), w - routes[0].trips@.len());
        }
    } else {
        assert(routes.map_values(|rt: RouteTrips| rt.trips@) =~= Seq::<Seq<TripAndCellData>>::empty());
    }
}

/// The pairing shape of an update's events: even length, a remove at every
/// even position, at every odd position the matching add for the same child.
pub open spec fn events_paired(ev: Seq<ISQPEvent>) -> bool {
    &&& ev.len() % 2 == 0
    &&& forall|k: int| #![trigger ev[k]]
        0 <= k < ev.len() ==> (if k % 2 == 0 {
            ev[k].action == ISQPEventAction::remove
        } else {
            ev[k].action == ISQPEventAction::add && ev[k].child_id == ev[k - 1].child_id
        })
}

/// Every update of the list has properly paired events.
pub open spec fn all_updates_paired(m: Seq<(u64, Seq<ISQPEvent>)>) -> bool {
    forall|i: int| 0 <= i < m.len() ==> events_paired((#[trigger] m[i]).1)
}

/// Update timestamps strictly ascend.
pub open spec fn updates_sorted(m: Seq<(u64, Seq<ISQPEvent>)>) -> bool {
    forall|i: int, j: int| 0 <= i < j < m.len() ==> m[i].0 < m[j].0
}

/// Appending one (remove, add) pair keeps an event list properly paired.
#[verifier::rlimit(100)]
#[verifier::spinoff_prover]
pub proof fn lemma_events_paired_append(a: Seq<ISQPEvent>, r: Reconnect, child: u64)
    requires
        events_paired(a),
    ensures
        events_paired(a + pair_events(r, child)),
{
    let b = a + pair_events(r, child);
    assert(b.len() == a.len() + 2);
    assert forall|k: int| #![trigger b[k]] 0 <= k < b.len() implies (if k % 2 == 0 {
        b[k].action == ISQPEventAction::remove
    } else {
        b[k].action == ISQPEventAction::add && b[k].child_id == b[k - 1].child_id
    }) by {
        if k < a.len() {
            assert(b[k] == a[k]);
            if k % 2 == 1 {
                assert(b[k - 1] == a[k - 1]);
            }
        } else {
            assert(b[k] == pair_events(r, child)[k - a.len()]);
        }
    }
}

#[verifier::rlimit(100)]
#[verifier::spinoff_prover]
proof fn lemma_insert_events_at_shape(m: Seq<(u64, Seq<ISQPEvent>)>, ts: u64, r: Reconnect, child: u64)
    requires
        all_updates_paired(m),
        updates_sorted(m),
    ensures
        all_updates_paired(insert_events_at(m, ts, pair_events(r, child))),
        updates_sorted(insert_events_at(m, ts, pair_events(r, child))),
        forall|i: int|
            0 <= i < insert_events_at(m, ts, pair_events(r, child)).len() ==> (
            #[trigger] insert_events_at(m, ts, pair_events(r, child))[i]).0 == ts || (exists|j: int|
                0 <= j < m.len() && (#[trigger] m[j]).0 == insert_events_at(
                    m,
                    ts,
                    pair_events(r, child),
                )[i].0),
    decreases m.len(),
{
    let ev = pair_events(r, child);
    let res = insert_events_at(m, ts, ev);
    if m.len() == 0 {
        assert(res =~= seq![(ts, ev)]);
        assert(events_paired(Seq::<ISQPEvent>::empty()));
        assert(Seq::<ISQPEvent>::empty() + ev =~= ev);
        lemma_events_paired_append(Seq::<ISQPEvent>::empty(), r, child);
        assert(events_paired(res[0].1));
    } else if m[0].0 == ts {
        assert(res =~= seq![(m[0].0, m[0].1 + ev)] + m.drop_first());
        assert(events_paired(m[0].1));
        lemma_events_paired_append(m[0].1, r, child);
        assert forall|i: int| 0 <= i < res.len() implies events_paired((#[trigger] res[i]).1) by {
            if i > 0 {
                assert(res[i] == m[i]);
                assert(events_paired(m[i].1));
            }
        }
        assert forall|i: int, j: int| 0 <= i < j < res.len() implies res[i].0 < res[j].0 by {
            if i > 0 {
                assert(res[i] == m[i] && res[j] == m[j]);
            } else {
                assert(res[j] == m[j]);
            }
        }
        assert forall|i: int|
            0 <= i < res.len() implies (#[trigger] res[i]).0 == ts || (exists|j: int|
                0 <= j < m.len() && (#[trigger] m[j]).0 == res[i].0) by {
            if i > 0 {
                assert(m[i].0 == res[i].0);
            }
        }
    } else if m[0].0 < ts {
        assert(all_updates_paired(m.drop_first()));
        assert(updates_sorted(m.drop_first()));
        lemma_insert_events_at_shape(m.drop_first(), ts, r, child);
        let inner = insert_events_at(m.drop_first(), ts, ev);
        assert(res =~= seq![m[0]] + inner);
        assert forall|i: int| 0 <= i < res.len() implies events_paired((#[trigger] res[i]).1) by {
            if i == 0 {
                assert(res[0] == m[0]);
                assert(events_paired(m[0].1));
            } else {
                assert(res[i] == inner[i - 1]);
                assert(events_paired(inner[i - 1].1));
            }
        }
        assert forall|i: int, j: int| 0 <= i < j < res.len() implies res[i].0 < res[j].0 by {
            if i >= 1 {
                assert(res[i] == inner[i - 1] && res[j] == inner[j - 1]);
            } else {
                assert(res[j] == inner[j - 1]);
                assert(inner[j - 1].0 == ts || (exists|w: int|
                    0 <= w < m.drop_first().len() && (#[trigger] m.drop_first()[w]).0 == inner[j
                        - 1].0));
                if inner[j - 1].0 != ts {
                    let w = choose|w: int|
                        0 <= w < m.drop_first().len() && (#[trigger] m.drop_first()[w]).0
                            == inner[j - 1].0;
                    assert(m.drop_first()[w] == m[w + 1]);
                    assert(m[0].0 < m[w + 1].0);
                }
            }
        }
        assert forall|i: int|
            0 <= i < res.len() implies (#[trigger] res[i]).0 == ts || (exists|j: int|
                0 <= j < m.len() && (#[trigger] m[j]).0 == res[i].0) by {
            if i == 0 {
                assert(m[0].0 == res[0].0);
            } else {
                if inner[i - 1].0 != ts {
                    let w = choose|w: int|
                        0 <= w < m.drop_first().len() && (#[trigger] m.drop_first()[w]).0
                            == inner[i - 1].0;
                    assert(m[w + 1].0 == res[i].0);
                }
            }
        }
    } else {
        assert(res =~= seq![(ts, ev)] + m);
        assert(events_paired(Seq::<ISQPEvent>::empty()));
        assert(Seq::<ISQPEvent>::empty() + ev =~= ev);
        lemma_events_paired_append(Seq::<ISQPEvent>::empty(), r, child);
        assert forall|i: int| 0 <= i < res.len() implies events_paired((#[trigger] res[i]).1) by {
            if i > 0 {
                assert(res[i] == m[i - 1]);
                assert(events_paired(m[i - 1].1));
            }
        }
        assert forall|i: int, j: int| 0 <= i < j < res.len() implies res[i].0 < res[j].0 by {
            if i >= 1 {
                assert(res[i] == m[i - 1] && res[j] == m[j - 1]);
            } else {
                assert(res[j] == m[j - 1]);
                assert(m[0].0 <= m[j - 1].0);
            }
        }
        assert forall|i: int|
            0 <= i < res.len() implies (#[trigger] res[i]).0 == ts || (exists|j: int|
                0 <= j < m.len() && (#[trigger] m[j]).0 == res[i].0) by {
            if i > 0 {
                assert(m[i - 1].0 == res[i].0);
            }
        }
    }
}

proof fn lemma_insert_vehicle_shape(m: Seq<(u64, Seq<ISQPEvent>)>, rs: Seq<Reconnect>, child: u64)
    requires
        all_updates_paired(m),
        updates_sorted(m),
    ensures
        all_updates_paired(insert_vehicle(m, rs, child)),
        updates_sorted(insert_vehicle(m, rs, child)),
    decreases rs.len(),
{
    if rs.len() > 0 {
        lemma_insert_events_at_shape(m, rs[0].timestamp, rs[0], child);
        lemma_insert_vehicle_shape(
            insert_events_at(m, rs[0].timestamp, pair_events(rs[0], child)),
            rs.drop_first(),
            child,
        );
    }
}

proof fn lemma_merge_trips_shape(
    m: Seq<(u64, Seq<ISQPEvent>)>,
    vs: Seq<TripAndCellData>,
    mapping: Seq<(CellKey, u64)>,
    start: u64,
    cfg: Option<(u64, u64)>,
    child: u64,
)
    requires
        all_updates_paired(m),
        updates_sorted(m),
    ensures
        all_updates_paired(merge_trips(m, vs, mapping, start, cfg, child)),
        updates_sorted(merge_trips(m, vs, mapping, start, cfg, child)),
    decreases vs.len(),
{
    if vs.len() > 0 {
        lemma_insert_vehicle_shape(m, vehicle_model(vs[0], mapping, start, cfg), child);
        lemma_merge_trips_shape(
            insert_vehicle(m, vehicle_model(vs[0], mapping, start, cfg), child),
            vs.drop_first(),
            mapping,
            start,
            cfg,
            (child + 1) as u64,
        );
    }
}

/// Law: in every update list the batcher produces, each update's events come
/// as adjacent (remove, add) pairs for one child — a remove is immediately
/// followed by its add within the same update — and the updates' timestamps
/// strictly ascend.
pub proof fn lemma_reconnects_well_formed(
    updates: Seq<(u64, Seq<ISQPEvent>)>,
    routes: Seq<RouteTrips>,
    mapping: Seq<(CellKey, u64)>,
    start: u64,
    cfg: Option<(u64, u64)>,
    ch0: u64,
)
    requires
        updates == merge_trips(Seq::empty(), flatten_trips(routes), mapping, start, cfg, ch0),
    ensures
        all_updates_paired(updates),
        updates_sorted(updates),
{
    lemma_merge_trips_shape(Seq::empty(), flatten_trips(routes), mapping, start, cfg, ch0);
}

/// Law: the batcher is deterministic. Two runs over the same topology, cell
/// data, mapping and configuration yield the same update list, the same
/// initial parents, and the same block-to-node assignment.
pub proof fn lemma_run_idempotent(
    updates1: Seq<(u64, Seq<ISQPEvent>)>,
    updates2: Seq<(u64, Seq<ISQPEvent>)>,
    initial1: Seq<(u64, u64)>,
    initial2: Seq<(u64, u64)>,
    routes: Seq<RouteTrips>,
    mapping: Seq<(CellKey, u64)>,
    start: u64,
    cfg: Option<(u64, u64)>,
    ch0: u64,
)
    requires
        updates1 == merge_trips(Seq::empty(), flatten_trips(routes), mapping, start, cfg, ch0),
        updates2 == merge_trips(Seq::empty(), flatten_trips(routes), mapping, start, cfg, ch0),
        initial1 == Seq::new(
            flatten_trips(routes).len(),
            |w: int|
                ((vehicle_sorted_pairs(flatten_trips(routes)[w], mapping, start)[0].1, (ch0
                    + w) as u64)),
        ),
        initial2 == Seq::new(
            flatten_trips(routes).len(),
            |w: int|
                ((vehicle_sorted_pairs(flatten_trips(routes)[w], mapping, start)[0].1, (ch0
                    + w) as u64)),
        ),
    ensures
        updates1 == updates2,
        initial1 == initial2,
{
}

/// Law: a vehicle attached to one node for its whole trace contributes no
/// reconnects at all, batched or not.
pub proof fn lemma_constant_vehicle_silent(
    seq: Seq<(u64, u64)>,
    initial: u64,
    cfg: Option<(u64, u64)>,
)
    requires
        cfg matches Some(c) ==> c.0 > 0,
        forall|i: int| 0 <= i < seq.len() ==> (#[trigger] seq[i]).1 == initial,
    ensures
        vehicle_reconnects_spec(seq, initial, cfg) == Seq::<Reconnect>::empty(),
{
    match cfg {
        None => {
            lemma_constant_unbatched(seq, initial);
        },
        Some(c) => {
            lemma_constant_batched(seq, initial, None, 0, c.0, c.1);
        },
    }
}

proof fn lemma_constant_unbatched(seq: Seq<(u64, u64)>, current: u64)
    requires
        forall|i: int| 0 <= i < seq.len() ==> (#[trigger] seq[i]).1 == current,
    ensures
        unbatched_reconnects(seq, current) == Seq::<Reconnect>::empty(),
    decreases seq.len(),
{
    if seq.len() > 0 {
        assert(seq[0].1 == current);
        assert forall|i: int|
            0 <= i < seq.drop_first().len() implies (#[trigger] seq.drop_first()[i]).1
            == current by {
            assert(seq.drop_first()[i] == seq[i + 1]);
        }
        lemma_constant_unbatched(seq.drop_first(), current);
    }
}

proof fn lemma_constant_batched(
    seq: Seq<(u64, u64)>,
    stable: u64,
    pending: Option<u64>,
    widx: u64,
    window: u64,
    gap: u64,
)
    requires
        window > 0,
        forall|i: int| 0 <= i < seq.len() ==> (#[trigger] seq[i]).1 == stable,
        effective_parent(stable, pending) == stable,
    ensures
        batched_reconnects(seq, stable, pending, widx, window, gap) == Seq::<Reconnect>::empty(),
    decreases seq.len(),
{
    assert(flush_reconnects(stable, pending, widx, gap) =~= Seq::<Reconnect>::empty());
    if seq.len() > 0 {
        assert(seq[0].1 == stable);
        assert forall|i: int|
            0 <= i < seq.drop_first().len() implies (#[trigger] seq.drop_first()[i]).1
            == stable by {
            assert(seq.drop_first()[i] == seq[i + 1]);
        }
        let wi = seq[0].0 / window;
        if wi == widx {
            lemma_constant_batched(seq.drop_first(), stable, pending, widx, window, gap);
            assert(batched_reconnects(seq, stable, pending, widx, window, gap)
                == batched_reconnects(seq.drop_first(), stable, pending, widx, window, gap));
        } else {
            lemma_constant_batched(seq.drop_first(), stable, None, wi, window, gap);
            assert(batched_reconnects(seq, stable, pending, widx, window, gap)
                == flush_reconnects(stable, pending, widx, gap) + batched_reconnects(
                seq.drop_first(),
                effective_parent(stable, pending),
                if seq[0].1 != effective_parent(stable, pending) {
                    Some(seq[0].1)
                } else {
                    None
                },
                seq[0].0 / window,
                window,
                gap,
            ));
            assert(Seq::<Reconnect>::empty() + batched_reconnects(
                seq.drop_first(),
                stable,
                None,
                wi,
                window,
                gap,
            ) =~= batched_reconnects(seq.drop_first(), stable, None, wi, window, gap));
        }
    }
}

/// How many events of one update target node `n` with action `a`.
pub open spec fn count_events_in(ev: Seq<ISQPEvent>, n: u64, a: ISQPEventAction) -> int
    decreases ev.len(),
{
    if ev.len() == 0 {
        0
    } else {
        (if ev[0].parent_id == n && ev[0].action == a {
            1int
        } else {
            0int
        }) + count_events_in(ev.drop_first(), n, a)
    }
}

/// How many events across the whole update list target node `n` with action
/// `a`.
pub open spec fn count_events(m: Seq<(u64, Seq<ISQPEvent>)>, n: u64, a: ISQPEventAction) -> int
    decreases m.len(),
{
    if m.len() == 0 {
        0
    } else {
        count_events_in(m[0].1, n, a) + count_events(m.drop_first(), n, a)
    }
}

/// How many reconnects of a vehicle join node `n`.
pub open spec fn count_to(rs: Seq<Reconnect>, n: u64) -> int
    decreases rs.len(),
{
    if rs.len() == 0 {
        0
    } else {
        (if rs[0].to == n {
            1int
        } else {
            0int
        }) + count_to(rs.drop_first(), n)
    }
}

/// How many reconnects of a vehicle leave node `n`.
pub open spec fn count_from(rs: Seq<Reconnect>, n: u64) -> int
    decreases rs.len(),
{
    if rs.len() == 0 {
        0
    } else {
        (if rs[0].from == n {
            1int
        } else {
            0int
        }) + count_from(rs.drop_first(), n)
    }
}

/// A vehicle's reconnects form a chain: each leaves the parent the previous
/// one joined, starting from `start`, and never moves a node onto itself.
pub open spec fn chained_from(rs: Seq<Reconnect>, start: u64) -> bool
    decreases rs.len(),
{
    if rs.len() == 0 {
        true
    } else {
        rs[0].from == start && rs[0].to != rs[0].from && chained_from(rs.drop_first(), rs[0].to)
    }
}

/// Where a chain of reconnects leaves a vehicle attached.
pub open spec fn last_parent(rs: Seq<Reconnect>, start: u64) -> u64 {
    if rs.len() == 0 {
        start
    } else {
        rs[rs.len() - 1].to
    }
}

proof fn lemma_count_events_in_concat(a: Seq<ISQPEvent>, b: Seq<ISQPEvent>, n: u64, act: ISQPEventAction)
    ensures
        count_events_in(a + b, n, act) == count_events_in(a, n, act) + count_events_in(b, n, act),
    decreases a.len(),
{
    if a.len() == 0 {
        assert(a + b =~= b);
    } else {
        assert((a + b)[0] == a[0]);
        assert((a + b).drop_first() =~= a.drop_first() + b);
        lemma_count_events_in_concat(a.drop_first(), b, n, act);
    }
}

proof fn lemma_insert_events_at_count(
    m: Seq<(u64, Seq<ISQPEvent>)>,
    ts: u64,
    ev: Seq<ISQPEvent>,
    n: u64,
    act: ISQPEventAction,
)
    ensures
        count_events(insert_events_at(m, ts, ev), n, act) == count_events(m, n, act)
            + count_events_in(ev, n, act),
    decreases m.len(),
{
    let res = insert_events_at(m, ts, ev);
    if m.len() == 0 {
        assert(res =~= seq![(ts, ev)]);
        assert(res[0].1 == ev);
        assert(res.drop_first() =~= Seq::<(u64, Seq<ISQPEvent>)>::empty());
        assert(count_events(res, n, act) == count_events_in(ev, n, act) + count_events(
            res.drop_first(),
            n,
            act,
        ));
        assert(count_events(res.drop_first(), n, act) == 0);
    } else if m[0].0 == ts {
        assert(res =~= seq![(m[0].0, m[0].1 + ev)] + m.drop_first());
        assert(res[0].1 == m[0].1 + ev);
        assert(res.drop_first() =~= m.drop_first());
        lemma_count_events_in_concat(m[0].1, ev, n, act);
        assert(count_events(res, n, act) == count_events_in(m[0].1 + ev, n, act) + count_events(
            m.drop_first(),
            n,
            act,
        ));
        assert(count_events(m, n, act) == count_events_in(m[0].1, n, act) + count_events(
            m.drop_first(),
            n,
            act,
        ));
    } else if m[0].0 < ts {
        let inner = insert_events_at(m.drop_first(), ts, ev);
        assert(res =~= seq![m[0]] + inner);
        assert(res[0] == m[0]);
        assert(res.drop_first() =~= inner);
        lemma_insert_events_at_count(m.drop_first(), ts, ev, n, act);
        assert(count_events(res, n, act) == count_events_in(m[0].1, n, act) + count_events(
            inner,
            n,
            act,
        ));
        assert(count_events(m, n, act) == count_events_in(m[0].1, n, act) + count_events(
            m.drop_first(),
            n,
            act,
        ));
    } else {
        assert(res =~= seq![(ts, ev)] + m);
        assert(res[0].1 == ev);
        assert(res.drop_first() =~= m);
        assert(count_events(res, n, act) == count_events_in(ev, n, act) + count_events(m, n, act));
    }
}

proof fn lemma_pair_counts(r: Reconnect, child: u64, n: u64)
    ensures
        count_events_in(pair_events(r, child), n, ISQPEventAction::add) == (if r.to == n {
            1int
        } else {
            0int
        }),
        count_events_in(pair_events(r, child), n, ISQPEventAction::remove) == (if r.from == n {
            1int
        } else {
            0int
        }),
{
    reveal_with_fuel(count_events_in, 3);
    let ev = pair_events(r, child);
    assert(ev.drop_first() =~= seq![
        ISQPEvent { parent_id: r.to, child_id: child, action: ISQPEventAction::add },
    ]);
    assert(ev.drop_first().drop_first() =~= Seq::<ISQPEvent>::empty());
}

proof fn lemma_insert_vehicle_count(
    m: Seq<(u64, Seq<ISQPEvent>)>,
    rs: Seq<Reconnect>,
    child: u64,
    n: u64,
)
    ensures
        count_events(insert_vehicle(m, rs, child), n, ISQPEventAction::add) == count_events(
            m,
            n,
            ISQPEventAction::add,
        ) + count_to(rs, n),
        count_events(insert_vehicle(m, rs, child), n, ISQPEventAction::remove) == count_events(
            m,
            n,
            ISQPEventAction::remove,
        ) + count_from(rs, n),
    decreases rs.len(),
{
    if rs.len() > 0 {
        let m1 = insert_events_at(m, rs[0].timestamp, pair_events(rs[0], child));
        lemma_insert_events_at_count(m, rs[0].timestamp, pair_events(rs[0], child), n, ISQPEventAction::add);
        lemma_insert_events_at_count(
            m,
            rs[0].timestamp,
            pair_events(rs[0], child),
            n,
            ISQPEventAction::remove,
        );
        lemma_pair_counts(rs[0], child, n);
        lemma_insert_vehicle_count(m1, rs.drop_first(), child, n);
    }
}

proof fn lemma_chain_conservation(rs: Seq<Reconnect>, start: u64, n: u64)
    requires
        chained_from(rs, start),
    ensures
        (if start == n {
            1int
        } else {
            0int
        }) + count_to(rs, n) - count_from(rs, n) == (if last_parent(rs, start) == n {
            1int
        } else {
            0int
        }),
    decreases rs.len(),
{
    if rs.len() > 0 {
        lemma_chain_conservation(rs.drop_first(), rs[0].to, n);
        if rs.len() == 1 {
            assert(last_parent(rs, start) == rs[0].to);
        } else {
            assert(rs.drop_first().len() > 0);
            assert(rs.drop_first()[rs.len() - 2] == rs[rs.len() - 1]);
            assert(last_parent(rs.drop_first(), rs[0].to) == last_parent(rs, start));
        }
    }
}

proof fn lemma_chained_cons(r: Reconnect, rest: Seq<Reconnect>, start: u64)
    requires
        r.from == start,
        r.to != r.from,
        chained_from(rest, r.to),
    ensures
        chained_from(seq![r] + rest, start),
{
    assert((seq![r] + rest)[0] == r);
    assert((seq![r] + rest).drop_first() =~= rest);
}

proof fn lemma_unbatched_chain(seq: Seq<(u64, u64)>, current: u64)
    ensures
        chained_from(unbatched_reconnects(seq, current), current),
        last_parent(unbatched_reconnects(seq, current), current) == (if seq.len() == 0 {
            current
        } else {
            seq[seq.len() - 1].1
        }),
    decreases seq.len(),
{
    if seq.len() > 0 {
        let p = seq[0].1;
        if p == current {
            lemma_unbatched_chain(seq.drop_first(), current);
            if seq.len() > 1 {
                assert(seq.drop_first()[seq.len() - 2] == seq[seq.len() - 1]);
            }
        } else {
            lemma_unbatched_chain(seq.drop_first(), p);
            let r = Reconnect { timestamp: seq[0].0, from: current, to: p };
            let rest = unbatched_reconnects(seq.drop_first(), p);
            lemma_chained_cons(r, rest, current);
            let whole = seq![r] + rest;
            if rest.len() == 0 {
                assert(whole[whole.len() - 1] == r);
                assert(seq.len() == 1 || seq.drop_first().len() > 0);
                if seq.len() > 1 {
                    assert(last_parent(rest, p) == p);
                    assert(seq.drop_first()[seq.len() - 2] == seq[seq.len() - 1]);
                    assert(p == seq[seq.len() - 1].1);
                }
            } else {
                assert(whole[whole.len() - 1] == rest[rest.len() - 1]);
                assert(seq.drop_first().len() > 0);
                assert(seq.drop_first()[seq.len() - 2] == seq[seq.len() - 1]);
            }
        }
    }
}

#[verifier::rlimit(100)]
#[verifier::spinoff_prover]
proof fn lemma_batched_chain(
    seq: Seq<(u64, u64)>,
    stable: u64,
    pending: Option<u64>,
    widx: u64,
    window: u64,
    gap: u64,
)
    requires
        window > 0,
    ensures
        chained_from(batched_reconnects(seq, stable, pending, widx, window, gap), stable),
        last_parent(batched_reconnects(seq, stable, pending, widx, window, gap), stable) == (if seq.len()
            == 0 {
            effective_parent(stable, pending)
        } else {
            seq[seq.len() - 1].1
        }),
    decreases seq.len(),
{
    let whole = batched_reconnects(seq, stable, pending, widx, window, gap);
    if seq.len() == 0 {
        match pending {
            None => {
                assert(whole =~= Seq::<Reconnect>::empty());
            },
            Some(p) => {
                if p != stable {
                    assert(whole =~= seq![
                        Reconnect { timestamp: (widx * gap) as u64, from: stable, to: p },
                    ]);
                    assert(whole.drop_first() =~= Seq::<Reconnect>::empty());
                    assert(chained_from(Seq::<Reconnect>::empty(), p));
                    assert(chained_from(whole, stable));
                    assert(last_parent(whole, stable) == p);
                } else {
                    assert(whole =~= Seq::<Reconnect>::empty());
                }
            },
        }
    } else {
        let t = seq[0].0;
        let p = seq[0].1;
        let wi = t / window;
        if wi == widx {
            let pending2 = if p != effective_parent(stable, pending) {
                Some(p)
            } else {
                pending
            };
            lemma_batched_chain(seq.drop_first(), stable, pending2, widx, window, gap);
            assert(whole == batched_reconnects(
                seq.drop_first(),
                stable,
                pending2,
                widx,
                window,
                gap,
            ));
            if seq.len() > 1 {
                assert(seq.drop_first()[seq.len() - 2] == seq[seq.len() - 1]);
            } else {
                assert(effective_parent(stable, pending2) == p);
            }
            assert(chained_from(whole, stable));
            assert(last_parent(whole, stable) == seq[seq.len() - 1].1);
        } else {
            let emitted = flush_reconnects(stable, pending, widx, gap);
            let stable2 = effective_parent(stable, pending);
            let pending2 = if p != stable2 {
                Some(p)
            } else {
                None
            };
            lemma_batched_chain(seq.drop_first(), stable2, pending2, wi, window, gap);
            let rest = batched_reconnects(seq.drop_first(), stable2, pending2, wi, window, gap);
            let ghost last_val = if seq.len() == 1 {
                effective_parent(stable2, pending2)
            } else {
                seq[seq.len() - 1].1
            };
            assert(last_parent(rest, stable2) == last_val);
            if seq.len() == 1 {
                assert(effective_parent(stable2, pending2) == p);
            } else {
                assert(seq.drop_first()[seq.len() - 2] == seq[seq.len() - 1]);
            }
            assert(last_val == seq[seq.len() - 1].1);
            if emitted.len() == 0 {
                assert(stable2 == stable);
                assert(whole == emitted + rest);
                assert(emitted =~= Seq::<Reconnect>::empty());
                assert(whole =~= rest);
            } else {
                let r = Reconnect { timestamp: (widx * gap) as u64, from: stable, to: stable2 };
                assert(emitted =~= seq![r]);
                lemma_chained_cons(r, rest, stable);
                assert(chained_from(whole, stable));
                if rest.len() == 0 {
                    assert(whole[whole.len() - 1] == r);
                    assert(last_parent(rest, stable2) == stable2);
                    assert(r.to == stable2);
                } else {
                    assert(whole[whole.len() - 1] == rest[rest.len() - 1]);
                }
            }
        }
    }
}

/// A vehicle's first attachment (the parent its child node starts at).
pub open spec fn vehicle_initial(t: TripAndCellData, mapping: Seq<(CellKey, u64)>, start: u64) -> u64 {
    vehicle_sorted_pairs(t, mapping, start)[0].1
}

/// A vehicle's last attachment.
pub open spec fn vehicle_last(t: TripAndCellData, mapping: Seq<(CellKey, u64)>, start: u64) -> u64 {
    let sp = vehicle_sorted_pairs(t, mapping, start);
    if sp.len() == 0 {
        sp[0].1
    } else {
        sp[sp.len() - 1].1
    }
}

proof fn lemma_vehicle_conservation(
    t: TripAndCellData,
    mapping: Seq<(CellKey, u64)>,
    start: u64,
    cfg: Option<(u64, u64)>,
    n: u64,
)
    requires
        cfg matches Some(c) ==> c.0 > 0,
    ensures
        (if vehicle_initial(t, mapping, start) == n {
            1int
        } else {
            0int
        }) + count_to(vehicle_model(t, mapping, start, cfg), n) - count_from(
            vehicle_model(t, mapping, start, cfg),
            n,
        ) == (if vehicle_last(t, mapping, start) == n {
            1int
        } else {
            0int
        }),
{
    let sp = vehicle_sorted_pairs(t, mapping, start);
    let initial = sp[0].1;
    match cfg {
        None => {
            lemma_unbatched_chain(sp, initial);
            lemma_chain_conservation(unbatched_reconnects(sp, initial), initial, n);
        },
        Some(c) => {
            lemma_batched_chain(sp, initial, None, 0, c.0, c.1);
            lemma_chain_conservation(
                batched_reconnects(sp, initial, None, 0, c.0, c.1),
                initial,
                n,
            );
        },
    }
}

/// How many vehicles start attached to node `n`.
pub open spec fn count_initial_nodes(
    vs: Seq<TripAndCellData>,
    mapping: Seq<(CellKey, u64)>,
    start: u64,
    n: u64,
) -> int
    decreases vs.len(),
{
    if vs.len() == 0 {
        0
    } else {
        (if vehicle_initial(vs[0], mapping, start) == n {
            1int
        } else {
            0int
        }) + count_initial_nodes(vs.drop_first(), mapping, start, n)
    }
}

/// How many vehicles end attached to node `n`.
pub open spec fn count_last_nodes(
    vs: Seq<TripAndCellData>,
    mapping: Seq<(CellKey, u64)>,
    start: u64,
    n: u64,
) -> int
    decreases vs.len(),
{
    if vs.len() == 0 {
        0
    } else {
        (if vehicle_last(vs[0], mapping, start) == n {
            1int
        } else {
            0int
        }) + count_last_nodes(vs.drop_first(), mapping, start, n)
    }
}

proof fn lemma_merge_conservation(
    m: Seq<(u64, Seq<ISQPEvent>)>,
    vs: Seq<TripAndCellData>,
    mapping: Seq<(CellKey, u64)>,
    start: u64,
    cfg: Option<(u64, u64)>,
    child: u64,
    n: u64,
)
    requires
        cfg matches Some(c) ==> c.0 > 0,
    ensures
        count_events(merge_trips(m, vs, mapping, start, cfg, child), n, ISQPEventAction::add)
            - count_events(merge_trips(m, vs, mapping, start, cfg, child), n, ISQPEventAction::remove)
            == count_events(m, n, ISQPEventAction::add) - count_events(m, n, ISQPEventAction::remove)
            + count_last_nodes(vs, mapping, start, n) - count_initial_nodes(vs, mapping, start, n),
    decreases vs.len(),
{
    if vs.len() > 0 {
        let m1 = insert_vehicle(m, vehicle_model(vs[0], mapping, start, cfg), child);
        lemma_insert_vehicle_count(m, vehicle_model(vs[0], mapping, start, cfg), child, n);
        lemma_vehicle_conservation(vs[0], mapping, start, cfg, n);
        lemma_merge_conservation(m1, vs.drop_first(), mapping, start, cfg, (child + 1) as u64, n);
    }
}

/// How many initial attachments name node `n` as the parent.
pub open spec fn count_initial_parents(ips: Seq<(u64, u64)>, n: u64) -> int
    decreases ips.len(),
{
    if ips.len() == 0 {
        0
    } else {
        (if ips[0].0 == n {
            1int
        } else {
            0int
        }) + count_initial_parents(ips.drop_first(), n)
    }
}

proof fn lemma_count_initial_bridge(
    ips: Seq<(u64, u64)>,
    vs: Seq<TripAndCellData>,
    mapping: Seq<(CellKey, u64)>,
    start: u64,
    n: u64,
)
    requires
        ips.len() == vs.len(),
        forall|w: int|
            0 <= w < vs.len() ==> (#[trigger] ips[w]).0 == vehicle_initial(vs[w], mapping, start),
    ensures
        count_initial_parents(ips, n) == count_initial_nodes(vs, mapping, start, n),
    decreases vs.len(),
{
    if vs.len() > 0 {
        assert forall|w: int|
            0 <= w < vs.drop_first().len() implies (#[trigger] ips.drop_first()[w]).0
            == vehicle_initial(vs.drop_first()[w], mapping, start) by {
            assert(ips.drop_first()[w] == ips[w + 1]);
            assert(vs.drop_first()[w] == vs[w + 1]);
        }
        lemma_count_initial_bridge(ips.drop_first(), vs.drop_first(), mapping, start, n);
    }
}

/// Law (conservation): for every node, the number of vehicles initially
/// attached to it, plus all adds and minus all removes across the whole
/// update stream, equals the number of vehicles whose last resolved
/// attachment is that node.
pub proof fn lemma_conservation(
    updates: Seq<(u64, Seq<ISQPEvent>)>,
    initial_parents: Seq<(u64, u64)>,
    routes: Seq<RouteTrips>,
    mapping: Seq<(CellKey, u64)>,
    start: u64,
    cfg: Option<(u64, u64)>,
    ch0: u64,
    n: u64,
)
    requires
        cfg matches Some(c) ==> c.0 > 0,
        updates == merge_trips(Seq::empty(), flatten_trips(routes), mapping, start, cfg, ch0),
        initial_parents == Seq::new(
            flatten_trips(routes).len(),
            |w: int|
                ((vehicle_sorted_pairs(flatten_trips(routes)[w], mapping, start)[0].1, (ch0
                    + w) as u64)),
        ),
    ensures
        count_initial_parents(initial_parents, n) + count_events(updates, n, ISQPEventAction::add)
            - count_events(updates, n, ISQPEventAction::remove) == count_last_nodes(
            flatten_trips(routes),
            mapping,
            start,
            n,
        ),
{
    let vs = flatten_trips(routes);
    lemma_merge_conservation(Seq::empty(), vs, mapping, start, cfg, ch0, n);
    lemma_count_initial_bridge(initial_parents, vs, mapping, start, n);
}

} // verus!
