//! A synthetic topology-change generator: mobile devices parked in quadrants
//! rotate to the next quadrant at a fixed interval, each move emitting one
//! (remove, add) reconnect pair.
use vstd::prelude::*;
pub use crate::nes_simulation::{
    FixedTopology, ISQPEvent, ISQPEventAction, SimulatedReconnects, TopologyUpdate,
};
use crate::nes_simulation::{events_paired, lemma_events_paired_append, pair_events, Reconnect};
use crate::gtfs::Coord;

verus! {

/// One mobile device and the logical sources it carries.
#[derive(Debug)]
pub struct MobileEntry {
    pub device_id: u64,
    pub sources: Vec<String>,
}

/// Mobile devices grouped into quadrants, each quadrant a queue of devices
/// ordered by arrival; quadrant ids strictly ascend.
#[derive(Debug)]
pub struct MobileDeviceQuadrants {
    pub quadrant_map: Vec<(u64, Vec<MobileEntry>)>,
}

/// The geometry of a generated quadrant world.
#[derive(Clone, Copy, Debug)]
pub struct QuadrantConfig {
    pub num_quadrants: usize,
    pub devices_per_quadrant: usize,
    pub quadrant_start_id: u64,
    pub mobile_start_id: u64,
}

/// Devices over all quadrants.
pub open spec fn total_device_count(m: Seq<(u64, Vec<MobileEntry>)>) -> int
    decreases m.len(),
{
    if m.len() == 0 {
        0
    } else {
        m[0].1@.len() + total_device_count(m.drop_first())
    }
}

proof fn lemma_total_device_count_concat(a: Seq<(u64, Vec<MobileEntry>)>, b: Seq<(u64, Vec<MobileEntry>)>)
    ensures
        total_device_count(a + b) == total_device_count(a) + total_device_count(b),
    decreases a.len(),
{
    if a.len() == 0 {
        assert(a + b =~= b);
    } else {
        assert((a + b)[0] == a[0]);
        assert((a + b).drop_first() =~= a.drop_first() + b);
        lemma_total_device_count_concat(a.drop_first(), b);
    }
}

proof fn lemma_total_device_count_remove(m: Seq<(u64, Vec<MobileEntry>)>, i: int)
    requires
        0 <= i < m.len(),
    ensures
        total_device_count(m.remove(i)) == total_device_count(m) - m[i].1@.len(),
{
    assert(m =~= m.take(i) + (seq![m[i]] + m.skip(i + 1)));
    assert(m.remove(i) =~= m.take(i) + m.skip(i + 1));
    lemma_total_device_count_concat(m.take(i), seq![m[i]] + m.skip(i + 1));
    lemma_total_device_count_concat(seq![m[i]], m.skip(i + 1));
    lemma_total_device_count_concat(m.take(i), m.skip(i + 1));
    assert(seq![m[i]].drop_first() =~= Seq::<(u64, Vec<MobileEntry>)>::empty());
    assert(total_device_count(Seq::<(u64, Vec<MobileEntry>)>::empty()) == 0);
    assert(seq![m[i]][0] == m[i]);
    assert(total_device_count(seq![m[i]]) == m[i].1@.len());
    assert(total_device_count(m) == total_device_count(m.take(i)) + (m[i].1@.len()
        + total_device_count(m.skip(i + 1))));
    assert(total_device_count(m.remove(i)) == total_device_count(m.take(i))
        + total_device_count(m.skip(i + 1)));
}

proof fn lemma_total_device_count_insert(m: Seq<(u64, Vec<MobileEntry>)>, i: int, e: (u64, Vec<MobileEntry>))
    requires
        0 <= i <= m.len(),
    ensures
        total_device_count(m.insert(i, e)) == total_device_count(m) + e.1@.len(),
{
    assert(m =~= m.take(i) + m.skip(i));
    assert(m.insert(i, e) =~= m.take(i) + (seq![e] + m.skip(i)));
    lemma_total_device_count_concat(m.take(i), seq![e] + m.skip(i));
    lemma_total_device_count_concat(seq![e], m.skip(i));
    lemma_total_device_count_concat(m.take(i), m.skip(i));
    assert(seq![e].drop_first() =~= Seq::<(u64, Vec<MobileEntry>)>::empty());
    assert(total_device_count(Seq::<(u64, Vec<MobileEntry>)>::empty()) == 0);
    assert(seq![e][0] == e);
    assert(total_device_count(seq![e]) == e.1@.len());
    assert(total_device_count(m) == total_device_count(m.take(i)) + total_device_count(m.skip(i)));
    assert(total_device_count(m.insert(i, e)) == total_device_count(m.take(i)) + (e.1@.len()
        + total_device_count(m.skip(i))));
}

impl MobileDeviceQuadrants {
    /// Quadrant ids strictly ascend.
    pub open spec fn wf(self) -> bool {
        forall|i: int, j: int|
            0 <= i < j < self.quadrant_map@.len() ==> self.quadrant_map@[i].0
                < self.quadrant_map@[j].0
    }

    /// An empty world.
    pub fn new() -> (r: Self)
        ensures
            r.quadrant_map@.len() == 0,
            r.wf(),
    {
        MobileDeviceQuadrants { quadrant_map: Vec::new() }
    }

    /// Build `num_quadrants` quadrants with ids from `quadrant_start_id`,
    /// each holding `devices_per_quadrant` devices with ids counted from
    /// `mobile_start_id`; device ids must start past the quadrant ids.
    pub fn populate(
        num_quadrants: usize,
        devices_per_quadrant: usize,
        quadrant_start_id: u64,
        mobile_start_id: u64,
    ) -> (r: Self)
        requires
            quadrant_start_id + num_quadrants >= 1,
            quadrant_start_id + num_quadrants - 1 < mobile_start_id,
            mobile_start_id + (num_quadrants as int) * (devices_per_quadrant as int) <= u64::MAX,
        ensures
            r.wf(),
            r.quadrant_map@.len() == num_quadrants,
            forall|i: int|
                0 <= i < num_quadrants ==> (#[trigger] r.quadrant_map@[i]).0 == quadrant_start_id
                    + i,
            forall|i: int|
                0 <= i < num_quadrants ==> (#[trigger] r.quadrant_map@[i]).1@.len()
                    == devices_per_quadrant,
            forall|i: int, j: int|
                0 <= i < num_quadrants && 0 <= j < devices_per_quadrant ==> (
                #[trigger] r.quadrant_map@[i].1@[j]).device_id == mobile_start_id + i * (
                devices_per_quadrant as int) + j && r.quadrant_map@[i].1@[j].sources@.len() == 0,
    {
        let mut quadrant_map: Vec<(u64, Vec<MobileEntry>)> = Vec::new();
        let mut i: usize = 0;
        while i < num_quadrants
            invariant
                i <= num_quadrants,
                quadrant_start_id + num_quadrants >= 1,
                quadrant_start_id + num_quadrants - 1 < mobile_start_id,
                mobile_start_id + (num_quadrants as int) * (devices_per_quadrant as int)
                    <= u64::MAX,
                quadrant_map@.len() == i,
                forall|w: int|
                    0 <= w < i ==> (#[trigger] quadrant_map@[w]).0 == quadrant_start_id + w,
                forall|w: int|
                    0 <= w < i ==> (#[trigger] quadrant_map@[w]).1@.len() == devices_per_quadrant,
                forall|w: int, j: int|
                    0 <= w < i && 0 <= j < devices_per_quadrant ==> (
                    #[trigger] quadrant_map@[w].1@[j]).device_id == mobile_start_id + w * (
                    devices_per_quadrant as int) + j && quadrant_map@[w].1@[j].sources@.len() == 0,
            decreases num_quadrants - i,
        {
            proof {
                assert((i as int) * (devices_per_quadrant as int) <= (num_quadrants as int) * (
                devices_per_quadrant as int)) by (nonlinear_arith)
                    requires
                        0 <= i <= num_quadrants,
                        devices_per_quadrant >= 0,
                ;
                assert(((i + 1) as int) * (devices_per_quadrant as int) <= (num_quadrants as int)
                    * (devices_per_quadrant as int)) by (nonlinear_arith)
                    requires
                        0 <= i + 1 <= num_quadrants,
                        devices_per_quadrant >= 0,
                ;
                assert(((i + 1) as int) * (devices_per_quadrant as int) == (i as int) * (
                devices_per_quadrant as int) + devices_per_quadrant) by (nonlinear_arith);
            }
            let mut devices: Vec<MobileEntry> = Vec::new();
            let base: u64 = mobile_start_id + (i as u64) * (devices_per_quadrant as u64);
            let mut j: usize = 0;
            while j < devices_per_quadrant
                invariant
                    j <= devices_per_quadrant,
                    base == mobile_start_id + (i as int) * (devices_per_quadrant as int),
                    base + devices_per_quadrant <= u64::MAX,
                    devices@.len() == j,
                    forall|w: int|
                        0 <= w < j ==> (#[trigger] devices@[w]).device_id == base + w
                            && devices@[w].sources@.len() == 0,
                decreases devices_per_quadrant - j,
            {
                devices.push(MobileEntry { device_id: base + (j as u64), sources: Vec::new() });
                j += 1;
            }
            quadrant_map.push((quadrant_start_id + (i as u64), devices));
            i += 1;
        }
        MobileDeviceQuadrants { quadrant_map }
    }

    /// Hand one in-flight device its new quadrant: emit the (remove, add)
    /// pair recording the move and append the device to the new quadrant's
    /// queue.
    fn rotate_single_device(
        events: &mut Vec<ISQPEvent>,
        moving_device: (u64, MobileEntry),
        quadrant_id: u64,
        devices: &mut Vec<MobileEntry>,
    )
        ensures
            final(events)@ == old(events)@ + pair_events(
                Reconnect { timestamp: 0, from: moving_device.0, to: quadrant_id },
                moving_device.1.device_id,
            ),
            final(devices)@ == old(devices)@.push(moving_device.1),
    {
        let (old_quadrant, device) = moving_device;
        let child = device.device_id;
        events.push(
            ISQPEvent { parent_id: old_quadrant, child_id: child, action: ISQPEventAction::remove },
        );
        events.push(ISQPEvent { parent_id: quadrant_id, child_id: child, action: ISQPEventAction::add });
        devices.push(device);
        proof {
            assert(final(events)@ =~= old(events)@ + pair_events(
                Reconnect { timestamp: 0, from: moving_device.0, to: quadrant_id },
                moving_device.1.device_id,
            ));
        }
    }

    /// Rotate devices one quadrant down (the lowest quadrant's movers wrap to
    /// the highest): from the highest quadrant downwards, place the devices
    /// popped from the previous quadrant, then pop up to `num_devices` from
    /// the front of this quadrant's queue. The emitted events come as
    /// (remove, add) pairs per moved device; quadrant ids and the total
    /// device count are unchanged.
    #[verifier::rlimit(100)]
    pub fn rotate_devices(&mut self, num_devices: u16) -> (r: Vec<ISQPEvent>)
        requires
            old(self).quadrant_map@.len() > 0,
        ensures
            events_paired(r@),
            final(self).quadrant_map@.len() == old(self).quadrant_map@.len(),
            forall|i: int|
                0 <= i < old(self).quadrant_map@.len() ==> (#[trigger] final(self).quadrant_map@[i]).0
                    == old(self).quadrant_map@[i].0,
            total_device_count(final(self).quadrant_map@) == total_device_count(
                old(self).quadrant_map@,
            ),
    {
        let ghost m0 = self.quadrant_map@;
        let mut events: Vec<ISQPEvent> = Vec::new();
        let mut inflight: Vec<(u64, MobileEntry)> = Vec::new();
        let n = self.quadrant_map.len();
        let mut qi = n;
        while qi > 0
            invariant
                qi <= n == self.quadrant_map@.len() == m0.len(),
                n > 0,
                forall|i: int|
                    0 <= i < m0.len() ==> (#[trigger] self.quadrant_map@[i]).0 == m0[i].0,
                events_paired(events@),
                total_device_count(self.quadrant_map@) + inflight@.len() == total_device_count(m0),
            decreases qi,
        {
            qi -= 1;
            let ghost m_before = self.quadrant_map@;
            let mut entry = self.quadrant_map.remove(qi);
            proof {
                lemma_total_device_count_remove(m_before, qi as int);
            }
            let key = entry.0;
            // place every in-flight device here
            while inflight.len() > 0
                invariant
                    events_paired(events@),
                    entry.0 == key,
                    entry.1@.len() + inflight@.len() + total_device_count(self.quadrant_map@)
                        == total_device_count(m0),
                    self.quadrant_map@.len() == m0.len() - 1,
                decreases inflight@.len(),
            {
                let mover = inflight.remove(0);
                proof {
                    lemma_events_paired_append(
                        events@,
                        Reconnect { timestamp: 0, from: mover.0, to: key },
                        mover.1.device_id,
                    );
                }
                Self::rotate_single_device(&mut events, mover, key, &mut entry.1);
            }
            // pop the next movers from the front of this quadrant's queue
            let mut c: u16 = 0;
            while c < num_devices && entry.1.len() > 0
                invariant
                    events_paired(events@),
                    entry.0 == key,
                    entry.1@.len() + inflight@.len() + total_device_count(self.quadrant_map@)
                        == total_device_count(m0),
                    self.quadrant_map@.len() == m0.len() - 1,
                decreases num_devices - c, entry.1@.len(),
            {
                let dev = entry.1.remove(0);
                inflight.push((key, dev));
                c += 1;
            }
            let ghost m_mid = self.quadrant_map@;
            self.quadrant_map.insert(qi, entry);
            proof {
                lemma_total_device_count_insert(m_mid, qi as int, entry);
                assert forall|i: int|
                    0 <= i < m0.len() implies (#[trigger] self.quadrant_map@[i]).0 == m0[i].0 by {
                    if i < qi {
                        assert(self.quadrant_map@[i] == m_before[i]);
                    } else if i > qi {
                        assert(self.quadrant_map@[i] == m_before[i]);
                    } else {
                        assert(self.quadrant_map@[i] == entry);
                        assert(entry.0 == m_before[qi as int].0);
                    }
                }
            }
        }
        // wrap the remaining movers into the highest quadrant
        let ghost m_before = self.quadrant_map@;
        let mut entry = self.quadrant_map.remove(n - 1);
        proof {
            lemma_total_device_count_remove(m_before, n - 1);
        }
        let key = entry.0;
        while inflight.len() > 0
            invariant
                events_paired(events@),
                entry.0 == key,
                entry.1@.len() + inflight@.len() + total_device_count(self.quadrant_map@)
                    == total_device_count(m0),
                self.quadrant_map@.len() == m0.len() - 1,
            decreases inflight@.len(),
        {
            let mover = inflight.remove(0);
            proof {
                lemma_events_paired_append(
                    events@,
                    Reconnect { timestamp: 0, from: mover.0, to: key },
                    mover.1.device_id,
                );
            }
            Self::rotate_single_device(&mut events, mover, key, &mut entry.1);
        }
        let ghost m_mid = self.quadrant_map@;
        self.quadrant_map.insert(n - 1, entry);
        proof {
            lemma_total_device_count_insert(m_mid, n - 1, entry);
            assert forall|i: int|
                0 <= i < m0.len() implies (#[trigger] self.quadrant_map@[i]).0 == m0[i].0 by {
                if i < n - 1 {
                    assert(self.quadrant_map@[i] == m_before[i]);
                } else {
                    assert(self.quadrant_map@[i] == entry);
                    assert(entry.0 == m_before[n - 1].0);
                }
            }
        }
        events
    }
}

/// Every (quadrant id, device id) attachment, quadrants in order, each
/// quadrant's queue in order.
pub open spec fn initial_update_spec(m: Seq<(u64, Vec<MobileEntry>)>) -> Seq<(u64, u64)>
    decreases m.len(),
{
    if m.len() == 0 {
        Seq::empty()
    } else {
        Seq::new(m[0].1@.len(), |j: int| (m[0].0, m[0].1@[j].device_id)) + initial_update_spec(
            m.drop_first(),
        )
    }
}

/// Every (device id, [quadrant id - subtract]) source-group entry, in the
/// same order.
pub open spec fn source_groups_spec(m: Seq<(u64, Vec<MobileEntry>)>, subtract: u64) -> Seq<
    (u64, Seq<u64>),
>
    decreases m.len(),
{
    if m.len() == 0 {
        Seq::empty()
    } else {
        Seq::new(
            m[0].1@.len(),
            |j: int| (m[0].1@[j].device_id, seq![((m[0].0 - subtract) as u64)]),
        ) + source_groups_spec(m.drop_first(), subtract)
    }
}

impl MobileDeviceQuadrants {
    /// The number of updates a run of `runtime` milliseconds emits, one per
    /// `interval`.
    pub open spec fn update_count(runtime: u64, interval: u64) -> int {
        (runtime + interval - 1) / (interval as int)
    }

    /// Emit one topology update per `interval` until `runtime` is reached,
    /// each rotating `num_devices_to_rotate` devices per quadrant: updates
    /// carry timestamps 0, interval, 2*interval, ... and properly paired
    /// (remove, add) events.
    pub fn get_update_vector(
        self,
        runtime: u64,
        interval: u64,
        num_devices_to_rotate: u16,
    ) -> (r: Vec<TopologyUpdate>)
        requires
            interval > 0,
            self.quadrant_map@.len() > 0,
            runtime + interval <= u64::MAX,
        ensures
            r@.len() == Self::update_count(runtime, interval),
            forall|k: int|
                0 <= k < r@.len() ==> (#[trigger] r@[k]).timestamp == k * interval,
            forall|k: int| 0 <= k < r@.len() ==> events_paired((#[trigger] r@[k]).events@),
    {
        let mut mdq = self;
        let mut updates: Vec<TopologyUpdate> = Vec::new();
        let mut timestamp: u64 = 0;
        proof {
            assert(updates@.len() == 0);
            assert(updates@.len() * interval == 0) by (nonlinear_arith)
                requires
                    updates@.len() == 0,
            ;
        }
        while timestamp < runtime
            invariant
                interval > 0,
                runtime + interval <= u64::MAX,
                mdq.quadrant_map@.len() > 0,
                timestamp == updates@.len() * interval,
                updates@.len() == 0 || (updates@.len() - 1) * interval < runtime,
                forall|k: int|
                    0 <= k < updates@.len() ==> (#[trigger] updates@[k]).timestamp == k * interval,
                forall|k: int|
                    0 <= k < updates@.len() ==> events_paired((#[trigger] updates@[k]).events@),
            decreases runtime + interval - timestamp,
        {
            let events = mdq.rotate_devices(num_devices_to_rotate);
            updates.push(TopologyUpdate { timestamp, events });
            proof {
                let k = updates@.len() as int;
                assert((k - 1) * interval == timestamp);
                assert(k * interval == (k - 1) * interval + interval) by (nonlinear_arith);
            }
            timestamp = timestamp + interval;
        }
        proof {
            let k = updates@.len() as int;
            assert(k * interval >= runtime);
            if runtime == 0 {
                assert(k == 0) by {
                    if k > 0 {
                        assert((k - 1) * interval < runtime);
                        assert((k - 1) * interval >= 0) by (nonlinear_arith)
                            requires
                                k >= 1,
                                interval > 0,
                        ;
                    }
                }
                assert(Self::update_count(runtime, interval) == (interval - 1) / (interval as int));
                assert((interval - 1) / (interval as int) == 0) by (nonlinear_arith)
                    requires
                        interval > 0,
                ;
            } else {
                assert(k == Self::update_count(runtime, interval)) by (nonlinear_arith)
                    requires
                        interval > 0,
                        k >= 0,
                        k * interval >= runtime,
                        k == 0 || (k - 1) * interval < runtime,
                        runtime > 0,
                ;
            }
        }
        updates
    }

    /// Each device's initial attachment: its quadrant's id, quadrants in
    /// ascending order, each queue front to back.
    pub fn get_initial_update(&self) -> (r: Vec<(u64, u64)>)
        ensures
            r@ == initial_update_spec(self.quadrant_map@),
    {
        let ghost m = self.quadrant_map@;
        let mut r: Vec<(u64, u64)> = Vec::new();
        proof {
            assert(m.skip(0) =~= m);
            assert(r@ + initial_update_spec(m) =~= initial_update_spec(m));
        }
        let mut i: usize = 0;
        while i < self.quadrant_map.len()
            invariant
                i <= m.len(),
                m == self.quadrant_map@,
                initial_update_spec(m) == r@ + initial_update_spec(m.skip(i as int)),
            decreases m.len() - i,
        {
            proof {
                assert(m.skip(i as int)[0] == m[i as int]);
                assert(m.skip(i as int).drop_first() =~= m.skip(i + 1));
            }
            let ghost r_route = r@;
            let quadrant = &self.quadrant_map[i];
            let key = quadrant.0;
            let mut j: usize = 0;
            while j < quadrant.1.len()
                invariant
                    i < m.len(),
                    m == self.quadrant_map@,
                    quadrant == m[i as int],
                    j <= quadrant.1@.len(),
                    r@ == r_route + Seq::new(
                        j as nat,
                        |w: int| (m[i as int].0, m[i as int].1@[w].device_id),
                    ),
                    key == m[i as int].0,
                decreases quadrant.1@.len() - j,
            {
                r.push((key, quadrant.1[j].device_id));
                proof {
                    assert(r@ =~= r_route + Seq::new(
                        (j + 1) as nat,
                        |w: int| (m[i as int].0, m[i as int].1@[w].device_id),
                    ));
                }
                j += 1;
            }
            proof {
                assert(Seq::new(
                    quadrant.1@.len(),
                    |w: int| (m[i as int].0, m[i as int].1@[w].device_id),
                ) =~= Seq::new(m[i as int].1@.len(), |w: int| (m[i as int].0, m[i as int].1@[w].device_id)));
                assert((r_route + Seq::new(
                    m[i as int].1@.len(),
                    |w: int| (m[i as int].0, m[i as int].1@[w].device_id),
                )) + initial_update_spec(m.skip(i + 1)) =~= r_route + (Seq::new(
                    m[i as int].1@.len(),
                    |w: int| (m[i as int].0, m[i as int].1@[w].device_id),
                ) + initial_update_spec(m.skip(i + 1))));
            }
            i += 1;
        }
        proof {
            assert(m.skip(m.len() as int) =~= Seq::<(u64, Vec<MobileEntry>)>::empty());
            assert(r@ + initial_update_spec(Seq::<(u64, Vec<MobileEntry>)>::empty()) =~= r@);
        }
        r
    }

    /// Each device's source group: its quadrant's id less `subtract` (the
    /// caller's id offset).
    pub fn compute_source_groups(&self, subtract: u64) -> (r: Vec<(u64, Vec<u64>)>)
        requires
            forall|i: int|
                0 <= i < self.quadrant_map@.len() ==> (#[trigger] self.quadrant_map@[i]).0
                    >= subtract,
        ensures
            r@.len() == total_device_count(self.quadrant_map@),
            r@.map_values(|e: (u64, Vec<u64>)| (e.0, e.1@)) == source_groups_spec(
                self.quadrant_map@,
                subtract,
            ),
    {
        let ghost m = self.quadrant_map@;
        let mut r: Vec<(u64, Vec<u64>)> = Vec::new();
        let ghost rv = |e: (u64, Vec<u64>)| (e.0, e.1@);
        proof {
            assert(m.skip(0) =~= m);
            assert(r@.map_values(rv) + source_groups_spec(m, subtract) =~= source_groups_spec(
                m,
                subtract,
            ));
            lemma_source_groups_len(m, subtract);
        }
        let mut i: usize = 0;
        while i < self.quadrant_map.len()
            invariant
                i <= m.len(),
                m == self.quadrant_map@,
                rv == (|e: (u64, Vec<u64>)| (e.0, e.1@)),
                forall|w: int| 0 <= w < m.len() ==> (#[trigger] m[w]).0 >= subtract,
                source_groups_spec(m, subtract) == r@.map_values(rv) + source_groups_spec(
                    m.skip(i as int),
                    subtract,
                ),
            decreases m.len() - i,
        {
            proof {
                assert(m.skip(i as int)[0] == m[i as int]);
                assert(m.skip(i as int).drop_first() =~= m.skip(i + 1));
            }
            let ghost r_route = r@.map_values(rv);
            let quadrant = &self.quadrant_map[i];
            let gid = quadrant.0 - subtract;
            let mut j: usize = 0;
            while j < quadrant.1.len()
                invariant
                    i < m.len(),
                    m == self.quadrant_map@,
                    rv == (|e: (u64, Vec<u64>)| (e.0, e.1@)),
                    quadrant == m[i as int],
                    j <= quadrant.1@.len(),
                    gid == m[i as int].0 - subtract,
                    r@.map_values(rv) == r_route + Seq::new(
                        j as nat,
                        |w: int|
                            (m[i as int].1@[w].device_id, seq![((m[i as int].0 - subtract) as u64)]),
                    ),
                decreases quadrant.1@.len() - j,
            {
                let mut gvec: Vec<u64> = Vec::new();
                gvec.push(gid);
                let ghost prev = r@.map_values(rv);
                r.push((quadrant.1[j].device_id, gvec));
                proof {
                    assert(r@.map_values(rv) =~= prev.push(
                        (m[i as int].1@[j as int].device_id, seq![((m[i as int].0
                            - subtract) as u64)]),
                    ));
                    assert(r@.map_values(rv) =~= r_route + Seq::new(
                        (j + 1) as nat,
                        |w: int|
                            (m[i as int].1@[w].device_id, seq![((m[i as int].0 - subtract) as u64)]),
                    ));
                }
                j += 1;
            }
            proof {
                assert((r_route + Seq::new(
                    m[i as int].1@.len(),
                    |w: int|
                        (m[i as int].1@[w].device_id, seq![((m[i as int].0 - subtract) as u64)]),
                )) + source_groups_spec(m.skip(i + 1), subtract) =~= r_route + (Seq::new(
                    m[i as int].1@.len(),
                    |w: int|
                        (m[i as int].1@[w].device_id, seq![((m[i as int].0 - subtract) as u64)]),
                ) + source_groups_spec(m.skip(i + 1), subtract)));
            }
            i += 1;
        }
        proof {
            assert(m.skip(m.len() as int) =~= Seq::<(u64, Vec<MobileEntry>)>::empty());
            assert(r@.map_values(rv) + source_groups_spec(
                Seq::<(u64, Vec<MobileEntry>)>::empty(),
                subtract,
            ) =~= r@.map_values(rv));
        }
        r
    }
}

proof fn lemma_source_groups_len(m: Seq<(u64, Vec<MobileEntry>)>, subtract: u64)
    ensures
        source_groups_spec(m, subtract).len() == total_device_count(m),
    decreases m.len(),
{
    if m.len() > 0 {
        lemma_source_groups_len(m.drop_first(), subtract);
    }
}

impl SimulatedReconnects {
    /// Build the full synthetic output: the devices' initial attachments and
    /// the rotation updates.
    pub fn from_mobile_device_quadrants(
        mdq: MobileDeviceQuadrants,
        runtime: u64,
        interval: u64,
        num_of_devices_to_rotate: u16,
    ) -> (r: Self)
        requires
            interval > 0,
            mdq.quadrant_map@.len() > 0,
            runtime + interval <= u64::MAX,
        ensures
            r.initial_parents@ == initial_update_spec(mdq.quadrant_map@),
            r.topology_updates@.len() == MobileDeviceQuadrants::update_count(runtime, interval),
            forall|k: int|
                0 <= k < r.topology_updates@.len() ==> (#[trigger] r.topology_updates@[k]).timestamp
                    == k * interval,
            forall|k: int|
                0 <= k < r.topology_updates@.len() ==> events_paired(
                    (#[trigger] r.topology_updates@[k]).events@,
                ),
    {
        let initial_parents = mdq.get_initial_update();
        let topology_updates = mdq.get_update_vector(runtime, interval, num_of_devices_to_rotate);
        SimulatedReconnects { initial_parents, topology_updates }
    }
}

impl FixedTopology {
    /// A single fog layer of `num_nodes` nodes with ids 0.., all placed at
    /// the origin, each with `default_resources` capacity and no children.
    pub fn create_single_fog_layer_topology_with_default_location(
        num_nodes: usize,
        default_resources: u16,
    ) -> (r: Self)
        requires
            num_nodes <= u64::MAX,
        ensures
            r.wf(),
            r.nodes@ == Seq::new(
                num_nodes as nat,
                |i: int| ((i as u64, Coord { lat_micro: 0, lon_micro: 0 })),
            ),
            r.slots@ == Seq::new(num_nodes as nat, |i: int| ((i as u64, default_resources))),
            r.children@.len() == num_nodes,
            forall|i: int|
                0 <= i < num_nodes ==> (#[trigger] r.children@[i]).0 == i as u64
                    && r.children@[i].1@ == Seq::<u64>::empty(),
    {
        let mut nodes: Vec<(u64, Coord)> = Vec::new();
        let mut slots: Vec<(u64, u16)> = Vec::new();
        let mut children: Vec<(u64, Vec<u64>)> = Vec::new();
        let mut i: usize = 0;
        while i < num_nodes
            invariant
                i <= num_nodes <= u64::MAX,
                nodes@.len() == i,
                slots@.len() == i,
                children@.len() == i,
                forall|w: int|
                    0 <= w < i ==> nodes@[w] == ((w as u64, Coord { lat_micro: 0, lon_micro: 0 })),
                forall|w: int| 0 <= w < i ==> slots@[w] == ((w as u64, default_resources)),
                forall|w: int|
                    0 <= w < i ==> (#[trigger] children@[w]).0 == w as u64 && children@[w].1@
                        == Seq::<u64>::empty(),
            decreases num_nodes - i,
        {
            let id = i as u64;
            nodes.push((id, Coord { lat_micro: 0, lon_micro: 0 }));
            slots.push((id, default_resources));
            children.push((id, Vec::new()));
            i += 1;
        }
        proof {
            assert(nodes@ =~= Seq::new(
                num_nodes as nat,
                |w: int| ((w as u64, Coord { lat_micro: 0, lon_micro: 0 })),
            ));
            assert(slots@ =~= Seq::new(num_nodes as nat, |w: int| ((w as u64, default_resources))));
        }
        FixedTopology { nodes, slots, children }
    }

    /// A single fog layer mirroring the quadrant world: one node per
    /// quadrant, ids shifted down by `subtract`, all placed at the origin
    /// with full capacity.
    pub fn from_quadrants(mdq: &MobileDeviceQuadrants, subtract: u64) -> (r: Self)
        requires
            mdq.wf(),
            forall|i: int|
                0 <= i < mdq.quadrant_map@.len() ==> (#[trigger] mdq.quadrant_map@[i]).0
                    >= subtract,
        ensures
            r.wf(),
            r.nodes@.len() == mdq.quadrant_map@.len(),
            forall|i: int|
                0 <= i < mdq.quadrant_map@.len() ==> nodes_entry_matches(
                    #[trigger] r.nodes@[i],
                    mdq.quadrant_map@[i].0,
                    subtract,
                ),
            r.slots@.len() == mdq.quadrant_map@.len(),
            forall|i: int|
                0 <= i < mdq.quadrant_map@.len() ==> (#[trigger] r.slots@[i]) == (((
                mdq.quadrant_map@[i].0 - subtract) as u64, 65535u16)),
            r.children@.len() == mdq.quadrant_map@.len(),
            forall|i: int|
                0 <= i < mdq.quadrant_map@.len() ==> (#[trigger] r.children@[i]).0 == (
                mdq.quadrant_map@[i].0 - subtract) as u64 && r.children@[i].1@
                    == Seq::<u64>::empty(),
    {
        let ghost m = mdq.quadrant_map@;
        let mut nodes: Vec<(u64, Coord)> = Vec::new();
        let mut slots: Vec<(u64, u16)> = Vec::new();
        let mut children: Vec<(u64, Vec<u64>)> = Vec::new();
        let mut i: usize = 0;
        while i < mdq.quadrant_map.len()
            invariant
                i <= m.len(),
                m == mdq.quadrant_map@,
                mdq.wf(),
                forall|w: int| 0 <= w < m.len() ==> (#[trigger] m[w]).0 >= subtract,
                nodes@.len() == i,
                slots@.len() == i,
                children@.len() == i,
                forall|w: int|
                    0 <= w < i ==> nodes_entry_matches(#[trigger] nodes@[w], m[w].0, subtract),
                forall|w: int|
                    0 <= w < i ==> (#[trigger] slots@[w]) == (((m[w].0 - subtract) as u64,
                    65535u16)),
                forall|w: int|
                    0 <= w < i ==> (#[trigger] children@[w]).0 == (m[w].0 - subtract) as u64
                        && children@[w].1@ == Seq::<u64>::empty(),
            decreases m.len() - i,
        {
            let id = mdq.quadrant_map[i].0 - subtract;
            nodes.push((id, Coord { lat_micro: 0, lon_micro: 0 }));
            slots.push((id, 65535));
            children.push((id, Vec::new()));
            i += 1;
        }
        proof {
            assert forall|a: int, b: int|
                0 <= a < b < nodes@.len() implies nodes@[a].0 < nodes@[b].0 by {
            }
        }
        FixedTopology { nodes, slots, children }
    }
}

/// A topology node mirroring one quadrant: its id shifted down, at the
/// origin.
pub open spec fn nodes_entry_matches(e: (u64, Coord), key: u64, subtract: u64) -> bool {
    e == (((key - subtract) as u64, Coord { lat_micro: 0, lon_micro: 0 }))
}

} // verus!
