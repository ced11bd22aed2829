//! The two-phase flow generator. Phase one places the traffic matrix onto
//! the cluster and emits probe flows; an external network simulation routes
//! them and reports the most loaded channel. Phase two calibrates the
//! aggregate rate so that the bottleneck's load meets the target
//! utilization, converts it into a mean inter-arrival time, and runs a
//! generation session that appends flows in clock order. The caller feeds
//! the session one log-normally drawn inter-arrival delta per flow; every
//! decision around those draws is verified here.

use vstd::prelude::*;

verus! {

use crate::NodeId;
use crate::cluster::Cluster;
use crate::ecdf::Ecdf;
use crate::spatial::{Error, SpatialData, SpatialWorkload};

/// One flow: never mutated after creation, consumed by the simulator.
#[derive(Clone, Copy, Debug, PartialEq, Eq, Structural)]
pub struct Flow {
    pub id: u64,
    pub src: NodeId,
    pub dst: NodeId,
    /// Bytes.
    pub size: u64,
    /// Nanoseconds.
    pub start: u64,
}

/// When generation stops: after a simulated duration in seconds, or after
/// a fixed number of flows.
#[derive(Clone, Copy, Debug, PartialEq, Eq, Structural)]
pub enum StopWhen {
    Elapsed(u64),
    NrFlows(usize),
}

/// The generator's configuration: a pure value object; generation is a
/// deterministic function of it and of the seed.
#[derive(Clone, Debug)]
pub struct FlowGenerator {
    pub spatial_data: SpatialData,
    pub cluster: Cluster,
    pub size_dist: Ecdf,
    /// Shape parameter of the inter-arrival distribution, in thousandths.
    pub lognorm_sigma_milli: u32,
    /// When the first flow may start, in seconds.
    pub start_time_secs: u64,
    /// Target utilization of the bottleneck link, in parts per million.
    pub max_load_ppm: u64,
    pub stop_when: StopWhen,
    pub id_start: u64,
    pub seed: u64,
}

/// What the external probe run reports of the most loaded channel: its
/// bandwidth in bits per second, and how many probe flows it carried.
#[derive(Clone, Copy, Debug, PartialEq, Eq, Structural)]
pub struct ChannelLoad {
    pub bandwidth: u64,
    pub nr_flows: u64,
}

/// Phase-one output: the placed workload, the probe flows for the external
/// channel-load query, and the generator state carried into phase two.
pub struct Probe {
    pub wk: SpatialWorkload,
    pub flows: Vec<Flow>,
    pub rng: rand::rngs::StdRng,
}

/// Numerator of the exact mean inter-arrival time in nanoseconds: the mean
/// flow size in bits, scaled to nanoseconds, times the bottleneck's share
/// of the probe flows.
pub open spec fn spec_mi_num(mean_size: int, bottleneck_flows: int) -> int {
    mean_size * 8_000_000_000 * 1_000_000 * bottleneck_flows
}

/// Denominator of the exact mean inter-arrival time: the calibrated
/// aggregate rate, unrounded — bandwidth times target utilization (in
/// parts per million) times the probe flow count.
pub open spec fn spec_mi_den(bandwidth: int, load_ppm: int, nr_probe: int) -> int {
    bandwidth * load_ppm * nr_probe
}

/// Division rounded to the nearest integer, halves up.
pub open spec fn spec_round_div(n: int, d: int) -> int {
    (2 * n + d) / (2 * d)
}

impl FlowGenerator {
    /// The calibration fraction's two sides each fit the 128-bit
    /// intermediate arithmetic.
    pub open spec fn spec_mi_parts_fit(self, bottleneck: ChannelLoad, nr_probe: int) -> bool {
        &&& spec_mi_num(self.size_dist.spec_mean(), bottleneck.nr_flows as int) <= u128::MAX
        &&& spec_mi_den(bottleneck.bandwidth as int, self.max_load_ppm as int, nr_probe)
            <= u128::MAX
    }

    /// The rounded division itself stays within the 128-bit intermediates.
    pub open spec fn spec_mi_round_fits(self, bottleneck: ChannelLoad, nr_probe: int) -> bool {
        let num = spec_mi_num(self.size_dist.spec_mean(), bottleneck.nr_flows as int);
        let den = spec_mi_den(bottleneck.bandwidth as int, self.max_load_ppm as int, nr_probe);
        &&& 2 * num + den <= u128::MAX
        &&& 2 * den <= u128::MAX
    }

    /// The calibrated rate is unusable: a rate factor is zero, or the mean
    /// inter-arrival time rounds outside `1..=u64::MAX` nanoseconds.
    pub open spec fn spec_rate_vanishes(self, bottleneck: ChannelLoad, nr_probe: int) -> bool {
        let num = spec_mi_num(self.size_dist.spec_mean(), bottleneck.nr_flows as int);
        let den = spec_mi_den(bottleneck.bandwidth as int, self.max_load_ppm as int, nr_probe);
        &&& self.spec_mi_parts_fit(bottleneck, nr_probe)
        &&& (den == 0 || (self.spec_mi_round_fits(bottleneck, nr_probe) && !(1 <= spec_round_div(
            num,
            den,
        ) <= u64::MAX)))
    }

    /// The configured start time and window convert to nanoseconds without
    /// leaving the 64-bit clock.
    pub open spec fn spec_time_fits(self) -> bool {
        &&& self.start_time_secs * 1_000_000_000 <= u64::MAX
        &&& match self.stop_when {
            StopWhen::Elapsed(d) => d * 1_000_000_000 <= u64::MAX && self.start_time_secs
                * 1_000_000_000 + d * 1_000_000_000 <= u64::MAX,
            StopWhen::NrFlows(_) => true,
        }
    }

    /// Exactly when calibration succeeds: the rate factors are positive
    /// enough for a representable, nonzero mean inter-arrival time, every
    /// intermediate fits its machine range, and the window converts.
    pub open spec fn spec_can_calibrate(self, bottleneck: ChannelLoad, nr_probe: int) -> bool {
        let num = spec_mi_num(self.size_dist.spec_mean(), bottleneck.nr_flows as int);
        let den = spec_mi_den(bottleneck.bandwidth as int, self.max_load_ppm as int, nr_probe);
        &&& self.spec_mi_parts_fit(bottleneck, nr_probe)
        &&& den > 0
        &&& self.spec_mi_round_fits(bottleneck, nr_probe)
        &&& 1 <= spec_round_div(num, den) <= u64::MAX
        &&& self.spec_time_fits()
    }
}

impl FlowGenerator {
    /// How many probe flows phase one emits: the configured flow count, or
    /// a fixed multiple of the link count when generation is time-bounded.
    pub open spec fn spec_nr_probe_flows(self) -> int {
        match self.stop_when {
            StopWhen::Elapsed(_) => (self.cluster.spec_links().len() * 10_000) as int,
            StopWhen::NrFlows(n) => n as int,
        }
    }

    /// Phase one: places the traffic matrix onto the cluster with the
    /// seeded generator and draws the probe flows — endpoints only, zero
    /// size, zero start — whose routing the external simulation measures.
    /// The placement's deterministic failures pass through unchanged; an
    /// overflow additionally arises when the probe flow count itself is
    /// not addressable.
    pub fn probe(&self) -> (r: Result<Probe, Error>)
        requires
            self.spatial_data.matrix.wf(),
        ensures
            (r == Err::<Probe, Error>(Error::WorkloadClusterMismatch)) == (
            self.spatial_data.pod2tors@.len() != self.cluster.pods@.len()),
            (r == Err::<Probe, Error>(Error::ZeroTraffic)) == (self.spatial_data.pod2tors@.len()
                == self.cluster.pods@.len() && crate::spatial::spec_msum(
                self.spatial_data.matrix,
                self.spatial_data.matrix.spec_dim() * self.spatial_data.matrix.spec_dim(),
            ) == 0),
            r == Err::<Probe, Error>(Error::Overflow) ==> (crate::spatial::spec_msum(
                self.spatial_data.matrix,
                self.spatial_data.matrix.spec_dim() * self.spatial_data.matrix.spec_dim(),
            ) > u64::MAX || self.cluster.spec_links().len() * 10_000 > usize::MAX),
            r matches Ok(pr) ==> {
                &&& pr.wk.wf()
                &&& pr.flows@.len() == self.spec_nr_probe_flows()
                &&& forall|i: int|
                    0 <= i < pr.flows@.len() ==> {
                        &&& (#[trigger] pr.flows@[i]).id == i
                        &&& pr.flows@[i].size == 0
                        &&& pr.flows@[i].start == 0
                        &&& pr.wk.sampled_pair(pr.flows@[i].src, pr.flows@[i].dst)
                    }
            },
    {
        let mut rng = crate::rng::rng_from_seed(self.seed);
        let wk = match self.spatial_data.map_to(&self.cluster, &mut rng) {
            Ok(wk) => wk,
            Err(e) => {
                return Err(e);
            },
        };
        let nr = match self.stop_when {
            StopWhen::Elapsed(_) => {
                let links = self.cluster.links();
                match links.len().checked_mul(10_000) {
                    Some(v) => v,
                    None => {
                        return Err(Error::Overflow);
                    },
                }
            },
            StopWhen::NrFlows(n) => n,
        };
        let mut flows: Vec<Flow> = Vec::new();
        let mut i: usize = 0;
        while i < nr
            invariant
                i <= nr,
                wk.wf(),
                flows@.len() == i,
                forall|j: int|
                    0 <= j < i ==> {
                        &&& (#[trigger] flows@[j]).id == j
                        &&& flows@[j].size == 0
                        &&& flows@[j].start == 0
                        &&& wk.sampled_pair(flows@[j].src, flows@[j].dst)
                    },
            decreases nr - i,
        {
            let (src, dst) = wk.sample(&mut rng);
            flows.push(Flow { id: i as u64, src, dst, size: 0, start: 0 });
            i = i + 1;
        }
        Ok(Probe { wk, flows, rng })
    }
}

/// A generation session: flows are appended at the running clock, which
/// only advances, so the stream is ordered by construction.
pub struct FlowStream {
    pub wk: SpatialWorkload,
    pub rng: rand::rngs::StdRng,
    pub flows: Vec<Flow>,
    /// When the first flow may start, nanoseconds.
    pub start: u64,
    /// The running clock, nanoseconds.
    pub cur: u64,
    /// Exclusive end of the generation window; `u64::MAX` when generation
    /// is bounded by flow count alone.
    pub end: u64,
    /// Flow-count bound; `usize::MAX` when generation is time-bounded.
    pub max_flows: usize,
    pub id_start: u64,
    /// The calibrated mean inter-arrival time, nanoseconds: the caller
    /// parameterizes the inter-arrival distribution with it.
    pub mean_delta: u64,
    /// Shape parameter for the caller's inter-arrival distribution, in
    /// thousandths.
    pub sigma_milli: u32,
}

impl FlowStream {
    /// Everything `push_next` preserves: flows sit inside the window in
    /// clock order, carry consecutive identities, and connect distinct
    /// hosts drawn from weighted cells of the placed workload.
    pub open spec fn wf(self) -> bool {
        &&& self.wk.wf()
        &&& self.start <= self.cur
        &&& self.flows@.len() <= self.max_flows
        &&& forall|i: int|
            0 <= i < self.flows@.len() ==> (#[trigger] self.flows@[i]).id == self.id_start + i
        &&& forall|i: int|
            0 <= i < self.flows@.len() ==> self.start <= (#[trigger] self.flows@[i]).start
                < self.end
        &&& forall|i: int|
            0 <= i < self.flows@.len() ==> (#[trigger] self.flows@[i]).start <= self.cur
        &&& forall|i: int, j: int|
            0 <= i <= j < self.flows@.len() ==> (#[trigger] self.flows@[i]).start <= (
            #[trigger] self.flows@[j]).start
        &&& forall|i: int|
            0 <= i < self.flows@.len() ==> self.wk.sampled_pair(
                (#[trigger] self.flows@[i]).src,
                self.flows@[i].dst,
            )
    }

    /// Whether the session owes another flow: the clock is inside the
    /// window, the flow count below its bound, and the next identity
    /// representable.
    pub open spec fn spec_wants_more(self) -> bool {
        &&& self.cur < self.end
        &&& self.flows@.len() < self.max_flows
        &&& self.id_start + self.flows@.len() < u64::MAX
    }

    pub fn wants_more(&self) -> (r: bool)
        ensures
            r == self.spec_wants_more(),
    {
        if !(self.cur < self.end && self.flows.len() < self.max_flows) {
            return false;
        }
        match self.id_start.checked_add(self.flows.len() as u64) {
            Some(v) => v < u64::MAX,
            None => false,
        }
    }

    /// Appends one flow at the current clock — endpoints drawn from the
    /// workload, size drawn from the size distribution — and advances the
    /// clock by `delta`, the caller's draw from the inter-arrival
    /// distribution, saturating at the end of the clock's range.
    pub fn push_next(&mut self, size_dist: &Ecdf, delta: u64)
        requires
            old(self).wf(),
            old(self).spec_wants_more(),
            size_dist.wf(),
        ensures
            final(self).wf(),
            final(self).flows@.len() == old(self).flows@.len() + 1,
            final(self).flows@ == old(self).flows@.push(final(self).flows@.last()),
            final(self).flows@.last().start == old(self).cur,
            final(self).flows@.last().id == old(self).id_start + old(self).flows@.len(),
            final(self).wk == old(self).wk,
            final(self).wk.sampled_pair(
                final(self).flows@.last().src,
                final(self).flows@.last().dst,
            ),
            size_dist.points@[0].0 <= final(self).flows@.last().size <= size_dist.points@[
                size_dist.points@.len() - 1
            ].0,
            final(self).cur == if old(self).cur + delta <= u64::MAX {
                old(self).cur + delta
            } else {
                u64::MAX as int
            },
            final(self).start == old(self).start,
            final(self).end == old(self).end,
            final(self).max_flows == old(self).max_flows,
            final(self).id_start == old(self).id_start,
            final(self).mean_delta == old(self).mean_delta,
            final(self).sigma_milli == old(self).sigma_milli,
    {
        let (src, dst) = self.wk.sample(&mut self.rng);
        let size = size_dist.sample(&mut self.rng);
        let id = self.id_start + (self.flows.len() as u64);
        let flow = Flow { id, src, dst, size, start: self.cur };
        let ghost prev = self.flows@;
        self.flows.push(flow);
        self.cur = match self.cur.checked_add(delta) {
            Some(v) => v,
            None => u64::MAX,
        };
        proof {
            let fs = self.flows@;
            assert(fs == prev.push(flow));
            assert forall|i: int| 0 <= i < fs.len() implies (#[trigger] fs[i]).id == self.id_start
                + i by {
                if i < prev.len() {
                    assert(fs[i] == prev[i]);
                }
            }
            assert forall|i: int| 0 <= i < fs.len() implies self.start <= (
            #[trigger] fs[i]).start < self.end by {
                if i < prev.len() {
                    assert(fs[i] == prev[i]);
                }
            }
            assert forall|i: int| 0 <= i < fs.len() implies (#[trigger] fs[i]).start
                <= self.cur by {
                if i < prev.len() {
                    assert(fs[i] == prev[i]);
                    assert(prev[i].start <= old(self).cur);
                }
            }
            assert forall|i: int, j: int|
                0 <= i <= j < fs.len() implies (#[trigger] fs[i]).start <= (
            #[trigger] fs[j]).start by {
                if j < prev.len() {
                    assert(fs[i] == prev[i] && fs[j] == prev[j]);
                } else if i < prev.len() {
                    assert(fs[i] == prev[i]);
                }
            }
            assert forall|i: int| 0 <= i < fs.len() implies self.wk.sampled_pair(
                (#[trigger] fs[i]).src,
                fs[i].dst,
            ) by {
                if i < prev.len() {
                    assert(fs[i] == prev[i]);
                    assert(old(self).wk.sampled_pair(prev[i].src, prev[i].dst));
                }
            }
        }
    }

    /// Hands the finished stream out.
    pub fn into_flows(self) -> (r: Vec<Flow>)
        ensures
            r@ == self.flows@,
    {
        self.flows
    }

    /// Feeds the session a batch of inter-arrival draws: one flow per
    /// delta, stopping early when the session is complete. The k-th
    /// appended flow starts at the clock reached by the first k deltas, and
    /// the clock ends up advanced by every consumed delta.
    pub fn advance(&mut self, size_dist: &Ecdf, deltas: &Vec<u64>)
        requires
            old(self).wf(),
            size_dist.wf(),
        ensures
            final(self).wf(),
            final(self).wk == old(self).wk,
            final(self).end == old(self).end,
            final(self).max_flows == old(self).max_flows,
            final(self).id_start == old(self).id_start,
            old(self).flows@.len() <= final(self).flows@.len() <= old(self).flows@.len()
                + deltas@.len(),
            !final(self).spec_wants_more() || final(self).flows@.len() == old(
                self,
            ).flows@.len() + deltas@.len(),
            final(self).flows@.take(old(self).flows@.len() as int) == old(self).flows@,
            forall|k: int|
                0 <= k < final(self).flows@.len() - old(self).flows@.len()
                    ==> (#[trigger] final(self).flows@[old(self).flows@.len() + k]).start
                    == spec_clock(old(self).cur as int, deltas@.take(k)),
            final(self).cur == spec_clock(
                old(self).cur as int,
                deltas@.take(final(self).flows@.len() - old(self).flows@.len()),
            ),
    {
        let ghost base = self.flows@.len() as int;
        let mut i: usize = 0;
        while i < deltas.len()
            invariant
                i <= deltas@.len(),
                self.wf(),
                size_dist.wf(),
                self.wk == old(self).wk,
                self.end == old(self).end,
                self.max_flows == old(self).max_flows,
                self.id_start == old(self).id_start,
                base == old(self).flows@.len(),
                self.spec_wants_more() ==> self.flows@.len() == base + i,
                base <= self.flows@.len() <= base + i,
                self.flows@.take(base) == old(self).flows@,
                forall|k: int|
                    0 <= k < self.flows@.len() - base ==> (#[trigger] self.flows@[base + k]).start
                        == spec_clock(old(self).cur as int, deltas@.take(k)),
                self.cur == spec_clock(old(self).cur as int, deltas@.take(self.flows@.len() - base)),
            decreases deltas@.len() - i,
        {
            if !self.wants_more() {
                return ;
            }
            let ghost before = *self;
            self.push_next(size_dist, deltas[i]);
            proof {
                let n = self.flows@.len() - base;
                assert(self.flows@.take(base) =~= old(self).flows@);
                assert(deltas@.take(n).drop_last() =~= deltas@.take(n - 1));
                assert(deltas@.take(n).last() == deltas@[n - 1]);
                assert(self.flows@[base + (n - 1)].start == before.cur);
            }
            i = i + 1;
        }
    }
}

/// The clock reached from `start` after the given inter-arrival deltas,
/// saturating at the end of the 64-bit range.
pub open spec fn spec_clock(start: int, deltas: Seq<u64>) -> int
    decreases deltas.len(),
{
    if deltas.len() == 0 {
        start
    } else {
        let prev = spec_clock(start, deltas.drop_last());
        if prev + deltas.last() <= u64::MAX {
            prev + deltas.last()
        } else {
            u64::MAX as int
        }
    }
}

/// A finished count-bounded session holds exactly its configured number of
/// flows: with no time bound set, the session refuses further flows only
/// when the count is reached — unless the simulated clock or the flow
/// identities ran off the end of their 64-bit ranges.
pub proof fn lemma_stream_count_complete(st: FlowStream)
    requires
        st.wf(),
        !st.spec_wants_more(),
        st.end == u64::MAX,
        st.cur < u64::MAX,
        st.id_start + st.max_flows < u64::MAX,
    ensures
        st.flows@.len() == st.max_flows,
{
}

/// Every flow of a well-formed session starts inside the configured
/// window, and starts never decrease along the stream.
pub proof fn lemma_stream_ordered(st: FlowStream)
    requires
        st.wf(),
    ensures
        forall|i: int|
            0 <= i < st.flows@.len() ==> st.start <= (#[trigger] st.flows@[i]).start < st.end,
        forall|i: int, j: int|
            0 <= i <= j < st.flows@.len() ==> (#[trigger] st.flows@[i]).start <= (
            #[trigger] st.flows@[j]).start,
{
}

impl FlowGenerator {
    /// Phase two: calibrates the aggregate rate from the external
    /// channel-load answer — the rate at which the bottleneck, receiving
    /// its observed share of the traffic, sits exactly at the target
    /// utilization — converts it into the mean inter-arrival time, and
    /// opens the generation session.
    ///
    /// Fails when a rate factor is zero or the calibrated mean
    /// inter-arrival time vanishes (`ZeroRate`), and when a conversion
    /// exceeds the machine's integer range (`Overflow`).
    pub fn generate(&self, probe: Probe, bottleneck: &ChannelLoad) -> (r: Result<
        FlowStream,
        Error,
    >)
        requires
            probe.wk.wf(),
            self.size_dist.wf(),
        ensures
            r matches Ok(st) ==> {
                &&& st.wf()
                &&& st.flows@.len() == 0
                &&& st.wk == probe.wk
                &&& st.id_start == self.id_start
                &&& st.sigma_milli == self.lognorm_sigma_milli
                &&& st.start == self.start_time_secs * 1_000_000_000
                &&& st.cur == st.start
                &&& st.mean_delta == spec_round_div(
                    spec_mi_num(self.size_dist.spec_mean(), bottleneck.nr_flows as int),
                    spec_mi_den(
                        bottleneck.bandwidth as int,
                        self.max_load_ppm as int,
                        probe.flows@.len() as int,
                    ),
                )
                &&& st.mean_delta >= 1
                &&& match self.stop_when {
                    StopWhen::Elapsed(d) => st.end == st.start + d * 1_000_000_000
                        && st.max_flows == usize::MAX,
                    StopWhen::NrFlows(n) => st.end == u64::MAX && st.max_flows == n,
                }
            },
            (r is Ok) == self.spec_can_calibrate(*bottleneck, probe.flows@.len() as int),
            (r == Err::<FlowStream, Error>(Error::ZeroRate)) == self.spec_rate_vanishes(
                *bottleneck,
                probe.flows@.len() as int,
            ),
            r matches Err(e) ==> (e == Error::ZeroRate || e == Error::Overflow),
    {
        let nr_probe = probe.flows.len();
        let mean_size = self.size_dist.mean();
        // The exact mean inter-arrival time as one fraction, rounded once.
        proof {
            assert((mean_size as int) * 8_000_000_000 <= 0xffff_ffff_ffff_ffffint
                * 8_000_000_000) by (nonlinear_arith)
                requires 0 <= mean_size as int <= 0xffff_ffff_ffff_ffffint;
            assert((mean_size as int) * 8_000_000_000 * 1_000_000 <= 0xffff_ffff_ffff_ffffint
                * 8_000_000_000 * 1_000_000) by (nonlinear_arith)
                requires (mean_size as int) * 8_000_000_000 <= 0xffff_ffff_ffff_ffffint
                    * 8_000_000_000;
        }
        let num = (mean_size as u128) * 8_000_000_000u128 * 1_000_000u128;
        let num = match num.checked_mul(bottleneck.nr_flows as u128) {
            Some(v) => v,
            None => {
                return Err(Error::Overflow);
            },
        };
        proof {
            assert((bottleneck.bandwidth as int) * (self.max_load_ppm as int)
                <= 0xffff_ffff_ffff_ffffint * 0xffff_ffff_ffff_ffffint) by (nonlinear_arith)
                requires
                    0 <= bottleneck.bandwidth as int <= 0xffff_ffff_ffff_ffffint,
                    0 <= self.max_load_ppm as int <= 0xffff_ffff_ffff_ffffint,
            ;
        }
        let den = (bottleneck.bandwidth as u128) * (self.max_load_ppm as u128);
        let den = match den.checked_mul(nr_probe as u128) {
            Some(v) => v,
            None => {
                return Err(Error::Overflow);
            },
        };
        if den == 0 {
            return Err(Error::ZeroRate);
        }
        let num2 = match num.checked_mul(2) {
            Some(v) => v,
            None => {
                return Err(Error::Overflow);
            },
        };
        let num2 = match num2.checked_add(den) {
            Some(v) => v,
            None => {
                return Err(Error::Overflow);
            },
        };
        let den2 = match den.checked_mul(2) {
            Some(v) => v,
            None => {
                return Err(Error::Overflow);
            },
        };
        let q = num2 / den2;
        if q == 0 || q > (u64::MAX as u128) {
            return Err(Error::ZeroRate);
        }
        let mean_delta = q as u64;

        let start = match self.start_time_secs.checked_mul(1_000_000_000) {
            Some(v) => v,
            None => {
                return Err(Error::Overflow);
            },
        };
        let (end, max_flows) = match self.stop_when {
            StopWhen::Elapsed(d) => {
                let d_ns = match d.checked_mul(1_000_000_000) {
                    Some(v) => v,
                    None => {
                        return Err(Error::Overflow);
                    },
                };
                let e = match start.checked_add(d_ns) {
                    Some(v) => v,
                    None => {
                        return Err(Error::Overflow);
                    },
                };
                (e, usize::MAX)
            },
            StopWhen::NrFlows(n) => (u64::MAX, n),
        };
        let st = FlowStream {
            wk: probe.wk,
            rng: probe.rng,
            flows: Vec::new(),
            start,
            cur: start,
            end,
            max_flows,
            id_start: self.id_start,
            mean_delta,
            sigma_milli: self.lognorm_sigma_milli,
        };
        Ok(st)
    }
}

/// The most loaded channel among the simulation's per-link answers: the
/// one carrying the most probe flows per unit of bandwidth, compared
/// exactly by cross-multiplication. `None` when there are no answers or no
/// probe flows were routed at all — a bottleneck search over nothing must
/// fail rather than answer.
pub fn bottleneck_of(loads: &Vec<ChannelLoad>, nr_probe: u64) -> (r: Option<ChannelLoad>)
    ensures
        (r is Some) == (loads@.len() > 0 && nr_probe > 0),
        r matches Some(c) ==> loads@.contains(c),
        r matches Some(c) ==> forall|i: int|
            0 <= i < loads@.len() ==> (#[trigger] loads@[i]).nr_flows * c.bandwidth <= c.nr_flows
                * loads@[i].bandwidth,
{
    if nr_probe == 0 || loads.len() == 0 {
        return None;
    }
    let mut best = loads[0];
    let mut i: usize = 1;
    proof {
        assert(loads@.contains(loads@[0]));
    }
    while i < loads.len()
        invariant
            1 <= i <= loads@.len(),
            loads@.len() > 0,
            loads@.contains(best),
            forall|j: int|
                0 <= j < i ==> (#[trigger] loads@[j]).nr_flows * best.bandwidth <= best.nr_flows
                    * loads@[j].bandwidth,
        decreases loads@.len() - i,
    {
        let cand = loads[i];
        proof {
            assert((cand.nr_flows as int) * (best.bandwidth as int) <= 0xffff_ffff_ffff_ffffint
                * 0xffff_ffff_ffff_ffffint && (best.nr_flows as int) * (cand.bandwidth as int)
                <= 0xffff_ffff_ffff_ffffint * 0xffff_ffff_ffff_ffffint) by (nonlinear_arith)
                requires
                    0 <= cand.nr_flows as int <= 0xffff_ffff_ffff_ffffint,
                    0 <= cand.bandwidth as int <= 0xffff_ffff_ffff_ffffint,
                    0 <= best.nr_flows as int <= 0xffff_ffff_ffff_ffffint,
                    0 <= best.bandwidth as int <= 0xffff_ffff_ffff_ffffint,
            ;
        }
        // cand is more loaded than best exactly when
        // cand.nr_flows / cand.bandwidth > best.nr_flows / best.bandwidth.
        if (cand.nr_flows as u128) * (best.bandwidth as u128) > (best.nr_flows as u128) * (
        cand.bandwidth as u128) {
            proof {
                assert(loads@.contains(loads@[i as int]));
                assert forall|j: int|
                    0 <= j < i + 1 implies (#[trigger] loads@[j]).nr_flows * cand.bandwidth
                    <= cand.nr_flows * loads@[j].bandwidth by {
                    if j < i {
                        assert(loads@[j].nr_flows * best.bandwidth <= best.nr_flows * loads@[
                            j
                        ].bandwidth);
                        assert(loads@[j].nr_flows * cand.bandwidth <= cand.nr_flows * loads@[
                            j
                        ].bandwidth) by (nonlinear_arith)
                            requires
                                loads@[j].nr_flows * best.bandwidth <= best.nr_flows * loads@[
                                    j
                                ].bandwidth,
                                best.nr_flows * cand.bandwidth < cand.nr_flows * best.bandwidth,
                                loads@[j].nr_flows >= 0,
                                loads@[j].bandwidth >= 0,
                                best.nr_flows >= 0,
                                best.bandwidth >= 0,
                                cand.nr_flows >= 0,
                                cand.bandwidth >= 0,
                        ;
                    }
                }
            }
            best = cand;
        }
        i = i + 1;
    }
    Some(best)
}

// ------------------------------------------------------------------
// Calibration monotonicity.
// ------------------------------------------------------------------

/// Rounded division only shrinks when the denominator grows.
proof fn lemma_round_div_antimonotone(n: int, d1: int, d2: int)
    requires
        n >= 0,
        0 < d1 <= d2,
    ensures
        spec_round_div(n, d1) >= spec_round_div(n, d2),
{
    let q2 = spec_round_div(n, d2);
    vstd::arithmetic::div_mod::lemma_fundamental_div_mod(2 * n + d2, 2 * d2);
    vstd::arithmetic::div_mod::lemma_mod_bound(2 * n + d2, 2 * d2);
    assert(q2 >= 0) by {
        vstd::arithmetic::div_mod::lemma_div_is_ordered(0, 2 * n + d2, 2 * d2);
    }
    // Cross-multiplying shows the un-rounded value over d1 dominates.
    assert((2 * d1) * q2 <= 2 * n + d1) by (nonlinear_arith)
        requires
            2 * n + d2 == (2 * d2) * q2 + (2 * n + d2) % (2 * d2),
            0 <= (2 * n + d2) % (2 * d2),
            0 < d1 <= d2,
            n >= 0,
            q2 >= 0,
    ;
    assert(((2 * d1) * q2) / (2 * d1) == q2) by {
        vstd::arithmetic::div_mod::lemma_div_multiples_vanish(q2, 2 * d1);
    }
    vstd::arithmetic::div_mod::lemma_div_is_ordered((2 * d1) * q2, 2 * n + d1, 2 * d1);
}

/// Raising the target utilization, everything else held fixed, strictly
/// raises the calibrated aggregate rate — the rate is proportional to the
/// utilization — and therefore the mean inter-arrival time does not grow:
/// exactly as a rational, it strictly shrinks; after rounding to whole
/// nanoseconds it can only shrink or stay.
pub proof fn lemma_calibration_monotone(
    mean_size: int,
    bandwidth: int,
    bottleneck_flows: int,
    nr_probe: int,
    ppm1: int,
    ppm2: int,
)
    requires
        mean_size >= 0,
        bandwidth >= 1,
        bottleneck_flows >= 1,
        nr_probe >= 1,
        1 <= ppm1 < ppm2,
    ensures
        // The exact rate, as a fraction of fixed denominator
        // 1_000_000 * bottleneck_flows, strictly grows with the target.
        spec_mi_den(bandwidth, ppm1, nr_probe) < spec_mi_den(bandwidth, ppm2, nr_probe),
        // The rounded mean inter-arrival time never grows.
        spec_round_div(
            spec_mi_num(mean_size, bottleneck_flows),
            spec_mi_den(bandwidth, ppm1, nr_probe),
        ) >= spec_round_div(
            spec_mi_num(mean_size, bottleneck_flows),
            spec_mi_den(bandwidth, ppm2, nr_probe),
        ),
{
    assert(bandwidth * ppm1 * nr_probe < bandwidth * ppm2 * nr_probe && 1 <= bandwidth * ppm1
        * nr_probe) by (nonlinear_arith)
        requires
            bandwidth >= 1,
            nr_probe >= 1,
            1 <= ppm1 < ppm2,
    ;
    assert(spec_mi_num(mean_size, bottleneck_flows) >= 0) by (nonlinear_arith)
        requires
            mean_size >= 0,
            bottleneck_flows >= 1,
    ;
    lemma_round_div_antimonotone(
        spec_mi_num(mean_size, bottleneck_flows),
        spec_mi_den(bandwidth, ppm1, nr_probe),
        spec_mi_den(bandwidth, ppm2, nr_probe),
    );
}

/// Mean inter-arrival time, in nanoseconds, that makes flows of mean size
/// `mean_f` bytes arrive at aggregate rate `rate_bps` bits per second:
/// `mean_f * 8e9 / rate`, rounded to whole nanoseconds, saturating at the
/// clock range.
pub fn mean_i_for_r(rate_bps: u64, mean_f: u64) -> (r: u64)
    requires
        rate_bps >= 1,
    ensures
        r == if spec_round_div(mean_f * 8_000_000_000, rate_bps as int) <= u64::MAX {
            spec_round_div(mean_f * 8_000_000_000, rate_bps as int)
        } else {
            u64::MAX as int
        },
{
    proof {
        assert((mean_f as int) * 8_000_000_000 <= 0xffff_ffff_ffff_ffffint * 8_000_000_000
            && 2 * ((mean_f as int) * 8_000_000_000) + rate_bps
            <= 0xffff_ffff_ffff_ffff_ffff_ffff_ffff_ffffint) by (nonlinear_arith)
            requires
                0 <= mean_f as int <= 0xffff_ffff_ffff_ffffint,
                1 <= rate_bps as int <= 0xffff_ffff_ffff_ffffint,
        ;
    }
    let num: u128 = (mean_f as u128) * 8_000_000_000u128;
    let q = (2 * num + (rate_bps as u128)) / (2 * (rate_bps as u128));
    if q > (u64::MAX as u128) {
        u64::MAX
    } else {
        q as u64
    }
}

/// Mean inter-arrival time that loads a link of bandwidth `bw_bps` to the
/// target utilization, in parts per million, with flows of mean size
/// `mean_f` bytes.
pub fn mean_i_for_u(load_ppm: u64, bw_bps: u64, mean_f: u64) -> (r: Result<u64, Error>)
    ensures
        match r {
            Ok(v) => bw_bps * load_ppm >= 1 && v == (if spec_round_div(
                mean_f * 8_000_000_000 * 1_000_000,
                bw_bps * load_ppm,
            ) <= u64::MAX {
                spec_round_div(mean_f * 8_000_000_000 * 1_000_000, bw_bps * load_ppm)
            } else {
                u64::MAX as int
            }),
            Err(e) => e == Error::ZeroRate && bw_bps * load_ppm == 0,
        },
{
    proof {
        assert((mean_f as int) * 8_000_000_000 <= 0xffff_ffff_ffff_ffffint
            * 8_000_000_000) by (nonlinear_arith)
            requires 0 <= mean_f as int <= 0xffff_ffff_ffff_ffffint;
        assert((mean_f as int) * 8_000_000_000 * 1_000_000 <= 0xffff_ffff_ffff_ffffint
            * 8_000_000_000 * 1_000_000) by (nonlinear_arith)
            requires (mean_f as int) * 8_000_000_000 <= 0xffff_ffff_ffff_ffffint
                * 8_000_000_000;
        assert((bw_bps as int) * (load_ppm as int) <= 0xffff_ffff_ffff_ffffint
            * 0xffff_ffff_ffff_ffffint) by (nonlinear_arith)
            requires
                0 <= bw_bps as int <= 0xffff_ffff_ffff_ffffint,
                0 <= load_ppm as int <= 0xffff_ffff_ffff_ffffint,
        ;
    }
    let den: u128 = (bw_bps as u128) * (load_ppm as u128);
    if den == 0 {
        return Err(Error::ZeroRate);
    }
    let num: u128 = (mean_f as u128) * 8_000_000_000u128 * 1_000_000u128;
    let twon = 2 * num;
    if den > twon {
        // Less than half a nanosecond: rounds to zero.
        proof {
            vstd::arithmetic::div_mod::lemma_basic_div(
                2 * ((mean_f as int) * 8_000_000_000 * 1_000_000) + (bw_bps as int) * (
                load_ppm as int),
                2 * ((bw_bps as int) * (load_ppm as int)),
            );
        }
        return Ok(0);
    }
    let q = (twon + den) / (2 * den);
    if q > (u64::MAX as u128) {
        Ok(u64::MAX)
    } else {
        Ok(q as u64)
    }
}

} // verus!
