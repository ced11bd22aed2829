//! Deterministic fabric routing over a canonically numbered Clos cluster.
//! Next-hop sets between any two node identities are computed by closed-form
//! arithmetic over the tier boundaries; no adjacency graph is materialized.
//! Traffic only ascends tiers (host, ToR, fabric, spine) until it can reach
//! the destination's pod within one spine plane, then strictly descends, so
//! every route is loop-free.

use vstd::prelude::*;

verus! {

use crate::NodeId;
use crate::cluster::Cluster;
use vstd::arithmetic::div_mod::{
    lemma_fundamental_div_mod,
    lemma_mod_bound,
    lemma_multiply_divide_lt,
};
use vstd::arithmetic::mul::lemma_mul_inequality;

/// The fixed shape constants of a canonical Clos fabric, from which every
/// next-hop set is computed. `tor_base`, `fabric_base` and `spine_base` are
/// the first identities of the ToR, fabric and spine tiers; identities below
/// `tor_base` are hosts and identities in `[spine_base, nr_nodes)` spines.
#[derive(Clone, Copy, Debug)]
pub struct FabricRoutes {
    pub nr_pods: usize,
    pub nr_fabs_per_pod: usize,
    pub nr_spines_per_plane: usize,
    pub nr_hosts_per_rack: usize,
    pub nr_tors_per_pod: usize,
    pub tor_base: usize,
    pub fabric_base: usize,
    pub spine_base: usize,
    pub nr_nodes: usize,
}

/// The ascending run of identities `start, start + 1, ...` of length `len`.
pub open spec fn spec_range(start: int, len: int) -> Seq<NodeId> {
    Seq::new(len as nat, |i: int| (start + i) as usize)
}

/// The identities `start, start + step, ...`, `count` of them.
pub open spec fn spec_strided(start: int, step: int, count: int) -> Seq<NodeId> {
    Seq::new(count as nat, |i: int| (start + i * step) as usize)
}

impl FabricRoutes {
    /// The shape constants agree with one another: each tier starts where
    /// the previous one ends, and each count is at least one. The spine
    /// plane count equals the per-pod fabric count, so that each fabric
    /// switch serves exactly one plane.
    pub open spec fn wf(self) -> bool {
        &&& 1 <= self.nr_pods
        &&& 1 <= self.nr_fabs_per_pod
        &&& 1 <= self.nr_spines_per_plane
        &&& 1 <= self.nr_hosts_per_rack
        &&& 1 <= self.nr_tors_per_pod
        &&& self.tor_base == self.nr_pods * self.nr_tors_per_pod * self.nr_hosts_per_rack
        &&& self.fabric_base == self.tor_base + self.nr_pods * self.nr_tors_per_pod
        &&& self.spine_base == self.fabric_base + self.nr_pods * self.nr_fabs_per_pod
        &&& self.nr_nodes == self.spine_base + self.nr_fabs_per_pod * self.nr_spines_per_plane
    }

    pub open spec fn is_host(self, n: int) -> bool {
        0 <= n < self.tor_base
    }

    pub open spec fn is_tor(self, n: int) -> bool {
        self.tor_base <= n < self.fabric_base
    }

    pub open spec fn is_fabric(self, n: int) -> bool {
        self.fabric_base <= n < self.spine_base
    }

    pub open spec fn is_spine(self, n: int) -> bool {
        self.spine_base <= n < self.nr_nodes
    }

    /// The ToR that host `n` hangs off.
    pub open spec fn spec_tor_of_host(self, n: int) -> int {
        self.tor_base + n / (self.nr_hosts_per_rack as int)
    }

    /// Which pod a host, ToR or fabric identity belongs to.
    pub open spec fn spec_pod_of(self, n: int) -> int {
        if self.is_host(n) {
            n / (self.nr_hosts_per_rack * self.nr_tors_per_pod) as int
        } else if self.is_tor(n) {
            (n - self.tor_base) / (self.nr_tors_per_pod as int)
        } else {
            (n - self.fabric_base) / (self.nr_fabs_per_pod as int)
        }
    }

    /// Which spine plane a fabric or spine identity serves: a fabric's
    /// offset within its pod, or a spine's block of `nr_spines_per_plane`.
    pub open spec fn spec_plane_of(self, n: int) -> int {
        if self.is_fabric(n) {
            (n - self.fabric_base) % (self.nr_fabs_per_pod as int)
        } else {
            (n - self.spine_base) / (self.nr_spines_per_plane as int)
        }
    }

    /// First fabric identity of pod `pod`.
    pub open spec fn spec_pod_fabric_base(self, pod: int) -> int {
        self.fabric_base + pod * self.nr_fabs_per_pod
    }

    /// First ToR identity of pod `pod`.
    pub open spec fn spec_pod_tor_base(self, pod: int) -> int {
        self.tor_base + pod * self.nr_tors_per_pod
    }

    /// First spine identity of plane `plane`.
    pub open spec fn spec_plane_spine_base(self, plane: int) -> int {
        self.spine_base + plane * self.nr_spines_per_plane
    }
}

proof fn lemma_div_in_interval(x: int, m: int, q: int)
    requires
        m > 0,
        q * m <= x < (q + 1) * m,
    ensures
        x / m == q,
{
    lemma_fundamental_div_mod(x, m);
    lemma_mod_bound(x, m);
    assert(x / m == q) by (nonlinear_arith)
        requires
            x == m * (x / m) + (x % m),
            0 <= x % m < m,
            q * m <= x,
            x < (q + 1) * m,
            m > 0,
    ;
}

proof fn lemma_div_bounds(x: int, m: int)
    requires
        m > 0,
        x >= 0,
    ensures
        (x / m) * m <= x < (x / m + 1) * m,
        x / m >= 0,
{
    lemma_fundamental_div_mod(x, m);
    lemma_mod_bound(x, m);
    assert((x / m) * m <= x < (x / m + 1) * m && x / m >= 0) by (nonlinear_arith)
        requires
            x == m * (x / m) + (x % m),
            0 <= x % m < m,
            x >= 0,
            m > 0,
    ;
}

impl FabricRoutes {
    /// The pod index of any host, ToR or fabric identity is below `nr_pods`.
    pub proof fn lemma_pod_of_in_range(self, n: int)
        requires
            self.wf(),
            self.is_host(n) || self.is_tor(n) || self.is_fabric(n),
        ensures
            0 <= self.spec_pod_of(n) < self.nr_pods,
    {
        let p = self.nr_pods as int;
        let t = self.nr_tors_per_pod as int;
        let h = self.nr_hosts_per_rack as int;
        let f = self.nr_fabs_per_pod as int;
        if self.is_host(n) {
            assert(h * t > 0 && p * t * h == (h * t) * p) by (nonlinear_arith)
                requires h >= 1 && t >= 1 && p >= 1;
            lemma_multiply_divide_lt(n, h * t, p);
            lemma_div_bounds(n, h * t);
        } else if self.is_tor(n) {
            assert(p * t == t * p) by (nonlinear_arith);
            lemma_multiply_divide_lt(n - self.tor_base, t, p);
            lemma_div_bounds(n - self.tor_base, t);
        } else {
            assert(p * f == f * p) by (nonlinear_arith);
            lemma_multiply_divide_lt(n - self.fabric_base, f, p);
            lemma_div_bounds(n - self.fabric_base, f);
        }
    }

    /// The plane index of any fabric or spine identity is below
    /// `nr_fabs_per_pod`, the number of planes.
    pub proof fn lemma_plane_of_in_range(self, n: int)
        requires
            self.wf(),
            self.is_fabric(n) || self.is_spine(n),
        ensures
            0 <= self.spec_plane_of(n) < self.nr_fabs_per_pod,
    {
        let f = self.nr_fabs_per_pod as int;
        let s = self.nr_spines_per_plane as int;
        if self.is_fabric(n) {
            lemma_mod_bound(n - self.fabric_base, f);
        } else {
            assert(f * s == s * f) by (nonlinear_arith);
            lemma_multiply_divide_lt(n - self.spine_base, s, f);
            lemma_div_bounds(n - self.spine_base, s);
        }
    }

    /// The ToR of a host lies in the ToR tier, in the host's own pod.
    pub proof fn lemma_tor_of_host_in_range(self, n: int)
        requires
            self.wf(),
            self.is_host(n),
        ensures
            self.is_tor(self.spec_tor_of_host(n)),
            self.spec_pod_of(self.spec_tor_of_host(n)) == self.spec_pod_of(n),
    {
        let p = self.nr_pods as int;
        let t = self.nr_tors_per_pod as int;
        let h = self.nr_hosts_per_rack as int;
        let q = n / h;
        assert(h * t > 0 && p * t * h == h * (p * t)) by (nonlinear_arith)
            requires h >= 1 && t >= 1 && p >= 1;
        lemma_multiply_divide_lt(n, h, p * t);
        lemma_div_bounds(n, h);
        // q / t == n / (h * t): both sit in the same pod interval.
        let pod = self.spec_pod_of(n);
        lemma_div_bounds(n, h * t);
        assert(pod * (h * t) <= n < (pod + 1) * (h * t));
        assert(pod * t <= q && q < (pod + 1) * t) by (nonlinear_arith)
            requires
                pod * (h * t) <= n,
                n < (pod + 1) * (h * t),
                q * h <= n,
                n < (q + 1) * h,
                h > 0,
                t > 0,
        ;
        lemma_div_in_interval(q, t, pod);
    }
}

impl FabricRoutes {
    /// Reads the shape constants of a canonically numbered cluster. The
    /// caller is responsible for the cluster being canonical; the shape
    /// consistency expressed by `wf` is what the arithmetic needs.
    pub fn new(cluster: &Cluster) -> (r: FabricRoutes)
        requires
            cluster.spec_shape_consistent(),
        ensures
            r.wf(),
            r.nr_pods == cluster.spec_nr_pods(),
            r.nr_tors_per_pod == cluster.spec_nr_tors_per_pod(),
            r.nr_fabs_per_pod == cluster.spec_nr_fabs_per_pod(),
            r.nr_spines_per_plane == cluster.spec_nr_spines_per_plane(),
            r.nr_hosts_per_rack == cluster.spec_nr_hosts_per_rack(),
            r.tor_base == cluster.spec_tor_base(),
            r.fabric_base == cluster.spec_fabric_base(),
            r.spine_base == cluster.spec_spine_base(),
            r.nr_nodes == cluster.spec_nodes().len(),
    {
        let nodes = cluster.nodes();
        FabricRoutes {
            nr_pods: cluster.nr_pods(),
            nr_fabs_per_pod: cluster.nr_fabs_per_pod(),
            nr_spines_per_plane: cluster.nr_spines_per_plane(),
            nr_hosts_per_rack: cluster.nr_hosts_per_rack(),
            nr_tors_per_pod: cluster.nr_tors_per_pod(),
            tor_base: cluster.tor_base(),
            fabric_base: cluster.fabric_base(),
            spine_base: cluster.spine_base(),
            nr_nodes: nodes.len(),
        }
    }

    /// The ToR switch that `host` hangs off.
    pub fn tor_of_host(&self, host: NodeId) -> (r: NodeId)
        requires
            self.wf(),
            self.is_host(host as int),
        ensures
            r == self.spec_tor_of_host(host as int),
            self.is_tor(r as int),
    {
        proof {
            self.lemma_tor_of_host_in_range(host as int);
        }
        self.tor_base + host / self.nr_hosts_per_rack
    }

    /// The pod that a host, ToR or fabric identity belongs to.
    pub fn pod_of_node(&self, node: NodeId) -> (r: usize)
        requires
            self.wf(),
            self.is_host(node as int) || self.is_tor(node as int) || self.is_fabric(
                node as int,
            ),
        ensures
            r == self.spec_pod_of(node as int),
            r < self.nr_pods,
    {
        proof {
            self.lemma_pod_of_in_range(node as int);
            assert(self.nr_hosts_per_rack * self.nr_tors_per_pod >= 1
                && self.nr_hosts_per_rack * self.nr_tors_per_pod <= self.nr_pods
                * self.nr_tors_per_pod * self.nr_hosts_per_rack) by (nonlinear_arith)
                requires
                    self.nr_pods >= 1,
                    self.nr_tors_per_pod >= 1,
                    self.nr_hosts_per_rack >= 1,
            ;
        }
        if node < self.tor_base {
            node / (self.nr_hosts_per_rack * self.nr_tors_per_pod)
        } else if node < self.fabric_base {
            (node - self.tor_base) / self.nr_tors_per_pod
        } else {
            (node - self.fabric_base) / self.nr_fabs_per_pod
        }
    }

    /// The spine plane that a fabric or spine identity serves.
    pub fn plane_of_node(&self, node: NodeId) -> (r: usize)
        requires
            self.wf(),
            self.is_fabric(node as int) || self.is_spine(node as int),
        ensures
            r == self.spec_plane_of(node as int),
            r < self.nr_fabs_per_pod,
    {
        proof {
            self.lemma_plane_of_in_range(node as int);
        }
        if node < self.spine_base {
            (node - self.fabric_base) % self.nr_fabs_per_pod
        } else {
            (node - self.spine_base) / self.nr_spines_per_plane
        }
    }

    /// All fabric switches of the pod that ToR `tor` belongs to, the
    /// equal-cost fan-out of an upward hop.
    pub fn fabrics_of_tor(&self, tor: NodeId) -> (r: Vec<NodeId>)
        requires
            self.wf(),
            self.is_tor(tor as int),
        ensures
            r@ == spec_range(
                self.spec_pod_fabric_base(self.spec_pod_of(tor as int)),
                self.nr_fabs_per_pod as int,
            ),
            forall|i: int| 0 <= i < r@.len() ==> self.is_fabric(#[trigger] r@[i] as int),
    {
        let pod = self.pod_of_node(tor);
        proof {
            self.lemma_pod_fabric_range(pod as int);
        }
        let start = self.fabric_base + pod * self.nr_fabs_per_pod;
        range_vec(start, self.nr_fabs_per_pod)
    }

    /// The one fabric switch in `tor`'s pod that serves `plane`.
    pub fn fabric_of_tor_in_plane(&self, tor: NodeId, plane: usize) -> (r: NodeId)
        requires
            self.wf(),
            self.is_tor(tor as int),
            plane < self.nr_fabs_per_pod,
        ensures
            r == self.spec_pod_fabric_base(self.spec_pod_of(tor as int)) + plane,
            self.is_fabric(r as int),
            self.spec_plane_of(r as int) == plane,
            self.spec_pod_of(r as int) == self.spec_pod_of(tor as int),
    {
        let pod = self.pod_of_node(tor);
        proof {
            self.lemma_pod_fabric_range(pod as int);
            self.lemma_fabric_coords(pod as int, plane as int);
        }
        self.fabric_base + pod * self.nr_fabs_per_pod + plane
    }

    /// All ToR switches of the pod that fabric switch `fab` belongs to.
    pub fn tors_of_fabric(&self, fab: NodeId) -> (r: Vec<NodeId>)
        requires
            self.wf(),
            self.is_fabric(fab as int),
        ensures
            r@ == spec_range(
                self.spec_pod_tor_base(self.spec_pod_of(fab as int)),
                self.nr_tors_per_pod as int,
            ),
            forall|i: int| 0 <= i < r@.len() ==> self.is_tor(#[trigger] r@[i] as int),
    {
        let pod = self.pod_of_node(fab);
        proof {
            self.lemma_pod_tor_range(pod as int);
        }
        let start = pod * self.nr_tors_per_pod + self.tor_base;
        range_vec(start, self.nr_tors_per_pod)
    }

    /// All spine switches of the plane that fabric switch `fab` serves,
    /// the equal-cost fan-out of an upward hop.
    pub fn spines_of_fabric(&self, fab: NodeId) -> (r: Vec<NodeId>)
        requires
            self.wf(),
            self.is_fabric(fab as int),
        ensures
            r@ == spec_range(
                self.spec_plane_spine_base(self.spec_plane_of(fab as int)),
                self.nr_spines_per_plane as int,
            ),
            forall|i: int| 0 <= i < r@.len() ==> self.is_spine(#[trigger] r@[i] as int),
    {
        let plane = self.plane_of_node(fab);
        proof {
            self.lemma_plane_spine_range(plane as int);
        }
        let start = self.spine_base + plane * self.nr_spines_per_plane;
        range_vec(start, self.nr_spines_per_plane)
    }

    /// Whether spine `spine` is cabled to fabric switch `fab`: exactly when
    /// the two serve the same plane.
    pub fn is_fabric_spine(&self, fab: NodeId, spine: NodeId) -> (r: bool)
        requires
            self.wf(),
            self.is_fabric(fab as int),
            self.is_spine(spine as int),
        ensures
            r == (self.spec_plane_of(spine as int) == self.spec_plane_of(fab as int)),
    {
        let plane = self.plane_of_node(fab);
        proof {
            self.lemma_plane_spine_range(plane as int);
            self.lemma_spine_plane_interval(spine as int, plane as int);
        }
        let start = self.spine_base + plane * self.nr_spines_per_plane;
        spine >= start && spine < start + self.nr_spines_per_plane
    }

    /// One fabric switch per pod: those reachable from `spine`, all serving
    /// the spine's plane.
    pub fn fabrics_of_spine(&self, spine: NodeId) -> (r: Vec<NodeId>)
        requires
            self.wf(),
            self.is_spine(spine as int),
        ensures
            r@ == spec_strided(
                self.fabric_base + self.spec_plane_of(spine as int),
                self.nr_fabs_per_pod as int,
                self.nr_pods as int,
            ),
            forall|i: int| 0 <= i < r@.len() ==> self.is_fabric(#[trigger] r@[i] as int),
    {
        let plane = self.plane_of_node(spine);
        proof {
            self.lemma_strided_fabrics(plane as int);
        }
        strided_vec(self.fabric_base + plane, self.nr_fabs_per_pod, self.nr_pods)
    }

    /// The one fabric switch in pod `pod` that `spine`'s plane serves.
    pub fn fabric_of_spine_in_pod(&self, spine: NodeId, pod: usize) -> (r: NodeId)
        requires
            self.wf(),
            self.is_spine(spine as int),
            pod < self.nr_pods,
        ensures
            r == self.spec_pod_fabric_base(pod as int) + self.spec_plane_of(spine as int),
            self.is_fabric(r as int),
            self.spec_plane_of(r as int) == self.spec_plane_of(spine as int),
            self.spec_pod_of(r as int) == pod,
    {
        let plane = self.plane_of_node(spine);
        proof {
            self.lemma_pod_fabric_range(pod as int);
            self.lemma_fabric_coords(pod as int, plane as int);
        }
        self.fabric_base + pod * self.nr_fabs_per_pod + plane
    }

    /// Whether host `host` sits in pod `pod`.
    pub fn host_in_pod(&self, pod: usize, host: NodeId) -> (r: bool)
        requires
            self.wf(),
            self.is_host(host as int),
            pod < self.nr_pods,
        ensures
            r == (self.spec_pod_of(host as int) == pod),
    {
        proof {
            self.lemma_host_pod_interval(host as int, pod as int);
            assert(self.nr_hosts_per_rack * self.nr_tors_per_pod <= self.nr_pods
                * self.nr_tors_per_pod * self.nr_hosts_per_rack && (pod as int) * (
            self.nr_hosts_per_rack * self.nr_tors_per_pod) + self.nr_hosts_per_rack
                * self.nr_tors_per_pod <= self.nr_pods * self.nr_tors_per_pod
                * self.nr_hosts_per_rack) by (nonlinear_arith)
                requires
                    self.nr_pods >= 1,
                    self.nr_tors_per_pod >= 1,
                    self.nr_hosts_per_rack >= 1,
                    0 <= (pod as int) < self.nr_pods,
            ;
        }
        let span = self.nr_hosts_per_rack * self.nr_tors_per_pod;
        let start = pod * span;
        host >= start && host < start + span
    }

    /// Whether ToR `tor` sits in pod `pod`.
    pub fn tor_in_pod(&self, pod: usize, tor: NodeId) -> (r: bool)
        requires
            self.wf(),
            self.is_tor(tor as int),
            pod < self.nr_pods,
        ensures
            r == (self.spec_pod_of(tor as int) == pod),
    {
        proof {
            self.lemma_pod_tor_range(pod as int);
            self.lemma_tor_pod_interval(tor as int, pod as int);
        }
        let start = self.tor_base + pod * self.nr_tors_per_pod;
        tor >= start && tor < start + self.nr_tors_per_pod
    }
}

// Bounds lemmas tying pod and plane coordinates back to tier intervals.
impl FabricRoutes {
    /// Pod `pod`'s fabric identities fill `[pod_fabric_base, +nr_fabs_per_pod)`,
    /// inside the fabric tier.
    proof fn lemma_pod_fabric_range(self, pod: int)
        requires
            self.wf(),
            0 <= pod < self.nr_pods,
        ensures
            self.fabric_base <= self.spec_pod_fabric_base(pod),
            self.spec_pod_fabric_base(pod) + self.nr_fabs_per_pod <= self.spine_base,
    {
        let p = self.nr_pods as int;
        let f = self.nr_fabs_per_pod as int;
        assert(0 <= pod * f && pod * f + f <= p * f) by (nonlinear_arith)
            requires 0 <= pod < p && f >= 1;
    }

    proof fn lemma_pod_tor_range(self, pod: int)
        requires
            self.wf(),
            0 <= pod < self.nr_pods,
        ensures
            self.tor_base <= self.spec_pod_tor_base(pod),
            self.spec_pod_tor_base(pod) + self.nr_tors_per_pod <= self.fabric_base,
    {
        let p = self.nr_pods as int;
        let t = self.nr_tors_per_pod as int;
        assert(0 <= pod * t && pod * t + t <= p * t) by (nonlinear_arith)
            requires 0 <= pod < p && t >= 1;
    }

    proof fn lemma_plane_spine_range(self, plane: int)
        requires
            self.wf(),
            0 <= plane < self.nr_fabs_per_pod,
        ensures
            self.spine_base <= self.spec_plane_spine_base(plane),
            self.spec_plane_spine_base(plane) + self.nr_spines_per_plane <= self.nr_nodes,
    {
        let f = self.nr_fabs_per_pod as int;
        let s = self.nr_spines_per_plane as int;
        assert(0 <= plane * s && plane * s + s <= f * s) by (nonlinear_arith)
            requires 0 <= plane < f && s >= 1;
    }

    /// The fabric identity with coordinates (pod, plane) has those very
    /// coordinates when read back.
    proof fn lemma_fabric_coords(self, pod: int, plane: int)
        requires
            self.wf(),
            0 <= pod < self.nr_pods,
            0 <= plane < self.nr_fabs_per_pod,
        ensures
            self.is_fabric(self.spec_pod_fabric_base(pod) + plane),
            self.spec_pod_of(self.spec_pod_fabric_base(pod) + plane) == pod,
            self.spec_plane_of(self.spec_pod_fabric_base(pod) + plane) == plane,
    {
        let f = self.nr_fabs_per_pod as int;
        self.lemma_pod_fabric_range(pod);
        let off = pod * f + plane;
        assert(pod * f <= off && off < (pod + 1) * f) by (nonlinear_arith)
            requires off == pod * f + plane && 0 <= plane < f;
        lemma_div_in_interval(off, f, pod);
        assert(off % f == plane) by {
            lemma_fundamental_div_mod(off, f);
            assert(off % f == off - f * (off / f)) by (nonlinear_arith)
                requires off == f * (off / f) + off % f;
            assert(off - f * pod == plane) by (nonlinear_arith)
                requires off == pod * f + plane;
        }
    }

    /// Membership of `spine` in plane `plane`'s spine block is the same as
    /// `spine` having plane coordinate `plane`.
    proof fn lemma_spine_plane_interval(self, spine: int, plane: int)
        requires
            self.wf(),
            self.is_spine(spine),
            0 <= plane < self.nr_fabs_per_pod,
        ensures
            (self.spec_plane_spine_base(plane) <= spine < self.spec_plane_spine_base(plane)
                + self.nr_spines_per_plane) == (self.spec_plane_of(spine) == plane),
    {
        let s = self.nr_spines_per_plane as int;
        let off = spine - self.spine_base;
        assert((plane + 1) * s == plane * s + s) by (nonlinear_arith);
        if self.spec_plane_spine_base(plane) <= spine < self.spec_plane_spine_base(plane) + s {
            lemma_div_in_interval(off, s, plane);
        } else {
            lemma_div_bounds(off, s);
            if off / s == plane {
                assert((off / s) * s == plane * s);
                assert(false);
            }
        }
    }

    proof fn lemma_host_pod_interval(self, host: int, pod: int)
        requires
            self.wf(),
            self.is_host(host),
            0 <= pod < self.nr_pods,
        ensures
            (pod * (self.nr_hosts_per_rack * self.nr_tors_per_pod) <= host < pod * (
            self.nr_hosts_per_rack * self.nr_tors_per_pod) + self.nr_hosts_per_rack
                * self.nr_tors_per_pod) == (self.spec_pod_of(host) == pod),
            pod * (self.nr_hosts_per_rack * self.nr_tors_per_pod) + self.nr_hosts_per_rack
                * self.nr_tors_per_pod <= self.tor_base,
            0 <= pod * (self.nr_hosts_per_rack * self.nr_tors_per_pod),
    {
        let p = self.nr_pods as int;
        let t = self.nr_tors_per_pod as int;
        let h = self.nr_hosts_per_rack as int;
        let span = h * t;
        assert(span > 0 && (pod + 1) * span == pod * span + span && 0 <= pod * span && pod * span
            + span <= p * span && p * span == p * t * h) by (nonlinear_arith)
            requires span == h * t && h >= 1 && t >= 1 && 0 <= pod && pod < p;
        if pod * span <= host < (pod + 1) * span {
            lemma_div_in_interval(host, span, pod);
        } else {
            lemma_div_bounds(host, span);
            if host / span == pod {
                assert((host / span) * span == pod * span);
                assert((host / span + 1) * span == (pod + 1) * span);
                assert(false);
            }
        }
    }

    proof fn lemma_tor_pod_interval(self, tor: int, pod: int)
        requires
            self.wf(),
            self.is_tor(tor),
            0 <= pod < self.nr_pods,
        ensures
            (self.spec_pod_tor_base(pod) <= tor < self.spec_pod_tor_base(pod)
                + self.nr_tors_per_pod) == (self.spec_pod_of(tor) == pod),
    {
        let t = self.nr_tors_per_pod as int;
        let off = tor - self.tor_base;
        self.lemma_pod_tor_range(pod);
        assert((pod + 1) * t == pod * t + t) by (nonlinear_arith);
        if self.spec_pod_tor_base(pod) <= tor < self.spec_pod_tor_base(pod) + t {
            lemma_div_in_interval(off, t, pod);
        } else {
            lemma_div_bounds(off, t);
            if off / t == pod {
                assert((off / t) * t == pod * t);
                assert(false);
            }
        }
    }

    proof fn lemma_strided_fabrics(self, plane: int)
        requires
            self.wf(),
            0 <= plane < self.nr_fabs_per_pod,
        ensures
            forall|k: int|
                0 <= k < self.nr_pods ==> 0 <= #[trigger] (k * self.nr_fabs_per_pod) && plane + k
                    * self.nr_fabs_per_pod < self.nr_pods * self.nr_fabs_per_pod,
    {
        let p = self.nr_pods as int;
        let f = self.nr_fabs_per_pod as int;
        assert forall|k: int| 0 <= k < p implies 0 <= #[trigger] (k * f) && plane + k * f < p
            * f by {
            assert(0 <= k * f && plane + k * f < p * f) by (nonlinear_arith)
                requires 0 <= k && k < p && 0 <= plane && plane < f;
        }
    }
}

proof fn lemma_range_props(start: int, len: int)
    requires
        0 <= start,
        0 <= len,
        start + len <= usize::MAX,
    ensures
        forall|i: int| 0 <= i < len ==> #[trigger] spec_range(start, len)[i] == start + i,
        spec_range(start, len).no_duplicates(),
{
    assert forall|i: int| 0 <= i < len implies #[trigger] spec_range(start, len)[i] == start
        + i by {
        assert(0 <= start + i <= usize::MAX);
    }
}

proof fn lemma_strided_props(start: int, step: int, count: int)
    requires
        0 <= start,
        1 <= step,
        0 <= count,
        count >= 1 ==> start + (count - 1) * step <= usize::MAX,
    ensures
        forall|i: int| 0 <= i < count ==> #[trigger] spec_strided(start, step, count)[i] == start
            + i * step,
        spec_strided(start, step, count).no_duplicates(),
{
    assert forall|i: int| 0 <= i < count implies #[trigger] spec_strided(start, step, count)[i]
        == start + i * step by {
        lemma_mul_inequality(i, count - 1, step);
        assert(0 <= i * step) by (nonlinear_arith)
            requires 0 <= i && 0 <= step;
    }
    assert forall|i: int, j: int|
        0 <= i < count && 0 <= j < count && i != j implies spec_strided(start, step, count)[i]
        != spec_strided(start, step, count)[j] by {
        assert(i * step != j * step) by (nonlinear_arith)
            requires i != j && step >= 1;
    }
}

/// The identities `start, start + 1, ..., start + len - 1`.
fn range_vec(start: usize, len: usize) -> (r: Vec<NodeId>)
    requires
        start + len <= usize::MAX,
    ensures
        r@ == spec_range(start as int, len as int),
{
    let mut out: Vec<NodeId> = Vec::new();
    let mut i: usize = 0;
    while i < len
        invariant
            i <= len,
            start + len <= usize::MAX,
            out@ == spec_range(start as int, i as int),
        decreases len - i,
    {
        out.push(start + i);
        proof {
            assert(out@ =~= spec_range(start as int, i + 1));
        }
        i = i + 1;
    }
    out
}

/// The identities `start, start + step, ...`, `count` of them.
fn strided_vec(start: usize, step: usize, count: usize) -> (r: Vec<NodeId>)
    requires
        count >= 1 ==> start + (count - 1) * step <= usize::MAX,
    ensures
        r@ == spec_strided(start as int, step as int, count as int),
{
    let mut out: Vec<NodeId> = Vec::new();
    let mut i: usize = 0;
    while i < count
        invariant
            i <= count,
            count >= 1 ==> start + (count - 1) * step <= usize::MAX,
            out@ == spec_strided(start as int, step as int, i as int),
        decreases count - i,
    {
        proof {
            lemma_mul_inequality(i as int, count - 1, step as int);
        }
        out.push(start + i * step);
        proof {
            assert(out@ =~= spec_strided(start as int, step as int, i + 1));
        }
        i = i + 1;
    }
    out
}

impl FabricRoutes {
    /// The transition table of §the routing design, as a function: the hop
    /// set offered at `from` toward `to`. `from`'s tier governs; traffic
    /// ascends until a plane-and-pod match, then strictly descends, and once
    /// a plane is entered at a ToR the route stays in it until the landing
    /// fabric switch of the destination pod.
    pub open spec fn spec_next_hops(self, from: int, to: int) -> Seq<NodeId> {
        if from == to {
            Seq::empty()
        } else if self.is_host(from) {
            // A host's only cable goes to its ToR.
            seq![self.spec_tor_of_host(from) as usize]
        } else if self.is_tor(from) {
            if self.is_host(to) && self.spec_tor_of_host(to) == from {
                // A host in this rack: deliver directly.
                seq![to as usize]
            } else if self.is_fabric(to) || self.is_spine(to) {
                // Reach a switch through the one pod fabric of its plane.
                seq![(self.spec_pod_fabric_base(self.spec_pod_of(from)) + self.spec_plane_of(
                    to,
                )) as usize]
            } else {
                // Another rack or pod: all pod fabrics are equal cost.
                spec_range(
                    self.spec_pod_fabric_base(self.spec_pod_of(from)),
                    self.nr_fabs_per_pod as int,
                )
            }
        } else if self.is_fabric(from) {
            if self.is_tor(to) && self.spec_pod_of(to) == self.spec_pod_of(from) {
                seq![to as usize]
            } else if self.is_host(to) && self.spec_pod_of(to) == self.spec_pod_of(from) {
                seq![self.spec_tor_of_host(to) as usize]
            } else if self.is_fabric(to) && self.spec_plane_of(to) != self.spec_plane_of(from)
                && self.spec_pod_of(to) != self.spec_pod_of(from) {
                // Another plane and another pod: descend to any pod ToR or
                // ascend to any spine of this plane.
                spec_range(
                    self.spec_pod_tor_base(self.spec_pod_of(from)),
                    self.nr_tors_per_pod as int,
                ) + spec_range(
                    self.spec_plane_spine_base(self.spec_plane_of(from)),
                    self.nr_spines_per_plane as int,
                )
            } else if (self.is_fabric(to) || self.is_spine(to)) && self.spec_plane_of(to)
                != self.spec_plane_of(from) {
                // Another plane only: re-descend to the pod's ToRs.
                spec_range(
                    self.spec_pod_tor_base(self.spec_pod_of(from)),
                    self.nr_tors_per_pod as int,
                )
            } else if self.is_spine(to) && self.spec_plane_of(to) == self.spec_plane_of(from) {
                // A spine of this plane is cabled directly.
                seq![to as usize]
            } else {
                // Another pod: all spines of this plane are equal cost.
                spec_range(
                    self.spec_plane_spine_base(self.spec_plane_of(from)),
                    self.nr_spines_per_plane as int,
                )
            }
        } else {
            if self.is_fabric(to) && self.spec_plane_of(to) == self.spec_plane_of(from) {
                seq![to as usize]
            } else if self.is_spine(to) {
                // Cross-plane transit: one fabric switch per pod.
                spec_strided(
                    self.fabric_base + self.spec_plane_of(from),
                    self.nr_fabs_per_pod as int,
                    self.nr_pods as int,
                )
            } else {
                // Descend into the destination pod, staying in this plane.
                seq![(self.spec_pod_fabric_base(self.spec_pod_of(to)) + self.spec_plane_of(
                    from,
                )) as usize]
            }
        }
    }

    /// The next-hop set is a set indeed: no hop is listed twice, and the
    /// node itself is never among its own next hops — every hop sits in a
    /// different tier than `from`.
    pub proof fn lemma_next_hops_distinct(self, from: int, to: int)
        requires
            self.wf(),
            0 <= from < self.nr_nodes,
            0 <= to < self.nr_nodes,
        ensures
            self.spec_next_hops(from, to).no_duplicates(),
            forall|i: int|
                0 <= i < self.spec_next_hops(from, to).len() ==> #[trigger] self.spec_next_hops(
                    from,
                    to,
                )[i] != from,
    {
        let hops = self.spec_next_hops(from, to);
        let f = self.nr_fabs_per_pod as int;
        let t = self.nr_tors_per_pod as int;
        let sp = self.nr_spines_per_plane as int;
        let p = self.nr_pods as int;
        if from == to {
        } else if self.is_host(from) {
            self.lemma_tor_of_host_in_range(from);
        } else if self.is_tor(from) {
            if self.is_host(to) && self.spec_tor_of_host(to) == from {
            } else if self.is_fabric(to) || self.is_spine(to) {
                self.lemma_plane_of_in_range(to);
                self.lemma_pod_of_in_range(from);
                self.lemma_fabric_coords(self.spec_pod_of(from), self.spec_plane_of(to));
            } else {
                self.lemma_pod_of_in_range(from);
                self.lemma_pod_fabric_range(self.spec_pod_of(from));
                lemma_range_props(self.spec_pod_fabric_base(self.spec_pod_of(from)), f);
            }
        } else if self.is_fabric(from) {
            self.lemma_pod_of_in_range(from);
            self.lemma_plane_of_in_range(from);
            let pod = self.spec_pod_of(from);
            let plane = self.spec_plane_of(from);
            if self.is_tor(to) && self.spec_pod_of(to) == pod {
            } else if self.is_host(to) && self.spec_pod_of(to) == pod {
                self.lemma_tor_of_host_in_range(to);
            } else if self.is_fabric(to) && self.spec_plane_of(to) != plane && self.spec_pod_of(
                to,
            ) != pod {
                self.lemma_pod_tor_range(pod);
                self.lemma_plane_spine_range(plane);
                lemma_range_props(self.spec_pod_tor_base(pod), t);
                lemma_range_props(self.spec_plane_spine_base(plane), sp);
                let tors = spec_range(self.spec_pod_tor_base(pod), t);
                let spines = spec_range(self.spec_plane_spine_base(plane), sp);
                assert forall|i: int, j: int|
                    0 <= i < hops.len() && 0 <= j < hops.len() && i != j implies hops[i]
                    != hops[j] by {
                    assert(i < t ==> hops[i] == tors[i]);
                    assert(i >= t ==> hops[i] == spines[i - t]);
                    assert(j < t ==> hops[j] == tors[j]);
                    assert(j >= t ==> hops[j] == spines[j - t]);
                }
                assert(hops.no_duplicates());
                assert forall|i: int| 0 <= i < hops.len() implies #[trigger] hops[i] != from by {
                    assert(i < t ==> hops[i] == tors[i]);
                    assert(i >= t ==> hops[i] == spines[i - t]);
                }
            } else if (self.is_fabric(to) || self.is_spine(to)) && self.spec_plane_of(to)
                != plane {
                self.lemma_pod_tor_range(pod);
                lemma_range_props(self.spec_pod_tor_base(pod), t);
            } else if self.is_spine(to) && self.spec_plane_of(to) == plane {
            } else {
                self.lemma_plane_spine_range(plane);
                lemma_range_props(self.spec_plane_spine_base(plane), sp);
            }
        } else {
            self.lemma_plane_of_in_range(from);
            let plane = self.spec_plane_of(from);
            if self.is_fabric(to) && self.spec_plane_of(to) == plane {
            } else if self.is_spine(to) {
                self.lemma_strided_fabrics(plane);
                lemma_strided_props(self.fabric_base + plane, f, p);
                assert forall|i: int| 0 <= i < hops.len() implies #[trigger] hops[i] != from by {
                    assert(hops[i] == self.fabric_base + plane + i * f);
                }
            } else {
                self.lemma_pod_of_in_range(to);
                self.lemma_fabric_coords(self.spec_pod_of(to), plane);
            }
        }
    }

    /// The next-hop set from `from` toward `to`: `None` when either identity
    /// is out of range, the empty set when `from == to` (already there), and
    /// otherwise the non-empty set given by the transition table, every hop
    /// a valid identity.
    pub fn next_hops(&self, from: NodeId, to: NodeId) -> (r: Option<Vec<NodeId>>)
        requires
            self.wf(),
        ensures
            (r is Some) == (from < self.nr_nodes && to < self.nr_nodes),
            r matches Some(v) ==> v@ == self.spec_next_hops(from as int, to as int),
            r matches Some(v) ==> (from != to ==> v@.len() >= 1),
            r matches Some(v) ==> forall|i: int|
                0 <= i < v@.len() ==> (#[trigger] v@[i]) < self.nr_nodes,
            r matches Some(v) ==> v@.no_duplicates(),
            r matches Some(v) ==> forall|i: int| 0 <= i < v@.len() ==> (#[trigger] v@[i]) != from,
    {
        if from >= self.nr_nodes || to >= self.nr_nodes {
            return None;
        }
        if from == to {
            let v: Vec<NodeId> = Vec::new();
            proof {
                assert(v@ =~= self.spec_next_hops(from as int, to as int));
            }
            return Some(v);
        }
        let ghost goal = self.spec_next_hops(from as int, to as int);
        let hops: Vec<NodeId>;
        if from < self.tor_base {
            let mut v: Vec<NodeId> = Vec::new();
            v.push(self.tor_of_host(from));
            proof {
                assert(v@ =~= goal);
            }
            hops = v;
        } else if from < self.fabric_base {
            if to < self.tor_base && self.tor_of_host(to) == from {
                let mut v: Vec<NodeId> = Vec::new();
                v.push(to);
                proof {
                    assert(v@ =~= goal);
                }
                hops = v;
            } else if to >= self.fabric_base {
                let target_plane = self.plane_of_node(to);
                let mut v: Vec<NodeId> = Vec::new();
                v.push(self.fabric_of_tor_in_plane(from, target_plane));
                proof {
                    assert(v@ =~= goal);
                }
                hops = v;
            } else {
                let v = self.fabrics_of_tor(from);
                proof {
                    assert(v@ =~= goal);
                }
                hops = v;
            }
        } else if from < self.spine_base {
            let my_pod = self.pod_of_node(from);
            let my_plane = self.plane_of_node(from);
            if to >= self.tor_base && to < self.fabric_base && self.tor_in_pod(my_pod, to) {
                let mut v: Vec<NodeId> = Vec::new();
                v.push(to);
                proof {
                    assert(v@ =~= goal);
                }
                hops = v;
            } else if to < self.tor_base && self.host_in_pod(my_pod, to) {
                let mut v: Vec<NodeId> = Vec::new();
                v.push(self.tor_of_host(to));
                proof {
                    assert(v@ =~= goal);
                }
                hops = v;
            } else if to >= self.fabric_base && to < self.spine_base && self.plane_of_node(to)
                != my_plane && self.pod_of_node(to) != my_pod {
                let mut v = self.tors_of_fabric(from);
                let spines = self.spines_of_fabric(from);
                append_ids(&mut v, &spines);
                proof {
                    assert(v@ =~= goal);
                }
                hops = v;
            } else if to >= self.fabric_base && self.plane_of_node(to) != my_plane {
                let v = self.tors_of_fabric(from);
                proof {
                    assert(v@ =~= goal);
                }
                hops = v;
            } else if to >= self.spine_base && self.is_fabric_spine(from, to) {
                let mut v: Vec<NodeId> = Vec::new();
                v.push(to);
                proof {
                    assert(v@ =~= goal);
                }
                hops = v;
            } else {
                let v = self.spines_of_fabric(from);
                proof {
                    assert(v@ =~= goal);
                }
                hops = v;
            }
        } else {
            if to >= self.fabric_base && to < self.spine_base && self.is_fabric_spine(to, from) {
                let mut v: Vec<NodeId> = Vec::new();
                v.push(to);
                proof {
                    assert(v@ =~= goal);
                }
                hops = v;
            } else if to >= self.spine_base {
                let v = self.fabrics_of_spine(from);
                proof {
                    assert(v@ =~= goal);
                }
                hops = v;
            } else {
                let target_pod = self.pod_of_node(to);
                let mut v: Vec<NodeId> = Vec::new();
                v.push(self.fabric_of_spine_in_pod(from, target_pod));
                proof {
                    assert(v@ =~= goal);
                }
                hops = v;
            }
        }
        proof {
            assert(hops@ == goal);
            self.lemma_next_hops_distinct(from as int, to as int);
        }
        Some(hops)
    }
}

/// Appends a copy of every identity in `src` to `acc`, in order.
fn append_ids(acc: &mut Vec<NodeId>, src: &Vec<NodeId>)
    ensures
        final(acc)@ == old(acc)@ + src@,
{
    let mut i: usize = 0;
    while i < src.len()
        invariant
            i <= src@.len(),
            acc@ == old(acc)@ + src@.take(i as int),
        decreases src@.len() - i,
    {
        acc.push(src[i]);
        proof {
            assert(acc@ =~= old(acc)@ + src@.take(i + 1));
        }
        i = i + 1;
    }
    proof {
        assert(acc@ =~= old(acc)@ + src@);
    }
}


} // verus!
