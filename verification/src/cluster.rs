//! In-memory description of a multi-plane, multi-pod Clos fabric: planes of
//! spine switches, pods of fabric switches and racks, and the links that
//! connect them. `contiguousify` renumbers all nodes into the canonical
//! tier-contiguous order that the routing arithmetic depends on.

use vstd::prelude::*;

verus! {

use crate::NodeId;

/// Number of rack slots a pod offers; a traffic trace naming more distinct
/// racks in one pod than this cannot be placed.
pub const NR_RACKS_PER_POD: usize = 48;

#[derive(Clone, Copy, Debug, PartialEq, Eq, Structural)]
pub enum NodeKind {
    Host,
    Switch,
}

/// A fabric node: a numeric identity plus whether it is a host or a switch.
#[derive(Clone, Copy, Debug, PartialEq, Eq, Structural)]
pub struct Node {
    pub id: NodeId,
    pub kind: NodeKind,
}

/// An unordered pair of node identities with the cable's bandwidth
/// (bits per second) and propagation delay (nanoseconds).
#[derive(Clone, Copy, Debug, PartialEq, Eq, Structural)]
pub struct Link {
    pub a: NodeId,
    pub b: NodeId,
    pub bandwidth: u64,
    pub delay: u64,
}

/// One top-of-rack switch, the hosts below it, and the host-to-ToR links.
#[verifier::ext_equal]
#[derive(Clone, Debug)]
pub struct Rack {
    pub tor: Node,
    pub hosts: Vec<Node>,
    pub host2tor: Vec<Link>,
}

/// A group of racks plus the pod-local fabric switches that aggregate them.
#[verifier::ext_equal]
#[derive(Clone, Debug)]
pub struct Pod {
    pub fabs: Vec<Node>,
    pub racks: Vec<Rack>,
    pub tor2fab: Vec<Link>,
}

/// A partition of the spine tier: each fabric switch connects to exactly one
/// spine per plane.
pub type Plane = Vec<Node>;

/// The whole fabric: planes of spines, pods, and the fabric-to-spine links.
#[verifier::ext_equal]
#[derive(Clone, Debug)]
pub struct Cluster {
    pub planes: Vec<Plane>,
    pub pods: Vec<Pod>,
    pub fab2spine: Vec<Link>,
}

/// The sequence of nodes held by one rack: the ToR first, then its hosts.
pub open spec fn rack_nodes_fn() -> spec_fn(Rack) -> Seq<Node> {
    |r: Rack| r.spec_nodes()
}

pub open spec fn rack_links_fn() -> spec_fn(Rack) -> Seq<Link> {
    |r: Rack| r.spec_links()
}

pub open spec fn pod_nodes_fn() -> spec_fn(Pod) -> Seq<Node> {
    |p: Pod| p.spec_nodes()
}

pub open spec fn pod_links_fn() -> spec_fn(Pod) -> Seq<Link> {
    |p: Pod| p.spec_links()
}

pub open spec fn plane_nodes_fn() -> spec_fn(Plane) -> Seq<Node> {
    |p: Plane| p@
}

impl Rack {
    /// The rack's nodes in listing order: the ToR switch, then the hosts.
    pub open spec fn spec_nodes(self) -> Seq<Node> {
        seq![self.tor] + self.hosts@
    }

    pub open spec fn spec_links(self) -> Seq<Link> {
        self.host2tor@
    }

    pub fn nodes(&self) -> (r: Vec<Node>)
        ensures
            r@ == self.spec_nodes(),
    {
        let mut out: Vec<Node> = Vec::new();
        out.push(self.tor);
        push_all_nodes(&mut out, &self.hosts);
        proof {
            assert(out@ =~= self.spec_nodes());
        }
        out
    }

    pub fn links(&self) -> (r: Vec<Link>)
        ensures
            r@ == self.spec_links(),
    {
        let mut out: Vec<Link> = Vec::new();
        push_all_links(&mut out, &self.host2tor);
        proof {
            assert(out@ =~= self.spec_links());
        }
        out
    }
}

impl Pod {
    /// The pod's nodes in listing order: fabric switches, then each rack's
    /// ToR and hosts.
    pub open spec fn spec_nodes(self) -> Seq<Node> {
        self.fabs@ + self.racks@.flat_map(rack_nodes_fn())
    }

    pub open spec fn spec_links(self) -> Seq<Link> {
        self.tor2fab@ + self.racks@.flat_map(rack_links_fn())
    }

    pub open spec fn spec_nr_hosts_per_rack(self) -> int {
        if self.racks@.len() == 0 {
            0
        } else {
            self.racks@[0].hosts@.len() as int
        }
    }

    pub open spec fn spec_tor_base(self) -> int {
        if self.racks@.len() == 0 {
            0
        } else {
            self.racks@[0].tor.id as int
        }
    }

    pub open spec fn spec_fabric_base(self) -> int {
        if self.fabs@.len() == 0 {
            0
        } else {
            self.fabs@[0].id as int
        }
    }

    /// Host count of the pod's first rack; every rack is expected to match it.
    pub fn nr_hosts_per_rack(&self) -> (r: usize)
        ensures
            r == self.spec_nr_hosts_per_rack(),
    {
        if self.racks.len() == 0 {
            0
        } else {
            self.racks[0].hosts.len()
        }
    }

    /// Identity of the pod's first ToR switch.
    pub fn tor_base(&self) -> (r: usize)
        ensures
            r == self.spec_tor_base(),
    {
        if self.racks.len() == 0 {
            0
        } else {
            self.racks[0].tor.id
        }
    }

    /// Identity of the pod's first fabric switch.
    pub fn fabric_base(&self) -> (r: usize)
        ensures
            r == self.spec_fabric_base(),
    {
        if self.fabs.len() == 0 {
            0
        } else {
            self.fabs[0].id
        }
    }

    pub fn nodes(&self) -> (r: Vec<Node>)
        ensures
            r@ == self.spec_nodes(),
    {
        let mut out: Vec<Node> = Vec::new();
        push_all_nodes(&mut out, &self.fabs);
        let mut i: usize = 0;
        while i < self.racks.len()
            invariant
                i <= self.racks@.len(),
                out@ == self.fabs@ + self.racks@.take(i as int).flat_map(rack_nodes_fn()),
            decreases self.racks@.len() - i,
        {
            proof {
                self.racks@.lemma_flat_map_take_append(rack_nodes_fn(), i as int);
            }
            out.push(self.racks[i].tor);
            push_all_nodes(&mut out, &self.racks[i].hosts);
            proof {
                assert(out@ =~= self.fabs@ + self.racks@.take(i + 1).flat_map(
                    rack_nodes_fn(),
                ));
            }
            i = i + 1;
        }
        proof {
            assert(self.racks@.take(self.racks@.len() as int) =~= self.racks@);
        }
        out
    }

    pub fn links(&self) -> (r: Vec<Link>)
        ensures
            r@ == self.spec_links(),
    {
        let mut out: Vec<Link> = Vec::new();
        push_all_links(&mut out, &self.tor2fab);
        let mut i: usize = 0;
        while i < self.racks.len()
            invariant
                i <= self.racks@.len(),
                out@ == self.tor2fab@ + self.racks@.take(i as int).flat_map(rack_links_fn()),
            decreases self.racks@.len() - i,
        {
            proof {
                self.racks@.lemma_flat_map_take_append(rack_links_fn(), i as int);
            }
            push_all_links(&mut out, &self.racks[i].host2tor);
            proof {
                assert(out@ =~= self.tor2fab@ + self.racks@.take(i + 1).flat_map(
                    rack_links_fn(),
                ));
            }
            i = i + 1;
        }
        proof {
            assert(self.racks@.take(self.racks@.len() as int) =~= self.racks@);
        }
        out
    }
}

impl Cluster {
    /// All spine nodes, plane by plane.
    pub open spec fn spec_spines(self) -> Seq<Node> {
        self.planes@.flat_map(plane_nodes_fn())
    }

    /// The cluster's nodes in listing order: spines first, then each pod's
    /// fabric switches, ToRs, and hosts.
    pub open spec fn spec_nodes(self) -> Seq<Node> {
        self.spec_spines() + self.pods@.flat_map(pod_nodes_fn())
    }

    pub open spec fn spec_links(self) -> Seq<Link> {
        self.fab2spine@ + self.pods@.flat_map(pod_links_fn())
    }

    pub open spec fn spec_nr_pods(self) -> int {
        self.pods@.len() as int
    }

    pub open spec fn spec_nr_tors_per_pod(self) -> int {
        if self.pods@.len() == 0 {
            0
        } else {
            self.pods@[0].racks@.len() as int
        }
    }

    pub open spec fn spec_nr_fabs_per_pod(self) -> int {
        if self.pods@.len() == 0 {
            0
        } else {
            self.pods@[0].fabs@.len() as int
        }
    }

    pub open spec fn spec_nr_spines_per_plane(self) -> int {
        if self.planes@.len() == 0 {
            0
        } else {
            self.planes@[0]@.len() as int
        }
    }

    pub open spec fn spec_nr_hosts_per_rack(self) -> int {
        if self.pods@.len() == 0 {
            0
        } else {
            self.pods@[0].spec_nr_hosts_per_rack()
        }
    }

    pub open spec fn spec_tor_base(self) -> int {
        if self.pods@.len() == 0 {
            0
        } else {
            self.pods@[0].spec_tor_base()
        }
    }

    pub open spec fn spec_fabric_base(self) -> int {
        if self.pods@.len() == 0 {
            0
        } else {
            self.pods@[0].spec_fabric_base()
        }
    }

    pub open spec fn spec_spine_base(self) -> int {
        if self.planes@.len() == 0 {
            0
        } else if self.planes@[0]@.len() == 0 {
            0
        } else {
            self.planes@[0]@[0].id as int
        }
    }

    pub fn nr_pods(&self) -> (r: usize)
        ensures
            r == self.spec_nr_pods(),
    {
        self.pods.len()
    }

    pub fn nr_tors_per_pod(&self) -> (r: usize)
        ensures
            r == self.spec_nr_tors_per_pod(),
    {
        if self.pods.len() == 0 {
            0
        } else {
            self.pods[0].racks.len()
        }
    }

    pub fn nr_fabs_per_pod(&self) -> (r: usize)
        ensures
            r == self.spec_nr_fabs_per_pod(),
    {
        if self.pods.len() == 0 {
            0
        } else {
            self.pods[0].fabs.len()
        }
    }

    pub fn nr_spines_per_plane(&self) -> (r: usize)
        ensures
            r == self.spec_nr_spines_per_plane(),
    {
        if self.planes.len() == 0 {
            0
        } else {
            self.planes[0].len()
        }
    }

    pub fn nr_hosts_per_rack(&self) -> (r: usize)
        ensures
            r == self.spec_nr_hosts_per_rack(),
    {
        if self.pods.len() == 0 {
            0
        } else {
            self.pods[0].nr_hosts_per_rack()
        }
    }

    /// First identity of the ToR tier in a canonically numbered cluster.
    pub fn tor_base(&self) -> (r: usize)
        ensures
            r == self.spec_tor_base(),
    {
        if self.pods.len() == 0 {
            0
        } else {
            self.pods[0].tor_base()
        }
    }

    /// First identity of the fabric tier in a canonically numbered cluster.
    pub fn fabric_base(&self) -> (r: usize)
        ensures
            r == self.spec_fabric_base(),
    {
        if self.pods.len() == 0 {
            0
        } else {
            self.pods[0].fabric_base()
        }
    }

    /// First identity of the spine tier in a canonically numbered cluster.
    pub fn spine_base(&self) -> (r: usize)
        ensures
            r == self.spec_spine_base(),
    {
        if self.planes.len() == 0 {
            0
        } else if self.planes[0].len() == 0 {
            0
        } else {
            self.planes[0][0].id
        }
    }

    pub fn nodes(&self) -> (r: Vec<Node>)
        ensures
            r@ == self.spec_nodes(),
    {
        let mut out: Vec<Node> = Vec::new();
        let mut i: usize = 0;
        while i < self.planes.len()
            invariant
                i <= self.planes@.len(),
                out@ == self.planes@.take(i as int).flat_map(plane_nodes_fn()),
            decreases self.planes@.len() - i,
        {
            proof {
                self.planes@.lemma_flat_map_take_append(plane_nodes_fn(), i as int);
            }
            push_all_nodes(&mut out, &self.planes[i]);
            i = i + 1;
        }
        proof {
            assert(self.planes@.take(self.planes@.len() as int) =~= self.planes@);
        }
        let mut j: usize = 0;
        while j < self.pods.len()
            invariant
                j <= self.pods@.len(),
                out@ == self.spec_spines() + self.pods@.take(j as int).flat_map(pod_nodes_fn()),
            decreases self.pods@.len() - j,
        {
            proof {
                self.pods@.lemma_flat_map_take_append(pod_nodes_fn(), j as int);
            }
            let pod_nodes = self.pods[j].nodes();
            push_all_nodes(&mut out, &pod_nodes);
            j = j + 1;
        }
        proof {
            assert(self.pods@.take(self.pods@.len() as int) =~= self.pods@);
        }
        out
    }

    pub fn links(&self) -> (r: Vec<Link>)
        ensures
            r@ == self.spec_links(),
    {
        let mut out: Vec<Link> = Vec::new();
        push_all_links(&mut out, &self.fab2spine);
        let mut j: usize = 0;
        while j < self.pods.len()
            invariant
                j <= self.pods@.len(),
                out@ == self.fab2spine@ + self.pods@.take(j as int).flat_map(pod_links_fn()),
            decreases self.pods@.len() - j,
        {
            proof {
                self.pods@.lemma_flat_map_take_append(pod_links_fn(), j as int);
            }
            let pod_links = self.pods[j].links();
            push_all_links(&mut out, &pod_links);
            j = j + 1;
        }
        proof {
            assert(self.pods@.take(self.pods@.len() as int) =~= self.pods@);
        }
        out
    }
}

impl Cluster {
    /// The counts and tier bases agree: pods, racks, hosts, fabric switches
    /// and spines are uniform, numbered tier-contiguously, and each tier
    /// starts where the previous one ends. This is the layout that the
    /// routing arithmetic depends on; `contiguousify` produces it for
    /// uniform clusters.
    pub open spec fn spec_shape_consistent(self) -> bool {
        &&& 1 <= self.spec_nr_pods()
        &&& 1 <= self.spec_nr_tors_per_pod()
        &&& 1 <= self.spec_nr_fabs_per_pod()
        &&& 1 <= self.spec_nr_spines_per_plane()
        &&& 1 <= self.spec_nr_hosts_per_rack()
        &&& self.spec_tor_base() == self.spec_nr_pods() * self.spec_nr_tors_per_pod()
            * self.spec_nr_hosts_per_rack()
        &&& self.spec_fabric_base() == self.spec_tor_base() + self.spec_nr_pods()
            * self.spec_nr_tors_per_pod()
        &&& self.spec_spine_base() == self.spec_fabric_base() + self.spec_nr_pods()
            * self.spec_nr_fabs_per_pod()
        &&& self.spec_nodes().len() == self.spec_spine_base() + self.spec_nr_fabs_per_pod()
            * self.spec_nr_spines_per_plane()
    }

    /// Runtime check for `spec_shape_consistent`.
    pub fn is_consistent_shape(&self) -> (b: bool)
        ensures
            b == self.spec_shape_consistent(),
    {
        let p = self.nr_pods();
        let t = self.nr_tors_per_pod();
        let f = self.nr_fabs_per_pod();
        let sp = self.nr_spines_per_plane();
        let h = self.nr_hosts_per_rack();
        if p < 1 || t < 1 || f < 1 || sp < 1 || h < 1 {
            return false;
        }
        let tb = self.tor_base();
        let fb = self.fabric_base();
        let sb = self.spine_base();
        let n = self.nodes().len();
        let pt = match p.checked_mul(t) {
            Some(v) => v,
            None => {
                proof {
                    assert(p * t * h >= p * t) by (nonlinear_arith)
                        requires h >= 1 && p >= 1 && t >= 1;
                }
                return false;
            },
        };
        let pth = match pt.checked_mul(h) {
            Some(v) => v,
            None => {
                return false;
            },
        };
        if tb != pth {
            return false;
        }
        let fb2 = match tb.checked_add(pt) {
            Some(v) => v,
            None => {
                return false;
            },
        };
        if fb != fb2 {
            return false;
        }
        let pf = match p.checked_mul(f) {
            Some(v) => v,
            None => {
                return false;
            },
        };
        let sb2 = match fb.checked_add(pf) {
            Some(v) => v,
            None => {
                return false;
            },
        };
        if sb != sb2 {
            return false;
        }
        let fs = match f.checked_mul(sp) {
            Some(v) => v,
            None => {
                return false;
            },
        };
        let n2 = match sb.checked_add(fs) {
            Some(v) => v,
            None => {
                return false;
            },
        };
        n == n2
    }
}

/// Appends a copy of every node in `src` to `acc`, in order.
fn push_all_nodes(acc: &mut Vec<Node>, src: &Vec<Node>)
    ensures
        final(acc)@ == old(acc)@ + src@,
{
    let mut i: usize = 0;
    while i < src.len()
        invariant
            i <= src@.len(),
            acc@ == old(acc)@ + src@.take(i as int),
        decreases src@.len() - i,
    {
        acc.push(src[i]);
        proof {
            assert(acc@ =~= old(acc)@ + src@.take(i + 1));
        }
        i = i + 1;
    }
    proof {
        assert(acc@ =~= old(acc)@ + src@);
    }
}

/// Appends a copy of every link in `src` to `acc`, in order.
fn push_all_links(acc: &mut Vec<Link>, src: &Vec<Link>)
    ensures
        final(acc)@ == old(acc)@ + src@,
{
    let mut i: usize = 0;
    while i < src.len()
        invariant
            i <= src@.len(),
            acc@ == old(acc)@ + src@.take(i as int),
        decreases src@.len() - i,
    {
        acc.push(src[i]);
        proof {
            assert(acc@ =~= old(acc)@ + src@.take(i + 1));
        }
        i = i + 1;
    }
    proof {
        assert(acc@ =~= old(acc)@ + src@);
    }
}

// ------------------------------------------------------------------
// Canonicalization: renumber all nodes tier-contiguously.
// ------------------------------------------------------------------

/// Renumbering can fail only when a link names a node identity that no node
/// of the cluster carries.
#[derive(Clone, Copy, Debug, PartialEq, Eq, Structural)]
pub enum ClusterError {
    UnknownNode,
}

pub open spec fn rack_hosts_fn() -> spec_fn(Rack) -> Seq<Node> {
    |r: Rack| r.hosts@
}

pub open spec fn rack_tor_fn() -> spec_fn(Rack) -> Node {
    |r: Rack| r.tor
}

pub open spec fn pod_hosts_fn() -> spec_fn(Pod) -> Seq<Node> {
    |p: Pod| p.racks@.flat_map(rack_hosts_fn())
}

pub open spec fn pod_tors_fn() -> spec_fn(Pod) -> Seq<Node> {
    |p: Pod| p.racks@.map_values(rack_tor_fn())
}

pub open spec fn pod_fabs_fn() -> spec_fn(Pod) -> Seq<Node> {
    |p: Pod| p.fabs@
}

pub open spec fn node_id_fn() -> spec_fn(Node) -> NodeId {
    |n: Node| n.id
}

impl Cluster {
    /// All hosts, pod-major and rack-major.
    pub open spec fn spec_all_hosts(self) -> Seq<Node> {
        self.pods@.flat_map(pod_hosts_fn())
    }

    /// All ToR switches, pod-major.
    pub open spec fn spec_all_tors(self) -> Seq<Node> {
        self.pods@.flat_map(pod_tors_fn())
    }

    /// All fabric switches, pod-major.
    pub open spec fn spec_all_fabs(self) -> Seq<Node> {
        self.pods@.flat_map(pod_fabs_fn())
    }

    /// The canonical enumeration of nodes: all hosts, then all ToRs, then
    /// all fabric switches, then all spines. A node''s position in this
    /// sequence is its new identity after `contiguousify`.
    pub open spec fn spec_canonical_nodes(self) -> Seq<Node> {
        self.spec_all_hosts() + self.spec_all_tors() + self.spec_all_fabs() + self.spec_spines()
    }

    /// The old identities in canonical order; position `i` holds the old
    /// identity that is renamed to `i`.
    pub open spec fn spec_old_ids(self) -> Seq<NodeId> {
        self.spec_canonical_nodes().map_values(node_id_fn())
    }

    /// A cluster is canonical when the canonical enumeration already carries
    /// identities 0, 1, 2, ... in order, and every link names such a node.
    pub open spec fn is_canonical(self) -> bool {
        let ids = self.spec_old_ids();
        &&& forall|i: int| 0 <= i < ids.len() ==> #[trigger] ids[i] == i
        &&& forall|k: int|
            0 <= k < self.spec_links().len() ==> (#[trigger] self.spec_links()[k]).a < ids.len()
                && self.spec_links()[k].b < ids.len()
    }
}

/// Index of the last occurrence of `x` in `s`, or -1 when `x` is absent.
/// The renumbering map keeps the last occurrence when identities collide.
pub open spec fn spec_last_index(s: Seq<NodeId>, x: NodeId) -> int
    decreases s.len(),
{
    if s.len() == 0 {
        -1
    } else if s[s.len() - 1] == x {
        s.len() - 1
    } else {
        spec_last_index(s.drop_last(), x)
    }
}

pub proof fn lemma_last_index_props(s: Seq<NodeId>, x: NodeId)
    ensures
        -1 <= spec_last_index(s, x) < s.len(),
        s.contains(x) <==> 0 <= spec_last_index(s, x) < s.len(),
        s.contains(x) ==> s[spec_last_index(s, x)] == x,
        forall|j: int| spec_last_index(s, x) < j < s.len() ==> s[j] != x,
    decreases s.len(),
{
    if s.len() == 0 {
        assert(!s.contains(x));
    } else if s[s.len() - 1] == x {
        assert(s.contains(x));
    } else {
        let d = s.drop_last();
        lemma_last_index_props(d, x);
        let li = spec_last_index(s, x);
        assert(li == spec_last_index(d, x));
        assert(forall|j: int| 0 <= j < s.len() - 1 ==> s[j] == #[trigger] d[j]);
        if s.contains(x) {
            let w = choose|w: int| 0 <= w < s.len() && s[w] == x;
            assert(w < s.len() - 1);
            assert(d[w] == x);
            assert(d.contains(x));
        }
        if d.contains(x) {
            let w = choose|w: int| 0 <= w < d.len() && d[w] == x;
            assert(s[w] == x);
            assert(s.contains(x));
        }
        assert forall|j: int| li < j < s.len() implies s[j] != x by {
            if j < s.len() - 1 {
                assert(spec_last_index(d, x) < j < d.len());
                assert(d[j] != x);
                assert(s[j] == d[j]);
            } else {
                assert(j == s.len() - 1);
            }
        }
    }
}

/// How one node is renumbered: its identity becomes its last position in
/// the canonical order; its kind is kept.
pub open spec fn rename_node_fn(ids: Seq<NodeId>) -> spec_fn(Node) -> Node {
    |n: Node| Node { id: spec_last_index(ids, n.id) as usize, kind: n.kind }
}

/// How one link is renumbered: both endpoints go through the map; bandwidth
/// and delay are kept.
pub open spec fn rename_link_fn(ids: Seq<NodeId>) -> spec_fn(Link) -> Link {
    |l: Link| Link {
        a: spec_last_index(ids, l.a) as usize,
        b: spec_last_index(ids, l.b) as usize,
        bandwidth: l.bandwidth,
        delay: l.delay,
    }
}

pub open spec fn nodes_present(v: Seq<Node>, ids: Seq<NodeId>) -> bool {
    forall|i: int| 0 <= i < v.len() ==> ids.contains((#[trigger] v[i]).id)
}

pub open spec fn links_present(v: Seq<Link>, ids: Seq<NodeId>) -> bool {
    forall|i: int| 0 <= i < v.len() ==> ids.contains((#[trigger] v[i]).a) && ids.contains(v[i].b)
}

pub open spec fn rack_ids_present(r: Rack, ids: Seq<NodeId>) -> bool {
    &&& ids.contains(r.tor.id)
    &&& nodes_present(r.hosts@, ids)
    &&& links_present(r.host2tor@, ids)
}

pub open spec fn pod_ids_present(p: Pod, ids: Seq<NodeId>) -> bool {
    &&& nodes_present(p.fabs@, ids)
    &&& links_present(p.tor2fab@, ids)
    &&& forall|i: int| 0 <= i < p.racks@.len() ==> rack_ids_present(#[trigger] p.racks@[i], ids)
}

pub open spec fn rack_renamed(new: Rack, prev: Rack, ids: Seq<NodeId>) -> bool {
    &&& new.tor == rename_node_fn(ids)(prev.tor)
    &&& new.hosts@ == prev.hosts@.map_values(rename_node_fn(ids))
    &&& new.host2tor@ == prev.host2tor@.map_values(rename_link_fn(ids))
}

pub open spec fn pod_renamed(new: Pod, prev: Pod, ids: Seq<NodeId>) -> bool {
    &&& new.fabs@ == prev.fabs@.map_values(rename_node_fn(ids))
    &&& new.tor2fab@ == prev.tor2fab@.map_values(rename_link_fn(ids))
    &&& new.racks@.len() == prev.racks@.len()
    &&& forall|i: int|
        0 <= i < prev.racks@.len() ==> rack_renamed(
            #[trigger] new.racks@[i],
            prev.racks@[i],
            ids,
        )
}

impl Cluster {
    /// Every node identity the cluster mentions, in nodes or in links, is
    /// found in the canonical enumeration.
    pub open spec fn spec_ids_present(self) -> bool {
        let ids = self.spec_old_ids();
        &&& forall|i: int|
            0 <= i < self.planes@.len() ==> nodes_present((#[trigger] self.planes@[i])@, ids)
        &&& forall|i: int| 0 <= i < self.pods@.len() ==> pod_ids_present(#[trigger] self.pods@[i], ids)
        &&& links_present(self.fab2spine@, ids)
    }

    /// The cluster `self` is `prev` with every node and link endpoint pushed
    /// through the renumbering map of `ids`.
    pub open spec fn is_renaming_of(self, prev: Cluster, ids: Seq<NodeId>) -> bool {
        &&& self.planes@.len() == prev.planes@.len()
        &&& forall|i: int|
            0 <= i < prev.planes@.len() ==> (#[trigger] self.planes@[i])@ == prev.planes@[i]@
                .map_values(rename_node_fn(ids))
        &&& self.pods@.len() == prev.pods@.len()
        &&& forall|i: int|
            0 <= i < prev.pods@.len() ==> pod_renamed(#[trigger] self.pods@[i], prev.pods@[i], ids)
        &&& self.fab2spine@ == prev.fab2spine@.map_values(rename_link_fn(ids))
    }

    /// The canonical enumeration as a vector.
    fn canonical_nodes(&self) -> (r: Vec<Node>)
        ensures
            r@ == self.spec_canonical_nodes(),
    {
        let mut out: Vec<Node> = Vec::new();
        // Hosts, pod-major and rack-major.
        let mut p: usize = 0;
        while p < self.pods.len()
            invariant
                p <= self.pods@.len(),
                out@ == self.pods@.take(p as int).flat_map(pod_hosts_fn()),
            decreases self.pods@.len() - p,
        {
            proof {
                self.pods@.lemma_flat_map_take_append(pod_hosts_fn(), p as int);
            }
            let mut r: usize = 0;
            while r < self.pods[p].racks.len()
                invariant
                    p < self.pods@.len(),
                    r <= self.pods@[p as int].racks@.len(),
                    out@ == self.pods@.take(p as int).flat_map(pod_hosts_fn())
                        + self.pods@[p as int].racks@.take(r as int).flat_map(rack_hosts_fn()),
                decreases self.pods@[p as int].racks@.len() - r,
            {
                proof {
                    self.pods@[p as int].racks@.lemma_flat_map_take_append(
                        rack_hosts_fn(),
                        r as int,
                    );
                }
                push_all_nodes(&mut out, &self.pods[p].racks[r].hosts);
                r = r + 1;
            }
            proof {
                assert(self.pods@[p as int].racks@.take(self.pods@[p as int].racks@.len() as int)
                    =~= self.pods@[p as int].racks@);
            }
            p = p + 1;
        }
        proof {
            assert(self.pods@.take(self.pods@.len() as int) =~= self.pods@);
        }
        // ToR switches, pod-major.
        let ghost hosts_done = self.spec_all_hosts();
        let mut p: usize = 0;
        while p < self.pods.len()
            invariant
                p <= self.pods@.len(),
                out@ == hosts_done + self.pods@.take(p as int).flat_map(pod_tors_fn()),
                hosts_done == self.spec_all_hosts(),
            decreases self.pods@.len() - p,
        {
            proof {
                self.pods@.lemma_flat_map_take_append(pod_tors_fn(), p as int);
            }
            let mut r: usize = 0;
            while r < self.pods[p].racks.len()
                invariant
                    p < self.pods@.len(),
                    r <= self.pods@[p as int].racks@.len(),
                    out@ == hosts_done + self.pods@.take(p as int).flat_map(pod_tors_fn())
                        + self.pods@[p as int].racks@.take(r as int).map_values(rack_tor_fn()),
                    hosts_done == self.spec_all_hosts(),
                decreases self.pods@[p as int].racks@.len() - r,
            {
                out.push(self.pods[p].racks[r].tor);
                proof {
                    assert(out@ =~= hosts_done + self.pods@.take(p as int).flat_map(pod_tors_fn())
                        + self.pods@[p as int].racks@.take(r + 1).map_values(rack_tor_fn()));
                }
                r = r + 1;
            }
            proof {
                assert(self.pods@[p as int].racks@.take(self.pods@[p as int].racks@.len() as int)
                    =~= self.pods@[p as int].racks@);
                assert(out@ =~= hosts_done + (self.pods@.take(p as int).flat_map(pod_tors_fn())
                    + pod_tors_fn()(self.pods@[p as int])));
            }
            p = p + 1;
        }
        proof {
            assert(self.pods@.take(self.pods@.len() as int) =~= self.pods@);
        }
        // Fabric switches, pod-major.
        let ghost tors_done = hosts_done + self.spec_all_tors();
        let mut p: usize = 0;
        while p < self.pods.len()
            invariant
                p <= self.pods@.len(),
                out@ == tors_done + self.pods@.take(p as int).flat_map(pod_fabs_fn()),
                tors_done == self.spec_all_hosts() + self.spec_all_tors(),
            decreases self.pods@.len() - p,
        {
            proof {
                self.pods@.lemma_flat_map_take_append(pod_fabs_fn(), p as int);
            }
            push_all_nodes(&mut out, &self.pods[p].fabs);
            p = p + 1;
        }
        proof {
            assert(self.pods@.take(self.pods@.len() as int) =~= self.pods@);
        }
        // Spines, plane-major.
        let ghost fabs_done = tors_done + self.spec_all_fabs();
        let mut i: usize = 0;
        while i < self.planes.len()
            invariant
                i <= self.planes@.len(),
                out@ == fabs_done + self.planes@.take(i as int).flat_map(plane_nodes_fn()),
                fabs_done == self.spec_all_hosts() + self.spec_all_tors() + self.spec_all_fabs(),
            decreases self.planes@.len() - i,
        {
            proof {
                self.planes@.lemma_flat_map_take_append(plane_nodes_fn(), i as int);
            }
            push_all_nodes(&mut out, &self.planes[i]);
            i = i + 1;
        }
        proof {
            assert(self.planes@.take(self.planes@.len() as int) =~= self.planes@);
            assert(out@ =~= self.spec_canonical_nodes());
        }
        out
    }

    /// The old identities in canonical order.
    fn canonical_ids(&self) -> (r: Vec<NodeId>)
        ensures
            r@ == self.spec_old_ids(),
    {
        let nodes = self.canonical_nodes();
        let mut out: Vec<NodeId> = Vec::new();
        let mut i: usize = 0;
        while i < nodes.len()
            invariant
                i <= nodes@.len(),
                nodes@ == self.spec_canonical_nodes(),
                out@ == nodes@.take(i as int).map_values(node_id_fn()),
            decreases nodes@.len() - i,
        {
            out.push(nodes[i].id);
            proof {
                assert(out@ =~= nodes@.take(i + 1).map_values(node_id_fn()));
            }
            i = i + 1;
        }
        proof {
            assert(nodes@.take(nodes@.len() as int) =~= nodes@);
        }
        out
    }
}

/// Position that `x` is renumbered to: the last index of `x` in `olds`, or
/// `None` when no node carries identity `x`.
fn map_id(olds: &Vec<NodeId>, x: NodeId) -> (r: Option<usize>)
    ensures
        r matches Some(k) ==> k as int == spec_last_index(olds@, x),
        r is Some <==> olds@.contains(x),
{
    let mut k: usize = olds.len();
    while k > 0
        invariant
            k <= olds@.len(),
            forall|j: int| k <= j < olds@.len() ==> olds@[j] != x,
        decreases k,
    {
        k = k - 1;
        if olds[k] == x {
            proof {
                lemma_last_index_props(olds@, x);
            }
            return Some(k);
        }
    }
    proof {
        lemma_last_index_props(olds@, x);
    }
    None
}

fn rename_nodes(olds: &Vec<NodeId>, v: &Vec<Node>) -> (res: Result<Vec<Node>, ClusterError>)
    ensures
        match res {
            Ok(w) => nodes_present(v@, olds@) && w@ == v@.map_values(rename_node_fn(olds@)),
            Err(_) => !nodes_present(v@, olds@),
        },
{
    let mut out: Vec<Node> = Vec::new();
    let mut i: usize = 0;
    while i < v.len()
        invariant
            i <= v@.len(),
            nodes_present(v@.take(i as int), olds@),
            out@ == v@.take(i as int).map_values(rename_node_fn(olds@)),
        decreases v@.len() - i,
    {
        match map_id(olds, v[i].id) {
            Some(k) => {
                out.push(Node { id: k, kind: v[i].kind });
            },
            None => {
                return Err(ClusterError::UnknownNode);
            },
        }
        proof {
            assert(out@ =~= v@.take(i + 1).map_values(rename_node_fn(olds@)));
        }
        i = i + 1;
    }
    proof {
        assert(v@.take(v@.len() as int) =~= v@);
    }
    Ok(out)
}

fn rename_links(olds: &Vec<NodeId>, v: &Vec<Link>) -> (res: Result<Vec<Link>, ClusterError>)
    ensures
        match res {
            Ok(w) => links_present(v@, olds@) && w@ == v@.map_values(rename_link_fn(olds@)),
            Err(_) => !links_present(v@, olds@),
        },
{
    let mut out: Vec<Link> = Vec::new();
    let mut i: usize = 0;
    while i < v.len()
        invariant
            i <= v@.len(),
            links_present(v@.take(i as int), olds@),
            out@ == v@.take(i as int).map_values(rename_link_fn(olds@)),
        decreases v@.len() - i,
    {
        let a = match map_id(olds, v[i].a) {
            Some(k) => k,
            None => {
                return Err(ClusterError::UnknownNode);
            },
        };
        let b = match map_id(olds, v[i].b) {
            Some(k) => k,
            None => {
                return Err(ClusterError::UnknownNode);
            },
        };
        out.push(Link { a, b, bandwidth: v[i].bandwidth, delay: v[i].delay });
        proof {
            assert(out@ =~= v@.take(i + 1).map_values(rename_link_fn(olds@)));
        }
        i = i + 1;
    }
    proof {
        assert(v@.take(v@.len() as int) =~= v@);
    }
    Ok(out)
}

fn rename_rack(olds: &Vec<NodeId>, r: &Rack) -> (res: Result<Rack, ClusterError>)
    ensures
        match res {
            Ok(q) => rack_renamed(q, *r, olds@) && rack_ids_present(*r, olds@),
            Err(_) => !rack_ids_present(*r, olds@),
        },
{
    let tor = match map_id(olds, r.tor.id) {
        Some(k) => Node { id: k, kind: r.tor.kind },
        None => {
            return Err(ClusterError::UnknownNode);
        },
    };
    let hosts = match rename_nodes(olds, &r.hosts) {
        Ok(w) => w,
        Err(e) => {
            return Err(e);
        },
    };
    let host2tor = match rename_links(olds, &r.host2tor) {
        Ok(w) => w,
        Err(e) => {
            return Err(e);
        },
    };
    Ok(Rack { tor, hosts, host2tor })
}

fn rename_pod(olds: &Vec<NodeId>, p: &Pod) -> (res: Result<Pod, ClusterError>)
    ensures
        match res {
            Ok(q) => pod_renamed(q, *p, olds@) && pod_ids_present(*p, olds@),
            Err(_) => !pod_ids_present(*p, olds@),
        },
{
    let fabs = match rename_nodes(olds, &p.fabs) {
        Ok(w) => w,
        Err(e) => {
            return Err(e);
        },
    };
    let tor2fab = match rename_links(olds, &p.tor2fab) {
        Ok(w) => w,
        Err(e) => {
            return Err(e);
        },
    };
    let mut racks: Vec<Rack> = Vec::new();
    let mut i: usize = 0;
    while i < p.racks.len()
        invariant
            i <= p.racks@.len(),
            racks@.len() == i,
            forall|j: int| 0 <= j < i ==> rack_renamed(#[trigger] racks@[j], p.racks@[j], olds@),
            forall|j: int| 0 <= j < i ==> rack_ids_present(#[trigger] p.racks@[j], olds@),
        decreases p.racks@.len() - i,
    {
        match rename_rack(olds, &p.racks[i]) {
            Ok(q) => racks.push(q),
            Err(e) => {
                return Err(e);
            },
        }
        i = i + 1;
    }
    Ok(Pod { fabs, racks, tor2fab })
}

pub proof fn lemma_canonical_rename_identity(ids: Seq<NodeId>, x: NodeId)
    requires
        forall|i: int| 0 <= i < ids.len() ==> #[trigger] ids[i] == i,
        ids.contains(x),
    ensures
        spec_last_index(ids, x) == x,
        x < ids.len(),
{
    lemma_last_index_props(ids, x);
}

impl Cluster {
    /// Renumbers every node so that the canonical enumeration carries
    /// identities 0, 1, 2, ... (hosts, then ToRs, then fabric switches, then
    /// spines), and rewrites every link endpoint through the same map.
    ///
    /// Fails, leaving the cluster unchanged, exactly when a link names a
    /// node identity that no node carries. Canonicalizing a cluster that is
    /// already canonical changes nothing.
    pub fn contiguousify(&mut self) -> (res: Result<(), ClusterError>)
        ensures
            match res {
                Ok(()) => {
                    &&& old(self).spec_ids_present()
                    &&& final(self).is_renaming_of(*old(self), old(self).spec_old_ids())
                    &&& old(self).is_canonical() ==> rename_is_identity(old(self).spec_old_ids())
                    &&& old(self).is_canonical() ==> final(self).same_as(*old(self))
                },
                Err(_) => {
                    &&& *final(self) == *old(self)
                    &&& !old(self).spec_ids_present()
                },
            },
    {
        let olds = self.canonical_ids();
        let ghost ids = olds@;

        let mut new_planes: Vec<Vec<Node>> = Vec::new();
        let mut i: usize = 0;
        while i < self.planes.len()
            invariant
                *self == *old(self),
                ids == olds@,
                olds@ == self.spec_old_ids(),
                i <= self.planes@.len(),
                new_planes@.len() == i,
                forall|k: int|
                    0 <= k < i ==> (#[trigger] new_planes@[k])@ == self.planes@[k]@.map_values(
                        rename_node_fn(ids),
                    ),
                forall|k: int|
                    0 <= k < i ==> nodes_present((#[trigger] self.planes@[k])@, ids),
            decreases self.planes@.len() - i,
        {
            match rename_nodes(&olds, &self.planes[i]) {
                Ok(w) => new_planes.push(w),
                Err(e) => {
                    proof {
                        assert(!self.spec_ids_present());
                    }
                    return Err(e);
                },
            }
            i = i + 1;
        }

        let mut new_pods: Vec<Pod> = Vec::new();
        let mut j: usize = 0;
        while j < self.pods.len()
            invariant
                *self == *old(self),
                ids == olds@,
                olds@ == self.spec_old_ids(),
                j <= self.pods@.len(),
                new_pods@.len() == j,
                forall|k: int|
                    0 <= k < j ==> pod_renamed(#[trigger] new_pods@[k], self.pods@[k], ids),
                forall|k: int| 0 <= k < j ==> pod_ids_present(#[trigger] self.pods@[k], ids),
            decreases self.pods@.len() - j,
        {
            match rename_pod(&olds, &self.pods[j]) {
                Ok(q) => new_pods.push(q),
                Err(e) => {
                    proof {
                        assert(!self.spec_ids_present());
                    }
                    return Err(e);
                },
            }
            j = j + 1;
        }

        let new_fab2spine = match rename_links(&olds, &self.fab2spine) {
            Ok(w) => w,
            Err(e) => {
                proof {
                    assert(!self.spec_ids_present());
                }
                return Err(e);
            },
        };

        let ghost prev = *self;
        self.planes = new_planes;
        self.pods = new_pods;
        self.fab2spine = new_fab2spine;

        proof {
            assert(self.is_renaming_of(prev, ids));
            if prev.is_canonical() {
                lemma_renaming_identity(*self, prev, ids);
            }
        }
        Ok(())
    }
}

/// Every node's identity occurs in the canonical enumeration: only a link
/// can name an identity that no node carries, so renumbering fails exactly
/// on a malformed link.
pub proof fn lemma_node_ids_always_present(c: Cluster)
    ensures
        forall|i: int|
            0 <= i < c.planes@.len() ==> nodes_present((#[trigger] c.planes@[i])@, c.spec_old_ids()),
        forall|p: int|
            0 <= p < c.pods@.len() ==> nodes_present((#[trigger] c.pods@[p]).fabs@, c.spec_old_ids()),
        forall|p: int, r: int|
            0 <= p < c.pods@.len() && 0 <= r < (#[trigger] c.pods@[p]).racks@.len() ==> c.spec_old_ids().contains(
                (#[trigger] c.pods@[p].racks@[r]).tor.id,
            ) && nodes_present(c.pods@[p].racks@[r].hosts@, c.spec_old_ids()),
{
    let ids = c.spec_old_ids();
    let canon = c.spec_canonical_nodes();
    let hosts = c.spec_all_hosts();
    let tors = c.spec_all_tors();
    let fabs = c.spec_all_fabs();
    let spines = c.spec_spines();
    // Spines.
    assert forall|i: int| 0 <= i < c.planes@.len() implies nodes_present(
        (#[trigger] c.planes@[i])@,
        ids,
    ) by {
        assert forall|j: int| 0 <= j < c.planes@[i]@.len() implies ids.contains(
            (#[trigger] c.planes@[i]@[j]).id,
        ) by {
            crate::seqs::lemma_flat_map_contains(c.planes@, plane_nodes_fn(), i, j);
            let k = choose|k: int| 0 <= k < spines.len() && spines[k] == c.planes@[i]@[j];
            let pos = hosts.len() + tors.len() + fabs.len() + k;
            assert(canon[pos] == c.planes@[i]@[j]);
            assert(ids[pos] == c.planes@[i]@[j].id);
        }
    }
    // Fabric switches.
    assert forall|p: int| 0 <= p < c.pods@.len() implies nodes_present(
        (#[trigger] c.pods@[p]).fabs@,
        ids,
    ) by {
        assert forall|j: int| 0 <= j < c.pods@[p].fabs@.len() implies ids.contains(
            (#[trigger] c.pods@[p].fabs@[j]).id,
        ) by {
            crate::seqs::lemma_flat_map_contains(c.pods@, pod_fabs_fn(), p, j);
            let k = choose|k: int| 0 <= k < fabs.len() && fabs[k] == c.pods@[p].fabs@[j];
            let pos = hosts.len() + tors.len() + k;
            assert(canon[pos] == c.pods@[p].fabs@[j]);
            assert(ids[pos] == c.pods@[p].fabs@[j].id);
        }
    }
    // ToRs and hosts.
    assert forall|p: int, r: int|
        0 <= p < c.pods@.len() && 0 <= r < (#[trigger] c.pods@[p]).racks@.len() implies ids.contains(
        (#[trigger] c.pods@[p].racks@[r]).tor.id,
    ) && nodes_present(c.pods@[p].racks@[r].hosts@, ids) by {
        assert(pod_tors_fn()(c.pods@[p])[r] == c.pods@[p].racks@[r].tor);
        crate::seqs::lemma_flat_map_contains(c.pods@, pod_tors_fn(), p, r);
        let k = choose|k: int| 0 <= k < tors.len() && tors[k] == c.pods@[p].racks@[r].tor;
        let pos = hosts.len() + k;
        assert(canon[pos] == c.pods@[p].racks@[r].tor);
        assert(ids[pos] == c.pods@[p].racks@[r].tor.id);
        assert forall|h: int| 0 <= h < c.pods@[p].racks@[r].hosts@.len() implies ids.contains(
            (#[trigger] c.pods@[p].racks@[r].hosts@[h]).id,
        ) by {
            crate::seqs::lemma_flat_map_contains(
                c.pods@[p].racks@,
                rack_hosts_fn(),
                r,
                h,
            );
            let ph = c.pods@[p].racks@.flat_map(rack_hosts_fn());
            assert(pod_hosts_fn()(c.pods@[p]) == ph);
            let inner = choose|inner: int|
                0 <= inner < ph.len() && ph[inner] == c.pods@[p].racks@[r].hosts@[h];
            crate::seqs::lemma_flat_map_contains(c.pods@, pod_hosts_fn(), p, inner);
            let k2 = choose|k2: int|
                0 <= k2 < hosts.len() && hosts[k2] == c.pods@[p].racks@[r].hosts@[h];
            assert(canon[k2] == c.pods@[p].racks@[r].hosts@[h]);
            assert(ids[k2] == c.pods@[p].racks@[r].hosts@[h].id);
        }
    }
}

/// The renumbering map sends every identity it covers to itself.
pub open spec fn rename_is_identity(ids: Seq<NodeId>) -> bool {
    forall|x: NodeId| ids.contains(x) ==> #[trigger] rename_id(ids, x) == x
}

/// The identity that `x` is renumbered to (meaningful when `x` occurs).
pub open spec fn rename_id(ids: Seq<NodeId>, x: NodeId) -> NodeId {
    spec_last_index(ids, x) as usize
}

pub open spec fn same_rack(a: Rack, b: Rack) -> bool {
    &&& a.tor == b.tor
    &&& a.hosts@ == b.hosts@
    &&& a.host2tor@ == b.host2tor@
}

pub open spec fn same_pod(a: Pod, b: Pod) -> bool {
    &&& a.fabs@ == b.fabs@
    &&& a.tor2fab@ == b.tor2fab@
    &&& a.racks@.len() == b.racks@.len()
    &&& forall|i: int| 0 <= i < a.racks@.len() ==> same_rack(#[trigger] a.racks@[i], b.racks@[i])
}

impl Cluster {
    /// Equality of everything observable: same planes, pods, racks, nodes
    /// and links, element for element.
    pub open spec fn same_as(self, other: Cluster) -> bool {
        &&& self.planes@.len() == other.planes@.len()
        &&& forall|i: int|
            0 <= i < self.planes@.len() ==> (#[trigger] self.planes@[i])@ == other.planes@[i]@
        &&& self.pods@.len() == other.pods@.len()
        &&& forall|i: int|
            0 <= i < self.pods@.len() ==> same_pod(#[trigger] self.pods@[i], other.pods@[i])
        &&& self.fab2spine@ == other.fab2spine@
    }
}

/// When the cluster is already canonical, its renumbering map is the
/// identity, so pushing the cluster through it reproduces it exactly.
proof fn lemma_renaming_identity(new: Cluster, prev: Cluster, ids: Seq<NodeId>)
    requires
        ids == prev.spec_old_ids(),
        prev.is_canonical(),
        new.is_renaming_of(prev, ids),
        forall|k: int|
            0 <= k < prev.planes@.len() ==> nodes_present((#[trigger] prev.planes@[k])@, ids),
        forall|k: int| 0 <= k < prev.pods@.len() ==> pod_ids_present(#[trigger] prev.pods@[k], ids),
        links_present(prev.fab2spine@, ids),
    ensures
        rename_is_identity(ids),
        new.same_as(prev),
{
    assert forall|x: NodeId| ids.contains(x) implies #[trigger] rename_id(ids, x) == x by {
        lemma_canonical_rename_identity(ids, x);
    }
    // Planes.
    assert forall|k: int| 0 <= k < prev.planes@.len() implies (#[trigger] new.planes@[k])@
        == (prev.planes@[k])@ by {
        assert forall|j: int| 0 <= j < prev.planes@[k]@.len()
            implies #[trigger] new.planes@[k]@[j] == prev.planes@[k]@[j] by {
            let n = prev.planes@[k]@[j];
            assert(ids.contains(n.id));
            assert(rename_id(ids, n.id) == n.id);
            assert(new.planes@[k]@[j] == rename_node_fn(ids)(n));
        }
        assert(new.planes@[k]@ =~= prev.planes@[k]@);
    }
    // Pods.
    assert forall|k: int| 0 <= k < prev.pods@.len() implies same_pod(
        #[trigger] new.pods@[k],
        prev.pods@[k],
    ) by {
        let np = new.pods@[k];
        let pp = prev.pods@[k];
        assert(pod_renamed(np, pp, ids));
        assert(pod_ids_present(pp, ids));
        assert forall|j: int| 0 <= j < pp.fabs@.len() implies #[trigger] np.fabs@[j]
            == pp.fabs@[j] by {
            let n = pp.fabs@[j];
            assert(ids.contains(n.id));
            assert(rename_id(ids, n.id) == n.id);
            assert(np.fabs@[j] == rename_node_fn(ids)(n));
        }
        assert(np.fabs@ =~= pp.fabs@);
        assert forall|j: int| 0 <= j < pp.tor2fab@.len() implies #[trigger] np.tor2fab@[j]
            == pp.tor2fab@[j] by {
            let l = pp.tor2fab@[j];
            assert(ids.contains(l.a) && ids.contains(l.b));
            assert(rename_id(ids, l.a) == l.a && rename_id(ids, l.b) == l.b);
            assert(np.tor2fab@[j] == rename_link_fn(ids)(l));
        }
        assert(np.tor2fab@ =~= pp.tor2fab@);
        assert forall|r: int| 0 <= r < pp.racks@.len() implies same_rack(
            #[trigger] np.racks@[r],
            pp.racks@[r],
        ) by {
            let nr = np.racks@[r];
            let pr = pp.racks@[r];
            assert(rack_renamed(nr, pr, ids));
            assert(rack_ids_present(pr, ids));
            assert(ids.contains(pr.tor.id));
            assert(rename_id(ids, pr.tor.id) == pr.tor.id);
            assert(nr.tor == rename_node_fn(ids)(pr.tor));
            assert forall|h: int| 0 <= h < pr.hosts@.len() implies #[trigger] nr.hosts@[h]
                == pr.hosts@[h] by {
                let n = pr.hosts@[h];
                assert(ids.contains(n.id));
                assert(rename_id(ids, n.id) == n.id);
                assert(nr.hosts@[h] == rename_node_fn(ids)(n));
            }
            assert(nr.hosts@ =~= pr.hosts@);
            assert forall|h: int| 0 <= h < pr.host2tor@.len() implies #[trigger] nr.host2tor@[h]
                == pr.host2tor@[h] by {
                let l = pr.host2tor@[h];
                assert(ids.contains(l.a) && ids.contains(l.b));
                assert(rename_id(ids, l.a) == l.a && rename_id(ids, l.b) == l.b);
                assert(nr.host2tor@[h] == rename_link_fn(ids)(l));
            }
            assert(nr.host2tor@ =~= pr.host2tor@);
        }
    }
    // Fabric-to-spine links.
    assert forall|j: int| 0 <= j < prev.fab2spine@.len() implies #[trigger] new.fab2spine@[j]
        == prev.fab2spine@[j] by {
        let l = prev.fab2spine@[j];
        assert(ids.contains(l.a) && ids.contains(l.b));
        assert(rename_id(ids, l.a) == l.a && rename_id(ids, l.b) == l.b);
        assert(new.fab2spine@[j] == rename_link_fn(ids)(l));
    }
    assert(new.fab2spine@ =~= prev.fab2spine@);
}

} // verus!
