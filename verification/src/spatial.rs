//! The spatial side of the workload: a rack-to-rack traffic matrix built
//! from trace entries, its placement onto a concrete cluster, and weighted
//! sampling of (source, destination) host pairs proportional to matrix
//! weight.

use vstd::prelude::*;

verus! {

use crate::NodeId;
use crate::entry::Entry;
use crate::cluster::{Cluster, NR_RACKS_PER_POD};

#[derive(Clone, Copy, Debug, PartialEq, Eq, Structural)]
pub enum Error {
    /// A pod of the trace names more distinct racks than a pod offers.
    TooManyRacks,
    /// The trace's pod count differs from the cluster's.
    WorkloadClusterMismatch,
    /// The matrix carries no traffic at all; there is nothing to sample.
    ZeroTraffic,
    /// Some cell with traffic admits no source and destination pair of
    /// distinct hosts.
    UnsamplablePair,
    /// A trace rack got no ToR slot: its pod has fewer racks in the
    /// cluster than in the trace.
    UnassignedRack,
    /// The calibrated rate or the mean inter-arrival time vanishes;
    /// generation cannot be paced.
    ZeroRate,
    /// A count or dimension exceeds the machine's integer range.
    Overflow,
}

/// The rack-to-rack traffic-volume matrix, with the rack name of each
/// row/column index.
#[derive(Clone, Debug)]
pub struct Tor2TorMatrix {
    pub inner: Vec<Vec<u64>>,
    pub idx2name: Vec<String>,
}

impl Tor2TorMatrix {
    /// The matrix is square.
    pub open spec fn wf(self) -> bool {
        forall|i: int|
            0 <= i < self.inner@.len() ==> (#[trigger] self.inner@[i])@.len()
                == self.inner@.len()
    }

    pub open spec fn spec_dim(self) -> int {
        self.inner@.len() as int
    }

    pub fn dim(&self) -> (r: usize)
        ensures
            r == self.spec_dim(),
    {
        self.inner.len()
    }
}

/// Whether some entry names `rack` in `pod`, on either end.
pub open spec fn spec_pod_rack_appears(es: Seq<Entry>, pod: Seq<char>, rack: Seq<char>) -> bool {
    exists|i: int|
        0 <= i < es.len() && (((#[trigger] es[i]).srcpod@ == pod && es[i].srcrack@ == rack) || (
        es[i].dstpod@ == pod && es[i].dstrack@ == rack))
}

/// How many entries go from rack `s` to rack `d`.
pub open spec fn spec_pair_count(es: Seq<Entry>, s: Seq<char>, d: Seq<char>) -> int
    decreases es.len(),
{
    if es.len() == 0 {
        0
    } else {
        spec_pair_count(es.drop_last(), s, d) + if es.last().srcrack@ == s && es.last().dstrack@
            == d {
            1int
        } else {
            0int
        }
    }
}

proof fn lemma_pair_count_bound(es: Seq<Entry>, s: Seq<char>, d: Seq<char>)
    ensures
        0 <= spec_pair_count(es, s, d) <= es.len(),
    decreases es.len(),
{
    if es.len() > 0 {
        lemma_pair_count_bound(es.drop_last(), s, d);
    }
}

/// Index `a` holds the first occurrence of its name.
pub open spec fn is_first_of_name(names: Seq<String>, a: int) -> bool {
    &&& 0 <= a < names.len()
    &&& forall|j: int| 0 <= j < a ==> (#[trigger] names[j])@ != names[a]@
}

/// First index carrying `target`, scanning forward.
fn find_name(names: &Vec<String>, target: &String) -> (r: Option<usize>)
    ensures
        r matches Some(a) ==> a < names@.len() && names@[a as int]@ == target@ && (forall|j: int|
            0 <= j < a ==> (#[trigger] names@[j])@ != target@),
        r is None ==> forall|j: int| 0 <= j < names@.len() ==> (#[trigger] names@[j])@ != target@,
{
    let mut i: usize = 0;
    while i < names.len()
        invariant
            i <= names@.len(),
            forall|j: int| 0 <= j < i ==> (#[trigger] names@[j])@ != target@,
        decreases names@.len() - i,
    {
        if names[i] == *target {
            return Some(i);
        }
        i = i + 1;
    }
    None
}

/// The racks assigned so far to each pod, in first-appearance order, with
/// no pod listed twice and no rack listed twice within a pod.
pub open spec fn groups_wf(g: Seq<(String, Vec<String>)>) -> bool {
    &&& forall|p: int, q: int|
        0 <= p < q < g.len() ==> (#[trigger] g[p]).0@ != (#[trigger] g[q]).0@
    &&& forall|p: int, t: int, u: int|
        #![trigger g[p].1@[t], g[p].1@[u]]
        0 <= p < g.len() && 0 <= t < u < g[p].1@.len() ==> g[p].1@[t]@ != g[p].1@[u]@
}

/// Every rack listed under a pod is named with that pod by some entry.
pub open spec fn groups_sound(g: Seq<(String, Vec<String>)>, es: Seq<Entry>) -> bool {
    forall|p: int, t: int|
        0 <= p < g.len() && 0 <= t < (#[trigger] g[p]).1@.len() ==> spec_pod_rack_appears(
            es,
            g[p].0@,
            (#[trigger] g[p].1@[t])@,
        )
}

/// Both rack-pod pairs of every entry are listed.
pub open spec fn groups_complete(g: Seq<(String, Vec<String>)>, es: Seq<Entry>) -> bool {
    forall|i: int|
        0 <= i < es.len() ==> group_lists(g, (#[trigger] es[i]).srcpod@, es[i].srcrack@)
            && group_lists(g, es[i].dstpod@, es[i].dstrack@)
}

/// The grouping lists `rack` under `pod`.
pub open spec fn group_lists(g: Seq<(String, Vec<String>)>, pod: Seq<char>, rack: Seq<char>) -> bool {
    exists|p: int, t: int|
        0 <= p < g.len() && (#[trigger] g[p]).0@ == pod && 0 <= t < g[p].1@.len() && (
        #[trigger] g[p].1@[t])@ == rack
}

/// Records that `rack` was seen in `pod`: appends the rack to the pod's
/// list, or opens a new pod, unless the pod already lists the rack.
fn note_pod_rack(g: &mut Vec<(String, Vec<String>)>, pod: &String, rack: &String)
    ensures
        old(g)@.len() <= final(g)@.len() <= old(g)@.len() + 1,
        groups_wf(old(g)@) ==> groups_wf(final(g)@),
        group_lists(final(g)@, pod@, rack@),
        // Existing listings survive.
        forall|pd: Seq<char>, rk: Seq<char>|
            group_lists(old(g)@, pd, rk) ==> group_lists(final(g)@, pd, rk),
        // New listings are only the noted pair.
        forall|pd: Seq<char>, rk: Seq<char>|
            group_lists(final(g)@, pd, rk) ==> group_lists(old(g)@, pd, rk) || (pd == pod@ && rk
                == rack@),
{
    let mut p: usize = 0;
    while p < g.len()
        invariant
            p <= g@.len(),
            g@ == old(g)@,
            forall|j: int| 0 <= j < p ==> (#[trigger] g@[j]).0@ != pod@,
        decreases g@.len() - p,
    {
        if g[p].0 == *pod {
            let mut t: usize = 0;
            while t < g[p].1.len()
                invariant
                    p < g@.len(),
                    g@ == old(g)@,
                    g@[p as int].0@ == pod@,
                    t <= g@[p as int].1@.len(),
                    forall|j: int| 0 <= j < t ==> (#[trigger] g@[p as int].1@[j])@ != rack@,
                decreases g@[p as int].1@.len() - t,
            {
                if g[p].1[t] == *rack {
                    proof {
                        assert(g@[p as int].0@ == pod@ && g@[p as int].1@[t as int]@ == rack@);
                        assert(group_lists(g@, pod@, rack@));
                    }
                    return ;
                }
                t = t + 1;
            }
            // The pod exists but does not list the rack yet: append it.
            let ghost before = g@;
            let mut entry = g.swap_remove(p);
            entry.1.push(rack.clone());
            g.push(entry);
            proof {
                lemma_relisting(before, g@, p as int, pod@, rack@);
            }
            return ;
        }
        p = p + 1;
    }
    // A new pod.
    let ghost before = g@;
    let mut tors: Vec<String> = Vec::new();
    tors.push(rack.clone());
    g.push((pod.clone(), tors));
    proof {
        assert(g@.drop_last() =~= before);
        assert(g@.last().0@ == pod@ && g@.last().1@[0]@ == rack@);
        assert(group_lists(g@, pod@, rack@));
        lemma_group_append(before, g@, pod@, rack@);
    }
}

/// Moving pod `p` to the back and appending one rack to it keeps every old
/// listing, adds the new pair, and adds nothing else; well-formedness and
/// the sound/complete characterizations transfer along.
proof fn lemma_relisting(
    before: Seq<(String, Vec<String>)>,
    after: Seq<(String, Vec<String>)>,
    p: int,
    pod: Seq<char>,
    rack: Seq<char>,
)
    requires
        0 <= p < before.len(),
        before[p].0@ == pod,
        forall|j: int| 0 <= j < before[p].1@.len() ==> (#[trigger] before[p].1@[j])@ != rack,
        after.len() == before.len(),
        // swap_remove(p) then push: the last element of `before` moves to
        // position p (when p is not last), and the updated pod is last.
        p < before.len() - 1 ==> after[p] == before[before.len() - 1],
        forall|j: int|
            0 <= j < before.len() - 1 && j != p ==> #[trigger] after[j] == before[j],
        after[after.len() - 1].0 == before[p].0,
        after[after.len() - 1].1@ == before[p].1@.push(after[after.len() - 1].1@.last()),
        after[after.len() - 1].1@.last()@ == rack,
    ensures
        groups_wf(before) ==> groups_wf(after),
        group_lists(after, pod, rack),
        forall|pd: Seq<char>, rk: Seq<char>| group_lists(before, pd, rk) ==> group_lists(
            after,
            pd,
            rk,
        ),
        forall|pd: Seq<char>, rk: Seq<char>|
            group_lists(after, pd, rk) ==> group_lists(before, pd, rk) || (pd == pod && rk
                == rack),
{
    let n = before.len();
    let mapped = |j: int| if j == n - 1 { p } else if j == p { n - 1 } else { j };
    // Where each pod of `after` came from in `before`.
    assert forall|j: int| 0 <= j < n implies (#[trigger] after[j]).0@ == before[mapped(j)].0@ && (
    forall|t: int|
        0 <= t < after[j].1@.len() ==> (#[trigger] after[j].1@[t])@ == before[mapped(j)].1@[t]@
            || (j == n - 1 && t == after[j].1@.len() - 1 && after[j].1@[t]@ == rack)) by {
        if j == n - 1 {
            assert(after[j].1@ == before[p].1@.push(after[j].1@.last()));
        }
    }
    if groups_wf(before) {
        assert forall|a: int, b: int|
            0 <= a < b < n implies (#[trigger] after[a]).0@ != (#[trigger] after[b]).0@ by {
            assert(after[a].0@ == before[mapped(a)].0@);
            assert(after[b].0@ == before[mapped(b)].0@);
        }
        assert forall|a: int, t: int, u: int|
            #![trigger after[a].1@[t], after[a].1@[u]]
            0 <= a < n && 0 <= t < u < after[a].1@.len() implies after[a].1@[t]@
            != after[a].1@[u]@ by {
            if a == n - 1 && u == after[a].1@.len() - 1 {
                assert(after[a].1@[t]@ == before[p].1@[t]@);
                assert(after[a].1@[u]@ == rack);
            } else {
                assert(after[a].1@[t]@ == before[mapped(a)].1@[t]@);
                assert(after[a].1@[u]@ == before[mapped(a)].1@[u]@);
            }
        }
        assert(groups_wf(after));
    }
    assert(after[n - 1].0@ == pod);
    assert(after[n - 1].1@.last()@ == rack);
    assert(group_lists(after, pod, rack));
    assert forall|pd: Seq<char>, rk: Seq<char>| group_lists(before, pd, rk) implies group_lists(
        after,
        pd,
        rk,
    ) by {
        let (a, t) = choose|a: int, t: int|
            0 <= a < n && (#[trigger] before[a]).0@ == pd && 0 <= t < before[a].1@.len() && (
            #[trigger] before[a].1@[t])@ == rk;
        let b = mapped(a);
        assert(after[b].0@ == before[a].0@);
        assert(after[b].1@[t]@ == before[a].1@[t]@);
        assert(0 <= t < after[b].1@.len());
    }
    assert forall|pd: Seq<char>, rk: Seq<char>| group_lists(after, pd, rk) implies group_lists(
        before,
        pd,
        rk,
    ) || (pd == pod && rk == rack) by {
        let (a, t) = choose|a: int, t: int|
            0 <= a < n && (#[trigger] after[a]).0@ == pd && 0 <= t < after[a].1@.len() && (
            #[trigger] after[a].1@[t])@ == rk;
        if a == n - 1 && t == after[a].1@.len() - 1 {
            assert(pd == pod && rk == rack);
        } else {
            let b = mapped(a);
            assert(before[b].0@ == pd);
            assert(before[b].1@[t]@ == rk);
        }
    }
}

/// Appending a fresh pod with one rack keeps every old listing, adds the
/// new pair, and adds nothing else.
proof fn lemma_group_append(
    before: Seq<(String, Vec<String>)>,
    after: Seq<(String, Vec<String>)>,
    pod: Seq<char>,
    rack: Seq<char>,
)
    requires
        after.len() == before.len() + 1,
        forall|j: int| 0 <= j < before.len() ==> #[trigger] after[j] == before[j],
        after[after.len() - 1].0@ == pod,
        after[after.len() - 1].1@.len() == 1,
        after[after.len() - 1].1@[0]@ == rack,
        forall|j: int| 0 <= j < before.len() ==> (#[trigger] before[j]).0@ != pod,
    ensures
        groups_wf(before) ==> groups_wf(after),
        forall|pd: Seq<char>, rk: Seq<char>| group_lists(before, pd, rk) ==> group_lists(
            after,
            pd,
            rk,
        ),
        forall|pd: Seq<char>, rk: Seq<char>|
            group_lists(after, pd, rk) ==> group_lists(before, pd, rk) || (pd == pod && rk
                == rack),
{
    let n = before.len();
    if groups_wf(before) {
        assert forall|a: int, b: int|
            0 <= a < b < after.len() implies (#[trigger] after[a]).0@ != (
        #[trigger] after[b]).0@ by {
            if b == n {
                assert(after[a] == before[a]);
            } else {
                assert(after[a] == before[a]);
                assert(after[b] == before[b]);
            }
        }
        assert forall|p: int, t: int, u: int|
            #![trigger after[p].1@[t], after[p].1@[u]]
            0 <= p < after.len() && 0 <= t < u < after[p].1@.len() implies after[p].1@[t]@
            != after[p].1@[u]@ by {
            assert(p < n);
            assert(after[p] == before[p]);
        }
        assert(groups_wf(after));
    }
    assert forall|pd: Seq<char>, rk: Seq<char>| group_lists(before, pd, rk) implies group_lists(
        after,
        pd,
        rk,
    ) by {
        let (a, t) = choose|a: int, t: int|
            0 <= a < n && (#[trigger] before[a]).0@ == pd && 0 <= t < before[a].1@.len() && (
            #[trigger] before[a].1@[t])@ == rk;
        assert(after[a] == before[a]);
        assert(after[a].0@ == pd && after[a].1@[t]@ == rk);
    }
    assert forall|pd: Seq<char>, rk: Seq<char>| group_lists(after, pd, rk) implies group_lists(
        before,
        pd,
        rk,
    ) || (pd == pod && rk == rack) by {
        let (a, t) = choose|a: int, t: int|
            0 <= a < after.len() && (#[trigger] after[a]).0@ == pd && 0 <= t < after[a].1@.len()
                && (#[trigger] after[a].1@[t])@ == rk;
        if a < n {
            assert(after[a] == before[a]);
            assert(before[a].0@ == pd && before[a].1@[t]@ == rk);
        }
    }
}

// ------------------------------------------------------------------
// Building the traffic matrix from trace entries.
// ------------------------------------------------------------------

/// The traffic matrix together with the pod grouping it was built from.
#[derive(Clone, Debug)]
pub struct SpatialData {
    pub matrix: Tor2TorMatrix,
    pub pod2tors: Vec<(String, Vec<String>)>,
    pub nr_pods: usize,
    pub nr_racks: usize,
}

/// The rack names of one pod entry.
pub open spec fn group_tors_fn() -> spec_fn((String, Vec<String>)) -> Seq<String> {
    |e: (String, Vec<String>)| e.1@
}

/// Some index of `names` carries `rk`.
pub open spec fn spec_rack_listed(names: Seq<String>, rk: Seq<char>) -> bool {
    exists|j: int| 0 <= j < names.len() && (#[trigger] names[j])@ == rk
}

/// Every name of the list appears with `pod` in some entry.
pub open spec fn spec_pod_names_all_appear(
    es: Seq<Entry>,
    pod: Seq<char>,
    names: Seq<Seq<char>>,
) -> bool {
    forall|k: int| 0 <= k < names.len() ==> spec_pod_rack_appears(es, pod, #[trigger] names[k])
}

/// More distinct rack names appear under one pod than a pod has slots.
pub open spec fn spec_pod_over_capacity(es: Seq<Entry>) -> bool {
    exists|pod: Seq<char>, names: Seq<Seq<char>>|
        names.no_duplicates() && names.len() > NR_RACKS_PER_POD
            && #[trigger] spec_pod_names_all_appear(es, pod, names)
}

/// Cell (a, b) of a row-major flattened square matrix.
pub open spec fn spec_cell(flat: Seq<u64>, dim: int, a: int, b: int) -> int {
    flat[a * dim + b] as int
}

/// Row-major pairing is injective while the column stays below `dim`.
proof fn lemma_pair_unique(dim: int, a: int, b: int, c: int, d: int)
    requires
        0 <= b < dim,
        0 <= d < dim,
        0 <= a,
        0 <= c,
        a * dim + b == c * dim + d,
    ensures
        a == c && b == d,
{
    assert(a == c && b == d) by (nonlinear_arith)
        requires
            0 <= b < dim,
            0 <= d < dim,
            0 <= a,
            0 <= c,
            a * dim + b == c * dim + d,
    ;
}

/// What one counting step does: the count of a rack pair over one more
/// entry grows by one exactly when that entry carries the pair.
proof fn lemma_pair_count_step(es: Seq<Entry>, e: int, s: Seq<char>, d: Seq<char>)
    requires
        0 <= e < es.len(),
    ensures
        spec_pair_count(es.take(e + 1), s, d) == spec_pair_count(es.take(e), s, d) + if es[e].srcrack@
            == s && es[e].dstrack@ == d {
            1int
        } else {
            0int
        },
{
    assert(es.take(e + 1).drop_last() =~= es.take(e));
    assert(es.take(e + 1).last() == es[e]);
}

impl SpatialData {
    /// Groups trace entries by source and destination rack, assigns each
    /// distinct rack name a row/column index — pod by pod, in order of
    /// first appearance — and counts the entries of every rack pair into a
    /// dense square matrix of `nr_pods * NR_RACKS_PER_POD` rack slots.
    ///
    /// Fails with `TooManyRacks` when one pod names more distinct racks
    /// than a pod offers, and with `Overflow` when the slot count would
    /// not even be addressable.
    #[verifier::rlimit(100)]
    pub fn from_entries(entries: &Vec<Entry>) -> (r: Result<SpatialData, Error>)
        ensures
            match r {
                Ok(sd) => {
                    &&& sd.matrix.wf()
                    &&& sd.nr_pods == sd.pod2tors@.len()
                    &&& sd.nr_racks == sd.matrix.idx2name@.len()
                    &&& sd.matrix.spec_dim() == sd.nr_pods * (NR_RACKS_PER_POD as int)
                    &&& sd.nr_racks <= sd.matrix.spec_dim()
                    &&& groups_wf(sd.pod2tors@)
                    &&& groups_sound(sd.pod2tors@, entries@)
                    &&& groups_complete(sd.pod2tors@, entries@)
                    &&& forall|p: int|
                        0 <= p < sd.pod2tors@.len() ==> (#[trigger] sd.pod2tors@[p]).1@.len()
                            <= NR_RACKS_PER_POD
                    &&& sd.matrix.idx2name@ == sd.pod2tors@.flat_map(group_tors_fn())
                    &&& forall|a: int, b: int|
                        0 <= a < sd.matrix.spec_dim() && 0 <= b < sd.matrix.spec_dim()
                            ==> #[trigger] sd.matrix.inner@[a]@[b] == if is_first_of_name(
                            sd.matrix.idx2name@,
                            a,
                        ) && is_first_of_name(sd.matrix.idx2name@, b) {
                            spec_pair_count(
                                entries@,
                                sd.matrix.idx2name@[a]@,
                                sd.matrix.idx2name@[b]@,
                            )
                        } else {
                            0
                        }
                },
                Err(Error::TooManyRacks) => spec_pod_over_capacity(entries@),
                Err(Error::Overflow) => entries@.len() > 0,
                Err(_) => false,
            },
    {
        // Group each entry's rack under its pod, both ends.
        let mut groups: Vec<(String, Vec<String>)> = Vec::new();
        let mut i: usize = 0;
        while i < entries.len()
            invariant
                i <= entries@.len(),
                groups_wf(groups@),
                groups_sound(groups@, entries@.take(i as int)),
                groups_complete(groups@, entries@.take(i as int)),
                groups@.len() <= 2 * i,
            decreases entries@.len() - i,
        {
            let ghost before = groups@;
            note_pod_rack(&mut groups, &entries[i].srcpod, &entries[i].srcrack);
            let ghost mid = groups@;
            note_pod_rack(&mut groups, &entries[i].dstpod, &entries[i].dstrack);
            proof {
                let pre = entries@.take(i as int);
                let cur = entries@.take(i + 1);
                assert(cur.drop_last() =~= pre);
                assert(cur[i as int] == entries@[i as int]);
                // Soundness: every listing is an old one or one of the two
                // pairs of this entry, all of which appear in the longer
                // prefix.
                assert forall|p: int, t: int|
                    0 <= p < groups@.len() && 0 <= t < (#[trigger] groups@[p]).1@.len()
                    implies spec_pod_rack_appears(cur, groups@[p].0@, (
                #[trigger] groups@[p].1@[t])@) by {
                    let pd = groups@[p].0@;
                    let rk = groups@[p].1@[t]@;
                    assert(group_lists(groups@, pd, rk));
                    if group_lists(mid, pd, rk) {
                        if group_lists(before, pd, rk) {
                            let (p0, t0) = choose|p0: int, t0: int|
                                0 <= p0 < before.len() && (#[trigger] before[p0]).0@ == pd && 0
                                    <= t0 < before[p0].1@.len() && (#[trigger] before[p0].1@[t0])@
                                    == rk;
                            assert(spec_pod_rack_appears(pre, pd, rk));
                            let w = choose|w: int|
                                0 <= w < pre.len() && (((#[trigger] pre[w]).srcpod@ == pd
                                    && pre[w].srcrack@ == rk) || (pre[w].dstpod@ == pd
                                    && pre[w].dstrack@ == rk));
                            assert(cur[w] == pre[w]);
                        } else {
                            assert(pd == entries@[i as int].srcpod@ && rk == entries@[i
                                as int].srcrack@);
                        }
                    } else {
                        assert(pd == entries@[i as int].dstpod@ && rk == entries@[i
                            as int].dstrack@);
                    }
                }
                // Completeness: old entries keep their listings; the new
                // entry's pairs were just listed.
                assert forall|j: int|
                    0 <= j < cur.len() implies group_lists(
                    groups@,
                    (#[trigger] cur[j]).srcpod@,
                    cur[j].srcrack@,
                ) && group_lists(groups@, cur[j].dstpod@, cur[j].dstrack@) by {
                    if j < i {
                        assert(cur[j] == pre[j]);
                        assert(group_lists(before, pre[j].srcpod@, pre[j].srcrack@));
                        assert(group_lists(before, pre[j].dstpod@, pre[j].dstrack@));
                    } else {
                        assert(group_lists(mid, entries@[i as int].srcpod@, entries@[i
                            as int].srcrack@));
                    }
                }
            }
            i = i + 1;
        }
        proof {
            assert(entries@.take(entries@.len() as int) =~= entries@);
        }

        // No pod may name more racks than a pod offers.
        let mut p: usize = 0;
        while p < groups.len()
            invariant
                p <= groups@.len(),
                groups_wf(groups@),
                groups_sound(groups@, entries@),
                forall|q: int|
                    0 <= q < p ==> (#[trigger] groups@[q]).1@.len() <= NR_RACKS_PER_POD,
            decreases groups@.len() - p,
        {
            if groups[p].1.len() > NR_RACKS_PER_POD {
                proof {
                    let pod = groups@[p as int].0@;
                    let names = groups@[p as int].1@.map_values(|s: String| s@);
                    assert forall|t: int, u: int|
                        0 <= t < u < names.len() implies names[t] != names[u] by {
                        assert(groups@[p as int].1@[t]@ != groups@[p as int].1@[u]@);
                    }
                    assert(names.no_duplicates());
                    assert forall|k: int|
                        0 <= k < names.len() implies spec_pod_rack_appears(
                        entries@,
                        pod,
                        #[trigger] names[k],
                    ) by {
                        assert(spec_pod_rack_appears(
                            entries@,
                            groups@[p as int].0@,
                            groups@[p as int].1@[k]@,
                        ));
                    }
                    assert(spec_pod_names_all_appear(entries@, pod, names));
                    assert(spec_pod_over_capacity(entries@));
                }
                return Err(Error::TooManyRacks);
            }
            p = p + 1;
        }

        // Give every rack a matrix index: pod by pod, in listing order.
        let mut idx2name: Vec<String> = Vec::new();
        let mut p: usize = 0;
        while p < groups.len()
            invariant
                p <= groups@.len(),
                idx2name@ == groups@.take(p as int).flat_map(group_tors_fn()),
            decreases groups@.len() - p,
        {
            proof {
                groups@.lemma_flat_map_take_append(group_tors_fn(), p as int);
            }
            let mut t: usize = 0;
            let ghost outer = idx2name@;
            while t < groups[p].1.len()
                invariant
                    p < groups@.len(),
                    t <= groups@[p as int].1@.len(),
                    idx2name@ == outer + groups@[p as int].1@.take(t as int),
                decreases groups@[p as int].1@.len() - t,
            {
                idx2name.push(groups[p].1[t].clone());
                proof {
                    assert(idx2name@ =~= outer + groups@[p as int].1@.take(t + 1));
                }
                t = t + 1;
            }
            proof {
                assert(groups@[p as int].1@.take(groups@[p as int].1@.len() as int)
                    =~= groups@[p as int].1@);
                assert(idx2name@ =~= groups@.take(p as int).flat_map(group_tors_fn())
                    + group_tors_fn()(groups@[p as int]));
            }
            p = p + 1;
        }
        proof {
            assert(groups@.take(groups@.len() as int) =~= groups@);
        }
        let nr_racks = idx2name.len();
        let nr_pods = groups.len();

        // The matrix offers every pod its full complement of rack slots.
        let dim = match nr_pods.checked_mul(NR_RACKS_PER_POD) {
            Some(v) => v,
            None => {
                proof {
                    assert(groups@.len() >= 1) by (nonlinear_arith)
                        requires groups@.len() * (NR_RACKS_PER_POD as int) > usize::MAX;
                }
                return Err(Error::Overflow);
            },
        };
        proof {
            crate::seqs::lemma_flat_map_len_bound(
                groups@,
                group_tors_fn(),
                NR_RACKS_PER_POD as int,
            );
        }

        // Count every entry into its rack-pair cell, row-major.
        let ghost names = idx2name@;
        let mut flat: Vec<u64> = Vec::new();
        let total = match dim.checked_mul(dim) {
            Some(v) => v,
            None => {
                proof {
                    assert(groups@.len() >= 1) by (nonlinear_arith)
                        requires
                            (dim as int) * (dim as int) > usize::MAX,
                            dim == groups@.len() * (NR_RACKS_PER_POD as int),
                    ;
                }
                return Err(Error::Overflow);
            },
        };
        let mut z: usize = 0;
        while z < total
            invariant
                z <= total,
                flat@.len() == z,
                forall|j: int| 0 <= j < z ==> #[trigger] flat@[j] == 0,
            decreases total - z,
        {
            flat.push(0);
            z = z + 1;
        }

        proof {
            // Every rack named by an entry has an index.
            assert forall|j: int|
                0 <= j < entries@.len() implies spec_rack_listed(
                names,
                (#[trigger] entries@[j]).srcrack@,
            ) && spec_rack_listed(names, entries@[j].dstrack@) by {
                lemma_listed_rack_indexed(groups@, names, entries@[j].srcpod@, entries@[j].srcrack@);
                lemma_listed_rack_indexed(groups@, names, entries@[j].dstpod@, entries@[j].dstrack@);
            }
            // The zeroed flat matrix matches the empty-prefix counts.
            assert forall|a: int, b: int|
                0 <= a < dim && 0 <= b < dim implies #[trigger] spec_cell(flat@, dim as int, a, b)
                == 0 by {
                assert(0 <= a * (dim as int) + b && a * (dim as int) + b < (dim as int) * (
                dim as int)) by (nonlinear_arith)
                    requires 0 <= a && a < dim && 0 <= b && b < dim;
            }
        }

        let mut e: usize = 0;
        while e < entries.len()
            invariant
                e <= entries@.len(),
                names == idx2name@,
                nr_racks == names.len(),
                nr_racks <= dim,
                flat@.len() == dim * dim,
                (dim as int) * (dim as int) <= usize::MAX,
                forall|j: int|
                    0 <= j < entries@.len() ==> spec_rack_listed(
                        names,
                        (#[trigger] entries@[j]).srcrack@,
                    ) && spec_rack_listed(names, entries@[j].dstrack@),
                forall|a: int, b: int|
                    #![trigger spec_cell(flat@, dim as int, a, b)]
                    0 <= a < dim && 0 <= b < dim ==> spec_cell(flat@, dim as int, a, b)
                        == if is_first_of_name(names, a) && is_first_of_name(names, b) {
                        spec_pair_count(entries@.take(e as int), names[a]@, names[b]@)
                    } else {
                        0
                    },
            decreases entries@.len() - e,
        {
            let si = match find_name(&idx2name, &entries[e].srcrack) {
                Some(v) => v,
                None => {
                    proof {
                        assert(spec_rack_listed(names, entries@[e as int].srcrack@));
                        assert(false);
                    }
                    0
                },
            };
            let di = match find_name(&idx2name, &entries[e].dstrack) {
                Some(v) => v,
                None => {
                    proof {
                        assert(spec_rack_listed(names, entries@[e as int].dstrack@));
                        assert(false);
                    }
                    0
                },
            };
            proof {
                assert(si < nr_racks && di < nr_racks);
                assert((si as int) * (dim as int) + di < (dim as int) * (dim as int) && 0 <= (
                si as int) * (dim as int) + di) by (nonlinear_arith)
                    requires
                        0 <= si && (si as int) < dim as int,
                        0 <= di && (di as int) < dim as int,
                ;
            }
            let idx = si * dim + di;
            let cur = flat[idx];
            proof {
                assert(spec_cell(flat@, dim as int, si as int, di as int) == cur);
                assert(is_first_of_name(names, si as int));
                assert(is_first_of_name(names, di as int));
                lemma_pair_count_bound(entries@.take(e as int), names[si as int]@, names[di
                    as int]@);
            }
            let ghost old_flat = flat@;
            flat.set(idx, cur + 1);
            proof {
                let d = dim as int;
                assert forall|a: int, b: int|
                    0 <= a < d && 0 <= b < d implies #[trigger] spec_cell(flat@, d, a, b)
                    == if is_first_of_name(names, a) && is_first_of_name(names, b) {
                    spec_pair_count(entries@.take(e + 1), names[a]@, names[b]@)
                } else {
                    0
                } by {
                    lemma_pair_count_step(entries@, e as int, names[a]@, names[b]@);
                    assert(0 <= a * d + b && a * d + b < d * d) by (nonlinear_arith)
                        requires 0 <= a && a < d && 0 <= b && b < d;
                    if a == si && b == di {
                        assert(names[a]@ == entries@[e as int].srcrack@);
                        assert(names[b]@ == entries@[e as int].dstrack@);
                    } else {
                        if a * d + b == (si as int) * d + (di as int) {
                            lemma_pair_unique(d, a, b, si as int, di as int);
                        }
                        assert(spec_cell(old_flat, d, a, b) == old_flat[a * d + b]);
                        assert(flat@[a * d + b] == old_flat[a * d + b]);
                        assert(spec_cell(flat@, d, a, b) == spec_cell(old_flat, d, a, b));
                        if is_first_of_name(names, a) && is_first_of_name(names, b) {
                            // A different first-index pair means a different
                            // name pair: the count is unchanged.
                            if names[a]@ == entries@[e as int].srcrack@ && names[b]@ == entries@[
                                e as int].dstrack@ {
                                lemma_first_index_unique(names, a, si as int);
                                lemma_first_index_unique(names, b, di as int);
                            }
                        }
                    }
                }
            }
            e = e + 1;
        }
        proof {
            assert(entries@.take(entries@.len() as int) =~= entries@);
        }

        // Fold the flat counts into rows.
        let mut inner: Vec<Vec<u64>> = Vec::new();
        let mut a: usize = 0;
        while a < dim
            invariant
                a <= dim,
                flat@.len() == dim * dim,
                (dim as int) * (dim as int) <= usize::MAX,
                inner@.len() == a,
                forall|x: int| 0 <= x < a ==> (#[trigger] inner@[x])@.len() == dim,
                forall|x: int, y: int|
                    #![trigger inner@[x]@[y]]
                    0 <= x < a && 0 <= y < dim ==> inner@[x]@[y] == flat@[x * (dim as int) + y],
            decreases dim - a,
        {
            let mut row: Vec<u64> = Vec::new();
            let mut b: usize = 0;
            while b < dim
                invariant
                    a < dim,
                    b <= dim,
                    flat@.len() == dim * dim,
                    (dim as int) * (dim as int) <= usize::MAX,
                    row@.len() == b,
                    forall|y: int|
                        0 <= y < b ==> #[trigger] row@[y] == flat@[(a as int) * (dim as int) + y],
                decreases dim - b,
            {
                proof {
                    assert((a as int) * (dim as int) + b < (dim as int) * (dim as int) && 0 <= (
                    a as int) * (dim as int) + b) by (nonlinear_arith)
                        requires
                            0 <= a && (a as int) < dim as int,
                            0 <= b && (b as int) < dim as int,
                    ;
                }
                row.push(flat[a * dim + b]);
                b = b + 1;
            }
            let ghost prev_inner = inner@;
            inner.push(row);
            proof {
                assert forall|x: int| 0 <= x < a + 1 implies (#[trigger] inner@[x])@.len()
                    == dim by {
                    if x < a {
                        assert(inner@[x] == prev_inner[x]);
                    }
                }
                assert forall|x: int, y: int|
                    #![trigger inner@[x]@[y]]
                    0 <= x < a + 1 && 0 <= y < dim implies inner@[x]@[y] == flat@[x * (
                dim as int) + y] by {
                    if x == a {
                        assert(inner@[x]@ == row@);
                        assert(row@[y] == flat@[(a as int) * (dim as int) + y]);
                    } else {
                        assert(inner@[x] == prev_inner[x]);
                        assert(prev_inner[x]@[y] == flat@[x * (dim as int) + y]);
                    }
                }
            }
            a = a + 1;
        }

        let sd = SpatialData {
            matrix: Tor2TorMatrix { inner, idx2name },
            pod2tors: groups,
            nr_pods,
            nr_racks,
        };
        proof {
            assert forall|x: int, y: int|
                0 <= x < sd.matrix.spec_dim() && 0 <= y < sd.matrix.spec_dim()
                implies #[trigger] sd.matrix.inner@[x]@[y] == if is_first_of_name(names, x)
                && is_first_of_name(names, y) {
                spec_pair_count(entries@, names[x]@, names[y]@)
            } else {
                0
            } by {
                assert(sd.matrix.inner@[x]@[y] == flat@[x * (dim as int) + y]);
                assert(spec_cell(flat@, dim as int, x, y) == flat@[x * (dim as int) + y]);
            }
        }
        Ok(sd)
    }
}

/// A first-occurrence index is unique per name.
proof fn lemma_first_index_unique(names: Seq<String>, a: int, b: int)
    requires
        is_first_of_name(names, a),
        is_first_of_name(names, b),
        names[a]@ == names[b]@,
    ensures
        a == b,
{
    if a < b {
        assert(names[a]@ != names[b]@);
    }
    if b < a {
        assert(names[b]@ != names[a]@);
    }
}

/// A rack listed in the grouping has an index in the flattened name list.
proof fn lemma_listed_rack_indexed(
    g: Seq<(String, Vec<String>)>,
    names: Seq<String>,
    pod: Seq<char>,
    rack: Seq<char>,
)
    requires
        names == g.flat_map(group_tors_fn()),
        group_lists(g, pod, rack),
    ensures
        spec_rack_listed(names, rack),
{
    let (p, t) = choose|p: int, t: int|
        0 <= p < g.len() && (#[trigger] g[p]).0@ == pod && 0 <= t < g[p].1@.len() && (
        #[trigger] g[p].1@[t])@ == rack;
    crate::seqs::lemma_flat_map_contains(g, group_tors_fn(), p, t);
    let v = g[p].1@[t];
    let j = choose|j: int| 0 <= j < names.len() && names[j] == v;
    assert(names[j]@ == rack);
}


// ------------------------------------------------------------------
// Placement onto a cluster, and weighted sampling.
// ------------------------------------------------------------------

/// The matrix bound to one concrete cluster: the matrix dimension, the
/// cumulative sums of the flattened matrix for weighted sampling, and the
/// host identities occupying each rack slot.
#[derive(Clone, Debug)]
pub struct SpatialWorkload {
    pub dim: usize,
    pub cumsum: Vec<u64>,
    pub idx2hosts: Vec<Vec<NodeId>>,
}

/// The destination list offers a host other than `hi[a]`.
pub open spec fn can_pair(hi: Seq<NodeId>, hj: Seq<NodeId>, a: int) -> bool {
    exists|b: int| 0 <= b < hj.len() && hj[b] != hi[a]
}

/// Whatever source host the row offers, the column offers a different
/// destination host: no cell draw is forced into a self-flow.
pub open spec fn cell_samplable(hi: Seq<NodeId>, hj: Seq<NodeId>) -> bool {
    hi.len() > 0 && forall|a: int| 0 <= a < hi.len() ==> #[trigger] can_pair(hi, hj, a)
}

/// The cluster has a host with identity `id` in some rack.
pub open spec fn cluster_lists_host(c: Cluster, id: NodeId) -> bool {
    exists|p: int, r: int, h: int|
        0 <= p < c.pods@.len() && 0 <= r < (#[trigger] c.pods@[p]).racks@.len() && 0 <= h < c.pods@[p].racks@[r].hosts@.len()
            && (#[trigger] c.pods@[p].racks@[r].hosts@[h]).id == id
}

/// Sum of the first `k` cells of the flattened matrix.
pub open spec fn spec_msum(m: Tor2TorMatrix, k: int) -> int
    decreases k,
{
    if k <= 0 {
        0
    } else {
        spec_msum(m, k - 1) + m.inner@[(k - 1) / m.spec_dim()]@[(k - 1) % m.spec_dim()]
    }
}

proof fn lemma_flat_coords(dim: int, a: int, b: int)
    requires
        dim > 0,
        0 <= a,
        0 <= b < dim,
    ensures
        (a * dim + b) / dim == a,
        (a * dim + b) % dim == b,
{
    let k = a * dim + b;
    vstd::arithmetic::div_mod::lemma_fundamental_div_mod(k, dim);
    vstd::arithmetic::div_mod::lemma_mod_bound(k, dim);
    assert(k / dim == a && k % dim == b) by (nonlinear_arith)
        requires
            k == a * dim + b,
            k == dim * (k / dim) + k % dim,
            0 <= k % dim < dim,
            0 <= b < dim,
            0 <= a,
            dim > 0,
    ;
}

proof fn lemma_flat_coords_bounds(dim: int, k: int)
    requires
        dim > 0,
        0 <= k < dim * dim,
    ensures
        0 <= k / dim < dim,
        0 <= k % dim < dim,
{
    vstd::arithmetic::div_mod::lemma_multiply_divide_lt(k, dim, dim);
    vstd::arithmetic::div_mod::lemma_mod_bound(k, dim);
    vstd::arithmetic::div_mod::lemma_fundamental_div_mod(k, dim);
    assert(k / dim >= 0) by (nonlinear_arith)
        requires
            k == dim * (k / dim) + k % dim,
            0 <= k % dim < dim,
            k >= 0,
            dim > 0,
    ;
}

impl SpatialWorkload {
    /// The traffic that cell `k` of the flattened matrix carries.
    pub open spec fn spec_cell_weight(self, k: int) -> int {
        weight_at(self.cumsum@, k)
    }

    /// Valid for sampling: the cumulative sums are monotone over a square
    /// of positive total weight, and every cell that carries weight points
    /// at rack slots whose host lists admit a pair of distinct hosts.
    pub open spec fn wf(self) -> bool {
        &&& self.dim >= 1
        &&& self.cumsum@.len() == self.dim * self.dim
        &&& forall|k: int, l: int|
            0 <= k <= l < self.cumsum@.len() ==> (#[trigger] self.cumsum@[k]) <= (
            #[trigger] self.cumsum@[l])
        &&& self.cumsum@[self.cumsum@.len() - 1] > 0
        &&& forall|k: int|
            0 <= k < self.cumsum@.len() && #[trigger] self.spec_cell_weight(k) > 0 ==> k / (
            self.dim as int) < self.idx2hosts@.len() && k % (self.dim as int)
                < self.idx2hosts@.len() && cell_samplable(
                self.idx2hosts@[k / (self.dim as int)]@,
                self.idx2hosts@[k % (self.dim as int)]@,
            )
    }

    /// The pair was drawn from some cell that carries weight: the source
    /// from the cell's source rack, the destination from its destination
    /// rack, and the two are distinct hosts.
    pub open spec fn sampled_pair(self, src: NodeId, dst: NodeId) -> bool {
        &&& exists|k: int|
            0 <= k < self.cumsum@.len() && #[trigger] self.spec_cell_weight(k) > 0
                && self.idx2hosts@[k / (self.dim as int)]@.contains(src)
                && self.idx2hosts@[k % (self.dim as int)]@.contains(dst)
        &&& src != dst
    }

    /// Draws one (source, destination) pair: a uniform draw against the
    /// cumulative sums picks a cell with probability proportional to its
    /// weight; one host is then drawn from the cell's source rack and one
    /// from its destination rack, avoiding the source. The pair always
    /// comes from a cell that carries weight, and never is a self-flow.
    pub fn sample(&self, rng: &mut rand::rngs::StdRng) -> (r: (NodeId, NodeId))
        requires
            self.wf(),
        ensures
            self.sampled_pair(r.0, r.1),
    {
        proof {
            assert(self.cumsum@.len() >= 1) by (nonlinear_arith)
                requires
                    self.cumsum@.len() == self.dim * self.dim,
                    self.dim >= 1,
            ;
        }
        let tot = self.cumsum[self.cumsum.len() - 1];
        let draw = crate::rng::gen_range_u64(rng, tot);
        let k = upper_bound(&self.cumsum, draw);
        proof {
            assert(self.spec_cell_weight(k as int) > 0);
            assert((self.dim as int) * (self.dim as int) == self.cumsum@.len()) by (
            nonlinear_arith)
                requires self.cumsum@.len() == self.dim * self.dim;
            lemma_flat_coords_bounds(self.dim as int, k as int);
        }
        let row = k / self.dim;
        let col = k % self.dim;
        let src = match crate::rng::choose_id(rng, &self.idx2hosts[row]) {
            Some(h) => h,
            None => {
                proof {
                    assert(false);
                }
                0
            },
        };
        // Destinations that would make a self-flow are left out; the cell
        // admits at least one other host for any source.
        let dsts = &self.idx2hosts[col];
        let mut cands: Vec<NodeId> = Vec::new();
        let mut i: usize = 0;
        while i < dsts.len()
            invariant
                i <= dsts@.len(),
                forall|j: int| 0 <= j < cands@.len() ==> dsts@.contains(#[trigger] cands@[j]),
                forall|j: int| 0 <= j < cands@.len() ==> #[trigger] cands@[j] != src,
                forall|j: int| 0 <= j < i && dsts@[j] != src ==> cands@.len() > 0,
            decreases dsts@.len() - i,
        {
            if dsts[i] != src {
                cands.push(dsts[i]);
                proof {
                    assert(dsts@.contains(dsts@[i as int]));
                }
            }
            i = i + 1;
        }
        proof {
            let hi = self.idx2hosts@[k as int / (self.dim as int)]@;
            let a = choose|a: int| 0 <= a < hi.len() && hi[a] == src;
            assert(can_pair(hi, dsts@, a));
            let b = choose|b: int| 0 <= b < dsts@.len() && dsts@[b] != src;
            assert(cands@.len() > 0);
        }
        let dst = match crate::rng::choose_id(rng, &cands) {
            Some(h) => h,
            None => {
                proof {
                    assert(false);
                }
                0
            },
        };
        proof {
            let kk = k as int;
            assert(self.spec_cell_weight(kk) > 0 && self.idx2hosts@[kk / (self.dim as int)]@
                .contains(src) && self.idx2hosts@[kk % (self.dim as int)]@.contains(dst));
        }
        (src, dst)
    }
}

/// First position whose value exceeds `x`, by binary search.
fn upper_bound(v: &Vec<u64>, x: u64) -> (r: usize)
    requires
        v@.len() > 0,
        forall|k: int, l: int|
            0 <= k <= l < v@.len() ==> (#[trigger] v@[k]) <= (#[trigger] v@[l]),
        x < v@[v@.len() - 1],
    ensures
        r < v@.len(),
        v@[r as int] > x,
        forall|j: int| 0 <= j < r ==> #[trigger] v@[j] <= x,
        // The found cell carries the difference: its sum strictly exceeds
        // the previous one.
        r > 0 ==> v@[r - 1] <= x,
{
    let mut lo: usize = 0;
    let mut hi: usize = v.len();
    while lo < hi
        invariant
            lo <= hi <= v@.len(),
            forall|j: int| 0 <= j < lo ==> #[trigger] v@[j] <= x,
            forall|j: int| hi <= j < v@.len() ==> #[trigger] v@[j] > x,
            x < v@[v@.len() - 1],
            forall|k: int, l: int|
                0 <= k <= l < v@.len() ==> (#[trigger] v@[k]) <= (#[trigger] v@[l]),
        decreases hi - lo,
    {
        let mid = lo + (hi - lo) / 2;
        if v[mid] <= x {
            lo = mid + 1;
        } else {
            hi = mid;
        }
    }
    proof {
        if lo == v@.len() {
            assert(v@[v@.len() - 1] <= x);
        }
    }
    lo
}

/// Whether every source host of `hi` can be paired with a different host
/// of `hj`.
#[verifier::rlimit(50)]
fn check_samplable(hi: &Vec<NodeId>, hj: &Vec<NodeId>) -> (r: bool)
    ensures
        r == cell_samplable(hi@, hj@),
{
    if hi.len() == 0 {
        return false;
    }
    let mut a: usize = 0;
    while a < hi.len()
        invariant
            hi@.len() > 0,
            a <= hi@.len(),
            forall|i: int| 0 <= i < a ==> #[trigger] can_pair(hi@, hj@, i),
        decreases hi@.len() - a,
    {
        let mut found = false;
        let mut b: usize = 0;
        while b < hj.len()
            invariant
                a < hi@.len(),
                b <= hj@.len(),
                found ==> can_pair(hi@, hj@, a as int),
                !found ==> forall|j: int| 0 <= j < b ==> #[trigger] hj@[j] == hi@[a as int],
            decreases hj@.len() - b,
        {
            if hj[b] != hi[a] {
                proof {
                    assert(hj@[b as int] != hi@[a as int]);
                    assert(can_pair(hi@, hj@, a as int));
                }
                found = true;
            }
            b = b + 1;
        }
        if !found {
            proof {
                assert(!cell_samplable(hi@, hj@)) by {
                    if cell_samplable(hi@, hj@) {
                        assert(can_pair(hi@, hj@, a as int));
                        let w = choose|w: int| 0 <= w < hj@.len() && hj@[w] != hi@[a as int];
                        assert(hj@[w] == hi@[a as int]);
                    }
                }
            }
            return false;
        }
        a = a + 1;
    }
    proof {
        assert(cell_samplable(hi@, hj@));
    }
    true
}

/// The weight that position `j` of a cumulative-sum sequence carries.
pub open spec fn weight_at(cs: Seq<u64>, j: int) -> int {
    cs[j] - if j > 0 {
        cs[j - 1] as int
    } else {
        0
    }
}

/// Partial sums of a matrix with nonnegative cells grow monotonically.
proof fn lemma_msum_monotone(m: Tor2TorMatrix, k: int, l: int)
    requires
        0 <= k <= l,
    ensures
        spec_msum(m, k) <= spec_msum(m, l),
    decreases l - k,
{
    if k < l {
        lemma_msum_monotone(m, k, l - 1);
    }
}

/// Index of the first association entry whose name reads `target`.
fn find_assoc_tor(assoc: &Vec<(String, NodeId)>, target: &String) -> (r: Option<NodeId>)
    ensures
        r matches Some(id) ==> exists|j: int|
            0 <= j < assoc@.len() && (#[trigger] assoc@[j]).0@ == target@ && assoc@[j].1 == id,
{
    let mut i: usize = 0;
    while i < assoc.len()
        invariant
            i <= assoc@.len(),
        decreases assoc@.len() - i,
    {
        if assoc[i].0 == *target {
            proof {
                assert((assoc@[i as int]).0@ == target@);
            }
            return Some(assoc[i].1);
        }
        i = i + 1;
    }
    None
}

/// Index of the association entry keyed by `key`.
fn find_assoc_hosts(assoc: &Vec<(NodeId, Vec<NodeId>)>, key: NodeId) -> (r: Option<usize>)
    ensures
        r matches Some(j) ==> j < assoc@.len() && assoc@[j as int].0 == key,
{
    let mut i: usize = 0;
    while i < assoc.len()
        invariant
            i <= assoc@.len(),
        decreases assoc@.len() - i,
    {
        if assoc[i].0 == key {
            return Some(i);
        }
        i = i + 1;
    }
    None
}

/// Copies a list of identities.
fn copy_ids(src: &Vec<NodeId>) -> (r: Vec<NodeId>)
    ensures
        r@ == src@,
{
    let mut out: Vec<NodeId> = Vec::new();
    let mut i: usize = 0;
    while i < src.len()
        invariant
            i <= src@.len(),
            out@ == src@.take(i as int),
        decreases src@.len() - i,
    {
        out.push(src[i]);
        proof {
            assert(out@ =~= src@.take(i + 1));
        }
        i = i + 1;
    }
    proof {
        assert(out@ =~= src@);
    }
    out
}

impl SpatialData {
    /// Binds the matrix to one cluster: computes the cumulative sums of
    /// the flattened matrix, assigns each trace pod a topology pod in
    /// order, shuffles each pod's trace racks onto the pod's physical ToR
    /// slots uniformly at random, and resolves every rack index to the
    /// host identities under its assigned ToR.
    ///
    /// Fails when the trace's pod count differs from the cluster's, when
    /// the matrix carries no traffic at all, when the total traffic
    /// overflows the counter, and — defensively, since the slot assignment
    /// is random — when a rack got no slot or a weighted cell admits only
    /// self-flows.
    #[verifier::rlimit(100)]
    pub fn map_to(&self, cluster: &Cluster, rng: &mut rand::rngs::StdRng) -> (r: Result<
        SpatialWorkload,
        Error,
    >)
        requires
            self.matrix.wf(),
        ensures
            (r == Err::<SpatialWorkload, Error>(Error::WorkloadClusterMismatch)) == (
            self.pod2tors@.len() != cluster.pods@.len()),
            (r == Err::<SpatialWorkload, Error>(Error::ZeroTraffic)) == (self.pod2tors@.len()
                == cluster.pods@.len() && spec_msum(
                self.matrix,
                self.matrix.spec_dim() * self.matrix.spec_dim(),
            ) == 0),
            (r == Err::<SpatialWorkload, Error>(Error::Overflow)) == (self.pod2tors@.len()
                == cluster.pods@.len() && spec_msum(
                self.matrix,
                self.matrix.spec_dim() * self.matrix.spec_dim(),
            ) > u64::MAX),
            match r {
                Ok(wk) => {
                    &&& wk.wf()
                    &&& self.pod2tors@.len() == cluster.pods@.len()
                    &&& wk.dim == self.matrix.spec_dim()
                    &&& wk.cumsum@.len() == self.matrix.spec_dim() * self.matrix.spec_dim()
                    &&& forall|k: int|
                        0 <= k < wk.cumsum@.len() ==> #[trigger] wk.spec_cell_weight(k)
                            == self.matrix.inner@[k / self.matrix.spec_dim()]@[k
                            % self.matrix.spec_dim()]
                    &&& wk.idx2hosts@.len() == self.matrix.idx2name@.len()
                    &&& forall|x: int, h: int|
                        #![trigger wk.idx2hosts@[x]@[h]]
                        0 <= x < wk.idx2hosts@.len() && 0 <= h < wk.idx2hosts@[x]@.len()
                            ==> cluster_lists_host(*cluster, wk.idx2hosts@[x]@[h])
                },
                Err(Error::WorkloadClusterMismatch) => true,
                Err(Error::ZeroTraffic) => true,
                Err(Error::Overflow) => true,
                Err(Error::UnsamplablePair) => true,
                Err(Error::UnassignedRack) => true,
                Err(_) => false,
            },
    {
        if self.pod2tors.len() != cluster.pods.len() {
            return Err(Error::WorkloadClusterMismatch);
        }
        let dim = self.matrix.dim();

        // Cumulative sums over the flattened matrix.
        let mut cumsum: Vec<u64> = Vec::new();
        let mut acc: u64 = 0;
        let mut a: usize = 0;
        while a < dim
            invariant
                self.pod2tors@.len() == cluster.pods@.len(),
                a <= dim,
                dim == self.matrix.spec_dim(),
                self.matrix.wf(),
                cumsum@.len() == a * dim,
                acc == spec_msum(self.matrix, (a * (dim as int))),
                forall|j: int|
                    0 <= j < cumsum@.len() ==> #[trigger] cumsum@[j] == spec_msum(
                        self.matrix,
                        j + 1,
                    ),
            decreases dim - a,
        {
            let mut b: usize = 0;
            while b < dim
                invariant
                    self.pod2tors@.len() == cluster.pods@.len(),
                    a < dim,
                    b <= dim,
                    dim == self.matrix.spec_dim(),
                    self.matrix.wf(),
                    cumsum@.len() == a * dim + b,
                    acc == spec_msum(self.matrix, (a * (dim as int) + b)),
                    forall|j: int|
                        0 <= j < cumsum@.len() ==> #[trigger] cumsum@[j] == spec_msum(
                            self.matrix,
                            j + 1,
                        ),
                decreases dim - b,
            {
                proof {
                    assert(a * (dim as int) + b < (dim as int) * (dim as int) && 0 <= a * (
                    dim as int) + b) by (nonlinear_arith)
                        requires
                            0 <= a && (a as int) < dim as int,
                            0 <= b && (b as int) < dim as int,
                    ;
                    lemma_flat_coords(dim as int, a as int, b as int);
                }
                let w = self.matrix.inner[a][b];
                acc = match acc.checked_add(w) {
                    Some(v) => v,
                    None => {
                        proof {
                            let k = a * (dim as int) + b;
                            lemma_msum_monotone(
                                self.matrix,
                                k + 1,
                                (dim as int) * (dim as int),
                            );
                        }
                        return Err(Error::Overflow);
                    },
                };
                cumsum.push(acc);
                b = b + 1;
            }
            proof {
                assert(a * (dim as int) + dim == (a + 1) * (dim as int)) by (nonlinear_arith);
            }
            a = a + 1;
        }
        proof {
            assert(cumsum@.len() == (dim as int) * (dim as int)) by (nonlinear_arith)
                requires cumsum@.len() == (dim as int) * (dim as int);
        }
        if acc == 0 {
            return Err(Error::ZeroTraffic);
        }
        proof {
            assert(spec_msum(self.matrix, self.matrix.spec_dim() * self.matrix.spec_dim())
                == acc);
            if dim == 0 {
                assert((dim as int) * (dim as int) == 0) by (nonlinear_arith)
                    requires dim == 0;
                assert(acc == spec_msum(self.matrix, 0));
                assert(false);
            }
        }

        // Shuffle each pod's ToR slots and assign its trace racks.
        let mut name2tor: Vec<(String, NodeId)> = Vec::new();
        let mut p: usize = 0;
        while p < self.pod2tors.len()
            invariant
                p <= self.pod2tors@.len(),
                self.pod2tors@.len() == cluster.pods@.len(),
            decreases self.pod2tors@.len() - p,
        {
            let mut tor_ids: Vec<NodeId> = Vec::new();
            let mut t: usize = 0;
            while t < cluster.pods[p].racks.len()
                invariant
                    p < cluster.pods@.len(),
                    t <= cluster.pods@[p as int].racks@.len(),
                decreases cluster.pods@[p as int].racks@.len() - t,
            {
                tor_ids.push(cluster.pods[p].racks[t].tor.id);
                t = t + 1;
            }
            crate::rng::shuffle_ids(rng, &mut tor_ids);
            let names = &self.pod2tors[p].1;
            let mut t: usize = 0;
            while t < names.len() && t < tor_ids.len()
                invariant
                    p < self.pod2tors@.len(),
                    t <= names@.len(),
                    t <= tor_ids@.len(),
                decreases names@.len() - t,
            {
                name2tor.push((names[t].clone(), tor_ids[t]));
                t = t + 1;
            }
            p = p + 1;
        }

        // The hosts under every physical ToR.
        let mut tor2hosts: Vec<(NodeId, Vec<NodeId>)> = Vec::new();
        let mut p: usize = 0;
        while p < cluster.pods.len()
            invariant
                p <= cluster.pods@.len(),
                forall|j: int, h: int|
                    #![trigger tor2hosts@[j].1@[h]]
                    0 <= j < tor2hosts@.len() && 0 <= h < tor2hosts@[j].1@.len()
                        ==> cluster_lists_host(*cluster, tor2hosts@[j].1@[h]),
            decreases cluster.pods@.len() - p,
        {
            let mut rk: usize = 0;
            while rk < cluster.pods[p].racks.len()
                invariant
                    p < cluster.pods@.len(),
                    rk <= cluster.pods@[p as int].racks@.len(),
                    forall|j: int, h: int|
                        #![trigger tor2hosts@[j].1@[h]]
                        0 <= j < tor2hosts@.len() && 0 <= h < tor2hosts@[j].1@.len()
                            ==> cluster_lists_host(*cluster, tor2hosts@[j].1@[h]),
                decreases cluster.pods@[p as int].racks@.len() - rk,
            {
                let mut hosts: Vec<NodeId> = Vec::new();
                let mut h: usize = 0;
                while h < cluster.pods[p].racks[rk].hosts.len()
                    invariant
                        p < cluster.pods@.len(),
                        rk < cluster.pods@[p as int].racks@.len(),
                        h <= cluster.pods@[p as int].racks@[rk as int].hosts@.len(),
                        forall|x: int|
                            0 <= x < hosts@.len() ==> cluster_lists_host(
                                *cluster,
                                #[trigger] hosts@[x],
                            ),
                    decreases cluster.pods@[p as int].racks@[rk as int].hosts@.len() - h,
                {
                    hosts.push(cluster.pods[p].racks[rk].hosts[h].id);
                    h = h + 1;
                }
                let ghost before = tor2hosts@;
                tor2hosts.push((cluster.pods[p].racks[rk].tor.id, hosts));
                proof {
                    assert forall|j: int, hh: int|
                        #![trigger tor2hosts@[j].1@[hh]]
                        0 <= j < tor2hosts@.len() && 0 <= hh < tor2hosts@[j].1@.len()
                        implies cluster_lists_host(*cluster, tor2hosts@[j].1@[hh]) by {
                        if j < before.len() {
                            assert(tor2hosts@[j] == before[j]);
                            assert(cluster_lists_host(*cluster, before[j].1@[hh]));
                        }
                    }
                }
                rk = rk + 1;
            }
            p = p + 1;
        }

        // Resolve every rack index to the hosts of its assigned slot.
        let mut idx2hosts: Vec<Vec<NodeId>> = Vec::new();
        let mut x: usize = 0;
        while x < self.matrix.idx2name.len()
            invariant
                self.pod2tors@.len() == cluster.pods@.len(),
                0 < spec_msum(self.matrix, self.matrix.spec_dim() * self.matrix.spec_dim())
                    <= u64::MAX,
                x <= self.matrix.idx2name@.len(),
                idx2hosts@.len() == x,
                forall|j: int, h: int|
                    #![trigger tor2hosts@[j].1@[h]]
                    0 <= j < tor2hosts@.len() && 0 <= h < tor2hosts@[j].1@.len()
                        ==> cluster_lists_host(*cluster, tor2hosts@[j].1@[h]),
                forall|y: int, h: int|
                    #![trigger idx2hosts@[y]@[h]]
                    0 <= y < idx2hosts@.len() && 0 <= h < idx2hosts@[y]@.len()
                        ==> cluster_lists_host(*cluster, idx2hosts@[y]@[h]),
            decreases self.matrix.idx2name@.len() - x,
        {
            let tor = match find_assoc_tor(&name2tor, &self.matrix.idx2name[x]) {
                Some(t) => t,
                None => {
                    return Err(Error::UnassignedRack);
                },
            };
            let hj = match find_assoc_hosts(&tor2hosts, tor) {
                Some(j) => j,
                None => {
                    return Err(Error::UnassignedRack);
                },
            };
            let hosts = copy_ids(&tor2hosts[hj].1);
            let ghost before = idx2hosts@;
            idx2hosts.push(hosts);
            proof {
                assert forall|y: int, h: int|
                    #![trigger idx2hosts@[y]@[h]]
                    0 <= y < idx2hosts@.len() && 0 <= h < idx2hosts@[y]@.len()
                    implies cluster_lists_host(*cluster, idx2hosts@[y]@[h]) by {
                    if y < before.len() {
                        assert(idx2hosts@[y] == before[y]);
                        assert(cluster_lists_host(*cluster, before[y]@[h]));
                    } else {
                        assert(idx2hosts@[y]@[h] == tor2hosts@[hj as int].1@[h]);
                    }
                }
            }
            x = x + 1;
        }

        // Every weighted cell must admit a pair of distinct hosts.
        let n = cumsum.len();
        let mut k: usize = 0;
        while k < n
            invariant
                self.pod2tors@.len() == cluster.pods@.len(),
                0 < spec_msum(self.matrix, self.matrix.spec_dim() * self.matrix.spec_dim())
                    <= u64::MAX,
                k <= n,
                n == cumsum@.len(),
                n == (dim as int) * (dim as int),
                dim == self.matrix.spec_dim(),
                dim >= 1,
                forall|j: int|
                    0 <= j < cumsum@.len() ==> #[trigger] cumsum@[j] == spec_msum(
                        self.matrix,
                        j + 1,
                    ),
                forall|j: int|
                    0 <= j < k && #[trigger] weight_at(cumsum@, j) > 0 ==> j / (dim as int)
                        < idx2hosts@.len() && j % (dim as int) < idx2hosts@.len()
                        && cell_samplable(
                        idx2hosts@[j / (dim as int)]@,
                        idx2hosts@[j % (dim as int)]@,
                    ),
            decreases n - k,
        {
            let prev: u64 = if k > 0 {
                cumsum[k - 1]
            } else {
                0
            };
            if cumsum[k] > prev {
                proof {
                    lemma_flat_coords_bounds(dim as int, k as int);
                }
                let row = k / dim;
                let col = k % dim;
                if row >= idx2hosts.len() || col >= idx2hosts.len() {
                    return Err(Error::UnsamplablePair);
                }
                if !check_samplable(&idx2hosts[row], &idx2hosts[col]) {
                    return Err(Error::UnsamplablePair);
                }
            }
            k = k + 1;
        }

        let ghost cs = cumsum@;
        proof {
            assert forall|u: int, v: int|
                0 <= u <= v < cs.len() implies (#[trigger] cs[u]) <= (#[trigger] cs[v]) by {
                assert(cs[u] == spec_msum(self.matrix, u + 1));
                assert(cs[v] == spec_msum(self.matrix, v + 1));
                lemma_msum_monotone(self.matrix, u + 1, v + 1);
            }
        }
        let wk = SpatialWorkload { dim, cumsum, idx2hosts };
        proof {
            assert(wk.cumsum@ == cs);
            assert(wk.cumsum@[wk.cumsum@.len() - 1] == acc);
            assert forall|j: int|
                0 <= j < wk.cumsum@.len() implies #[trigger] wk.spec_cell_weight(j)
                == self.matrix.inner@[j / self.matrix.spec_dim()]@[j
                % self.matrix.spec_dim()] by {
                lemma_flat_coords_bounds(dim as int, j);
                assert(cs[j] == spec_msum(self.matrix, j + 1));
                assert(spec_msum(self.matrix, j + 1) == spec_msum(self.matrix, j)
                    + self.matrix.inner@[j / (dim as int)]@[j % (dim as int)]);
                if j > 0 {
                    assert(cs[j - 1] == spec_msum(self.matrix, j));
                } else {
                    assert(spec_msum(self.matrix, 0) == 0);
                }
            }
            assert forall|j: int|
                0 <= j < wk.cumsum@.len() && #[trigger] wk.spec_cell_weight(j) > 0 implies j / (
            wk.dim as int) < wk.idx2hosts@.len() && j % (wk.dim as int) < wk.idx2hosts@.len()
                && cell_samplable(
                wk.idx2hosts@[j / (wk.dim as int)]@,
                wk.idx2hosts@[j % (wk.dim as int)]@,
            ) by {
                assert(weight_at(cs, j) > 0);
            }
            assert(wk.wf());
        }
        Ok(wk)
    }
}

// ------------------------------------------------------------------
// Downsampling to a smaller scenario.
// ------------------------------------------------------------------

/// `sub` is `orig` restricted to the rack indices `keep`, in order.
pub open spec fn is_submatrix(sub: Tor2TorMatrix, orig: Tor2TorMatrix, keep: Seq<int>) -> bool {
    &&& sub.inner@.len() == keep.len()
    &&& sub.idx2name@.len() == keep.len()
    &&& forall|a: int| 0 <= a < keep.len() ==> 0 <= #[trigger] keep[a] < orig.idx2name@.len()
    &&& forall|a: int|
        0 <= a < keep.len() ==> (#[trigger] sub.idx2name@[a])@ == orig.idx2name@[keep[a]]@
    &&& forall|a: int, b: int|
        #![trigger sub.inner@[a]@[b]]
        0 <= a < keep.len() && 0 <= b < keep.len() ==> sub.inner@[a]@[b]
            == orig.inner@[keep[a]]@[keep[b]]
}

/// Strictly ascending indices.
pub open spec fn strictly_ascending(keep: Seq<int>) -> bool {
    forall|a: int, b: int| 0 <= a < b < keep.len() ==> #[trigger] keep[a] < #[trigger] keep[b]
}

/// Some pod of the grouping lists a rack with this name.
pub open spec fn spec_kept_name(g: Seq<(String, Vec<String>)>, nm: Seq<char>) -> bool {
    exists|p: int, t: int|
        0 <= p < g.len() && 0 <= t < (#[trigger] g[p]).1@.len() && (#[trigger] g[p].1@[t])@ == nm
}

/// All rack names of the grouping are pairwise distinct, across pods too.
pub open spec fn groups_racks_globally_distinct(g: Seq<(String, Vec<String>)>) -> bool {
    forall|p: int, t: int, q: int, u: int|
        #![trigger g[p].1@[t], g[q].1@[u]]
        0 <= p < g.len() && 0 <= t < g[p].1@.len() && 0 <= q < g.len() && 0 <= u < g[q].1@.len()
            && !(p == q && t == u) ==> g[p].1@[t]@ != g[q].1@[u]@
}

/// `entry` is pod `q` of the grouping, restricted to racks of that pod's
/// own list.
pub open spec fn kept_from(g: Seq<(String, Vec<String>)>, entry: (String, Vec<String>), q: int) -> bool {
    &&& 0 <= q < g.len()
    &&& entry.0@ == g[q].0@
    &&& forall|t: int| 0 <= t < entry.1@.len() ==> g[q].1@.contains(#[trigger] entry.1@[t])
}

/// `entry` restricts some pod of the grouping to racks of its own list.
pub open spec fn group_drawn_from(g: Seq<(String, Vec<String>)>, entry: (String, Vec<String>)) -> bool {
    exists|q: int| kept_from(g, entry, q)
}

/// Some pod of the grouping carries this key.
pub open spec fn key_of_some_group(g: Seq<(String, Vec<String>)>, key: Seq<char>) -> bool {
    exists|q: int| 0 <= q < g.len() && (#[trigger] g[q]).0@ == key
}

/// From the lean construction facts — each kept group draws on its own pod
/// of the data, their keys are pairwise distinct, and the flat chosen list
/// is their concatenation — every set-level fact of the choice follows:
/// the chosen names are pairwise distinct, mirror the kept groups, and
/// each is a rack name of the data.
#[verifier::rlimit(100)]
#[verifier::spinoff_prover]
proof fn lemma_picked_facts(
    groups: Seq<(String, Vec<String>)>,
    kept: Seq<(String, Vec<String>)>,
    chosen: Seq<String>,
    ntpp: int,
)
    requires
        groups_racks_globally_distinct(groups),
        ntpp >= 1,
        forall|a: int, b: int|
            0 <= a < b < kept.len() ==> (#[trigger] kept[a]).0@ != (#[trigger] kept[b]).0@,
        forall|j: int| 0 <= j < kept.len() ==> (#[trigger] kept[j]).1@.len() == ntpp,
        forall|j: int| 0 <= j < kept.len() ==> (#[trigger] kept[j]).1@.no_duplicates(),
        forall|j: int| 0 <= j < kept.len() ==> #[trigger] group_drawn_from(groups, kept[j]),
        chosen == kept.flat_map(group_tors_fn()),
    ensures
        chosen.len() == kept.len() * ntpp,
        forall|i: int, j: int|
            #![trigger chosen[i], chosen[j]]
            0 <= i < j < chosen.len() ==> chosen[i]@ != chosen[j]@,
        forall|i: int|
            0 <= i < chosen.len() ==> #[trigger] spec_kept_name(groups, chosen[i]@),
{
    assert forall|j: int| 0 <= j < kept.len() implies (#[trigger] group_tors_fn()(
        kept[j],
    )).len() == ntpp by {
        assert(group_tors_fn()(kept[j]) == kept[j].1@);
    }
    crate::seqs::lemma_flat_map_uniform(kept, group_tors_fn(), ntpp);
    // Where each chosen name comes from.
    assert forall|i: int|
        0 <= i < chosen.len() implies #[trigger] chosen[i] == kept[i / ntpp].1@[i % ntpp] && 0
            <= i / ntpp < kept.len() && 0 <= i % ntpp < ntpp by {
        vstd::arithmetic::div_mod::lemma_fundamental_div_mod(i, ntpp);
        vstd::arithmetic::div_mod::lemma_mod_bound(i, ntpp);
        assert(i < ntpp * kept.len()) by (nonlinear_arith)
            requires i < kept.len() * ntpp;
        vstd::arithmetic::div_mod::lemma_multiply_divide_lt(i, ntpp, kept.len() as int);
        assert(i / ntpp >= 0) by (nonlinear_arith)
            requires
                i == ntpp * (i / ntpp) + i % ntpp,
                0 <= i % ntpp < ntpp,
                i >= 0,
                ntpp >= 1,
        ;
        assert(chosen[i] == group_tors_fn()(kept[i / ntpp])[i % ntpp]);
    }
    // Each chosen name is a rack name of its own pod of the data.
    assert forall|i: int|
        0 <= i < chosen.len() implies #[trigger] spec_kept_name(groups, chosen[i]@) by {
        vstd::arithmetic::div_mod::lemma_fundamental_div_mod(i, ntpp);
        vstd::arithmetic::div_mod::lemma_mod_bound(i, ntpp);
        assert(i < ntpp * kept.len()) by (nonlinear_arith)
            requires i < kept.len() * ntpp;
        vstd::arithmetic::div_mod::lemma_multiply_divide_lt(i, ntpp, kept.len() as int);
        assert(i / ntpp >= 0) by (nonlinear_arith)
            requires
                i == ntpp * (i / ntpp) + i % ntpp,
                0 <= i % ntpp < ntpp,
                i >= 0,
                ntpp >= 1,
        ;
        assert(chosen[i] == group_tors_fn()(kept[i / ntpp])[i % ntpp]);
        assert(chosen[i] == kept[i / ntpp].1@[i % ntpp]);
        let j2 = i / ntpp;
        assert(group_drawn_from(groups, kept[j2]));
        let q = choose|q: int| kept_from(groups, kept[j2], q);
        assert(groups[q].1@.contains(kept[j2].1@[i % ntpp]));
        let u = choose|u: int|
            0 <= u < groups[q].1@.len() && groups[q].1@[u] == kept[j2].1@[i % ntpp];
        assert(groups[q].1@[u]@ == chosen[i]@);
    }
    // Distinct positions carry distinct names: within one pod because its
    // racks are distinct, across pods because names never repeat.
    assert forall|i: int, j: int|
        #![trigger chosen[i], chosen[j]]
        0 <= i < j < chosen.len() implies chosen[i]@ != chosen[j]@ by {
        vstd::arithmetic::div_mod::lemma_fundamental_div_mod(i, ntpp);
        vstd::arithmetic::div_mod::lemma_mod_bound(i, ntpp);
        assert(i < ntpp * kept.len()) by (nonlinear_arith)
            requires i < kept.len() * ntpp;
        vstd::arithmetic::div_mod::lemma_multiply_divide_lt(i, ntpp, kept.len() as int);
        assert(i / ntpp >= 0) by (nonlinear_arith)
            requires
                i == ntpp * (i / ntpp) + i % ntpp,
                0 <= i % ntpp < ntpp,
                i >= 0,
                ntpp >= 1,
        ;
        assert(chosen[i] == group_tors_fn()(kept[i / ntpp])[i % ntpp]);
        assert(chosen[i] == kept[i / ntpp].1@[i % ntpp]);
        vstd::arithmetic::div_mod::lemma_fundamental_div_mod(j, ntpp);
        vstd::arithmetic::div_mod::lemma_mod_bound(j, ntpp);
        assert(j < ntpp * kept.len()) by (nonlinear_arith)
            requires j < kept.len() * ntpp;
        vstd::arithmetic::div_mod::lemma_multiply_divide_lt(j, ntpp, kept.len() as int);
        assert(j / ntpp >= 0) by (nonlinear_arith)
            requires
                j == ntpp * (j / ntpp) + j % ntpp,
                0 <= j % ntpp < ntpp,
                j >= 0,
                ntpp >= 1,
        ;
        assert(chosen[j] == group_tors_fn()(kept[j / ntpp])[j % ntpp]);
        assert(chosen[j] == kept[j / ntpp].1@[j % ntpp]);
        let (j1, t1) = (i / ntpp, i % ntpp);
        let (j2, t2) = (j / ntpp, j % ntpp);
        assert(group_drawn_from(groups, kept[j1]));
        assert(group_drawn_from(groups, kept[j2]));
        let q1 = choose|q: int| kept_from(groups, kept[j1], q);
        let q2 = choose|q: int| kept_from(groups, kept[j2], q);
        assert(groups[q1].1@.contains(kept[j1].1@[t1]));
        assert(groups[q2].1@.contains(kept[j2].1@[t2]));
        let u1 = choose|u: int|
            0 <= u < groups[q1].1@.len() && groups[q1].1@[u] == kept[j1].1@[t1];
        let u2 = choose|u: int|
            0 <= u < groups[q2].1@.len() && groups[q2].1@[u] == kept[j2].1@[t2];
        if j1 == j2 {
            assert(i % ntpp != j % ntpp) by (nonlinear_arith)
                requires
                    i != j,
                    i == ntpp * (i / ntpp) + i % ntpp,
                    j == ntpp * (j / ntpp) + j % ntpp,
                    i / ntpp == j / ntpp,
            ;
            assert(kept[j1].1@[t1] != kept[j1].1@[t2]);
            if u1 == u2 {
                assert(kept[j1].1@[t1] == kept[j2].1@[t2]);
            } else {
                assert(groups[q1].1@[u1]@ != groups[q1].1@[u2]@);
            }
        } else {
            assert(kept[j1].0@ != kept[j2].0@);
            if q1 == q2 {
                assert(kept[j1].0@ == kept[j2].0@);
            }
            assert(groups[q1].1@[u1]@ != groups[q2].1@[u2]@);
        }
    }
}

/// Chooses `nr_pods` pods at random and, within each, `nr_tors_per_pod`
/// racks at random: the kept groups, and the flat list of every chosen
/// rack name.
#[verifier::rlimit(100)]
#[verifier::spinoff_prover]
fn pick_racks(
    groups: &Vec<(String, Vec<String>)>,
    nr_pods: usize,
    nr_tors_per_pod: usize,
    rng: &mut rand::rngs::StdRng,
) -> (r: (Vec<(String, Vec<String>)>, Vec<String>))
    requires
        groups_wf(groups@),
        groups_racks_globally_distinct(groups@),
        nr_pods <= groups@.len(),
        nr_tors_per_pod >= 1,
        forall|p: int|
            0 <= p < groups@.len() ==> (#[trigger] groups@[p]).1@.len() >= nr_tors_per_pod,
    ensures
        ({
            let (kept, chosen) = r;
            &&& kept@.len() == nr_pods
            &&& forall|j: int|
                0 <= j < nr_pods ==> (#[trigger] kept@[j]).1@.len() == nr_tors_per_pod
            &&& forall|j: int|
                0 <= j < nr_pods ==> #[trigger] group_drawn_from(groups@, kept@[j])
            &&& forall|a: int, b: int|
                0 <= a < b < nr_pods ==> (#[trigger] kept@[a]).0@ != (#[trigger] kept@[b]).0@
            &&& chosen@.len() == nr_pods * nr_tors_per_pod
            &&& forall|i: int, j: int|
                #![trigger chosen@[i], chosen@[j]]
                0 <= i < j < chosen@.len() ==> chosen@[i]@ != chosen@[j]@
            &&& forall|i: int|
                0 <= i < chosen@.len() ==> #[trigger] spec_kept_name(kept@, chosen@[i]@)
            &&& forall|j2: int, t: int|
                #![trigger kept@[j2].1@[t]]
                0 <= j2 < nr_pods && 0 <= t < kept@[j2].1@.len() ==> spec_rack_listed(
                    chosen@,
                    kept@[j2].1@[t]@,
                )
            &&& forall|i: int|
                0 <= i < chosen@.len() ==> #[trigger] spec_kept_name(groups@, chosen@[i]@)
        }),
{
    // Choose which pods to keep.
    let mut keys: Vec<String> = Vec::new();
    let mut p: usize = 0;
    while p < groups.len()
        invariant
            p <= groups@.len(),
            keys@.len() == p,
            forall|j: int| 0 <= j < p ==> (#[trigger] keys@[j]) == groups@[j].0,
        decreases groups@.len() - p,
    {
        keys.push(groups[p].0.clone());
        p = p + 1;
    }
    proof {
        assert forall|a: int, b: int| 0 <= a < b < keys@.len() implies keys@[a] != keys@[b] by {
            assert(groups@[a].0@ != groups@[b].0@);
        }
        assert(keys@.no_duplicates());
    }
    let chosen_pods = crate::rng::choose_multiple_strings(rng, &keys, nr_pods);
    proof {
        assert forall|a: int, b: int|
            0 <= a < b < chosen_pods@.len() implies (#[trigger] chosen_pods@[a])@ != (
        #[trigger] chosen_pods@[b])@ by {
            assert(chosen_pods@[a] != chosen_pods@[b]);
            let ja = choose|j: int| 0 <= j < keys@.len() && keys@[j] == chosen_pods@[a];
            let jb = choose|j: int| 0 <= j < keys@.len() && keys@[j] == chosen_pods@[b];
            if ja == jb {
                assert(chosen_pods@[a] == chosen_pods@[b]);
            } else if ja < jb {
                assert(groups@[ja].0@ != groups@[jb].0@);
            } else {
                assert(groups@[jb].0@ != groups@[ja].0@);
            }
        }
        assert forall|j: int|
            0 <= j < chosen_pods@.len() implies #[trigger] key_of_some_group(
            groups@,
            chosen_pods@[j]@,
        ) by {
            assert(keys@.contains(chosen_pods@[j]));
            let q = choose|q: int| 0 <= q < keys@.len() && keys@[q] == chosen_pods@[j];
            assert(groups@[q].0@ == chosen_pods@[j]@);
        }
    }

    // Within each kept pod, choose which racks to keep. The flat list of
    // chosen names is kept in step with the kept groups.
    let mut kept: Vec<(String, Vec<String>)> = Vec::new();
    let mut chosen: Vec<String> = Vec::new();
    let mut c: usize = 0;
    while c < chosen_pods.len()
        invariant
            c <= chosen_pods@.len(),
            chosen_pods@.len() == nr_pods,
            groups_wf(groups@),
            forall|a: int, b: int|
                0 <= a < b < chosen_pods@.len() ==> (#[trigger] chosen_pods@[a])@ != (
                #[trigger] chosen_pods@[b])@,
            forall|j: int|
                0 <= j < chosen_pods@.len() ==> #[trigger] key_of_some_group(
                    groups@,
                    chosen_pods@[j]@,
                ),
            forall|p2: int|
                0 <= p2 < groups@.len() ==> (#[trigger] groups@[p2]).1@.len()
                    >= nr_tors_per_pod,
            kept@.len() == c,
            forall|j: int| 0 <= j < c ==> (#[trigger] kept@[j]).0@ == chosen_pods@[j]@,
            forall|j: int| 0 <= j < c ==> (#[trigger] kept@[j]).1@.len() == nr_tors_per_pod,
            forall|j: int| 0 <= j < c ==> (#[trigger] kept@[j]).1@.no_duplicates(),
            forall|j: int| 0 <= j < c ==> #[trigger] group_drawn_from(groups@, kept@[j]),
            chosen@ == kept@.flat_map(group_tors_fn()),
            forall|i: int|
                0 <= i < chosen@.len() ==> #[trigger] spec_kept_name(kept@, chosen@[i]@),
            forall|j2: int, t: int|
                #![trigger kept@[j2].1@[t]]
                0 <= j2 < c && 0 <= t < kept@[j2].1@.len() ==> spec_rack_listed(
                    chosen@,
                    kept@[j2].1@[t]@,
                ),
        decreases chosen_pods@.len() - c,
    {
        let ghost name = chosen_pods@[c as int];
        let group = match find_group(groups, &chosen_pods[c]) {
            Some(g) => g,
            None => {
                proof {
                    assert(key_of_some_group(groups@, name@));
                    let q = choose|q: int|
                        0 <= q < groups@.len() && (#[trigger] groups@[q]).0@ == name@;
                    assert(false);
                }
                0
            },
        };
        let picked = crate::rng::choose_multiple_strings(rng, &groups[group].1, nr_tors_per_pod);
        proof {
            // Racks of one pod are pairwise distinct, so the picks are.
            assert forall|a: int, b: int|
                0 <= a < b < groups@[group as int].1@.len() implies groups@[group
                as int].1@[a] != groups@[group as int].1@[b] by {
                assert(groups@[group as int].1@[a]@ != groups@[group as int].1@[b]@);
            }
            assert(groups@[group as int].1@.no_duplicates());
        }
        let ghost prev_chosen = chosen@;
        let ghost prev_kept = kept@;
        let mut t: usize = 0;
        while t < picked.len()
            invariant
                t <= picked@.len(),
                chosen@ == prev_chosen + picked@.take(t as int),
            decreases picked@.len() - t,
        {
            chosen.push(picked[t].clone());
            proof {
                assert(chosen@ =~= prev_chosen + picked@.take(t + 1));
            }
            t = t + 1;
        }
        proof {
            assert(picked@.take(picked@.len() as int) =~= picked@);
        }
        kept.push((chosen_pods[c].clone(), picked));
        proof {
            prev_kept.lemma_flat_map_push(group_tors_fn(), kept@[c as int]);
            assert(kept@.drop_last() =~= prev_kept);
            assert(kept@ =~= prev_kept.push(kept@[c as int]));
            assert(group_tors_fn()(kept@[c as int]) == kept@[c as int].1@);
            assert(chosen@ =~= kept@.flat_map(group_tors_fn()));
            assert(kept_from(groups@, kept@[c as int], group as int));
            assert forall|j: int|
                0 <= j < c + 1 implies (#[trigger] kept@[j]).1@.len() == nr_tors_per_pod
                && kept@[j].1@.no_duplicates() && group_drawn_from(groups@, kept@[j])
                && kept@[j].0@ == chosen_pods@[j]@ by {
                if j < c {
                    assert(kept@[j] == prev_kept[j]);
                }
            }
            assert forall|i: int|
                0 <= i < chosen@.len() implies #[trigger] spec_kept_name(
                kept@,
                chosen@[i]@,
            ) by {
                if i < prev_chosen.len() {
                    assert(chosen@[i] == prev_chosen[i]);
                    assert(spec_kept_name(prev_kept, prev_chosen[i]@));
                    let (p2, t2) = choose|p2: int, t2: int|
                        0 <= p2 < prev_kept.len() && 0 <= t2 < (
                        #[trigger] prev_kept[p2]).1@.len() && (#[trigger] prev_kept[p2].1@[t2])@
                            == prev_chosen[i]@;
                    assert(kept@[p2] == prev_kept[p2]);
                    assert(kept@[p2].1@[t2]@ == chosen@[i]@);
                } else {
                    let t2 = i - prev_chosen.len();
                    assert(chosen@[i] == kept@[c as int].1@[t2]);
                }
            }
            assert forall|j2: int, t2: int|
                #![trigger kept@[j2].1@[t2]]
                0 <= j2 < c + 1 && 0 <= t2 < kept@[j2].1@.len() implies spec_rack_listed(
                chosen@,
                kept@[j2].1@[t2]@,
            ) by {
                if j2 < c {
                    assert(kept@[j2] == prev_kept[j2]);
                    assert(spec_rack_listed(prev_chosen, prev_kept[j2].1@[t2]@));
                    let w = choose|w: int|
                        0 <= w < prev_chosen.len() && (#[trigger] prev_chosen[w])@
                            == prev_kept[j2].1@[t2]@;
                    assert(chosen@[w]@ == kept@[j2].1@[t2]@);
                } else {
                    let w = prev_chosen.len() + t2;
                    assert(chosen@[w as int]@ == kept@[j2].1@[t2]@);
                }
            }
        }
        c = c + 1;
    }
    proof {
        assert forall|a: int, b: int|
            0 <= a < b < kept@.len() implies (#[trigger] kept@[a]).0@ != (
        #[trigger] kept@[b]).0@ by {
            assert(kept@[a].0@ == chosen_pods@[a]@ && kept@[b].0@ == chosen_pods@[b]@);
        }
        lemma_picked_facts(groups@, kept@, chosen@, nr_tors_per_pod as int);
    }
    (kept, chosen)
}

/// The kept indices are exactly as many as the chosen racks, and an index
/// is kept exactly when its rack name belongs to the kept groups.
#[verifier::rlimit(100)]
#[verifier::spinoff_prover]
proof fn lemma_downsample_keep(
    names: Seq<String>,
    chosen: Seq<String>,
    kept_groups: Seq<(String, Vec<String>)>,
    keep: Seq<usize>,
    total: int,
)
    requires
        names.len() <= usize::MAX,
        forall|x: int, y: int|
            #![trigger names[x], names[y]]
            0 <= x < y < names.len() ==> names[x]@ != names[y]@,
        chosen.len() == total,
        forall|i: int, j: int|
            #![trigger chosen[i], chosen[j]]
            0 <= i < j < chosen.len() ==> chosen[i]@ != chosen[j]@,
        forall|i: int|
            0 <= i < chosen.len() ==> spec_rack_listed(names, (#[trigger] chosen[i])@),
        forall|i: int|
            0 <= i < chosen.len() ==> #[trigger] spec_kept_name(kept_groups, chosen[i]@),
        forall|j2: int, t: int|
            #![trigger kept_groups[j2].1@[t]]
            0 <= j2 < kept_groups.len() && 0 <= t < kept_groups[j2].1@.len()
                ==> spec_rack_listed(chosen, kept_groups[j2].1@[t]@),
        forall|a: int, b: int|
            0 <= a < b < keep.len() ==> (#[trigger] keep[a]) < (#[trigger] keep[b]),
        forall|j: int| 0 <= j < keep.len() ==> (#[trigger] keep[j]) < names.len(),
        forall|j: int|
            0 <= j < keep.len() ==> spec_rack_listed(chosen, names[#[trigger] keep[j] as int]@),
        forall|y: int|
            0 <= y < names.len() && spec_rack_listed(chosen, (#[trigger] names[y])@)
                ==> keep.contains(y as usize),
    ensures
        keep.len() == total,
        forall|x: int|
            0 <= x < names.len() ==> (keep.contains(x as usize) <==> spec_kept_name(
                kept_groups,
                (#[trigger] names[x])@,
            )),
{
    let kv = keep.map_values(|u: usize| names[u as int]@);
    let cv = chosen.map_values(|s2: String| s2@);
    assert forall|i: int, j: int|
        #![trigger kv[i], kv[j]]
        0 <= i < j < kv.len() implies kv[i] != kv[j] by {
        assert(keep[i] < keep[j]);
        assert(names[keep[i] as int]@ != names[keep[j] as int]@);
    }
    assert(kv.no_duplicates());
    assert forall|i: int, j: int|
        #![trigger cv[i], cv[j]]
        0 <= i < j < cv.len() implies cv[i] != cv[j] by {
        assert(chosen[i]@ != chosen[j]@);
    }
    assert(cv.no_duplicates());
    assert forall|i: int| 0 <= i < kv.len() implies cv.contains(#[trigger] kv[i]) by {
        assert(spec_rack_listed(chosen, names[keep[i] as int]@));
        let j = choose|j: int|
            0 <= j < chosen.len() && (#[trigger] chosen[j])@ == names[keep[i] as int]@;
        assert(cv[j] == kv[i]);
    }
    assert forall|j: int| 0 <= j < cv.len() implies kv.contains(#[trigger] cv[j]) by {
        assert(spec_rack_listed(names, chosen[j]@));
        let y = choose|y: int| 0 <= y < names.len() && (#[trigger] names[y])@ == chosen[j]@;
        assert(spec_rack_listed(chosen, names[y]@));
        assert(keep.contains(y as usize));
        let i = choose|i: int| 0 <= i < keep.len() && keep[i] == y as usize;
        assert(kv[i] == names[y]@);
    }
    crate::seqs::lemma_mutual_containment_same_len(kv, cv);
    assert forall|x: int|
        0 <= x < names.len() implies (keep.contains(x as usize) <==> spec_kept_name(
        kept_groups,
        (#[trigger] names[x])@,
    )) by {
        if keep.contains(x as usize) {
            let i = choose|i: int| 0 <= i < keep.len() && keep[i] == x as usize;
            assert(spec_rack_listed(chosen, names[x]@));
            let j = choose|j: int|
                0 <= j < chosen.len() && (#[trigger] chosen[j])@ == names[x]@;
            assert(spec_kept_name(kept_groups, chosen[j]@));
            assert(spec_kept_name(kept_groups, names[x]@));
        }
        if spec_kept_name(kept_groups, names[x]@) {
            let (p2, t2) = choose|p2: int, t2: int|
                0 <= p2 < kept_groups.len() && 0 <= t2 < (
                #[trigger] kept_groups[p2]).1@.len() && (#[trigger] kept_groups[p2].1@[t2])@
                    == names[x]@;
            assert(spec_rack_listed(chosen, kept_groups[p2].1@[t2]@));
            assert(spec_rack_listed(chosen, names[x]@));
            assert(keep.contains(x as usize));
        }
    }
}

impl SpatialData {
    /// Restricts the data to a random choice of `nr_pods` pods and, within
    /// each, a random choice of `nr_tors_per_pod` racks: the matrix keeps
    /// exactly the rows and columns of the kept rack names, in ascending
    /// index order. Used to scale a recorded workload down to a smaller
    /// scenario. The preconditions — enough pods and racks to choose from,
    /// globally distinct rack names, every rack indexed — are what the
    /// construction from a trace provides.
    #[verifier::rlimit(100)]
    #[verifier::spinoff_prover]
    pub fn downsample(
        &self,
        nr_pods: usize,
        nr_tors_per_pod: usize,
        rng: &mut rand::rngs::StdRng,
    ) -> (r: SpatialData)
        requires
            self.matrix.wf(),
            self.matrix.idx2name@.len() <= self.matrix.spec_dim(),
            nr_pods <= self.pod2tors@.len(),
            nr_tors_per_pod >= 1,
            forall|p: int|
                0 <= p < self.pod2tors@.len() ==> (#[trigger] self.pod2tors@[p]).1@.len()
                    >= nr_tors_per_pod,
            groups_wf(self.pod2tors@),
            groups_racks_globally_distinct(self.pod2tors@),
            forall|x: int, y: int|
                #![trigger self.matrix.idx2name@[x], self.matrix.idx2name@[y]]
                0 <= x < y < self.matrix.idx2name@.len() ==> self.matrix.idx2name@[x]@
                    != self.matrix.idx2name@[y]@,
            forall|p: int, t: int|
                #![trigger self.pod2tors@[p].1@[t]]
                0 <= p < self.pod2tors@.len() && 0 <= t < self.pod2tors@[p].1@.len()
                    ==> spec_rack_listed(self.matrix.idx2name@, self.pod2tors@[p].1@[t]@),
        ensures
            r.matrix.wf(),
            r.nr_pods == nr_pods,
            r.pod2tors@.len() == nr_pods,
            forall|p: int|
                0 <= p < r.pod2tors@.len() ==> (#[trigger] r.pod2tors@[p]).1@.len()
                    == nr_tors_per_pod,
            r.nr_racks == r.matrix.idx2name@.len(),
            r.matrix.spec_dim() == r.nr_racks,
            r.nr_racks == nr_pods * nr_tors_per_pod,
            // The kept pods are pods of this data, restricted to racks of
            // their own lists.
            forall|p: int|
                0 <= p < r.pod2tors@.len() ==> #[trigger] group_drawn_from(
                    self.pod2tors@,
                    r.pod2tors@[p],
                ),
            // The matrix keeps exactly the indices whose rack was kept, in
            // ascending order.
            exists|keep: Seq<int>|
                {
                    &&& #[trigger] is_submatrix(r.matrix, self.matrix, keep)
                    &&& strictly_ascending(keep)
                    &&& forall|x: int|
                        0 <= x < self.matrix.idx2name@.len() ==> (keep.contains(x)
                            <==> spec_kept_name(r.pod2tors@, (
                        #[trigger] self.matrix.idx2name@[x])@))
                },
    {
        let (new_groups, chosen_tors) = pick_racks(
            &self.pod2tors,
            nr_pods,
            nr_tors_per_pod,
            rng,
        );
        proof {
            // Every chosen rack is a rack name of the data, so it is
            // listed in the index.
            assert forall|i: int|
                0 <= i < chosen_tors@.len() implies spec_rack_listed(
                self.matrix.idx2name@,
                (#[trigger] chosen_tors@[i])@,
            ) by {
                assert(spec_kept_name(self.pod2tors@, chosen_tors@[i]@));
                let (p, t) = choose|p: int, t: int|
                    0 <= p < self.pod2tors@.len() && 0 <= t < (
                    #[trigger] self.pod2tors@[p]).1@.len() && (
                    #[trigger] self.pod2tors@[p].1@[t])@ == chosen_tors@[i]@;
                assert(spec_rack_listed(self.matrix.idx2name@, self.pod2tors@[p].1@[t]@));
            }
        }

        // Keep exactly the matrix indices whose rack was chosen.
        let ghost names = self.matrix.idx2name@;
        let mut keep: Vec<usize> = Vec::new();
        let mut x: usize = 0;
        while x < self.matrix.idx2name.len()
            invariant
                x <= names.len(),
                names == self.matrix.idx2name@,
                forall|j: int| 0 <= j < keep@.len() ==> (#[trigger] keep@[j]) < x,
                forall|a: int, b: int|
                    0 <= a < b < keep@.len() ==> (#[trigger] keep@[a]) < (#[trigger] keep@[b]),
                forall|j: int|
                    0 <= j < keep@.len() ==> spec_rack_listed(
                        chosen_tors@,
                        names[#[trigger] keep@[j] as int]@,
                    ),
                forall|y: int|
                    0 <= y < x && spec_rack_listed(chosen_tors@, (#[trigger] names[y])@)
                        ==> keep@.contains(y as usize),
            decreases names.len() - x,
        {
            let ghost prev_keep = keep@;
            if name_listed(&chosen_tors, &self.matrix.idx2name[x]) {
                keep.push(x);
            }
            proof {
                assert forall|a2: int, b2: int|
                    0 <= a2 < b2 < keep@.len() implies (#[trigger] keep@[a2]) < (
                #[trigger] keep@[b2]) by {
                    if b2 < prev_keep.len() {
                        assert(keep@[a2] == prev_keep[a2] && keep@[b2] == prev_keep[b2]);
                    } else if keep@.len() > prev_keep.len() {
                        assert(keep@[b2] == x);
                        if a2 < prev_keep.len() {
                            assert(keep@[a2] == prev_keep[a2]);
                        }
                    }
                }
                assert forall|y: int|
                    0 <= y < x + 1 && spec_rack_listed(chosen_tors@, (#[trigger] names[y])@)
                    implies keep@.contains(y as usize) by {
                    if y < x {
                        assert(prev_keep.contains(y as usize));
                        let i = choose|i: int|
                            0 <= i < prev_keep.len() && prev_keep[i] == y as usize;
                        assert(keep@[i] == y as usize);
                    } else {
                        assert(keep@[keep@.len() - 1] == x);
                    }
                }
            }
            x = x + 1;
        }

        // Restrict names and counts to the kept indices.
        let mut new_idx2name: Vec<String> = Vec::new();
        let mut a: usize = 0;
        while a < keep.len()
            invariant
                a <= keep@.len(),
                new_idx2name@.len() == a,
                names == self.matrix.idx2name@,
                forall|j: int| 0 <= j < keep@.len() ==> (#[trigger] keep@[j]) < names.len(),
                forall|j: int|
                    0 <= j < a ==> (#[trigger] new_idx2name@[j])@ == names[keep@[j] as int]@,
            decreases keep@.len() - a,
        {
            new_idx2name.push(self.matrix.idx2name[keep[a]].clone());
            a = a + 1;
        }
        let mut new_inner: Vec<Vec<u64>> = Vec::new();
        let mut a: usize = 0;
        while a < keep.len()
            invariant
                self.matrix.wf(),
                self.matrix.idx2name@.len() <= self.matrix.spec_dim(),
                a <= keep@.len(),
                new_inner@.len() == a,
                forall|j: int|
                    0 <= j < keep@.len() ==> (#[trigger] keep@[j]) < self.matrix.idx2name@.len(),
                forall|j: int| 0 <= j < a ==> (#[trigger] new_inner@[j])@.len() == keep@.len(),
                forall|u: int, v: int|
                    #![trigger new_inner@[u]@[v]]
                    0 <= u < a && 0 <= v < keep@.len() ==> new_inner@[u]@[v]
                        == self.matrix.inner@[keep@[u] as int]@[keep@[v] as int],
            decreases keep@.len() - a,
        {
            let mut row: Vec<u64> = Vec::new();
            let mut b: usize = 0;
            while b < keep.len()
                invariant
                    self.matrix.wf(),
                    self.matrix.idx2name@.len() <= self.matrix.spec_dim(),
                    a < keep@.len(),
                    b <= keep@.len(),
                    row@.len() == b,
                    forall|j: int|
                        0 <= j < keep@.len() ==> (#[trigger] keep@[j])
                            < self.matrix.idx2name@.len(),
                    forall|v: int|
                        0 <= v < b ==> #[trigger] row@[v] == self.matrix.inner@[keep@[a as int]
                            as int]@[keep@[v] as int],
                decreases keep@.len() - b,
            {
                row.push(self.matrix.inner[keep[a]][keep[b]]);
                b = b + 1;
            }
            let ghost prev = new_inner@;
            new_inner.push(row);
            proof {
                assert forall|u: int, v: int|
                    #![trigger new_inner@[u]@[v]]
                    0 <= u < a + 1 && 0 <= v < keep@.len() implies new_inner@[u]@[v]
                    == self.matrix.inner@[keep@[u] as int]@[keep@[v] as int] by {
                    if u < a {
                        assert(new_inner@[u] == prev[u]);
                        assert(prev[u]@[v] == self.matrix.inner@[keep@[u] as int]@[keep@[v]
                            as int]);
                    } else {
                        assert(new_inner@[u]@ == row@);
                    }
                }
                assert forall|j: int| 0 <= j < a + 1 implies (#[trigger] new_inner@[j])@.len()
                    == keep@.len() by {
                    if j < a {
                        assert(new_inner@[j] == prev[j]);
                    }
                }
            }
            a = a + 1;
        }

        let nr_racks = new_idx2name.len();
        proof {
            assert(names.len() <= usize::MAX);
        }
        let sd = SpatialData {
            matrix: Tor2TorMatrix { inner: new_inner, idx2name: new_idx2name },
            pod2tors: new_groups,
            nr_pods,
            nr_racks,
        };
        proof {
            let ks = keep@.map_values(|u: usize| u as int);
            assert forall|i: int| 0 <= i < ks.len() implies 0 <= #[trigger] ks[i]
                < names.len() by {
                assert(ks[i] == keep@[i] as int);
            }
            assert(is_submatrix(sd.matrix, self.matrix, ks)) by {
                assert forall|i: int| 0 <= i < ks.len() implies (
                #[trigger] sd.matrix.idx2name@[i])@ == self.matrix.idx2name@[ks[i]]@ by {
                    assert(ks[i] == keep@[i] as int);
                }
                assert forall|u: int, v: int|
                    #![trigger sd.matrix.inner@[u]@[v]]
                    0 <= u < ks.len() && 0 <= v < ks.len() implies sd.matrix.inner@[u]@[v]
                    == self.matrix.inner@[ks[u]]@[ks[v]] by {
                    assert(ks[u] == keep@[u] as int && ks[v] == keep@[v] as int);
                }
            }
            assert forall|a2: int, b2: int| 0 <= a2 < b2 < ks.len() implies #[trigger] ks[a2]
                < #[trigger] ks[b2] by {
                assert(keep@[a2] < keep@[b2]);
            }
            // The kept count is the chosen count, and membership in the
            // kept set is exactly having a kept name.
            lemma_downsample_keep(
                names,
                chosen_tors@,
                new_groups@,
                keep@,
                (nr_pods * nr_tors_per_pod) as int,
            );
            assert forall|x2: int|
                0 <= x2 < names.len() implies (ks.contains(x2) <==> spec_kept_name(
                sd.pod2tors@,
                (#[trigger] names[x2])@,
            )) by {
                if ks.contains(x2) {
                    let i2 = choose|i2: int| 0 <= i2 < ks.len() && ks[i2] == x2;
                    assert(keep@[i2] == x2 as usize);
                    assert(keep@.contains(x2 as usize));
                }
                if keep@.contains(x2 as usize) {
                    let i2 = choose|i2: int| 0 <= i2 < keep@.len() && keep@[i2] == x2 as usize;
                    assert(ks[i2] == x2);
                }
            }
        }
        sd
    }
}

/// Index of the pod entry whose name reads `target`.
fn find_group(g: &Vec<(String, Vec<String>)>, target: &String) -> (r: Option<usize>)
    ensures
        r matches Some(j) ==> j < g@.len() && g@[j as int].0@ == target@,
        r is None ==> forall|j: int| 0 <= j < g@.len() ==> (#[trigger] g@[j]).0@ != target@,
{
    let mut i: usize = 0;
    while i < g.len()
        invariant
            i <= g@.len(),
            forall|j: int| 0 <= j < i ==> (#[trigger] g@[j]).0@ != target@,
        decreases g@.len() - i,
    {
        if g[i].0 == *target {
            return Some(i);
        }
        i = i + 1;
    }
    None
}

/// Whether some listed name reads `target`.
fn name_listed(names: &Vec<String>, target: &String) -> (r: bool)
    ensures
        r == spec_rack_listed(names@, target@),
{
    let mut i: usize = 0;
    while i < names.len()
        invariant
            i <= names@.len(),
            forall|j: int| 0 <= j < i ==> (#[trigger] names@[j])@ != target@,
        decreases names@.len() - i,
    {
        if names[i] == *target {
            proof {
                assert(names@[i as int]@ == target@);
            }
            return true;
        }
        i = i + 1;
    }
    false
}

/// Weighted sampling fidelity: when exactly one cell (i, j) of the matrix
/// carries weight, every sampled pair takes its source from rack slot i's
/// hosts and its destination from rack slot j's hosts, and the two are
/// never the same host.
pub proof fn lemma_single_cell_sampling(
    wk: SpatialWorkload,
    i: int,
    j: int,
    src: NodeId,
    dst: NodeId,
)
    requires
        wk.wf(),
        0 <= i < wk.dim,
        0 <= j < wk.dim,
        wk.spec_cell_weight(i * (wk.dim as int) + j) > 0,
        forall|k: int|
            0 <= k < wk.cumsum@.len() && k != i * (wk.dim as int) + j
                ==> #[trigger] wk.spec_cell_weight(k) <= 0,
        wk.sampled_pair(src, dst),
    ensures
        i < wk.idx2hosts@.len(),
        j < wk.idx2hosts@.len(),
        wk.idx2hosts@[i]@.contains(src),
        wk.idx2hosts@[j]@.contains(dst),
        src != dst,
{
    let d = wk.dim as int;
    let k = choose|k: int|
        0 <= k < wk.cumsum@.len() && #[trigger] wk.spec_cell_weight(k) > 0 && wk.idx2hosts@[k
            / d]@.contains(src) && wk.idx2hosts@[k % d]@.contains(dst);
    assert(k == i * d + j);
    lemma_flat_coords(d, i, j);
}

/// The same fidelity, worded over the matrix the workload mirrors: when
/// only matrix cell (i, j) is non-zero, every sampled pair takes its
/// source from rack slot i and its destination from rack slot j.
pub proof fn lemma_single_cell_matrix_sampling(
    wk: SpatialWorkload,
    m: Tor2TorMatrix,
    i: int,
    j: int,
    src: NodeId,
    dst: NodeId,
)
    requires
        wk.wf(),
        wk.dim == m.spec_dim(),
        wk.cumsum@.len() == m.spec_dim() * m.spec_dim(),
        forall|k: int|
            0 <= k < wk.cumsum@.len() ==> #[trigger] wk.spec_cell_weight(k) == m.inner@[k
                / m.spec_dim()]@[k % m.spec_dim()],
        0 <= i < m.spec_dim(),
        0 <= j < m.spec_dim(),
        m.inner@[i]@[j] > 0,
        forall|a: int, b: int|
            #![trigger m.inner@[a]@[b]]
            0 <= a < m.spec_dim() && 0 <= b < m.spec_dim() && !(a == i && b == j)
                ==> m.inner@[a]@[b] == 0,
        wk.sampled_pair(src, dst),
    ensures
        i < wk.idx2hosts@.len(),
        j < wk.idx2hosts@.len(),
        wk.idx2hosts@[i]@.contains(src),
        wk.idx2hosts@[j]@.contains(dst),
        src != dst,
{
    let d = m.spec_dim();
    assert(0 <= i * d + j && i * d + j < d * d) by (nonlinear_arith)
        requires 0 <= i && i < d && 0 <= j && j < d;
    lemma_flat_coords(d, i, j);
    assert(wk.spec_cell_weight(i * d + j) == m.inner@[i]@[j]);
    assert forall|k: int|
        0 <= k < wk.cumsum@.len() && k != i * d + j implies #[trigger] wk.spec_cell_weight(k)
        <= 0 by {
        lemma_flat_coords_bounds(d, k);
        if k / d == i && k % d == j {
            vstd::arithmetic::div_mod::lemma_fundamental_div_mod(k, d);
            assert(k == i * d + j) by (nonlinear_arith)
                requires
                    k == d * (k / d) + k % d,
                    k / d == i,
                    k % d == j,
            ;
        }
        assert(m.inner@[k / d]@[k % d] == 0);
    }
    lemma_single_cell_sampling(wk, i, j, src, dst);
}

} // verus!
