use workload::cluster::{Cluster, Link, Node, NodeKind, Pod, Rack};
use workload::routing::FabricRoutes;

fn host(id: usize) -> Node {
    Node { id, kind: NodeKind::Host }
}

fn switch(id: usize) -> Node {
    Node { id, kind: NodeKind::Switch }
}

fn link(a: usize, b: usize) -> Link {
    Link { a, b, bandwidth: 40_000_000_000, delay: 1000 }
}

/// The canonical 2-pod fabric: hosts 0-7, ToRs 8-11, fabrics 12-15,
/// spines 16-19; two planes of two spines each.
fn canonical_cluster() -> Cluster {
    let mut pods = Vec::new();
    for p in 0..2usize {
        let mut racks = Vec::new();
        for r in 0..2usize {
            let tor = 8 + 2 * p + r;
            let h0 = 4 * p + 2 * r;
            racks.push(Rack {
                tor: switch(tor),
                hosts: vec![host(h0), host(h0 + 1)],
                host2tor: vec![link(h0, tor), link(h0 + 1, tor)],
            });
        }
        let f0 = 12 + 2 * p;
        pods.push(Pod {
            fabs: vec![switch(f0), switch(f0 + 1)],
            racks,
            tor2fab: vec![
                link(8 + 2 * p, f0),
                link(8 + 2 * p, f0 + 1),
                link(9 + 2 * p, f0),
                link(9 + 2 * p, f0 + 1),
            ],
        });
    }
    let mut fab2spine = Vec::new();
    for p in 0..2usize {
        for plane in 0..2usize {
            for s in 0..2usize {
                fab2spine.push(link(12 + 2 * p + plane, 16 + 2 * plane + s));
            }
        }
    }
    Cluster {
        planes: vec![vec![switch(16), switch(17)], vec![switch(18), switch(19)]],
        pods,
        fab2spine,
    }
}

fn routes() -> FabricRoutes {
    let c = canonical_cluster();
    assert!(c.is_consistent_shape());
    FabricRoutes::new(&c)
}

#[test]
fn position_arithmetic_reads_back() {
    let r = routes();
    assert_eq!(r.tor_base, 8);
    assert_eq!(r.fabric_base, 12);
    assert_eq!(r.spine_base, 16);
    assert_eq!(r.nr_nodes, 20);
    assert_eq!(r.tor_of_host(0), 8);
    assert_eq!(r.tor_of_host(6), 11);
    assert_eq!(r.pod_of_node(6), 1);
    assert_eq!(r.pod_of_node(9), 0);
    assert_eq!(r.pod_of_node(14), 1);
    assert_eq!(r.plane_of_node(13), 1);
    assert_eq!(r.plane_of_node(17), 0);
    assert_eq!(r.plane_of_node(18), 1);
    assert_eq!(r.fabrics_of_tor(8), vec![12, 13]);
    assert_eq!(r.tors_of_fabric(14), vec![10, 11]);
    assert_eq!(r.spines_of_fabric(13), vec![18, 19]);
    assert_eq!(r.fabrics_of_spine(16), vec![12, 14]);
    assert_eq!(r.fabrics_of_spine(19), vec![13, 15]);
    assert_eq!(r.fabric_of_tor_in_plane(8, 1), 13);
    assert_eq!(r.fabric_of_spine_in_pod(18, 0), 13);
    assert!(r.is_fabric_spine(12, 16));
    assert!(!r.is_fabric_spine(12, 18));
    assert!(r.host_in_pod(1, 6));
    assert!(!r.host_in_pod(0, 6));
    assert!(r.tor_in_pod(0, 9));
    assert!(!r.tor_in_pod(1, 9));
}

#[test]
fn next_hops_follows_the_transition_table() {
    let r = routes();
    // Out of range, and already-there.
    assert_eq!(r.next_hops(0, 20), None);
    assert_eq!(r.next_hops(20, 0), None);
    assert_eq!(r.next_hops(5, 5), Some(vec![]));
    // A host always forwards to its ToR.
    assert_eq!(r.next_hops(0, 1), Some(vec![8]));
    assert_eq!(r.next_hops(0, 8), Some(vec![8]));
    assert_eq!(r.next_hops(0, 19), Some(vec![8]));
    // A ToR delivers to its own hosts, aims at a plane for switches, and
    // fans out over its pod fabrics otherwise.
    assert_eq!(r.next_hops(8, 0), Some(vec![0]));
    assert_eq!(r.next_hops(8, 2), Some(vec![12, 13]));
    assert_eq!(r.next_hops(8, 6), Some(vec![12, 13]));
    assert_eq!(r.next_hops(8, 15), Some(vec![13]));
    assert_eq!(r.next_hops(8, 18), Some(vec![13]));
    // A fabric descends within its pod, and otherwise stays in its plane.
    assert_eq!(r.next_hops(12, 8), Some(vec![8]));
    assert_eq!(r.next_hops(12, 3), Some(vec![9]));
    assert_eq!(r.next_hops(12, 6), Some(vec![16, 17]));
    assert_eq!(r.next_hops(12, 16), Some(vec![16]));
    assert_eq!(r.next_hops(12, 18), Some(vec![8, 9]));
    // Fabric to a fabric of another plane and another pod: descend to any
    // pod ToR or ascend to any spine of this plane.
    assert_eq!(r.next_hops(12, 15), Some(vec![8, 9, 16, 17]));
    // Fabric to the fabric of its own plane in another pod: via spines.
    assert_eq!(r.next_hops(12, 14), Some(vec![16, 17]));
    // A spine delivers to its cabled fabrics, descends into the target
    // pod within its plane, and reaches other spines via its fabrics.
    assert_eq!(r.next_hops(16, 12), Some(vec![12]));
    assert_eq!(r.next_hops(16, 6), Some(vec![14]));
    assert_eq!(r.next_hops(16, 11), Some(vec![14]));
    assert_eq!(r.next_hops(16, 18), Some(vec![12, 14]));
    assert_eq!(r.next_hops(17, 13), Some(vec![12]));
}

#[test]
fn routes_correct() {
    // The chain from host 0 to host 6 climbs host, ToR, fabric, spine and
    // descends fabric, ToR, host: six hops over seven nodes, with exactly
    // two equal-cost choices at the ToR, whose plane fixes the spine set
    // and the landing fabric.
    let r = routes();
    let tor = r.next_hops(0, 6).unwrap();
    assert_eq!(tor, vec![8]);
    let fabs = r.next_hops(8, 6).unwrap();
    assert_eq!(fabs, vec![12, 13]);
    for (i, &fab) in fabs.iter().enumerate() {
        let plane = i;
        let spines = r.next_hops(fab, 6).unwrap();
        // The plane entered at the ToR pins the spine block.
        assert_eq!(spines, vec![16 + 2 * plane, 17 + 2 * plane]);
        for &spine in &spines {
            // And the landing fabric in the destination pod.
            let landing = r.next_hops(spine, 6).unwrap();
            assert_eq!(landing, vec![14 + plane]);
            let down_tor = r.next_hops(14 + plane, 6).unwrap();
            assert_eq!(down_tor, vec![11]);
            let last = r.next_hops(11, 6).unwrap();
            assert_eq!(last, vec![6]);
        }
    }
    // Six hops: 0 -> 8 -> fabric -> spine -> fabric -> 11 -> 6.
    let path = [0, 8, 12, 16, 14, 11, 6];
    let mut hops = 0;
    for w in path.windows(2) {
        assert!(r.next_hops(w[0], 6).unwrap().contains(&w[1]));
        hops += 1;
    }
    assert_eq!(hops, 6);
}
