use workload::cluster::{Cluster, ClusterError, Link, Node, NodeKind, Pod, Rack};
use workload::routing::FabricRoutes;

fn host(id: usize) -> Node {
    Node { id, kind: NodeKind::Host }
}

fn switch(id: usize) -> Node {
    Node { id, kind: NodeKind::Switch }
}

fn link(a: usize, b: usize) -> Link {
    Link { a, b, bandwidth: 40_000_000_000, delay: 1000 }
}

/// A 2-plane, 2-pod, 2-racks-per-pod, 2-hosts-per-rack fabric whose
/// identities are scattered: spines 0-3, fabrics 4/5 and 12/13, ToRs
/// 8/11/16/19, hosts 6/7/9/10/14/15/17/18.
fn tiny_cluster() -> Cluster {
    let pod0 = Pod {
        fabs: vec![switch(4), switch(5)],
        racks: vec![
            Rack {
                tor: switch(8),
                hosts: vec![host(6), host(7)],
                host2tor: vec![link(6, 8), link(7, 8)],
            },
            Rack {
                tor: switch(11),
                hosts: vec![host(9), host(10)],
                host2tor: vec![link(9, 11), link(10, 11)],
            },
        ],
        tor2fab: vec![link(8, 4), link(8, 5), link(11, 4), link(11, 5)],
    };
    let pod1 = Pod {
        fabs: vec![switch(12), switch(13)],
        racks: vec![
            Rack {
                tor: switch(16),
                hosts: vec![host(14), host(15)],
                host2tor: vec![link(14, 16), link(15, 16)],
            },
            Rack {
                tor: switch(19),
                hosts: vec![host(17), host(18)],
                host2tor: vec![link(17, 19), link(18, 19)],
            },
        ],
        tor2fab: vec![link(16, 12), link(16, 13), link(19, 12), link(19, 13)],
    };
    Cluster {
        planes: vec![vec![switch(0), switch(1)], vec![switch(2), switch(3)]],
        pods: vec![pod0, pod1],
        fab2spine: vec![
            link(4, 0),
            link(4, 1),
            link(5, 2),
            link(5, 3),
            link(12, 0),
            link(12, 1),
            link(13, 2),
            link(13, 3),
        ],
    }
}

#[test]
fn accessors_report_the_shape() {
    let c = tiny_cluster();
    assert_eq!(c.nr_pods(), 2);
    assert_eq!(c.nr_tors_per_pod(), 2);
    assert_eq!(c.nr_fabs_per_pod(), 2);
    assert_eq!(c.nr_spines_per_plane(), 2);
    assert_eq!(c.nr_hosts_per_rack(), 2);
    assert_eq!(c.nodes().len(), 20);
    assert_eq!(c.links().len(), 24);
}

#[test]
fn contiguousify_renumbers_tier_by_tier() {
    let mut c = tiny_cluster();
    c.contiguousify().unwrap();
    // Hosts first, pod-major and rack-major.
    assert_eq!(
        c.pods[0].racks[0].hosts.iter().map(|n| n.id).collect::<Vec<_>>(),
        vec![0, 1]
    );
    assert_eq!(
        c.pods[0].racks[1].hosts.iter().map(|n| n.id).collect::<Vec<_>>(),
        vec![2, 3]
    );
    assert_eq!(
        c.pods[1].racks[0].hosts.iter().map(|n| n.id).collect::<Vec<_>>(),
        vec![4, 5]
    );
    assert_eq!(
        c.pods[1].racks[1].hosts.iter().map(|n| n.id).collect::<Vec<_>>(),
        vec![6, 7]
    );
    // Then ToRs, fabrics, and spines.
    assert_eq!(c.pods[0].racks[0].tor.id, 8);
    assert_eq!(c.pods[0].racks[1].tor.id, 9);
    assert_eq!(c.pods[1].racks[0].tor.id, 10);
    assert_eq!(c.pods[1].racks[1].tor.id, 11);
    assert_eq!(c.pods[0].fabs.iter().map(|n| n.id).collect::<Vec<_>>(), vec![12, 13]);
    assert_eq!(c.pods[1].fabs.iter().map(|n| n.id).collect::<Vec<_>>(), vec![14, 15]);
    assert_eq!(c.planes[0].iter().map(|n| n.id).collect::<Vec<_>>(), vec![16, 17]);
    assert_eq!(c.planes[1].iter().map(|n| n.id).collect::<Vec<_>>(), vec![18, 19]);
    // Kinds survive, and the tier bases read back from the structure.
    assert_eq!(c.pods[0].racks[0].hosts[0].kind, NodeKind::Host);
    assert_eq!(c.tor_base(), 8);
    assert_eq!(c.fabric_base(), 12);
    assert_eq!(c.spine_base(), 16);
    assert!(c.is_consistent_shape());
    // Links are rewritten through the same map: host 6 -> 0 and ToR 8 -> 8.
    assert_eq!(c.pods[0].racks[0].host2tor[0], link(0, 8));
    // Fabric 4 -> 12 cabled to spine 0 -> 16.
    assert_eq!(c.fab2spine[0], link(12, 16));
}

#[test]
fn contiguousify_correct() {
    // Canonicalizing a second time changes nothing: the renaming map of a
    // canonical cluster is the identity.
    let mut c = tiny_cluster();
    c.contiguousify().unwrap();
    let nodes_before = c.nodes();
    let links_before = c.links();
    c.contiguousify().unwrap();
    assert_eq!(c.nodes(), nodes_before);
    assert_eq!(c.links(), links_before);
}

#[test]
fn contiguousify_rejects_link_to_unknown_node() {
    let mut c = tiny_cluster();
    c.fab2spine.push(link(4, 99));
    assert_eq!(c.contiguousify().unwrap_err(), ClusterError::UnknownNode);
    // The cluster is left untouched.
    assert_eq!(c.planes[0][0].id, 0);
    assert_eq!(c.pods[0].racks[0].hosts[0].id, 6);
}

#[test]
fn canonicalized_cluster_feeds_the_routing_arithmetic() {
    let mut c = tiny_cluster();
    c.contiguousify().unwrap();
    assert!(c.is_consistent_shape());
    let r = FabricRoutes::new(&c);
    // Host 0 climbs to its ToR; cross-pod traffic fans out over both pod
    // fabrics; a fabric switch is cabled to the spines of its plane.
    assert_eq!(r.next_hops(0, 6), Some(vec![8]));
    assert_eq!(r.next_hops(8, 6), Some(vec![12, 13]));
    assert_eq!(r.next_hops(12, 6), Some(vec![16, 17]));
    assert_eq!(r.next_hops(16, 6), Some(vec![14]));
    assert_eq!(r.next_hops(14, 6), Some(vec![11]));
    assert_eq!(r.next_hops(11, 6), Some(vec![6]));
}
