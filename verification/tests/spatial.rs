use rand::SeedableRng;
use workload::cluster::{Cluster, Link, Node, NodeKind, Pod, Rack};
use workload::entry::Entry;
use workload::spatial::{Error, SpatialData, Tor2TorMatrix};

fn entry(srcpod: &str, srcrack: &str, dstpod: &str, dstrack: &str) -> Entry {
    Entry {
        timestamp: 0,
        srcip: "10.0.0.1".to_string(),
        dstip: "10.0.0.2".to_string(),
        srcrack: srcrack.to_string(),
        dstrack: dstrack.to_string(),
        srcpod: srcpod.to_string(),
        dstpod: dstpod.to_string(),
    }
}

fn host(id: usize) -> Node {
    Node { id, kind: NodeKind::Host }
}

fn switch(id: usize) -> Node {
    Node { id, kind: NodeKind::Switch }
}

fn link(a: usize, b: usize) -> Link {
    Link { a, b, bandwidth: 40_000_000_000, delay: 1000 }
}

/// One canonical pod: hosts 0-3, ToRs 4-5, fabrics 6-7, spines 8-11.
fn one_pod_cluster() -> Cluster {
    let pod = Pod {
        fabs: vec![switch(6), switch(7)],
        racks: vec![
            Rack {
                tor: switch(4),
                hosts: vec![host(0), host(1)],
                host2tor: vec![link(0, 4), link(1, 4)],
            },
            Rack {
                tor: switch(5),
                hosts: vec![host(2), host(3)],
                host2tor: vec![link(2, 5), link(3, 5)],
            },
        ],
        tor2fab: vec![link(4, 6), link(4, 7), link(5, 6), link(5, 7)],
    };
    Cluster {
        planes: vec![vec![switch(8), switch(9)], vec![switch(10), switch(11)]],
        pods: vec![pod],
        fab2spine: vec![
            link(6, 8),
            link(6, 9),
            link(7, 10),
            link(7, 11),
        ],
    }
}

#[test]
fn from_entries_counts_rack_pairs() {
    let entries = vec![
        entry("pa", "ra", "pa", "rb"),
        entry("pa", "ra", "pa", "rb"),
        entry("pa", "ra", "pa", "ra"),
    ];
    let sd = SpatialData::from_entries(&entries).unwrap();
    assert_eq!(sd.nr_pods, 1);
    assert_eq!(sd.nr_racks, 2);
    assert_eq!(sd.matrix.idx2name, vec!["ra".to_string(), "rb".to_string()]);
    assert_eq!(sd.matrix.dim(), 48);
    assert_eq!(sd.matrix.inner[0][1], 2);
    assert_eq!(sd.matrix.inner[0][0], 1);
    assert_eq!(sd.matrix.inner[1][0], 0);
    assert_eq!(sd.matrix.inner[1][1], 0);
    assert_eq!(sd.pod2tors.len(), 1);
    assert_eq!(sd.pod2tors[0].0, "pa");
    assert_eq!(sd.pod2tors[0].1, vec!["ra".to_string(), "rb".to_string()]);
}

#[test]
fn from_entries_rejects_over_capacity_pod() {
    let mut entries = Vec::new();
    for i in 0..49 {
        entries.push(entry("pa", &format!("rack-{i}"), "pa", "rack-0"));
    }
    assert_eq!(
        SpatialData::from_entries(&entries).unwrap_err(),
        Error::TooManyRacks
    );
}

#[test]
fn map_to_rejects_pod_count_mismatch() {
    let entries = vec![
        entry("pa", "ra", "pb", "rb"),
        entry("pb", "rb", "pa", "ra"),
    ];
    let sd = SpatialData::from_entries(&entries).unwrap();
    assert_eq!(sd.nr_pods, 2);
    let cluster = one_pod_cluster();
    let mut rng = rand::rngs::StdRng::seed_from_u64(1);
    assert_eq!(
        sd.map_to(&cluster, &mut rng).unwrap_err(),
        Error::WorkloadClusterMismatch
    );
}

#[test]
fn map_to_rejects_zero_traffic() {
    let sd = SpatialData {
        matrix: Tor2TorMatrix {
            inner: vec![vec![0, 0], vec![0, 0]],
            idx2name: vec!["ra".to_string(), "rb".to_string()],
        },
        pod2tors: vec![("pa".to_string(), vec!["ra".to_string(), "rb".to_string()])],
        nr_pods: 1,
        nr_racks: 2,
    };
    let cluster = one_pod_cluster();
    let mut rng = rand::rngs::StdRng::seed_from_u64(1);
    assert_eq!(sd.map_to(&cluster, &mut rng).unwrap_err(), Error::ZeroTraffic);
}

#[test]
fn single_cell_sampling_respects_the_cell() {
    // Only cell (ra, rb) carries weight: sources always come from ra's
    // assigned rack, destinations from rb's, and never the same host.
    let mut entries = Vec::new();
    for _ in 0..5 {
        entries.push(entry("pa", "ra", "pa", "rb"));
    }
    let sd = SpatialData::from_entries(&entries).unwrap();
    let cluster = one_pod_cluster();
    for seed in 0..10u64 {
        let mut rng = rand::rngs::StdRng::seed_from_u64(seed);
        let wk = sd.map_to(&cluster, &mut rng).unwrap();
        for _ in 0..100 {
            let (src, dst) = wk.sample(&mut rng);
            assert_ne!(src, dst);
            // The two rack names sit on the two racks of the pod, one
            // each, so the endpoints come from different racks.
            assert!(src < 4 && dst < 4);
            assert_ne!(src / 2, dst / 2, "src {src} and dst {dst} share a rack");
        }
    }
}

#[test]
fn downsample_keeps_the_chosen_slice() {
    let entries = vec![
        entry("pa", "ra", "pa", "ra"),
        entry("pa", "rb", "pa", "rb"),
        entry("pb", "rc", "pb", "rc"),
        entry("pb", "rd", "pb", "rd"),
    ];
    let sd = SpatialData::from_entries(&entries).unwrap();
    assert_eq!(sd.nr_pods, 2);
    let mut rng = rand::rngs::StdRng::seed_from_u64(3);
    let small = sd.downsample(1, 1, &mut rng);
    assert_eq!(small.nr_pods, 1);
    assert_eq!(small.nr_racks, 1);
    assert_eq!(small.pod2tors.len(), 1);
    assert_eq!(small.pod2tors[0].1.len(), 1);
    assert_eq!(small.matrix.dim(), 1);
    // The kept cell is the kept rack's diagonal entry, which is 1 for
    // every rack here.
    assert_eq!(small.matrix.inner[0][0], 1);
    assert_eq!(small.matrix.idx2name[0], small.pod2tors[0].1[0]);
}

#[test]
fn map_to_rejects_traffic_beyond_the_counter() {
    // Two cells whose sum exceeds the 64-bit counter.
    let sd = SpatialData {
        matrix: Tor2TorMatrix {
            inner: vec![vec![u64::MAX, 1], vec![0, 0]],
            idx2name: vec!["ra".to_string(), "rb".to_string()],
        },
        pod2tors: vec![("pa".to_string(), vec!["ra".to_string(), "rb".to_string()])],
        nr_pods: 1,
        nr_racks: 2,
    };
    let cluster = one_pod_cluster();
    let mut rng = rand::rngs::StdRng::seed_from_u64(1);
    assert_eq!(sd.map_to(&cluster, &mut rng).unwrap_err(), Error::Overflow);
}

#[test]
fn map_to_rejects_forced_self_flows() {
    // Only the diagonal cell of one rack carries weight, but each rack has
    // a single host: every draw of that cell would be a self-flow.
    let single_host_pod = Pod {
        fabs: vec![switch(4), switch(5)],
        racks: vec![
            Rack { tor: switch(2), hosts: vec![host(0)], host2tor: vec![link(0, 2)] },
            Rack { tor: switch(3), hosts: vec![host(1)], host2tor: vec![link(1, 3)] },
        ],
        tor2fab: vec![link(2, 4), link(2, 5), link(3, 4), link(3, 5)],
    };
    let cluster = Cluster {
        planes: vec![vec![switch(6), switch(7)], vec![switch(8), switch(9)]],
        pods: vec![single_host_pod],
        fab2spine: vec![link(4, 6), link(4, 7), link(5, 8), link(5, 9)],
    };
    let sd = SpatialData {
        matrix: Tor2TorMatrix {
            inner: vec![vec![3, 0], vec![0, 0]],
            idx2name: vec!["ra".to_string(), "rb".to_string()],
        },
        pod2tors: vec![("pa".to_string(), vec!["ra".to_string(), "rb".to_string()])],
        nr_pods: 1,
        nr_racks: 2,
    };
    let mut rng = rand::rngs::StdRng::seed_from_u64(1);
    assert_eq!(
        sd.map_to(&cluster, &mut rng).unwrap_err(),
        Error::UnsamplablePair
    );
}

#[test]
fn map_to_rejects_unassigned_racks() {
    // Three trace racks in one pod, but the cluster pod offers two slots:
    // one rack name gets no ToR.
    let entries = vec![
        entry("pa", "ra", "pa", "ra"),
        entry("pa", "rb", "pa", "rb"),
        entry("pa", "rc", "pa", "rc"),
    ];
    let sd = SpatialData::from_entries(&entries).unwrap();
    let cluster = one_pod_cluster();
    let mut rng = rand::rngs::StdRng::seed_from_u64(5);
    assert_eq!(
        sd.map_to(&cluster, &mut rng).unwrap_err(),
        Error::UnassignedRack
    );
}
