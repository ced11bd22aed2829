use rand::SeedableRng;
use rand_distr::Distribution;
use workload::cluster::{Cluster, Link, Node, NodeKind, Pod, Rack};
use workload::ecdf::{Ecdf, PCT_FULL};
use workload::entry::Entry;
use workload::flowgen::{bottleneck_of, mean_i_for_r, mean_i_for_u, ChannelLoad, FlowGenerator, StopWhen};
use workload::spatial::SpatialData;

fn entry(srcpod: &str, srcrack: &str, dstpod: &str, dstrack: &str) -> Entry {
    Entry {
        timestamp: 0,
        srcip: "10.0.0.1".to_string(),
        dstip: "10.0.0.2".to_string(),
        srcrack: srcrack.to_string(),
        dstrack: dstrack.to_string(),
        srcpod: srcpod.to_string(),
        dstpod: dstpod.to_string(),
    }
}

fn host(id: usize) -> Node {
    Node { id, kind: NodeKind::Host }
}

fn switch(id: usize) -> Node {
    Node { id, kind: NodeKind::Switch }
}

fn link(a: usize, b: usize) -> Link {
    Link { a, b, bandwidth: 40_000_000_000, delay: 1000 }
}

fn one_pod_cluster() -> Cluster {
    let pod = Pod {
        fabs: vec![switch(6), switch(7)],
        racks: vec![
            Rack {
                tor: switch(4),
                hosts: vec![host(0), host(1)],
                host2tor: vec![link(0, 4), link(1, 4)],
            },
            Rack {
                tor: switch(5),
                hosts: vec![host(2), host(3)],
                host2tor: vec![link(2, 5), link(3, 5)],
            },
        ],
        tor2fab: vec![link(4, 6), link(4, 7), link(5, 6), link(5, 7)],
    };
    Cluster {
        planes: vec![vec![switch(8), switch(9)], vec![switch(10), switch(11)]],
        pods: vec![pod],
        fab2spine: vec![link(6, 8), link(6, 9), link(7, 10), link(7, 11)],
    }
}

fn generator(stop_when: StopWhen, max_load_ppm: u64) -> FlowGenerator {
    let entries = vec![
        entry("pa", "ra", "pa", "rb"),
        entry("pa", "rb", "pa", "ra"),
    ];
    let spatial_data = SpatialData::from_entries(&entries).unwrap();
    // Mean flow size 25 bytes: trapezoid of (0, 50%) to (100, 100%).
    let size_dist = Ecdf::from_ecdf(vec![(0, 500_000), (100, PCT_FULL)]).unwrap();
    FlowGenerator {
        spatial_data,
        cluster: one_pod_cluster(),
        size_dist,
        lognorm_sigma_milli: 2000,
        start_time_secs: 1,
        max_load_ppm,
        stop_when,
        id_start: 0,
        seed: 7,
    }
}

#[test]
fn probe_emits_the_configured_flow_count() {
    let gen = generator(StopWhen::NrFlows(10), 500_000);
    let probe = gen.probe().unwrap();
    assert_eq!(probe.flows.len(), 10);
    for (i, f) in probe.flows.iter().enumerate() {
        assert_eq!(f.id, i as u64);
        assert_eq!(f.size, 0);
        assert_eq!(f.start, 0);
        assert_ne!(f.src, f.dst);
    }
}

#[test]
fn probe_scales_with_the_link_count_when_time_bounded() {
    let gen = generator(StopWhen::Elapsed(1), 500_000);
    let probe = gen.probe().unwrap();
    // 12 links, 10_000 probe flows per link.
    assert_eq!(probe.flows.len(), 120_000);
}

#[test]
fn calibration_computes_the_exact_interarrival() {
    // rate = 10 Gbit/s * 0.5 / (50/100) = 10 Gbit/s;
    // mean interarrival = 25 B * 8e9 / 1e10 = 20 ns.
    let gen = generator(StopWhen::NrFlows(100), 500_000);
    let probe = gen.probe().unwrap();
    assert_eq!(probe.flows.len(), 100);
    let bottleneck = ChannelLoad { bandwidth: 10_000_000_000, nr_flows: 50 };
    let st = gen.generate(probe, &bottleneck).unwrap();
    assert_eq!(st.mean_delta, 20);
    assert_eq!(st.start, 1_000_000_000);
    assert_eq!(st.cur, st.start);
    assert_eq!(st.max_flows, 100);
    assert_eq!(st.end, u64::MAX);
}

#[test]
fn calibration_rate_grows_with_the_target_load() {
    // Doubling the target utilization doubles the rate and halves the
    // mean inter-arrival time.
    let bottleneck = ChannelLoad { bandwidth: 10_000_000_000, nr_flows: 50 };
    let gen_low = generator(StopWhen::NrFlows(100), 400_000);
    let st_low = gen_low.generate(gen_low.probe().unwrap(), &bottleneck).unwrap();
    let gen_high = generator(StopWhen::NrFlows(100), 800_000);
    let st_high = gen_high.generate(gen_high.probe().unwrap(), &bottleneck).unwrap();
    assert!(st_high.mean_delta < st_low.mean_delta);
    // 25 ns at 40% load; 12.5 ns, rounded to 13, at 80%.
    assert_eq!(st_low.mean_delta, 25);
    assert_eq!(st_high.mean_delta, 13);
}

#[test]
fn count_bounded_generation_yields_exactly_n_flows() {
    let gen = generator(StopWhen::NrFlows(37), 500_000);
    let probe = gen.probe().unwrap();
    let bottleneck = ChannelLoad { bandwidth: 10_000_000_000, nr_flows: 50 };
    let mut st = gen.generate(probe, &bottleneck).unwrap();
    let mut guard = 0;
    while st.wants_more() {
        st.push_next(&gen.size_dist, 100);
        guard += 1;
        assert!(guard <= 37);
    }
    let flows = st.into_flows();
    assert_eq!(flows.len(), 37);
    for (i, f) in flows.iter().enumerate() {
        assert_eq!(f.id, i as u64);
        assert_eq!(f.start, 1_000_000_000 + 100 * i as u64);
        assert!(f.size <= 100);
        assert_ne!(f.src, f.dst);
    }
}

#[test]
fn time_bounded_generation_stays_inside_the_window() {
    let gen = generator(StopWhen::Elapsed(1), 500_000);
    let probe = gen.probe().unwrap();
    // Half of the 120_000 probe flows crossed the bottleneck.
    let bottleneck = ChannelLoad { bandwidth: 10_000_000_000, nr_flows: 60_000 };
    let mut st = gen.generate(probe, &bottleneck).unwrap();
    assert_eq!(st.mean_delta, 20);
    assert_eq!(st.end, 2_000_000_000);
    while st.wants_more() {
        st.push_next(&gen.size_dist, 300_000_000);
    }
    let flows = st.into_flows();
    // Starts 1.0s, 1.3s, 1.6s, 1.9s; the clock then leaves the window.
    assert_eq!(flows.len(), 4);
    let mut prev = 0;
    for f in &flows {
        assert!((1_000_000_000..2_000_000_000).contains(&f.start));
        assert!(prev <= f.start);
        prev = f.start;
    }
}

#[test]
fn lognormal_paced_generation_is_ordered() {
    // Drive the session the way the surrounding program does: inter-arrival
    // deltas drawn from the log-normal distribution the stream asks for.
    let gen = generator(StopWhen::NrFlows(200), 500_000);
    let probe = gen.probe().unwrap();
    let bottleneck = ChannelLoad { bandwidth: 10_000_000_000, nr_flows: 50 };
    let mut st = gen.generate(probe, &bottleneck).unwrap();
    let sigma = st.sigma_milli as f64 / 1000.0;
    let mu = (st.mean_delta as f64).ln() - sigma * sigma / 2.0;
    let dist = rand_distr::LogNormal::new(mu, sigma).unwrap();
    let mut rng = rand::rngs::StdRng::seed_from_u64(11);
    while st.wants_more() {
        let d = dist.sample(&mut rng).round() as u64;
        st.push_next(&gen.size_dist, d);
    }
    let flows = st.into_flows();
    assert_eq!(flows.len(), 200);
    let mut prev = 0;
    for f in &flows {
        assert!(prev <= f.start);
        prev = f.start;
    }
}

#[test]
fn batch_advance_matches_single_steps() {
    let gen = generator(StopWhen::NrFlows(5), 500_000);
    let probe = gen.probe().unwrap();
    let bottleneck = ChannelLoad { bandwidth: 10_000_000_000, nr_flows: 50 };
    let mut st = gen.generate(probe, &bottleneck).unwrap();
    st.advance(&gen.size_dist, &vec![10, 20, 30, 40, 50, 60, 70]);
    let flows = st.into_flows();
    assert_eq!(flows.len(), 5);
    assert_eq!(flows[4].start, 1_000_000_000 + 10 + 20 + 30 + 40);
}

#[test]
fn interarrival_helpers_compute_exact_values() {
    // 125 bytes at 1 Gbit/s: 1000 ns between flows.
    assert_eq!(mean_i_for_r(1_000_000_000, 125), 1000);
    // 125 bytes to load a 2 Gbit/s link to 50%: also 1000 ns.
    assert_eq!(mean_i_for_u(500_000, 2_000_000_000, 125).unwrap(), 1000);
    assert_eq!(
        mean_i_for_u(0, 2_000_000_000, 125).unwrap_err(),
        workload::spatial::Error::ZeroRate
    );
}

#[test]
fn bottleneck_is_the_most_loaded_channel() {
    let loads = vec![
        ChannelLoad { bandwidth: 10_000_000_000, nr_flows: 10 },
        ChannelLoad { bandwidth: 40_000_000_000, nr_flows: 80 },
        ChannelLoad { bandwidth: 10_000_000_000, nr_flows: 5 },
    ];
    // 1, 2 and 0.5 flows per 10 Gbit/s: the second channel wins.
    let c = bottleneck_of(&loads, 100).unwrap();
    assert_eq!(c, ChannelLoad { bandwidth: 40_000_000_000, nr_flows: 80 });
    assert_eq!(bottleneck_of(&vec![], 100), None);
    assert_eq!(bottleneck_of(&loads, 0), None);
}
