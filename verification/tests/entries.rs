use workload::entry::FullEntry;

fn full_entry() -> FullEntry {
    FullEntry {
        timestamp: 7,
        packetlength: 1500,
        srcip: "10.0.0.1".to_string(),
        dstip: "10.0.0.2".to_string(),
        srcport: "1234".to_string(),
        dstport: "80".to_string(),
        ipprotocol: "tcp".to_string(),
        srchostprefix: "h1".to_string(),
        dsthostprefix: "h2".to_string(),
        srcrack: "rack-a".to_string(),
        dstrack: "rack-b".to_string(),
        srcpod: "pod-1".to_string(),
        dstpod: "pod-1".to_string(),
        intercluster: false,
        interdatacenter: false,
    }
}

#[test]
fn usable_record_is_reduced() {
    let e = full_entry().into_entry().unwrap();
    assert_eq!(e.timestamp, 7);
    assert_eq!(e.srcrack, "rack-a");
    assert_eq!(e.dstrack, "rack-b");
    assert_eq!(e.srcpod, "pod-1");
    assert_eq!(e.dstpod, "pod-1");
}

#[test]
fn cross_cluster_records_are_dropped() {
    let mut f = full_entry();
    f.intercluster = true;
    assert!(f.into_entry().is_none());
    let mut f = full_entry();
    f.interdatacenter = true;
    assert!(f.into_entry().is_none());
}

#[test]
fn unpopulated_records_are_dropped() {
    let mut f = full_entry();
    f.dstrack = "\\N".to_string();
    assert!(!f.is_valid_enough());
    assert!(f.into_entry().is_none());
    let mut f = full_entry();
    f.srcpod = "\\N".to_string();
    assert!(f.into_entry().is_none());
    let f = full_entry();
    assert!(f.is_intracluster());
    assert!(f.is_valid_enough());
}
