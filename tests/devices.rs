use scanner_ingest::device::{select_matching, DeviceDescriptor, OpenError, PathRegistry};

fn dev(vid: u16, pid: u16, path: &str) -> DeviceDescriptor {
    DeviceDescriptor {
        vendor_id: vid,
        product_id: pid,
        path: path.to_string(),
        product_name: Some(format!("scanner at {}", path)),
    }
}

#[test]
fn selects_matches_in_list_order() {
    let list = vec![
        dev(0xE851, 0x2100, "/dev/a"),
        dev(0xE851, 0x2101, "/dev/b"),
        dev(0x1234, 0x2100, "/dev/c"),
        dev(0xE851, 0x2100, "/dev/d"),
    ];
    let picked = select_matching(&list, 0xE851, 0x2100);
    let paths: Vec<&str> = picked.iter().map(|d| d.path.as_str()).collect();
    assert_eq!(paths, vec!["/dev/a", "/dev/d"]);
    assert_eq!(picked[1].product_name, Some("scanner at /dev/d".to_string()));
}

#[test]
fn no_match_is_empty() {
    let list = vec![dev(1, 2, "/dev/a")];
    assert!(select_matching(&list, 3, 4).is_empty());
    assert!(select_matching(&Vec::new(), 3, 4).is_empty());
}

#[test]
fn duplicate_keeps_fields() {
    let d = DeviceDescriptor { vendor_id: 7, product_id: 9, path: "p".to_string(), product_name: None };
    let c = d.duplicate();
    assert_eq!((c.vendor_id, c.product_id, c.path.as_str(), c.product_name), (7, 9, "p", None));
    assert!(d.is_match(7, 9));
    assert!(!d.is_match(7, 8));
}

#[test]
fn distinct_paths_open_independently() {
    let mut reg = PathRegistry::new();
    let a = "/dev/hidraw0".to_string();
    let b = "/dev/hidraw1".to_string();
    assert!(reg.claim(&a).is_ok());
    assert!(reg.claim(&b).is_ok());
    assert!(reg.is_claimed(&a));
    assert!(reg.is_claimed(&b));
}

#[test]
fn same_path_twice_is_busy() {
    let mut reg = PathRegistry::new();
    let a = "/dev/hidraw0".to_string();
    assert!(reg.claim(&a).is_ok());
    assert!(reg.claim(&a) == Err(OpenError::DeviceBusy));
    assert!(reg.release(&a));
    assert!(!reg.is_claimed(&a));
    assert!(!reg.release(&a));
    assert!(reg.claim(&a).is_ok());
}
