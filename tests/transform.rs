use dobf::{DobfConfig, DobfError, DobfInstance, Transform};

#[test]
fn test_transform_new() {
    let t = Transform::new("test", "48 80 80 8B", "48 90 90 8B", 0).unwrap();
    let mut v: Vec<u8> = vec![0x48, 0x80, 0x80, 0x8B];
    t.patch(&mut v);
    assert_eq!(v.to_vec(), [0x48, 0x66, 0x90, 0x8B]);
}

#[test]
fn test_wildcard_transform() {
    let t = Transform::new("wildcard-test", "E8 05 14 23 55", "E8 ? ? ? 90", 0).unwrap();
    let mut v: Vec<u8> = vec![0xE8, 0x05, 0x14, 0x23, 0x55];
    t.patch(&mut v);
    assert_eq!(v.to_vec(), [0xE8, 0x05, 0x14, 0x23, 0x90]);
}

#[test]
fn wildcard_keeps_byte_at_match_offset() {
    let t = Transform::new("shifted", "AA BB", "? CC", 0).unwrap();
    let mut v: Vec<u8> = vec![0x01, 0x02, 0xAA, 0xBB];
    t.patch(&mut v);
    assert_eq!(v, vec![0x01, 0x02, 0xAA, 0xCC]);
}

#[test]
fn every_match_is_patched() {
    let t = Transform::new("all", "01 ?", "02 03", 7).unwrap();
    let mut v: Vec<u8> = vec![0x01, 0x09, 0x00, 0x01, 0x08];
    t.patch(&mut v);
    assert_eq!(v, vec![0x02, 0x03, 0x00, 0x02, 0x03]);
    assert_eq!(t.name(), "all");
    assert_eq!(t.order(), 7);
}

#[test]
fn no_match_leaves_buffer() {
    let t = Transform::new("none", "01 02", "03 04", 0).unwrap();
    let mut v: Vec<u8> = vec![0x02, 0x01];
    t.patch(&mut v);
    assert_eq!(v, vec![0x02, 0x01]);
}

#[test]
fn transform_rejects_bad_input() {
    assert!(Transform::new("len", "01 02", "01", 0).is_none());
    assert!(Transform::new("bad", "01 XY", "01 02", 0).is_none());
    assert!(Transform::new("bad", "01 02", "", 0).is_none());
}

#[test]
fn config_orders_by_key_stably() {
    let ts = vec![
        Transform::new("b", "01", "02", 2).unwrap(),
        Transform::new("a", "01", "02", 1).unwrap(),
        Transform::new("c", "01", "02", 2).unwrap(),
        Transform::new("z", "01", "02", 0).unwrap(),
    ];
    let cfg = DobfConfig::from_transforms(String::from("set"), ts);
    assert_eq!(cfg.name, "set");
    let names: Vec<&str> = cfg.transforms.iter().map(|t| t.name()).collect();
    assert_eq!(names, vec!["z", "a", "b", "c"]);
}

#[test]
fn run_applies_in_key_order() {
    let ts = vec![
        Transform::new("second", "02", "03", 5).unwrap(),
        Transform::new("first", "01", "02", 1).unwrap(),
    ];
    let cfg = DobfConfig::from_transforms(String::from("chain"), ts);
    let mut inst = DobfInstance::new(vec![0x01, 0x00]);
    inst.load_config(cfg);
    assert_eq!(inst.run(), Ok(vec![vec![0], vec![0]]));
    assert_eq!(inst.output(), Ok(&vec![0x03, 0x00]));
}

#[test]
fn run_with_added_transform() {
    let mut inst = DobfInstance::new(vec![0x48, 0x80, 0x80, 0x8B]);
    inst.add_transform(Transform::new("t", "80 80", "90 90", 0).unwrap());
    assert_eq!(inst.run(), Ok(vec![vec![1]]));
    assert_eq!(inst.output(), Ok(&vec![0x48, 0x66, 0x90, 0x8B]));
}

#[test]
fn empty_buffer_is_an_error() {
    let mut inst = DobfInstance::new(Vec::new());
    inst.add_transform(Transform::new("t", "01", "02", 0).unwrap());
    assert_eq!(inst.run(), Err(DobfError::EmptyBuffer));
    assert_eq!(inst.output(), Err(DobfError::EmptyBuffer));
}

#[test]
fn config_from_entries_compiles_and_orders() {
    let entries = vec![
        (String::from("late"), String::from("01"), String::from("02"), 3),
        (String::from("early"), String::from("48 ?"), String::from("90 90"), 1),
    ];
    let cfg = DobfConfig::from_entries(String::from("set"), &entries).unwrap();
    let names: Vec<&str> = cfg.transforms.iter().map(|t| t.name()).collect();
    assert_eq!(names, vec!["early", "late"]);
}

#[test]
fn config_from_entries_fails_on_bad_entry() {
    let entries = vec![
        (String::from("ok"), String::from("01"), String::from("02"), 0),
        (String::from("bad"), String::from("01 02"), String::from("03"), 1),
    ];
    assert_eq!(DobfConfig::from_entries(String::from("set"), &entries).err(), Some(DobfError::ParseError));
}

#[test]
fn transform_accepts_tab_separated_text() {
    let t = Transform::new("t", "48\t?", "48 ?", 0).unwrap();
    let mut v: Vec<u8> = vec![0x48, 0x33];
    assert_eq!(t.patch(&mut v), vec![0]);
    assert_eq!(v, vec![0x48, 0x33]);
}

#[test]
fn patch_reports_match_offsets() {
    let t = Transform::new("two", "AA", "BB", 0).unwrap();
    let mut v: Vec<u8> = vec![0xAA, 0x00, 0xAA];
    assert_eq!(t.patch(&mut v), vec![0, 2]);
    assert_eq!(v, vec![0xBB, 0x00, 0xBB]);
}

#[test]
fn run_orders_added_transforms_by_key() {
    let mut inst = DobfInstance::new(vec![0x01]);
    inst.add_transform(Transform::new("late", "01", "02", 5).unwrap());
    inst.add_transform(Transform::new("early", "02", "03", 1).unwrap());
    assert_eq!(inst.run(), Ok(vec![vec![], vec![0]]));
    assert_eq!(inst.output(), Ok(&vec![0x02]));
    assert_eq!(inst.run(), Ok(vec![vec![0], vec![]]));
    assert_eq!(inst.output(), Ok(&vec![0x03]));
}
