use statmon::sysfs::{parse_u64, trim_end, Reading, Sysfs, SysfsError, ValBuf};

fn reading(wd: i32, name: &str, bytes: &[u8]) -> Reading {
    Reading { wd, name: String::from(name), bytes: bytes.to_vec() }
}

#[test]
fn watch_then_get_returns_the_content_at_watch_time() {
    let mut fs = Sysfs::new();
    fs.watch("BAT0", "capacity", 1, b"57\n".to_vec());
    assert_eq!(fs.get("BAT0", "capacity"), Ok(57));
    assert_eq!(fs.get_raw("BAT0", "capacity").unwrap().as_slice(), b"57");
}

#[test]
fn device_wd_tells_watches_apart() {
    let mut fs = Sysfs::new();
    assert_eq!(fs.device_wd("BAT0"), None);
    fs.watch("BAT0", "capacity", 1, b"57\n".to_vec());
    assert_eq!(fs.device_wd("BAT0"), Some(1));
    assert_eq!(fs.device_wd("AC"), None);
    fs.watch("BAT0", "status", 1, b"Full\n".to_vec());
    assert_eq!(fs.device_wd("BAT0"), Some(1));
    assert_eq!(fs.get_raw("BAT0", "status").unwrap().as_slice(), b"Full");
}

#[test]
fn trailing_newline_only_difference_is_not_a_change() {
    let mut fs = Sysfs::new();
    fs.watch("BAT0", "capacity", 1, b"57\n".to_vec());
    let rs = vec![reading(1, "capacity", b"57")];
    assert_eq!(fs.update(&rs), false);
    assert_eq!(fs.get("BAT0", "capacity"), Ok(57));
}

#[test]
fn content_change_is_reported_and_promoted() {
    let mut fs = Sysfs::new();
    fs.watch("BAT0", "capacity", 1, b"57\n".to_vec());
    let rs = vec![reading(1, "capacity", b"58\n")];
    assert_eq!(fs.update(&rs), true);
    assert_eq!(fs.get("BAT0", "capacity"), Ok(58));
}

#[test]
fn change_is_reported_exactly_once() {
    let mut fs = Sysfs::new();
    fs.watch("BAT0", "capacity", 1, b"57\n".to_vec());
    let rs = vec![reading(1, "capacity", b"58\n")];
    assert_eq!(fs.update(&rs), true);
    // the very same reading again: nothing has changed any more
    assert_eq!(fs.update(&rs), false);
    assert_eq!(fs.get("BAT0", "capacity"), Ok(58));
}

#[test]
fn unresolved_events_change_nothing() {
    let mut fs = Sysfs::new();
    fs.watch("BAT0", "capacity", 1, b"57\n".to_vec());
    // wrong handle, then right handle with an unwatched name
    let rs = vec![reading(9, "capacity", b"58\n"), reading(1, "status", b"x")];
    assert_eq!(fs.update(&rs), false);
    assert_eq!(fs.get("BAT0", "capacity"), Ok(57));
}

#[test]
fn one_batch_may_change_several_attributes() {
    let mut fs = Sysfs::new();
    fs.watch("BAT0", "capacity", 1, b"57\n".to_vec());
    fs.watch("AC", "online", 2, b"0\n".to_vec());
    let rs = vec![reading(1, "capacity", b"56\n"), reading(2, "online", b"1\n")];
    assert_eq!(fs.update(&rs), true);
    assert_eq!(fs.get("BAT0", "capacity"), Ok(56));
    assert_eq!(fs.get("AC", "online"), Ok(1));
}

#[test]
fn rewatching_refreshes_the_stored_value() {
    let mut fs = Sysfs::new();
    fs.watch("BAT0", "capacity", 1, b"57\n".to_vec());
    fs.watch("BAT0", "capacity", 1, b"60\n".to_vec());
    assert_eq!(fs.get("BAT0", "capacity"), Ok(60));
}

#[test]
fn get_failures_name_their_cause() {
    let mut fs = Sysfs::new();
    assert_eq!(fs.get("BAT0", "capacity"), Err(SysfsError::UnknownDevice));
    fs.watch("BAT0", "capacity", 1, b"57\n".to_vec());
    assert_eq!(fs.get("BAT0", "status"), Err(SysfsError::UnknownAttr));
    fs.watch("BAT0", "status", 1, b"Full\n".to_vec());
    assert_eq!(fs.get("BAT0", "status"), Err(SysfsError::BadValue));
}

#[test]
fn trim_removes_only_trailing_junk() {
    assert_eq!(trim_end(b"57\n".to_vec()).as_slice(), b"57");
    assert_eq!(trim_end(b"a b\t \n\0".to_vec()).as_slice(), b"a b");
    assert_eq!(trim_end(b" leading kept".to_vec()).as_slice(), b" leading kept");
    assert_eq!(trim_end(b"\n\t \0".to_vec()).as_slice(), b"");
    assert_eq!(trim_end(Vec::new()).as_slice(), b"");
}

#[test]
fn decimal_parse_is_exact() {
    assert_eq!(parse_u64(&b"0".to_vec()), Some(0));
    assert_eq!(parse_u64(&b"57".to_vec()), Some(57));
    assert_eq!(parse_u64(&b"18446744073709551615".to_vec()), Some(u64::MAX));
    assert_eq!(parse_u64(&b"18446744073709551616".to_vec()), None);
    assert_eq!(parse_u64(&b"".to_vec()), None);
    assert_eq!(parse_u64(&b"1x2".to_vec()), None);
    assert_eq!(parse_u64(&b"-1".to_vec()), None);
}

#[test]
fn value_buffer_compares_trimmed() {
    let v = ValBuf::new(b"57\n".to_vec());
    assert!(!v.changed(&b"57".to_vec()));
    assert!(!v.changed(&b"57\n\0\0".to_vec()));
    assert!(v.changed(&b"58\n".to_vec()));
    assert!(v.changed(&b" 57".to_vec()));
    assert_eq!(v.get(), Some(57));
    assert_eq!(v.current().as_slice(), b"57");
}

#[test]
fn value_buffer_promotes_on_flip() {
    let mut v = ValBuf::new(b"57\n".to_vec());
    v.flip_bufs(b"58\n".to_vec());
    assert_eq!(v.get(), Some(58));
    assert!(!v.changed(&b"58".to_vec()));
}

#[test]
fn long_values_are_stored_whole() {
    // far beyond any fixed reference capacity: growable storage keeps it
    let long = vec![b'7'; 300];
    let mut with_newline = long.clone();
    with_newline.push(b'\n');
    let mut fs = Sysfs::new();
    fs.watch("BAT0", "serial", 1, with_newline);
    assert_eq!(fs.get_raw("BAT0", "serial").unwrap().as_slice(), &long[..]);
}
