use statmon::inotify::{parse_inotify_batch, InotifyError};
use statmon::align4;

fn event(wd: i32, mask: u32, name: &[u8], pad_to: usize) -> Vec<u8> {
    let mut e: Vec<u8> = Vec::new();
    e.extend_from_slice(&(wd as u32).to_le_bytes());
    e.extend_from_slice(&mask.to_le_bytes());
    e.extend_from_slice(&0u32.to_le_bytes()); // cookie
    e.extend_from_slice(&(pad_to as u32).to_le_bytes());
    e.extend_from_slice(name);
    while e.len() < 16 + pad_to {
        e.push(0);
    }
    e
}

#[test]
fn decodes_events_and_their_names() {
    let mut buf = event(1, 0x1, b"online", 16);
    buf.extend_from_slice(&event(2, 0x1, b"capacity", 16));
    let msgs = parse_inotify_batch(&buf).unwrap();
    assert_eq!(msgs.len(), 2);
    assert_eq!(msgs[0].wd, 1);
    assert_eq!(msgs[0].mask, 0x1);
    assert_eq!(msgs[0].get_name().as_slice(), b"online");
    assert_eq!(msgs[1].wd, 2);
    assert_eq!(msgs[1].get_name().as_slice(), b"capacity");
}

#[test]
fn event_without_name_bytes_has_empty_name() {
    let buf = event(3, 0x8, b"", 0);
    let msgs = parse_inotify_batch(&buf).unwrap();
    assert_eq!(msgs.len(), 1);
    assert_eq!(msgs[0].len, 0);
    assert_eq!(msgs[0].get_name().as_slice(), b"");
}

#[test]
fn empty_buffer_holds_no_events() {
    let msgs = parse_inotify_batch(&[]).unwrap();
    assert_eq!(msgs.len(), 0);
}

#[test]
fn truncated_event_is_fatal() {
    let buf = event(1, 0x1, b"online", 16);
    assert!(matches!(
        parse_inotify_batch(&buf[..20]),
        Err(InotifyError::Truncated)
    ));
    assert!(matches!(
        parse_inotify_batch(&buf[..10]),
        Err(InotifyError::Truncated)
    ));
}

#[test]
fn alignment_rounds_up_to_four() {
    assert_eq!(align4(0), 0);
    assert_eq!(align4(1), 4);
    assert_eq!(align4(4), 4);
    assert_eq!(align4(5), 8);
    assert_eq!(align4(17), 20);
}
