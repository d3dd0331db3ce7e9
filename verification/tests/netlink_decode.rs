use statmon::interface::Interface;
use statmon::netlink::{parse_batch, IfModMsg, NlError, IPADD, IPRMV};
use statmon::network::Network;

/// One address message: 16-byte header, 8-byte fixed part, then the given
/// attribute records.
fn addr_msg(mtyp: u8, index: u32, attrs: &[u8]) -> Vec<u8> {
    let len = (16 + 8 + attrs.len()) as u32;
    let mut m: Vec<u8> = Vec::new();
    m.extend_from_slice(&len.to_le_bytes());
    m.extend_from_slice(&(mtyp as u16).to_le_bytes());
    m.extend_from_slice(&0u16.to_le_bytes()); // flags
    m.extend_from_slice(&0u32.to_le_bytes()); // seq
    m.extend_from_slice(&0u32.to_le_bytes()); // pid
    m.push(2); // family
    m.push(24); // prefix length
    m.push(0); // flags
    m.push(0); // scope
    m.extend_from_slice(&index.to_le_bytes());
    m.extend_from_slice(attrs);
    m
}

/// One attribute record carrying a 4-byte IPv4 value.
fn ipv4_attr(rtyp: u16, ipv4: u32) -> Vec<u8> {
    let mut a: Vec<u8> = Vec::new();
    a.extend_from_slice(&8u16.to_le_bytes());
    a.extend_from_slice(&rtyp.to_le_bytes());
    a.extend_from_slice(&ipv4.to_le_bytes());
    a
}

#[test]
fn decodes_one_added_address() {
    let attrs = ipv4_attr(2, 0x0100007F);
    let buf = addr_msg(IPADD, 3, &attrs);
    let events = parse_batch(&buf).unwrap();
    assert_eq!(events.len(), 1);
    assert_eq!(
        events[0],
        IfModMsg { devidx: 3, modop: IPADD, ipv4: 0x0100007F }
    );
}

#[test]
fn decodes_local_and_plain_address_records() {
    let mut attrs = ipv4_attr(1, 0x0A000001);
    attrs.extend_from_slice(&ipv4_attr(2, 0x0A000002));
    let buf = addr_msg(IPRMV, 7, &attrs);
    let events = parse_batch(&buf).unwrap();
    assert_eq!(events.len(), 2);
    assert_eq!(events[0].ipv4, 0x0A000001);
    assert_eq!(events[1].ipv4, 0x0A000002);
    assert!(events.iter().all(|e| e.modop == IPRMV && e.devidx == 7));
}

#[test]
fn skips_unrecognized_attribute_types() {
    // an 8-byte attribute of some other type, then a real address
    let mut attrs = Vec::new();
    attrs.extend_from_slice(&8u16.to_le_bytes());
    attrs.extend_from_slice(&6u16.to_le_bytes());
    attrs.extend_from_slice(&[9, 9, 9, 9]);
    attrs.extend_from_slice(&ipv4_attr(1, 0x0100007F));
    let buf = addr_msg(IPADD, 2, &attrs);
    let events = parse_batch(&buf).unwrap();
    assert_eq!(events.len(), 1);
    assert_eq!(events[0].ipv4, 0x0100007F);
}

#[test]
fn pads_attribute_records_to_four_bytes() {
    // a 5-byte attribute (header + 1 payload byte) is stepped over with
    // 3 bytes of padding
    let mut attrs = Vec::new();
    attrs.extend_from_slice(&5u16.to_le_bytes());
    attrs.extend_from_slice(&6u16.to_le_bytes());
    attrs.extend_from_slice(&[1, 0, 0, 0]); // 1 payload byte + 3 padding
    attrs.extend_from_slice(&ipv4_attr(2, 0x0A2A0001));
    let buf = addr_msg(IPADD, 4, &attrs);
    let events = parse_batch(&buf).unwrap();
    assert_eq!(events.len(), 1);
    assert_eq!(events[0].ipv4, 0x0A2A0001);
}

#[test]
fn decodes_a_chain_of_messages() {
    let mut buf = addr_msg(IPADD, 3, &ipv4_attr(1, 5));
    buf.extend_from_slice(&addr_msg(IPRMV, 3, &ipv4_attr(1, 5)));
    let events = parse_batch(&buf).unwrap();
    assert_eq!(events.len(), 2);
    assert_eq!(events[0].modop, IPADD);
    assert_eq!(events[1].modop, IPRMV);
}

#[test]
fn done_marker_carries_nothing() {
    let mut done: Vec<u8> = Vec::new();
    done.extend_from_slice(&16u32.to_le_bytes());
    done.extend_from_slice(&3u16.to_le_bytes());
    done.extend_from_slice(&[0; 10]);
    let mut buf = addr_msg(IPADD, 3, &ipv4_attr(1, 5));
    buf.extend_from_slice(&done);
    let events = parse_batch(&buf).unwrap();
    assert_eq!(events.len(), 1);
}

#[test]
fn empty_datagram_yields_no_events() {
    let events = parse_batch(&[]).unwrap();
    assert_eq!(events.len(), 0);
}

#[test]
fn address_message_without_address_records_yields_no_events() {
    let buf = addr_msg(IPADD, 3, &[]);
    let events = parse_batch(&buf).unwrap();
    assert_eq!(events.len(), 0);
}

#[test]
fn unknown_message_type_is_fatal() {
    let buf = addr_msg(16, 3, &ipv4_attr(1, 5)); // RTM_NEWLINK, unhandled
    assert_eq!(parse_batch(&buf), Err(NlError::UnknownType(16)));
}

#[test]
fn truncated_header_is_fatal() {
    let buf = [32u8, 0, 0, 0, 20, 0];
    assert_eq!(parse_batch(&buf), Err(NlError::Truncated));
}

#[test]
fn message_length_overrunning_buffer_is_fatal() {
    let mut buf = addr_msg(IPADD, 3, &ipv4_attr(1, 5));
    buf[0] = buf[0] + 8; // claim more bytes than the datagram holds
    assert_eq!(parse_batch(&buf), Err(NlError::Truncated));
}

#[test]
fn attribute_overrunning_message_is_fatal() {
    let mut attrs = ipv4_attr(1, 5);
    attrs[0] = 12; // attribute claims to run past its message
    let buf = addr_msg(IPADD, 3, &attrs);
    assert_eq!(parse_batch(&buf), Err(NlError::BadAttribute));
}

#[test]
fn decoded_events_drive_the_monitor() {
    let mut net = Network::new(vec![Interface::new(3, true, 0)]);
    assert!(net.status().is_off());
    let buf = addr_msg(IPADD, 3, &ipv4_attr(1, 0x0100007F));
    let events = parse_batch(&buf).unwrap();
    assert_eq!(net.update(&events), Ok(true));
    assert!(net.status().is_wireless());
    assert_eq!(net.ifaces()[0].ipv4, 0x0100007F);
}

#[test]
fn address_record_of_wrong_size_is_fatal() {
    let mut attrs = Vec::new();
    attrs.extend_from_slice(&12u16.to_le_bytes());
    attrs.extend_from_slice(&1u16.to_le_bytes());
    attrs.extend_from_slice(&[0; 8]); // 8 payload bytes, not 4
    let buf = addr_msg(IPADD, 3, &attrs);
    assert_eq!(parse_batch(&buf), Err(NlError::BadAttribute));
}
