use ndn_forwarder::face::{Face, UdpPacket};
use ndn_forwarder::mgmt::fib::{insert_hop, read_insert_hop};
use ndn_forwarder::mgmt::{
    process_frame, read_addr, read_data_frame, read_frame, relay_frame, BridgeFrame,
};
use ndn_forwarder::pipeline::incoming::process_packet;
use ndn_forwarder::pipeline::Outcome;
use ndn_forwarder::table::pit::NextHop;
use ndn_forwarder::table::Table;
use ndn_forwarder::tlv::tlv::encode;
use ndn_forwarder::tlv::DecodeError;

fn named(parts: &[&str]) -> Vec<u8> {
    let mut out = Vec::new();
    for part in parts {
        out.extend_from_slice(&encode(8, part.as_bytes()));
    }
    out
}

fn hop_command(parts: &[&str], addr: &str, cost: &[u8]) -> Vec<u8> {
    let mut out = encode(7, &named(parts));
    out.extend_from_slice(&encode(4, addr.as_bytes()));
    out.extend_from_slice(&encode(99, cost));
    out
}

#[test]
fn face_text() {
    assert_eq!(Face { ip: 0x7f00_0001, port: 7766 }.to_text(), b"127.0.0.1:7766".to_vec());
    assert_eq!(Face { ip: 0, port: 0 }.to_text(), b"0.0.0.0:0".to_vec());
    assert_eq!(Face { ip: u32::MAX, port: u16::MAX }.to_text(), b"255.255.255.255:65535".to_vec());
    assert_eq!(Face { ip: 0x0a14_c864, port: 100 }.to_text(), b"10.20.200.100:100".to_vec());
}

#[test]
fn face_parse() {
    assert_eq!(Face::parse(b"127.0.0.1:7766"), Some(Face { ip: 0x7f00_0001, port: 7766 }));
    assert_eq!(Face::parse(b"0.0.0.0:0"), Some(Face { ip: 0, port: 0 }));
    assert_eq!(
        Face::parse(b"255.255.255.255:65535"),
        Some(Face { ip: u32::MAX, port: u16::MAX })
    );
    assert_eq!(Face::parse(b"1.2.3.4:00080"), Some(Face { ip: 0x0102_0304, port: 80 }));
}

#[test]
fn face_parse_rejects() {
    let bad: [&[u8]; 22] = [
        b"",
        b"1.2.3.4",
        b"1.2.3.4:",
        b"1.2.3:80",
        b"1.2.3.4.5:80",
        b"256.2.3.4:80",
        b"1.2.3.400:80",
        b"01.2.3.4:80",
        b"1.2.3.04:80",
        b"1.2.3.4:65536",
        b"1.2.3.4:999999999999999999999",
        b"1.2.3.4:80 ",
        b" 1.2.3.4:80",
        b"1..3.4:80",
        b".2.3.4:80",
        b"1.2.3.4:-1",
        b"1.2.3.4:8a",
        b"1,2,3,4:80",
        b"1.2.3.4;80",
        b"1234.2.3.4:80",
        b"[::1]:80",
        b"localhost:80",
    ];
    for text in bad {
        assert_eq!(Face::parse(text), None);
    }
}

#[test]
fn face_text_round_trip() {
    let ips: [u32; 6] = [0, 1, 0x0100_0000, 0x0a0b_0c0d, 0xc0a8_0101, u32::MAX];
    let ports: [u16; 5] = [0, 9, 10, 6363, u16::MAX];
    for ip in ips {
        for port in ports {
            let face = Face { ip, port };
            assert_eq!(Face::parse(&face.to_text()), Some(face));
        }
    }
}

#[test]
fn read_addr_reads_a_face() {
    let mut frame = encode(4, b"10.0.0.2:6363");
    frame.extend_from_slice(&[1, 2, 3]);
    assert_eq!(read_addr(&frame), Ok(Face { ip: 0x0a00_0002, port: 6363 }));
}

#[test]
fn read_addr_errors() {
    assert_eq!(read_addr(&[]), Err(DecodeError::UnexpectedEof));
    assert_eq!(read_addr(&encode(5, b"10.0.0.2:6363")), Err(DecodeError::ExpectedAddress));
    assert_eq!(read_addr(&encode(4, b"10.0.0.2")), Err(DecodeError::InvalidAddress));
    assert_eq!(read_addr(&encode(4, &[0xff, 0xfe])), Err(DecodeError::InvalidAddress));
    assert_eq!(read_addr(&[4, 9, 49, 46]), Err(DecodeError::InsufficientLength));
}

#[test]
fn insert_hop_command_installs_a_route() {
    let mut table = Table::new();
    let frame = hop_command(&["a", "b"], "10.0.0.2:6363", &[0, 25]);
    assert_eq!(read_insert_hop(&mut table, &frame), Ok(()));
    let (id, _, _) = table.pit.get(&named(&["a", "b"])).unwrap();
    let hops = &table.pit.node(id).nexthops;
    assert_eq!(hops.len(), 1);
    assert_eq!(hops[0].addr, Face { ip: 0x0a00_0002, port: 6363 });
    assert_eq!(hops[0].cost, 25);

    let frame = hop_command(&["a", "b"], "10.0.0.2:6363", &[7]);
    assert_eq!(read_insert_hop(&mut table, &frame), Ok(()));
    let hops = &table.pit.node(id).nexthops;
    assert_eq!(hops.len(), 1);
    assert_eq!(hops[0].cost, 7);
}

#[test]
fn insert_hop_command_errors() {
    let mut table = Table::new();
    assert_eq!(read_insert_hop(&mut table, &[]), Err(DecodeError::UnexpectedEof));
    assert_eq!(read_insert_hop(&mut table, &[7, 4, 8, 1]), Err(DecodeError::InsufficientLength));
    assert_eq!(
        read_insert_hop(&mut table, &encode(7, &named(&["a"]))),
        Err(DecodeError::UnexpectedEof)
    );
    let mut frame = encode(7, &named(&["a"]));
    frame.extend_from_slice(&encode(5, b"10.0.0.2:6363"));
    assert_eq!(read_insert_hop(&mut table, &frame), Err(DecodeError::ExpectedAddress));
    assert_eq!(
        read_insert_hop(&mut table, &hop_command(&["a"], "10.0.0.2", &[1])),
        Err(DecodeError::InvalidAddress)
    );
    assert_eq!(
        read_insert_hop(&mut table, &hop_command(&["a"], "10.0.0.2:1", &[1, 2, 3])),
        Err(DecodeError::InvalidNni)
    );
    let mut frame = hop_command(&["a"], "10.0.0.2:1", &[1, 2]);
    frame.pop();
    assert_eq!(read_insert_hop(&mut table, &frame), Err(DecodeError::InsufficientLength));
    assert_eq!(table.pit.len(), 1);

    let mut frame = encode(7, &[8, 1, 97, 8, 9]);
    frame.extend_from_slice(&encode(4, b"10.0.0.2:1"));
    frame.extend_from_slice(&encode(99, &[1]));
    assert_eq!(read_insert_hop(&mut table, &frame), Err(DecodeError::IncorrectNameEncoding));
    assert_eq!(table.pit.len(), 2);
}

#[test]
fn insert_hop_by_name() {
    let mut table = Table::new();
    let hop = NextHop { addr: Face { ip: 1, port: 2 }, cost: 3 };
    assert_eq!(insert_hop(&mut table, &named(&["x"]), hop), Ok(()));
    assert_eq!(insert_hop(&mut table, &Vec::new(), hop), Ok(()));
    assert_eq!(table.pit.node(0).nexthops.len(), 1);
    assert_eq!(table.pit.node(1).nexthops[0].cost, 3);
    assert_eq!(insert_hop(&mut table, &vec![8, 1], hop), Err(DecodeError::IncorrectNameEncoding));
}

#[test]
fn management_packet_through_the_pipeline() {
    let mut table = Table::new();
    let command = encode(1, &hop_command(&["n"], "10.0.0.2:6363", &[4]));
    let from = Face { ip: 0, port: 0 };
    let r = process_packet(&mut table, &UdpPacket { data: command.clone(), addr: from });
    assert_eq!(r, Outcome::Applied);
    let (id, _, _) = table.pit.get(&named(&["n"])).unwrap();
    assert_eq!(table.pit.node(id).nexthops[0].cost, 4);

    let r = process_frame(&mut table, &UdpPacket { data: encode(2, &[1, 2]), addr: from });
    assert_eq!(r, Outcome::Ignored);
    let r = process_frame(&mut table, &UdpPacket { data: vec![1], addr: from });
    assert_eq!(r, Outcome::Malformed);
    let bad = encode(1, &hop_command(&["n"], "nowhere", &[4]));
    let r = process_frame(&mut table, &UdpPacket { data: bad, addr: from });
    assert_eq!(r, Outcome::BadFrame(DecodeError::InvalidAddress));

    let elsewhere = Face { ip: 0, port: 1 };
    let r = process_packet(&mut table, &UdpPacket { data: command, addr: elsewhere });
    assert_eq!(r, Outcome::UnknownType);
}

#[test]
fn relay_frame_bytes() {
    let packet = UdpPacket { data: vec![6, 2, 7, 0], addr: Face { ip: 0x0a00_0002, port: 6363 } };
    let mut expected = vec![6u8, 21, 4, 13];
    expected.extend_from_slice(b"10.0.0.2:6363");
    expected.extend_from_slice(&[21, 4, 6, 2, 7, 0]);
    assert_eq!(relay_frame(&packet), expected);
}

#[test]
fn relay_frame_round_trip() {
    let data = {
        let mut body = encode(7, &named(&["p", "q"]));
        body.extend_from_slice(&encode(21, &[5u8; 300]));
        encode(6, &body)
    };
    let face = Face { ip: 0xc0a8_0101, port: 6363 };
    let frame = relay_frame(&UdpPacket { data: data.clone(), addr: face });
    match read_frame(&frame) {
        BridgeFrame::Relay(to, bytes) => {
            assert_eq!(to, face);
            assert_eq!(bytes, data);
        }
        _ => panic!("a relay frame"),
    }
}

#[test]
fn data_frame_peels_the_wrapping() {
    let data = encode(6, &encode(7, &named(&["p"])));
    let mut frame = encode(4, b"10.0.0.2:6363");
    frame.extend_from_slice(&encode(80, &encode(81, &data)));
    let (face, bytes) = read_data_frame(&frame).unwrap();
    assert_eq!(face, Face { ip: 0x0a00_0002, port: 6363 });
    assert_eq!(bytes, data);

    let mut tail = frame.clone();
    tail.extend_from_slice(&[1, 2, 3]);
    assert_eq!(read_data_frame(&tail).unwrap().1.len(), data.len() + 3);
}

#[test]
fn data_frame_errors() {
    assert!(matches!(read_data_frame(&[]), Err(DecodeError::UnexpectedEof)));
    assert!(matches!(read_data_frame(&encode(9, b"x")), Err(DecodeError::ExpectedAddress)));
    assert!(matches!(read_data_frame(&encode(4, b"x")), Err(DecodeError::InvalidAddress)));
    assert!(matches!(
        read_data_frame(&encode(4, b"10.0.0.2:6363")),
        Err(DecodeError::UnexpectedEof)
    ));
    let mut frame = encode(4, b"10.0.0.2:6363");
    frame.extend_from_slice(&encode(80, &encode(81, &[])));
    assert!(matches!(read_data_frame(&frame), Err(DecodeError::UnexpectedEof)));
}

#[test]
fn frames_from_the_bridge() {
    let command = hop_command(&["n"], "10.0.0.2:6363", &[4]);
    match read_frame(&encode(3, &command)) {
        BridgeFrame::Command(packet) => {
            assert_eq!(packet.data, command);
            assert_eq!(packet.addr, Face { ip: 0, port: 0 });
        }
        _ => panic!("a command frame"),
    }
    assert!(matches!(read_frame(&encode(6, b"junk")), BridgeFrame::Bad(DecodeError::ExpectedAddress)));
    assert!(matches!(read_frame(&encode(9, b"junk")), BridgeFrame::Other));
    assert!(matches!(read_frame(&[]), BridgeFrame::Other));
    assert!(matches!(read_frame(&[6]), BridgeFrame::Other));
}
