use message_router::envelope::{Envelope, MAX_HOPS};
use message_router::error::Error;
use message_router::message::{Msg, Protocol, RouteInfo};
use message_router::routesrv::{
    connect_ok, net_error, parse_connect, parse_disconnect, Registration,
};
use message_router::wire::{read_fields, write_fields, Field};
use protobuf::CodedOutputStream;

fn written(write: fn(&mut CodedOutputStream)) -> Vec<u8> {
    let mut bytes = Vec::new();
    {
        let mut stream = CodedOutputStream::vec(&mut bytes);
        write(&mut stream);
        stream.flush().unwrap();
    }
    bytes
}

fn failed(read: Result<Msg, Error>) -> bool {
    matches!(read, Err(Error::Protobuf))
}

#[test]
fn a_message_is_written_field_by_field() {
    let info = RouteInfo::new(Some(Protocol::SessionSrv), Some(300));
    let msg = Msg::new("A", vec![1], Some(info));
    assert_eq!(
        msg.write_to_bytes(),
        vec![0x0a, 1, 65, 0x12, 1, 1, 0x1a, 5, 0x08, 2, 0x10, 0xac, 2]
    );
}

#[test]
fn a_message_is_read_as_it_was_written() {
    let info = RouteInfo::new(Some(Protocol::Scheduler), Some(u64::MAX));
    let bytes = Msg::new("J\u{fc}rgen", vec![0, 255], Some(info)).write_to_bytes();
    let msg = Msg::parse_from_bytes(&bytes).unwrap();
    assert_eq!(msg.get_message_id(), "J\u{fc}rgen");
    assert_eq!(msg.get_body(), vec![0, 255]);
    let info = msg.route_info.as_ref().unwrap();
    assert_eq!(info.get_protocol(), Protocol::Scheduler);
    assert_eq!(info.hash, Some(u64::MAX));
    assert_eq!(msg.write_to_bytes(), bytes);
}

#[test]
fn a_blank_message_has_no_bytes() {
    let msg = Msg::parse_from_bytes(&[]).unwrap();
    assert_eq!(msg.get_message_id(), "");
    assert_eq!(msg.get_body(), Vec::<u8>::new());
    assert!(msg.route_info.is_none());
    assert_eq!(msg.write_to_bytes(), Vec::<u8>::new());
    assert_eq!(Msg::blank().write_to_bytes(), Vec::<u8>::new());
}

#[test]
fn unknown_fields_are_kept_in_order() {
    let bytes = written(|s| {
        s.write_string(9, "late").unwrap();
        s.write_fixed32(7, 5).unwrap();
        s.write_string(1, "A").unwrap();
        s.write_string(9, "later").unwrap();
    });
    let expected = written(|s| {
        s.write_string(1, "A").unwrap();
        s.write_fixed32(7, 5).unwrap();
        s.write_string(9, "late").unwrap();
        s.write_string(9, "later").unwrap();
    });
    assert_eq!(Msg::parse_from_bytes(&bytes).unwrap().write_to_bytes(), expected);
}

#[test]
fn the_last_value_of_a_field_counts() {
    let bytes = written(|s| {
        s.write_string(1, "A").unwrap();
        s.write_string(1, "B").unwrap();
        s.write_bytes(2, &[1]).unwrap();
        s.write_bytes(2, &[2]).unwrap();
    });
    let msg = Msg::parse_from_bytes(&bytes).unwrap();
    assert_eq!(msg.get_message_id(), "B");
    assert_eq!(msg.get_body(), vec![2]);
}

#[test]
fn what_is_no_message_is_not_read() {
    assert!(failed(Msg::parse_from_bytes(&[0xff])));
    assert!(failed(Msg::parse_from_bytes(&[0x0a, 5, 65])));
    // A number where a text belongs, no text, and no routing information.
    assert!(failed(Msg::parse_from_bytes(&[0x08, 1])));
    assert!(failed(Msg::parse_from_bytes(&[0x0a, 1, 0xff])));
    assert!(failed(Msg::parse_from_bytes(&[0x1a, 1, 0xff])));
    assert!(failed(Msg::parse_from_bytes(&[0x1a, 2, 0x0a, 0])));
}

#[test]
fn routing_information_has_a_protocol_by_default() {
    let info = RouteInfo::parse_from_bytes(&[0x10, 9]).unwrap();
    assert_eq!(info.get_protocol(), Protocol::Net);
    assert_eq!(info.protocol, None);
    assert_eq!(info.hash, Some(9));
    assert_eq!(info.write_to_bytes(), vec![0x10, 9]);
    assert!(matches!(RouteInfo::parse_from_bytes(&[0x12, 0]), Err(Error::Protobuf)));
}

#[test]
fn fields_are_read_and_written() {
    let field = Field {
        number: 4,
        fixed32: vec![1],
        fixed64: vec![2],
        varint: vec![3, 200],
        bytes: vec![vec![7, 8]],
    };
    let bytes = write_fields(&vec![field]);
    assert_eq!(
        bytes,
        written(|s| {
            s.write_fixed32(4, 1).unwrap();
            s.write_fixed64(4, 2).unwrap();
            s.write_uint64(4, 3).unwrap();
            s.write_uint64(4, 200).unwrap();
            s.write_bytes(4, &[7, 8]).unwrap();
        })
    );
    let fields = read_fields(&bytes, 4).unwrap();
    assert_eq!(fields.len(), 1);
    assert_eq!(fields[0].number, 4);
    assert_eq!(fields[0].fixed32, vec![1]);
    assert_eq!(fields[0].fixed64, vec![2]);
    assert_eq!(fields[0].varint, vec![3, 200]);
    assert_eq!(fields[0].bytes, vec![vec![7, 8]]);
}

#[test]
fn a_registration_is_read_packed_or_not() {
    let bytes = written(|s| {
        s.write_enum(1, 2).unwrap();
        s.write_string(2, "srv").unwrap();
        s.write_uint32(3, 5).unwrap();
        s.write_uint32(3, 300).unwrap();
    });
    let plain = Registration::parse_from_bytes(&bytes).unwrap();
    assert_eq!(plain.protocol, Protocol::SessionSrv);
    assert_eq!(plain.endpoint, "srv");
    assert_eq!(plain.shards, vec![5, 300]);
    let packed = Registration::parse_from_bytes(b"\x08\x02\x12\x03srv\x1a\x03\x05\xac\x02").unwrap();
    assert_eq!(packed.shards, vec![5, 300]);
    let blank = Registration::parse_from_bytes(b"").unwrap();
    assert_eq!((blank.protocol, blank.endpoint.as_str()), (Protocol::Net, ""));
    assert!(blank.shards.is_empty());
    assert!(matches!(Registration::parse_from_bytes(b"\x1a\x01\xff"), Err(Error::Protobuf)));
    assert!(matches!(Registration::parse_from_bytes(b"\x10\x01"), Err(Error::Protobuf)));
}

#[test]
fn messages_to_the_router_are_read() {
    assert_eq!(parse_disconnect(b"\x0a\x03srv"), Ok(String::from("srv")));
    assert_eq!(parse_disconnect(b""), Ok(String::new()));
    assert_eq!(parse_disconnect(b"\x0a\x01\xff"), Err(Error::Protobuf));
    assert_eq!(parse_connect(b"\x08\x01"), Ok(()));
    assert_eq!(parse_connect(b"\x08"), Err(Error::Protobuf));
}

#[test]
fn answers_of_the_router_have_their_names() {
    assert_eq!(connect_ok().get_message_id(), "ConnectOk");
    let error = net_error(300, "where");
    assert_eq!(error.get_message_id(), "NetError");
    assert_eq!(error.get_body(), b"\x08\xac\x02\x12\x05where".to_vec());
}

#[test]
fn an_envelope_holds_so_many_hops() {
    let mut envelope = Envelope::new();
    for i in 0..MAX_HOPS {
        assert!(!envelope.max_hops());
        assert_eq!(envelope.add_hop(vec![i as u8]), Ok(()));
    }
    assert!(envelope.max_hops());
    assert_eq!(envelope.add_hop(vec![9]), Err(Error::MaxHops));
    assert_eq!(envelope.hops.len(), 8);
    envelope.reset();
    assert!(envelope.hops.is_empty());
    assert_eq!(envelope.message_id(), "");
    assert_eq!(envelope.protocol(), Protocol::Net);
}

#[test]
fn protocols_have_their_numbers() {
    for number in 0..6 {
        assert_eq!(Protocol::from_number(number).unwrap().number(), number);
    }
    assert_eq!(Protocol::from_number(1), Some(Protocol::RouteSrv));
    assert_eq!(Protocol::from_number(6), None);
    assert_eq!(Protocol::from_number(-1), None);
}

#[test]
fn an_unlisted_protocol_is_not_read() {
    assert!(matches!(RouteInfo::parse_from_bytes(b"\x08\xe7\x07"), Err(Error::Protobuf)));
    assert!(matches!(RouteInfo::parse_from_bytes(b"\x08\x06\x08\x02"), Err(Error::Protobuf)));
    assert!(failed(Msg::parse_from_bytes(b"\x1a\x03\x08\xe7\x07")));
    let registration = Registration::parse_from_bytes(b"\x08\xe7\x07\x12\x01a\x18\x01");
    assert!(matches!(registration, Err(Error::Protobuf)));
    // Of a number of more than 32 bits the lowest count: 2^32 + 2 names the protocol of 2.
    let info = RouteInfo::parse_from_bytes(b"\x08\x82\x80\x80\x80\x10").unwrap();
    assert_eq!(info.get_protocol(), Protocol::SessionSrv);
}

#[test]
fn shards_keep_the_order_of_the_message() {
    let bytes = b"\x1a\x02\x09\x08\x18\x07\x08\x02\x1a\x02\x06\x05\x18\x04";
    let registration = Registration::parse_from_bytes(bytes).unwrap();
    assert_eq!(registration.shards, vec![9, 8, 7, 6, 5, 4]);
    assert_eq!(registration.protocol, Protocol::SessionSrv);
}

#[test]
fn a_group_is_passed_over_unless_it_has_the_number_of_a_field() {
    // Field 9 is a group that holds one number.
    let msg = Msg::parse_from_bytes(b"\x4b\x08\x01\x4c\x0a\x01A").unwrap();
    assert_eq!(msg.get_message_id(), "A");
    assert_eq!(msg.write_to_bytes(), b"\x0a\x01A".to_vec());
    assert!(failed(Msg::parse_from_bytes(b"\x0b\x08\x01\x0c")));
    assert!(failed(Msg::parse_from_bytes(b"\x4b\x08\x01")));
    assert!(failed(Msg::parse_from_bytes(b"\x4c")));
}

#[test]
fn numbers_are_read_with_more_bytes_than_they_need() {
    let info = RouteInfo::parse_from_bytes(b"\x90\x00\x89\x80\x00").unwrap();
    assert_eq!(info.hash, Some(9));
    assert_eq!(info.write_to_bytes(), vec![0x10, 9]);
    let long = b"\x10\xff\xff\xff\xff\xff\xff\xff\xff\xff\x7f";
    assert_eq!(RouteInfo::parse_from_bytes(long).unwrap().hash, Some(u64::MAX));
    let longer = b"\x10\xff\xff\xff\xff\xff\xff\xff\xff\xff\xff\x01";
    assert!(matches!(RouteInfo::parse_from_bytes(longer), Err(Error::Protobuf)));
}
