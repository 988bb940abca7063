//! The messages that the router itself reads and writes.

use vstd::prelude::*;
use vstd::utf8::*;

use crate::bytes::text_bytes;
use crate::error::Error;
use crate::message::{
    bytes_entry, bytes_part, law_protocols_are_listed, lemma_bytes_part, lemma_bytes_push,
    lemma_field_push, lemma_nothing_read, lemma_number_part, lemma_numbers_push,
    lemma_protocol_found, number_entry, number_of, number_part, protocol_field, read_protocol,
    read_text, text_field, Msg, MsgView, Protocol,
};
use crate::record::{
    lemma_records, lemma_records_push, lemma_varint_back, lemma_varint_size, lemma_varint_ten,
    packed_numbers, read_records, record_possible, record_views, records_of, unpack_numbers, varint,
    wire_value, Record, RecordView, Value, ValueView,
};
use crate::wire::{
    field_views, fields_of, gather, gather_fields, has_group, holds_group,
    law_any_message_has_fields, lemma_arranged_remove, lemma_group_push, lemma_read_arranged,
    lemma_wire_bytes_add, read_fields, take_field, wire_bytes, write_fields, Field,
};

verus! {

/// The announcement of a server: the protocol it speaks, the identity of its socket, and the shards
/// it services.
pub struct Registration {
    pub protocol: Protocol,
    pub endpoint: String,
    pub shards: Vec<u32>,
}

/// The mathematical reading of a [`Registration`].
pub struct RegistrationView {
    pub protocol: Protocol,
    pub endpoint: Seq<char>,
    pub shards: Seq<u32>,
}

impl View for Registration {
    type V = RegistrationView;

    open spec fn view(&self) -> RegistrationView {
        RegistrationView {
            protocol: self.protocol,
            endpoint: self.endpoint@,
            shards: self.shards@,
        }
    }
}

/// The numbers of 32 bits that a message gives to a field, one by one or in packed runs, in the
/// order of the message: nothing where the field is malformed.
pub open spec fn numbers_in(records: Seq<RecordView>, number: u32) -> Option<Seq<u32>>
    decreases records.len(),
{
    if records.len() == 0 {
        Some(Seq::empty())
    } else {
        let last = records.last();
        match numbers_in(records.drop_last(), number) {
            None => None,
            Some(before) => if last.number != number {
                Some(before)
            } else {
                match last.value {
                    Some(ValueView::Varint(v)) => Some(before.push(v as u32)),
                    Some(ValueView::Bytes(run)) => match packed_numbers(run) {
                        Some(more) => Some(before + more),
                        None => None,
                    },
                    _ => None,
                }
            },
        }
    }
}

/// The registration that values make up. What is not given is the first protocol, or empty.
pub open spec fn registration_from(records: Seq<RecordView>) -> Option<RegistrationView> {
    let fields = gather(records);
    match (protocol_field(fields, 1), text_field(fields, 2), numbers_in(records, 3)) {
        (Some(protocol), Some(endpoint), Some(shards)) => Some(
            RegistrationView {
                protocol: match protocol {
                    Some(protocol) => protocol,
                    None => Protocol::Net,
                },
                endpoint: match endpoint {
                    Some(endpoint) => endpoint,
                    None => Seq::empty(),
                },
                shards,
            },
        ),
        _ => None,
    }
}

/// The registration that a byte string holds.
pub open spec fn registration_of(bytes: Seq<u8>) -> Option<RegistrationView> {
    match records_of(bytes) {
        Some(records) => if has_group(records, 3) {
            None
        } else {
            registration_from(records)
        },
        None => None,
    }
}

fn read_numbers(records: &Vec<Record>, number: u32) -> (r: Result<Vec<u32>, Error>)
    requires
        forall|i: int| 0 <= i < records@.len() ==> record_possible(#[trigger] records@[i]@),
    ensures
        match r {
            Ok(numbers) => numbers_in(record_views(records@), number) == Some(numbers@),
            Err(e) => numbers_in(record_views(records@), number) is None && e == Error::Protobuf,
        },
{
    let ghost views = record_views(records@);
    let mut numbers: Vec<u32> = Vec::new();
    let mut i: usize = 0;
    while i < records.len()
        invariant
            i <= records@.len(),
            views == record_views(records@),
            forall|j: int| 0 <= j < records@.len() ==> record_possible(#[trigger] records@[j]@),
            numbers_in(views.take(i as int), number) == Some(numbers@),
        decreases records@.len() - i,
    {
        let ghost before = numbers@;
        proof {
            assert(record_possible(records@[i as int]@));
            assert(views.take(i + 1).drop_last() =~= views.take(i as int));
            assert(views.take(i + 1).last() == records@[i as int]@);
        }
        if records[i].number == number {
            let more = match &records[i].value {
                Some(Value::Varint(v)) => {
                    numbers.push(#[verifier::truncate] (*v as u32));
                    true
                },
                Some(Value::Bytes(run)) => match unpack_numbers(run.as_slice()) {
                    Ok(run) => {
                        let mut run = run;
                        numbers.append(&mut run);
                        true
                    },
                    Err(_) => false,
                },
                _ => false,
            };
            if !more {
                proof {
                    lemma_numbers_end(views, number, i + 1);
                }
                return Err(Error::Protobuf);
            }
        }
        i += 1;
    }
    assert(views.take(i as int) =~= views);
    Ok(numbers)
}

/// What is malformed stays so, whatever follows.
proof fn lemma_numbers_end(records: Seq<RecordView>, number: u32, at: int)
    requires
        0 <= at <= records.len(),
        numbers_in(records.take(at), number) is None,
    ensures
        numbers_in(records, number) is None,
    decreases records.len() - at,
{
    if at < records.len() {
        assert(records.take(at + 1).drop_last() =~= records.take(at));
        lemma_numbers_end(records, number, at + 1);
    } else {
        assert(records.take(at) =~= records);
    }
}

impl Registration {
    /// The registration that values make up.
    fn from_records(records: Vec<Record>) -> (r: Result<Registration, Error>)
        requires
            forall|i: int| 0 <= i < records@.len() ==> record_possible(#[trigger] records@[i]@),
        ensures
            match r {
                Ok(registration) => registration_from(record_views(records@)) == Some(registration@),
                Err(e) => registration_from(record_views(records@)) is None && e
                    == Error::Protobuf,
            },
    {
        let mut fields = gather_fields(&records);
        let ghost m0 = gather(record_views(records@));
        let first = take_field(&mut fields, 1);
        let second = take_field(&mut fields, 2);
        let protocol = match read_protocol(first, Ghost(m0), 1) {
            Ok(Some(protocol)) => protocol,
            Ok(None) => Protocol::Net,
            Err(e) => {
                return Err(e);
            },
        };
        let endpoint = match read_text(second, Ghost(m0), 2) {
            Ok(Some(endpoint)) => endpoint,
            Ok(None) => String::new(),
            Err(e) => {
                return Err(e);
            },
        };
        let shards = match read_numbers(&records, 3) {
            Ok(shards) => shards,
            Err(e) => {
                return Err(e);
            },
        };
        Ok(Registration { protocol, endpoint, shards })
    }

    /// Reads a registration from its bytes.
    pub fn parse_from_bytes(bytes: &[u8]) -> (r: Result<Registration, Error>)
        ensures
            match r {
                Ok(registration) => registration_of(bytes@) == Some(registration@),
                Err(e) => registration_of(bytes@) is None && e == Error::Protobuf,
            },
    {
        let records = match read_records(bytes) {
            Ok(records) => records,
            Err(e) => {
                return Err(e);
            },
        };
        if holds_group(&records, 3) {
            return Err(Error::Protobuf);
        }
        Registration::from_records(records)
    }
}

/// The endpoint that a request to disconnect names, in its only field. Where none is given it is
/// empty.
pub open spec fn disconnect_of(bytes: Seq<u8>) -> Option<Seq<char>> {
    match fields_of(bytes, 1) {
        Some(fields) => match text_field(fields, 1) {
            Some(Some(endpoint)) => Some(endpoint),
            Some(None) => Some(Seq::empty()),
            None => None,
        },
        None => None,
    }
}

/// Reads a request to disconnect: the endpoint that is to go.
pub fn parse_disconnect(bytes: &[u8]) -> (r: Result<String, Error>)
    ensures
        match r {
            Ok(endpoint) => disconnect_of(bytes@) == Some(endpoint@),
            Err(e) => disconnect_of(bytes@) is None && e == Error::Protobuf,
        },
{
    let mut fields = match read_fields(bytes, 1) {
        Ok(fields) => fields,
        Err(e) => {
            return Err(e);
        },
    };
    let ghost m0 = fields_of(bytes@, 1)->0;
    let first = take_field(&mut fields, 1);
    match read_text(first, Ghost(m0), 1) {
        Ok(Some(endpoint)) => Ok(endpoint),
        Ok(None) => Ok(String::new()),
        Err(e) => Err(e),
    }
}

/// Reads a request to connect, which has no field of its own: any message will do.
pub fn parse_connect(bytes: &[u8]) -> (r: Result<(), Error>)
    ensures
        r is Ok <==> fields_of(bytes@, 0) is Some,
        r is Err ==> r->Err_0 == Error::Protobuf,
{
    match read_fields(bytes, 0) {
        Ok(_) => Ok(()),
        Err(e) => Err(e),
    }
}

/// The answer to a request to connect, which has no field.
pub open spec fn connect_ok_view() -> MsgView {
    MsgView::of("ConnectOk"@, Seq::empty())
}

/// The answer to a request to connect.
pub fn connect_ok() -> (r: Msg)
    ensures
        r@ == connect_ok_view(),
        r@.wf(),
{
    Msg::new("ConnectOk", Vec::new(), None)
}

/// An error: its code, and a text that tells where it arose.
pub open spec fn net_error_view(code: u64, text: Seq<char>) -> MsgView {
    MsgView::of(
        "NetError"@,
        wire_bytes(number_part(1, Some(code)) + bytes_part(2, Some(encode_utf8(text)))),
    )
}

/// An error: its code, and a text that tells where it arose.
pub fn net_error(code: u64, text: &str) -> (r: Msg)
    ensures
        r@ == net_error_view(code, text@),
        r@.wf(),
{
    let mut fields: Vec<Field> = Vec::new();
    fields.push(number_entry(1, code));
    fields.push(bytes_entry(2, text_bytes(text)));
    assert(field_views(fields@) =~= number_part(1, Some(code)) + bytes_part(
        2,
        Some(encode_utf8(text@)),
    ));
    Msg::new("NetError", write_fields(&fields), None)
}

/// A registration that gives one more value: the last protocol counts, and every one that is given
/// must be listed; the last endpoint counts, and every one that is given must be a text; a shard
/// comes after those that were given before it, whatever its number, and so do the shards of a
/// packed run. Other fields make no difference. A value that is written in another way than its
/// field leaves nothing to read, and so does a group under the number of a field. A registration of
/// no bytes is one of the first protocol, with an empty endpoint and no shard.
pub proof fn law_registration_takes_values(
    less: Seq<u8>,
    more: Seq<u8>,
    records: Seq<RecordView>,
    record: RecordView,
)
    requires
        records_of(less) == Some(records),
        records_of(more) == Some(records.push(record)),
    ensures
        registration_of(less) is None ==> registration_of(more) is None,
        registration_of(less) matches Some(registration) ==> {
            let n = record.number;
            if n == 1 {
                match record.value {
                    Some(ValueView::Varint(v)) => {
                        &&& forall|p: Protocol| #[trigger]
                            number_of(p) == v % 0x1_0000_0000 ==> registration_of(more) == Some(
                                RegistrationView { protocol: p, ..registration },
                            )
                        &&& v % 0x1_0000_0000 > 5 ==> registration_of(more) is None
                    },
                    _ => registration_of(more) is None,
                }
            } else if n == 2 {
                match record.value {
                    Some(ValueView::Bytes(b)) => registration_of(more) == if valid_utf8(b) {
                        Some(RegistrationView { endpoint: decode_utf8(b), ..registration })
                    } else {
                        None
                    },
                    _ => registration_of(more) is None,
                }
            } else if n == 3 {
                match record.value {
                    Some(ValueView::Varint(v)) => {
                        &&& registration_of(more) is Some
                        &&& registration_of(more)->0.protocol == registration.protocol
                        &&& registration_of(more)->0.endpoint == registration.endpoint
                        &&& registration_of(more)->0.shards.len() == registration.shards.len() + 1
                        &&& registration_of(more)->0.shards.drop_last() == registration.shards
                        &&& registration_of(more)->0.shards.last() == v % 0x1_0000_0000
                    },
                    Some(ValueView::Bytes(run)) => registration_of(more) == match packed_numbers(
                        run,
                    ) {
                        Some(numbers) => Some(
                            RegistrationView {
                                shards: registration.shards + numbers,
                                ..registration
                            },
                        ),
                        None => None,
                    },
                    _ => registration_of(more) is None,
                }
            } else {
                registration_of(more) == Some(registration)
            }
        },
        registration_of(Seq::empty()) == Some(
            RegistrationView {
                protocol: Protocol::Net,
                endpoint: Seq::empty(),
                shards: Seq::empty(),
            },
        ),
{
    lemma_records(more);
    let all = records.push(record);
    assert(record_possible(all[records.len() as int]));
    lemma_group_push(records, record, 3);
    lemma_group_push(records, record, 0);
    lemma_nothing_read();
    assert(records_of(Seq::<u8>::empty()) == Some(Seq::<RecordView>::empty()));
    assert(!has_group(Seq::<RecordView>::empty(), 3));
    assert(all.drop_last() =~= records);
    let m = gather(records);
    if record.value is Some {
        let value = record.value->0;
        law_any_message_has_fields(less);
        lemma_read_arranged(less, 0);
        lemma_arranged_remove(m, record.number);
        lemma_field_push(m, record.number, value);
        lemma_numbers_push(m, record.number, value);
        lemma_bytes_push(m, record.number, value);
        if let ValueView::Varint(v) = value {
            lemma_protocol_found(v);
            assert(v as u32 == v % 0x1_0000_0000u64) by (bit_vector);
            if record.number == 3 && registration_of(less) is Some {
                let before = registration_of(less)->0.shards;
                assert(before.push(v as u32).drop_last() =~= before);
            }
        }
    }
}

/// One value of field 3 for each of the numbers.
pub open spec fn one_by_one(numbers: Seq<u32>) -> Seq<u8>
    decreases numbers.len(),
{
    if numbers.len() == 0 {
        Seq::empty()
    } else {
        one_by_one(numbers.drop_last()) + wire_value(
            3,
            ValueView::Varint(numbers.last() as u64),
        )
    }
}

/// The numbers of a packed run.
pub open spec fn packed(numbers: Seq<u32>) -> Seq<u8>
    decreases numbers.len(),
{
    if numbers.len() == 0 {
        Seq::empty()
    } else {
        varint(numbers[0] as nat) + packed(numbers.skip(1))
    }
}

/// The protocol and the endpoint of a registration, written as its first two fields.
pub open spec fn announced(protocol: Protocol, endpoint: Seq<char>) -> Seq<u8> {
    wire_value(1, ValueView::Varint(number_of(protocol) as u64)) + wire_value(
        2,
        ValueView::Bytes(encode_utf8(endpoint)),
    )
}

proof fn lemma_announced(protocol: Protocol, endpoint: Seq<char>)
    requires
        encode_utf8(endpoint).len() <= u32::MAX,
    ensures
        records_of(announced(protocol, endpoint)) is Some,
        registration_of(announced(protocol, endpoint)) == Some(
            RegistrationView { protocol, endpoint, shards: Seq::empty() },
        ),
{
    let none = Seq::<u8>::empty();
    let first = ValueView::Varint(number_of(protocol) as u64);
    let second = ValueView::Bytes(encode_utf8(endpoint));
    let one = none + wire_value(1, first);
    let two = one + wire_value(2, second);
    assert(two =~= announced(protocol, endpoint));
    assert(records_of(none) == Some(Seq::<RecordView>::empty()));
    lemma_records_push(none, 1, first);
    lemma_records_push(one, 2, second);
    law_registration_takes_values(
        none,
        one,
        records_of(none)->0,
        RecordView { number: 1, value: Some(first) },
    );
    law_registration_takes_values(
        one,
        two,
        records_of(one)->0,
        RecordView { number: 2, value: Some(second) },
    );
    law_protocols_are_listed(number_of(protocol));
    encode_utf8_valid_utf8(endpoint);
    encode_utf8_decode_utf8(endpoint);
}

/// A registration is read as it was written: with its protocol, its endpoint and every one of its
/// shards, in their order, where the shards are given one by one.
pub proof fn law_registration_reads_back(
    protocol: Protocol,
    endpoint: Seq<char>,
    shards: Seq<u32>,
)
    requires
        encode_utf8(endpoint).len() <= u32::MAX,
    ensures
        records_of(announced(protocol, endpoint) + one_by_one(shards)) is Some,
        registration_of(announced(protocol, endpoint) + one_by_one(shards)) == Some(
            RegistrationView { protocol, endpoint, shards },
        ),
    decreases shards.len(),
{
    let start = announced(protocol, endpoint);
    let all = start + one_by_one(shards);
    if shards.len() == 0 {
        lemma_announced(protocol, endpoint);
        assert(all =~= start);
        assert(shards =~= Seq::empty());
    } else {
        let before = shards.drop_last();
        law_registration_reads_back(protocol, endpoint, before);
        let less = start + one_by_one(before);
        let value = ValueView::Varint(shards.last() as u64);
        assert(all =~= less + wire_value(3, value));
        lemma_records_push(less, 3, value);
        law_registration_takes_values(
            less,
            all,
            records_of(less)->0,
            RecordView { number: 3, value: Some(value) },
        );
        let got = registration_of(all)->0.shards;
        assert(got =~= shards) by {
            assert(got == got.drop_last().push(got.last()));
        }
    }
}

/// A packed run holds the numbers that were packed.
pub proof fn law_packed_numbers_read_back(numbers: Seq<u32>)
    ensures
        packed_numbers(packed(numbers)) == Some(numbers),
    decreases numbers.len(),
{
    if numbers.len() == 0 {
        assert(numbers =~= Seq::empty());
    } else {
        let first = numbers[0] as nat;
        let rest = packed(numbers.skip(1));
        let bytes = packed(numbers);
        law_packed_numbers_read_back(numbers.skip(1));
        lemma_varint_back(first, rest);
        lemma_varint_size(0, first);
        lemma_varint_ten(first as u64);
        assert(bytes.skip(varint(first).len() as int) =~= rest);
        assert(seq![numbers[0]] + numbers.skip(1) =~= numbers);
    }
}

/// A registration is read as it was written where its shards are given in one packed run, too.
pub proof fn law_packed_registration_reads_back(
    protocol: Protocol,
    endpoint: Seq<char>,
    shards: Seq<u32>,
)
    requires
        encode_utf8(endpoint).len() <= u32::MAX,
        packed(shards).len() <= u32::MAX,
    ensures
        registration_of(
            announced(protocol, endpoint) + wire_value(3, ValueView::Bytes(packed(shards))),
        ) == Some(RegistrationView { protocol, endpoint, shards }),
{
    let less = announced(protocol, endpoint);
    let value = ValueView::Bytes(packed(shards));
    lemma_announced(protocol, endpoint);
    lemma_records_push(less, 3, value);
    law_packed_numbers_read_back(shards);
    law_registration_takes_values(
        less,
        less + wire_value(3, value),
        records_of(less)->0,
        RecordView { number: 3, value: Some(value) },
    );
    assert(Seq::<u32>::empty() + shards =~= shards);
}

/// A request to disconnect that gives one more value: the last endpoint counts, and every one that
/// is given must be a text; other fields make no difference. Where none is given, it is empty. And
/// it is read as it was written.
pub proof fn law_disconnection_takes_values(
    less: Seq<u8>,
    more: Seq<u8>,
    records: Seq<RecordView>,
    record: RecordView,
    endpoint: Seq<char>,
)
    requires
        records_of(less) == Some(records),
        records_of(more) == Some(records.push(record)),
    ensures
        disconnect_of(less) is None ==> disconnect_of(more) is None,
        disconnect_of(less) matches Some(before) ==> if record.number == 1 {
            match record.value {
                Some(ValueView::Bytes(b)) => disconnect_of(more) == if valid_utf8(b) {
                    Some(decode_utf8(b))
                } else {
                    None
                },
                _ => disconnect_of(more) is None,
            }
        } else {
            disconnect_of(more) == Some(before)
        },
        disconnect_of(Seq::empty()) == Some(Seq::<char>::empty()),
        encode_utf8(endpoint).len() <= u32::MAX ==> disconnect_of(
            wire_value(1, ValueView::Bytes(encode_utf8(endpoint))),
        ) == Some(endpoint),
{
    lemma_records(more);
    assert(record_possible(records.push(record)[records.len() as int]));
    lemma_group_push(records, record, 1);
    lemma_nothing_read();
    let m = gather(records);
    if record.value is Some && fields_of(less, 1) is Some {
        lemma_read_arranged(less, 1);
        lemma_arranged_remove(m, record.number);
        lemma_field_push(m, record.number, record.value->0);
        lemma_bytes_push(m, record.number, record.value->0);
    }
    if encode_utf8(endpoint).len() <= u32::MAX {
        let none = Seq::<u8>::empty();
        let value = ValueView::Bytes(encode_utf8(endpoint));
        let one = RecordView { number: 1, value: Some(value) };
        let bytes = wire_value(1, value);
        assert(none + bytes =~= bytes);
        lemma_records_push(none, 1, value);
        let nothing = Seq::<RecordView>::empty();
        assert(records_of(none) == Some(nothing));
        lemma_group_push(nothing, one, 1);
        assert(!has_group(nothing, 1));
        lemma_bytes_push(gather(nothing), 1, value);
        encode_utf8_valid_utf8(endpoint);
        encode_utf8_decode_utf8(endpoint);
    }
}

/// The answers of the router: the confirmation of a connection has a name and no bytes, and an
/// error has its code as field 1 and its text as field 2. Neither says where it is to go.
pub proof fn law_answers_are_written(code: u64, text: Seq<char>)
    ensures
        connect_ok_view().message_id == Some("ConnectOk"@),
        connect_ok_view().body == Some(Seq::<u8>::empty()),
        connect_ok_view().route_info is None,
        connect_ok_view().extra.len() == 0,
        net_error_view(code, text).message_id == Some("NetError"@),
        net_error_view(code, text).body == Some(
            wire_value(1, ValueView::Varint(code)) + wire_value(
                2,
                ValueView::Bytes(encode_utf8(text)),
            ),
        ),
        net_error_view(code, text).route_info is None,
        net_error_view(code, text).extra.len() == 0,
{
    lemma_wire_bytes_add(number_part(1, Some(code)), bytes_part(2, Some(encode_utf8(text))));
    lemma_number_part(1, code);
    lemma_bytes_part(2, encode_utf8(text));
}

/// A registration is read as what it is.
pub proof fn law_views_of_announcements(registration: Registration)
    ensures
        registration@.protocol == registration.protocol,
        registration@.endpoint == registration.endpoint@,
        registration@.shards == registration.shards@,
{
}

} // verus!
