//! Protocol buffer messages as sequences of values, each of a numbered field.

use protobuf::rt::read_unknown_or_skip_group;
use protobuf::{
    CodedInputStream, CodedOutputStream, ProtobufError, UnknownFields, UnknownValueRef,
};
use vstd::prelude::*;
use vstd::slice::slice_subrange;

use crate::error::Error;

verus! {

/// The largest number a field can have.
pub const MAX_FIELD_NUMBER: u32 = 0x1fff_ffff;

/// One value of a field, by the way it is written.
pub enum Value {
    Fixed32(u32),
    Fixed64(u64),
    Varint(u64),
    Bytes(Vec<u8>),
}

/// The mathematical reading of a [`Value`].
pub enum ValueView {
    Fixed32(u32),
    Fixed64(u64),
    Varint(u64),
    Bytes(Seq<u8>),
}

impl View for Value {
    type V = ValueView;

    open spec fn view(&self) -> ValueView {
        match *self {
            Value::Fixed32(v) => ValueView::Fixed32(v),
            Value::Fixed64(v) => ValueView::Fixed64(v),
            Value::Varint(v) => ValueView::Varint(v),
            Value::Bytes(b) => ValueView::Bytes(b@),
        }
    }
}

/// A number of variable length: seven bits to a byte, the lowest first, and 128 more in every byte
/// but the last.
pub open spec fn varint(n: nat) -> Seq<u8>
    decreases n,
{
    if n < 128 {
        seq![n as u8]
    } else {
        seq![(n % 128 + 128) as u8] + varint(n / 128)
    }
}

/// A number of fixed length, the lowest byte first.
pub open spec fn little_endian(n: nat, size: nat) -> Seq<u8>
    decreases size,
{
    if size == 0 {
        Seq::empty()
    } else {
        seq![(n % 256) as u8] + little_endian(n / 256, (size - 1) as nat)
    }
}

/// The bytes by which one value of a field is written: the number of the field together with the
/// way the value is written, and the value. The length of a byte string is written with 32 bits.
pub open spec fn wire_value(number: u32, value: ValueView) -> Seq<u8> {
    let tag = 8 * (number as nat);
    match value {
        ValueView::Varint(v) => varint(tag) + varint(v as nat),
        ValueView::Fixed64(v) => varint(tag + 1) + little_endian(v as nat, 8),
        ValueView::Bytes(b) => varint(tag + 2) + varint(b.len() % 0x1_0000_0000) + b,
        ValueView::Fixed32(v) => varint(tag + 5) + little_endian(v as nat, 4),
    }
}

/// A byte string is not too long for a length of 32 bits.
pub open spec fn value_fits(value: ValueView) -> bool {
    value is Bytes ==> value->Bytes_0.len() <= u32::MAX
}

/// One value that a message gives to a field, or a group of fields, which is passed over.
pub struct Record {
    pub number: u32,
    pub value: Option<Value>,
}

/// The mathematical reading of a [`Record`].
pub struct RecordView {
    pub number: u32,
    pub value: Option<ValueView>,
}

impl View for Record {
    type V = RecordView;

    open spec fn view(&self) -> RecordView {
        RecordView {
            number: self.number,
            value: match self.value {
                Some(value) => Some(value@),
                None => None,
            },
        }
    }
}

pub open spec fn record_views(records: Seq<Record>) -> Seq<RecordView> {
    records.map_values(|r: Record| r@)
}

/// The number of variable length at the front of a byte string, and how many bytes it takes; or
/// nothing where the byte string ends before it does.
pub open spec fn varint_at(bytes: Seq<u8>) -> Option<(nat, nat)>
    decreases bytes.len(),
{
    if bytes.len() == 0 {
        None
    } else if bytes[0] < 128 {
        Some((bytes[0] as nat, 1))
    } else {
        match varint_at(bytes.skip(1)) {
            Some((n, size)) => Some(((bytes[0] - 128 + 128 * n) as nat, size + 1)),
            None => None,
        }
    }
}

/// A number of fixed length.
pub open spec fn from_little_endian(bytes: Seq<u8>) -> nat
    decreases bytes.len(),
{
    if bytes.len() == 0 {
        0
    } else {
        (bytes[0] + 256 * from_little_endian(bytes.skip(1))) as nat
    }
}

/// The number of a field and the way in which it is written, at the front of a byte string, and
/// how many bytes they take. Of a larger number the lowest 32 bits count.
pub open spec fn tag_at(bytes: Seq<u8>) -> Option<(u32, nat, nat)> {
    match varint_at(bytes) {
        Some((n, size)) => {
            let tag = n % 0x1_0000_0000;
            if 0 < size <= 10 && tag >= 8 && tag % 8 <= 5 {
                Some(((tag / 8) as u32, tag % 8, size))
            } else {
                None
            }
        },
        None => None,
    }
}

/// The value at the front of a byte string, written in the given way, and how many bytes it takes.
pub open spec fn value_at(way: nat, bytes: Seq<u8>) -> Option<(ValueView, nat)> {
    if way == 0 {
        match varint_at(bytes) {
            Some((n, size)) => if 0 < size <= 10 {
                Some((ValueView::Varint((n % 0x1_0000_0000_0000_0000) as u64), size))
            } else {
                None
            },
            None => None,
        }
    } else if way == 1 && bytes.len() >= 8 {
        Some((ValueView::Fixed64(from_little_endian(bytes.take(8)) as u64), 8))
    } else if way == 2 {
        match varint_at(bytes) {
            Some((n, size)) => {
                let end = size + n % 0x1_0000_0000;
                if 0 < size <= 10 && end <= bytes.len() {
                    Some((ValueView::Bytes(bytes.subrange(size as int, end as int)), end))
                } else {
                    None
                }
            },
            None => None,
        }
    } else if way == 5 && bytes.len() >= 4 {
        Some((ValueView::Fixed32(from_little_endian(bytes.take(4)) as u32), 4))
    } else {
        None
    }
}

/// How many bytes it takes to pass over the values of a group, and over its end.
pub open spec fn group_at(bytes: Seq<u8>) -> Option<nat>
    decreases bytes.len(),
{
    match tag_at(bytes) {
        Some((_, way, size)) => if way == 4 {
            Some(size)
        } else {
            match value_at(way, bytes.skip(size as int)) {
                Some((_, taken)) => if 0 < size && size + taken <= bytes.len() {
                    match group_at(bytes.skip((size + taken) as int)) {
                        Some(rest) => Some(size + taken + rest),
                        None => None,
                    }
                } else {
                    None
                },
                None => None,
            }
        },
        None => None,
    }
}

/// The value of a field, or the group, at the front of a byte string, and how many bytes it takes;
/// or nothing where there is none.
pub open spec fn record_at(bytes: Seq<u8>) -> Option<(RecordView, nat)> {
    match tag_at(bytes) {
        Some((number, way, size)) => {
            let rest = bytes.skip(size as int);
            if way == 3 {
                match group_at(rest) {
                    Some(taken) => Some((RecordView { number, value: None }, size + taken)),
                    None => None,
                }
            } else {
                match value_at(way, rest) {
                    Some((value, taken)) => Some(
                        (RecordView { number, value: Some(value) }, size + taken),
                    ),
                    None => None,
                }
            }
        },
        None => None,
    }
}

/// The values of a message in their order, or nothing where the bytes are no message.
pub open spec fn records_of(bytes: Seq<u8>) -> Option<Seq<RecordView>>
    decreases bytes.len(),
{
    if bytes.len() == 0 {
        Some(Seq::empty())
    } else {
        match record_at(bytes) {
            Some((record, size)) => if 0 < size <= bytes.len() {
                match records_of(bytes.skip(size as int)) {
                    Some(rest) => Some(seq![record] + rest),
                    None => None,
                }
            } else {
                None
            },
            None => None,
        }
    }
}

/// The error of the `protobuf` crate.
#[verifier::external_type_specification]
#[verifier::external_body]
pub struct ExProtobufError(ProtobufError);

/// Calls `protobuf::CodedInputStream::read_tag_unpack` and then
/// `protobuf::rt::read_unknown_or_skip_group` on a stream of the byte string: they read the value
/// or pass over the group at its front, or fail where there is none.
#[verifier::external_body]
pub(crate) fn read_record(bytes: &[u8]) -> (r: Result<(Record, usize), ProtobufError>)
    ensures
        match r {
            Ok((record, size)) => record_at(bytes@) == Some((record@, size as nat)),
            Err(_) => record_at(bytes@) is None,
        },
{
    let mut stream = CodedInputStream::from_bytes(bytes);
    let (number, wire_type) = stream.read_tag_unpack()?;
    let mut found = UnknownFields::new();
    read_unknown_or_skip_group(number, wire_type, &mut stream, &mut found)?;
    let value = match found.get(number).and_then(|values| values.iter().next()) {
        Some(UnknownValueRef::Fixed32(v)) => Some(Value::Fixed32(v)),
        Some(UnknownValueRef::Fixed64(v)) => Some(Value::Fixed64(v)),
        Some(UnknownValueRef::Varint(v)) => Some(Value::Varint(v)),
        Some(UnknownValueRef::LengthDelimited(b)) => Some(Value::Bytes(b.to_vec())),
        None => None,
    };
    Ok((Record { number, value }, stream.pos() as usize))
}

/// Calls `protobuf::CodedOutputStream::write_unknown` on a stream that appends to `out`, and then
/// `flush`.
#[verifier::external_body]
pub(crate) fn write_value(out: &mut Vec<u8>, number: u32, value: &Value)
    requires
        1 <= number <= MAX_FIELD_NUMBER,
    ensures
        final(out)@ == old(out)@ + wire_value(number, value@),
{
    let value = match value {
        Value::Fixed32(v) => UnknownValueRef::Fixed32(*v),
        Value::Fixed64(v) => UnknownValueRef::Fixed64(*v),
        Value::Varint(v) => UnknownValueRef::Varint(*v),
        Value::Bytes(b) => UnknownValueRef::LengthDelimited(b),
    };
    let mut stream = CodedOutputStream::vec(out);
    stream.write_unknown(number, value).unwrap();
    stream.flush().unwrap();
}

/// The numbers of 32 bits in a byte string that holds nothing but numbers of variable length, of at
/// most ten bytes each; of a larger number the lowest 32 bits count.
pub open spec fn packed_numbers(bytes: Seq<u8>) -> Option<Seq<u32>>
    decreases bytes.len(),
{
    if bytes.len() == 0 {
        Some(Seq::empty())
    } else {
        match varint_at(bytes) {
            Some((n, size)) => if 0 < size <= 10 && size <= bytes.len() {
                match packed_numbers(bytes.skip(size as int)) {
                    Some(rest) => Some(seq![(n % 0x1_0000_0000) as u32] + rest),
                    None => None,
                }
            } else {
                None
            },
            None => None,
        }
    }
}

/// Calls `protobuf::CodedInputStream::read_repeated_packed_uint32_into` on the byte string, after
/// `protobuf::CodedOutputStream::write_bytes_no_tag` has put its length before it, with 32 bits.
#[verifier::external_body]
pub(crate) fn unpack_numbers(bytes: &[u8]) -> (r: Result<Vec<u32>, ProtobufError>)
    requires
        bytes@.len() <= u32::MAX,
    ensures
        match r {
            Ok(numbers) => packed_numbers(bytes@) == Some(numbers@),
            Err(_) => packed_numbers(bytes@) is None,
        },
{
    let mut run = Vec::new();
    let mut stream = CodedOutputStream::vec(&mut run);
    stream.write_bytes_no_tag(bytes).unwrap();
    stream.flush().unwrap();
    drop(stream);
    let mut numbers = Vec::new();
    CodedInputStream::from_bytes(&run).read_repeated_packed_uint32_into(&mut numbers)?;
    Ok(numbers)
}

/// How many bytes a value is written by. Groups are not written.
pub open spec fn record_size(record: RecordView) -> nat {
    match record.value {
        Some(value) => wire_value(record.number, value).len(),
        None => 0,
    }
}

/// How many bytes values are written by.
pub open spec fn records_size(records: Seq<RecordView>) -> nat
    decreases records.len(),
{
    if records.len() == 0 {
        0
    } else {
        records_size(records.drop_last()) + record_size(records.last())
    }
}

/// A number that a field can have, and a value whose length can be written.
pub open spec fn record_possible(record: RecordView) -> bool {
    &&& 1 <= record.number <= MAX_FIELD_NUMBER
    &&& record.value is Some ==> value_fits(record.value->0)
}

/// A number takes at least one byte and no more than there are, and what follows it makes no
/// difference.
proof fn lemma_varint_at(bytes: Seq<u8>, more: Seq<u8>)
    requires
        varint_at(bytes) is Some,
    ensures
        0 < (varint_at(bytes)->0).1 <= bytes.len(),
        varint_at(bytes + more) == varint_at(bytes),
    decreases bytes.len(),
{
    assert((bytes + more)[0] == bytes[0]);
    if bytes[0] >= 128 {
        lemma_varint_at(bytes.skip(1), more);
        assert((bytes + more).skip(1) =~= bytes.skip(1) + more);
    }
}

/// A number is written by at least one byte, and a larger one by no fewer.
pub(crate) proof fn lemma_varint_size(small: nat, large: nat)
    requires
        small <= large,
    ensures
        0 < varint(small).len() <= varint(large).len(),
    decreases large,
{
    if large >= 128 {
        lemma_varint_size(small / 128, large / 128);
    }
}

/// A number takes no fewer bytes than it is written by.
proof fn lemma_varint_short(bytes: Seq<u8>)
    requires
        varint_at(bytes) is Some,
    ensures
        varint((varint_at(bytes)->0).0).len() <= (varint_at(bytes)->0).1,
    decreases bytes.len(),
{
    if bytes[0] >= 128 {
        lemma_varint_short(bytes.skip(1));
        let (n, size) = varint_at(bytes.skip(1))->0;
        let whole = (varint_at(bytes)->0).0;
        assert(whole / 128 == n);
        if whole < 128 {
            assert(varint(whole).len() == 1);
        } else {
            assert(varint(whole).len() == 1 + varint(n).len());
        }
    }
}

/// A number is read as it was written.
pub(crate) proof fn lemma_varint_back(n: nat, more: Seq<u8>)
    ensures
        varint_at(varint(n) + more) == Some((n, varint(n).len())),
    decreases n,
{
    let bytes = varint(n) + more;
    if n < 128 {
        assert(bytes[0] == n);
    } else {
        lemma_varint_back(n / 128, more);
        assert(bytes[0] == n % 128 + 128);
        assert(bytes.skip(1) =~= varint(n / 128) + more);
    }
}

spec fn sevens(count: nat) -> nat
    decreases count,
{
    if count == 0 {
        1
    } else {
        128 * sevens((count - 1) as nat)
    }
}

proof fn lemma_varint_within(n: nat, count: nat)
    requires
        n < sevens(count),
        count > 0,
    ensures
        varint(n).len() <= count,
    decreases count,
{
    if n >= 128 {
        if count == 1 {
            assert(sevens(0) == 1);
        }
        lemma_varint_within(n / 128, (count - 1) as nat);
    }
}

/// A number of 64 bits is written by at most ten bytes.
pub(crate) proof fn lemma_varint_ten(n: u64)
    ensures
        varint(n as nat).len() <= 10,
{
    reveal_with_fuel(sevens, 11);
    lemma_varint_within(n as nat, 10);
}

spec fn eights(count: nat) -> nat
    decreases count,
{
    if count == 0 {
        1
    } else {
        256 * eights((count - 1) as nat)
    }
}

/// A number of fixed length is read as it was written.
proof fn lemma_little_endian_back(n: nat, size: nat)
    requires
        n < eights(size),
    ensures
        little_endian(n, size).len() == size,
        from_little_endian(little_endian(n, size)) == n,
    decreases size,
{
    if size > 0 {
        lemma_little_endian_back(n / 256, (size - 1) as nat);
        let bytes = little_endian(n, size);
        assert(bytes[0] == n % 256);
        assert(bytes.skip(1) =~= little_endian(n / 256, (size - 1) as nat));
    }
}

proof fn lemma_tag_at(bytes: Seq<u8>, more: Seq<u8>)
    requires
        tag_at(bytes) is Some,
    ensures
        tag_at(bytes + more) == tag_at(bytes),
        ({
            let (number, way, size) = tag_at(bytes)->0;
            &&& 1 <= number <= MAX_FIELD_NUMBER
            &&& 0 < size <= bytes.len()
            &&& varint(8 * (number as nat) + way).len() <= size
        }),
{
    lemma_varint_at(bytes, more);
    lemma_varint_short(bytes);
    let n = (varint_at(bytes)->0).0;
    let tag = n % 0x1_0000_0000;
    let (number, way, size) = tag_at(bytes)->0;
    assert(8 * (number as nat) + way == tag);
    lemma_varint_size(tag, n);
}

/// The bytes by which a value itself is written.
spec fn payload_bytes(value: ValueView) -> Seq<u8> {
    match value {
        ValueView::Varint(v) => varint(v as nat),
        ValueView::Fixed64(v) => little_endian(v as nat, 8),
        ValueView::Bytes(b) => varint(b.len() % 0x1_0000_0000) + b,
        ValueView::Fixed32(v) => little_endian(v as nat, 4),
    }
}

/// The way in which a value is written.
spec fn way_of(value: ValueView) -> nat {
    match value {
        ValueView::Varint(_) => 0,
        ValueView::Fixed64(_) => 1,
        ValueView::Bytes(_) => 2,
        ValueView::Fixed32(_) => 5,
    }
}

proof fn lemma_wire_value(number: u32, value: ValueView)
    ensures
        wire_value(number, value) == varint(8 * (number as nat) + way_of(value)) + payload_bytes(
            value,
        ),
{
    assert(wire_value(number, value) =~= varint(8 * (number as nat) + way_of(value))
        + payload_bytes(value));
}

proof fn lemma_value_at(way: nat, bytes: Seq<u8>, more: Seq<u8>)
    requires
        value_at(way, bytes) is Some,
    ensures
        value_at(way, bytes + more) == value_at(way, bytes),
        ({
            let (value, taken) = value_at(way, bytes)->0;
            &&& taken <= bytes.len()
            &&& way_of(value) == way
            &&& payload_bytes(value).len() <= taken
            &&& value_fits(value)
        }),
{
    let all = bytes + more;
    reveal_with_fuel(little_endian, 9);
    if way == 0 {
        lemma_varint_at(bytes, more);
        lemma_varint_short(bytes);
        let n = (varint_at(bytes)->0).0;
        lemma_varint_size(n % 0x1_0000_0000_0000_0000, n);
    } else if way == 1 {
        assert(all.take(8) =~= bytes.take(8));
    } else if way == 2 {
        lemma_varint_at(bytes, more);
        lemma_varint_short(bytes);
        let (n, size) = varint_at(bytes)->0;
        let length = n % 0x1_0000_0000;
        lemma_varint_size(length, n);
        assert(all.subrange(size as int, (size + length) as int) =~= bytes.subrange(
            size as int,
            (size + length) as int,
        ));
    } else {
        assert(all.take(4) =~= bytes.take(4));
    }
}

proof fn lemma_group_at(bytes: Seq<u8>, more: Seq<u8>)
    requires
        group_at(bytes) is Some,
    ensures
        group_at(bytes + more) == group_at(bytes),
        group_at(bytes)->0 <= bytes.len(),
    decreases bytes.len(),
{
    lemma_tag_at(bytes, more);
    let (_, way, size) = tag_at(bytes)->0;
    if way != 4 {
        let rest = bytes.skip(size as int);
        lemma_value_at(way, rest, more);
        let taken = (value_at(way, rest)->0).1;
        let last = bytes.skip((size + taken) as int);
        lemma_group_at(last, more);
        assert((bytes + more).skip(size as int) =~= rest + more);
        assert((bytes + more).skip((size + taken) as int) =~= last + more);
    }
}

/// What is read at the front of a byte string is a value or a group of a field, takes at least one
/// byte and no more than there are, and no fewer than it is written by; and what follows it makes
/// no difference.
proof fn lemma_record_at(bytes: Seq<u8>, more: Seq<u8>)
    requires
        record_at(bytes) is Some,
    ensures
        record_at(bytes + more) == record_at(bytes),
        0 < (record_at(bytes)->0).1 <= bytes.len(),
        record_possible((record_at(bytes)->0).0),
        record_size((record_at(bytes)->0).0) <= (record_at(bytes)->0).1,
{
    lemma_tag_at(bytes, more);
    let (number, way, size) = tag_at(bytes)->0;
    let rest = bytes.skip(size as int);
    assert((bytes + more).skip(size as int) =~= rest + more);
    if way == 3 {
        lemma_group_at(rest, more);
    } else {
        lemma_value_at(way, rest, more);
        lemma_wire_value(number, (value_at(way, rest)->0).0);
    }
}

proof fn lemma_fixed_back(value: ValueView)
    requires
        value is Fixed32 || value is Fixed64,
    ensures
        value_at(way_of(value), payload_bytes(value)) == Some((value, payload_bytes(value).len())),
{
    let bytes = payload_bytes(value);
    reveal_with_fuel(eights, 9);
    match value {
        ValueView::Fixed64(v) => {
            lemma_little_endian_back(v as nat, 8);
            assert(bytes.take(8) =~= bytes);
        },
        ValueView::Fixed32(v) => {
            lemma_little_endian_back(v as nat, 4);
            assert(bytes.take(4) =~= bytes);
        },
        _ => {},
    }
}

proof fn lemma_value_back(value: ValueView)
    requires
        value_fits(value),
    ensures
        value_at(way_of(value), payload_bytes(value)) == Some((value, payload_bytes(value).len())),
{
    let bytes = payload_bytes(value);
    match value {
        ValueView::Varint(v) => {
            assert(bytes =~= varint(v as nat) + Seq::empty());
            lemma_varint_back(v as nat, Seq::empty());
            lemma_varint_size(0, v as nat);
            lemma_varint_ten(v);
        },
        ValueView::Bytes(b) => {
            let length = b.len();
            assert(length % 0x1_0000_0000 == length);
            lemma_varint_back(length, b);
            lemma_varint_size(0, length);
            lemma_varint_ten(length as u64);
            let start = varint(length).len() as int;
            assert(bytes.subrange(start, start + length) =~= b);
        },
        _ => {
            lemma_fixed_back(value);
        },
    }
}

/// A value is read as it was written.
proof fn lemma_record_back(number: u32, value: ValueView)
    requires
        1 <= number <= MAX_FIELD_NUMBER,
        value_fits(value),
    ensures
        record_at(wire_value(number, value)) == Some(
            (RecordView { number, value: Some(value) }, wire_value(number, value).len()),
        ),
        wire_value(number, value).len() > 0,
{
    let bytes = wire_value(number, value);
    let tag = 8 * (number as nat) + way_of(value);
    let rest = payload_bytes(value);
    lemma_wire_value(number, value);
    lemma_varint_back(tag, rest);
    lemma_varint_size(0, tag);
    lemma_varint_ten(tag as u64);
    assert(tag / 8 == number && tag % 8 == way_of(value));
    assert(bytes.skip(varint(tag).len() as int) =~= rest);
    lemma_value_back(value);
}

/// Two messages, one after the other, are read as one that has the values of both.
pub(crate) proof fn lemma_records_add(a: Seq<u8>, b: Seq<u8>)
    requires
        records_of(a) is Some,
    ensures
        records_of(a + b) == match records_of(b) {
            Some(more) => Some(records_of(a)->0 + more),
            None => None,
        },
    decreases a.len(),
{
    if a.len() == 0 {
        assert(a + b =~= b);
        if records_of(b) is Some {
            assert(records_of(a)->0 + records_of(b)->0 =~= records_of(b)->0);
        }
    } else {
        lemma_record_at(a, b);
        let (record, size) = record_at(a)->0;
        let rest = a.skip(size as int);
        lemma_records_add(rest, b);
        assert((a + b).skip(size as int) =~= rest + b);
        if records_of(b) is Some {
            assert(seq![record] + (records_of(rest)->0 + records_of(b)->0) =~= seq![record]
                + records_of(rest)->0 + records_of(b)->0);
        }
    }
}

/// A value after a message is read as one more value of the message.
pub(crate) proof fn lemma_records_push(bytes: Seq<u8>, number: u32, value: ValueView)
    requires
        records_of(bytes) is Some,
        1 <= number <= MAX_FIELD_NUMBER,
        value_fits(value),
    ensures
        records_of(bytes + wire_value(number, value)) == Some(
            records_of(bytes)->0.push(RecordView { number, value: Some(value) }),
        ),
{
    let more = wire_value(number, value);
    let record = RecordView { number, value: Some(value) };
    lemma_record_back(number, value);
    assert(more.skip(more.len() as int) =~= Seq::empty());
    assert(records_of(more.skip(more.len() as int)) == Some(Seq::<RecordView>::empty()));
    assert(seq![record] + Seq::<RecordView>::empty() =~= seq![record]);
    lemma_records_add(bytes, more);
    assert(records_of(bytes)->0 + seq![record] =~= records_of(bytes)->0.push(record));
}

/// The values of a message are those that fields can have, and they are written by no more bytes
/// than they were read from.
pub(crate) proof fn lemma_records(bytes: Seq<u8>)
    requires
        records_of(bytes) is Some,
    ensures
        forall|i: int|
            0 <= i < records_of(bytes)->0.len() ==> record_possible(
                #[trigger] records_of(bytes)->0[i],
            ),
        records_size(records_of(bytes)->0) <= bytes.len(),
    decreases bytes.len(),
{
    if bytes.len() > 0 {
        lemma_record_at(bytes, Seq::empty());
        let (record, size) = record_at(bytes)->0;
        let rest = bytes.skip(size as int);
        lemma_records(rest);
        lemma_size_first(record, records_of(rest)->0);
        let all = records_of(bytes)->0;
        assert forall|i: int| 0 <= i < all.len() implies record_possible(#[trigger] all[i]) by {
            if i > 0 {
                assert(all[i] == records_of(rest)->0[i - 1]);
            }
        }
    }
}

proof fn lemma_size_first(record: RecordView, rest: Seq<RecordView>)
    ensures
        records_size(seq![record] + rest) == record_size(record) + records_size(rest),
    decreases rest.len(),
{
    let all = seq![record] + rest;
    if rest.len() == 0 {
        assert(all.drop_last() =~= Seq::empty());
        assert(records_size(all.drop_last()) == 0);
        assert(all.last() == record);
    } else {
        lemma_size_first(record, rest.drop_last());
        assert(all.drop_last() =~= seq![record] + rest.drop_last());
    }
}

/// The values of a message in their order.
pub(crate) fn read_records(bytes: &[u8]) -> (r: Result<Vec<Record>, Error>)
    ensures
        match r {
            Ok(records) => {
                &&& records_of(bytes@) == Some(record_views(records@))
                &&& forall|i: int| 0 <= i < records@.len() ==> record_possible(#[trigger] records@[i]@)
            },
            Err(e) => records_of(bytes@) is None && e == Error::Protobuf,
        },
{
    let mut records: Vec<Record> = Vec::new();
    let mut at: usize = 0;
    proof {
        assert(bytes@.skip(0) =~= bytes@);
        assert forall|rest: Seq<RecordView>| #[trigger] (record_views(records@) + rest) == rest by {
            assert(record_views(records@) + rest =~= rest);
        }
    }
    while at < bytes.len()
        invariant
            at <= bytes@.len(),
            records_of(bytes@) == match records_of(bytes@.skip(at as int)) {
                Some(rest) => Some(record_views(records@) + rest),
                None => None,
            },
            forall|i: int| 0 <= i < records@.len() ==> record_possible(#[trigger] records@[i]@),
        decreases bytes@.len() - at,
    {
        let ghost before = record_views(records@);
        let ghost rest = bytes@.skip(at as int);
        assert(bytes@.subrange(at as int, bytes@.len() as int) =~= rest);
        match read_record(slice_subrange(bytes, at, bytes.len())) {
            Ok((record, size)) => {
                let ghost view = record@;
                proof {
                    lemma_record_at(rest, Seq::empty());
                }
                records.push(record);
                at = at + size;
                proof {
                    let now = record_views(records@);
                    assert(now =~= before.push(view));
                    assert(rest.skip(size as int) =~= bytes@.skip(at as int));
                    let more = records_of(bytes@.skip(at as int));
                    if more is Some {
                        assert(before + (seq![view] + more->0) =~= now + more->0);
                    }
                }
            },
            Err(_) => {
                return Err(Error::Protobuf);
            },
        }
    }
    assert(record_views(records@) + Seq::<RecordView>::empty() =~= record_views(records@));
    Ok(records)
}

/// The values of a message are those that are read one after the other from its front to its end,
/// and there is no message where one of them cannot be read.
pub proof fn law_values_come_in_order(bytes: Seq<u8>)
    ensures
        bytes.len() == 0 ==> records_of(bytes) == Some(Seq::<RecordView>::empty()),
        bytes.len() > 0 && record_at(bytes) is None ==> records_of(bytes) is None,
        record_at(bytes) matches Some((record, size)) ==> {
            let rest = records_of(bytes.skip(size as int));
            &&& 0 < size <= bytes.len()
            &&& records_of(bytes) is Some <==> rest is Some
            &&& rest is Some ==> records_of(bytes)->0.len() == rest->0.len() + 1
            &&& rest is Some ==> records_of(bytes)->0[0] == record
            &&& rest is Some ==> records_of(bytes)->0.skip(1) == rest->0
        },
{
    if record_at(bytes) is Some {
        lemma_record_at(bytes, Seq::empty());
        let (record, size) = record_at(bytes)->0;
        let rest = records_of(bytes.skip(size as int));
        if rest is Some {
            assert((seq![record] + rest->0).skip(1) =~= rest->0);
        }
    }
}

/// Two messages, one after the other, are read as one that has the values of both; and a value is
/// read as it was written, after a message or alone.
pub proof fn law_values_read_back(a: Seq<u8>, b: Seq<u8>, number: u32, value: ValueView)
    requires
        records_of(a) is Some,
        1 <= number <= 0x1fff_ffff,
        value is Bytes ==> value->Bytes_0.len() <= u32::MAX,
    ensures
        records_of(b) is Some ==> records_of(a + b) == Some(records_of(a)->0 + records_of(b)->0),
        records_of(b) is None ==> records_of(a + b) is None,
        records_of(a + wire_value(number, value)) == Some(
            records_of(a)->0.push(RecordView { number, value: Some(value) }),
        ),
        records_of(wire_value(number, value)) == Some(
            seq![RecordView { number, value: Some(value) }],
        ),
{
    lemma_records_add(a, b);
    lemma_records_push(a, number, value);
    let none = Seq::<u8>::empty();
    assert(none + wire_value(number, value) =~= wire_value(number, value));
    lemma_records_push(none, number, value);
    assert(Seq::<RecordView>::empty().push(RecordView { number, value: Some(value) }) =~= seq![
        RecordView { number, value: Some(value) },
    ]);
}

/// A value is read as what it is, and so is a list of them.
pub proof fn law_views_of_values(value: Value, record: Record, records: Seq<Record>)
    ensures
        value matches Value::Fixed32(v) ==> value@ == ValueView::Fixed32(v),
        value matches Value::Fixed64(v) ==> value@ == ValueView::Fixed64(v),
        value matches Value::Varint(v) ==> value@ == ValueView::Varint(v),
        value matches Value::Bytes(b) ==> value@ == ValueView::Bytes(b@),
        record@.number == record.number,
        record.value is None <==> record@.value is None,
        record.value matches Some(v) ==> record@.value == Some(v@),
        record_views(records).len() == records.len(),
        forall|i: int|
            0 <= i < records.len() ==> record_views(records)[i] == (#[trigger] records[i])@,
{
}

} // verus!
