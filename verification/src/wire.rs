//! Protocol buffer messages seen as numbered fields.

use vstd::prelude::*;
use vstd::slice::slice_to_vec;

use crate::bytes::byte_strings;
use crate::error::Error;
use crate::record::{
    lemma_records, lemma_records_push, read_records, record_possible, record_views, records_of,
    records_size, value_fits, wire_value, write_value, Record, RecordView, Value, ValueView,
    MAX_FIELD_NUMBER,
};

verus! {

/// All values that a message gives to one field, kept apart by the way they are written and each
/// kind in the order of the message.
#[verifier::ext_equal]
pub struct Values {
    pub fixed32: Seq<u32>,
    pub fixed64: Seq<u64>,
    pub varint: Seq<u64>,
    pub bytes: Seq<Seq<u8>>,
}

impl Values {
    pub open spec fn none() -> Values {
        Values {
            fixed32: Seq::empty(),
            fixed64: Seq::empty(),
            varint: Seq::empty(),
            bytes: Seq::empty(),
        }
    }

    pub open spec fn push(self, value: ValueView) -> Values {
        match value {
            ValueView::Fixed32(v) => Values { fixed32: self.fixed32.push(v), ..self },
            ValueView::Fixed64(v) => Values { fixed64: self.fixed64.push(v), ..self },
            ValueView::Varint(v) => Values { varint: self.varint.push(v), ..self },
            ValueView::Bytes(b) => Values { bytes: self.bytes.push(b), ..self },
        }
    }
}

/// A field of a message: its number and every value the message gives it.
pub struct Field {
    pub number: u32,
    pub fixed32: Vec<u32>,
    pub fixed64: Vec<u64>,
    pub varint: Vec<u64>,
    pub bytes: Vec<Vec<u8>>,
}

/// The mathematical reading of a [`Field`].
#[verifier::ext_equal]
pub struct FieldView {
    pub number: u32,
    pub values: Values,
}

impl View for Field {
    type V = FieldView;

    open spec fn view(&self) -> FieldView {
        FieldView {
            number: self.number,
            values: Values {
                fixed32: self.fixed32@,
                fixed64: self.fixed64@,
                varint: self.varint@,
                bytes: byte_strings(self.bytes@),
            },
        }
    }
}

pub open spec fn field_views(fields: Seq<Field>) -> Seq<FieldView> {
    fields.map_values(|f: Field| f@)
}

/// The values of every field of a message, by field number.
pub type Fields = Map<u32, Values>;

/// `fields` with one more value for field `number`.
pub open spec fn with_value(fields: Fields, number: u32, value: ValueView) -> Fields {
    let before = if fields.contains_key(number) {
        fields[number]
    } else {
        Values::none()
    };
    fields.insert(number, before.push(value))
}

/// `listed` names each field of `fields` once, with its values.
pub open spec fn lists(listed: Seq<FieldView>, fields: Fields) -> bool {
    &&& forall|i: int| #![trigger listed[i]]
        0 <= i < listed.len() ==> {
            &&& fields.contains_key(listed[i].number)
            &&& fields[listed[i].number] == listed[i].values
        }
    &&& forall|i: int, j: int| #![trigger listed[i], listed[j]]
        0 <= i < j < listed.len() ==> listed[i].number != listed[j].number
    &&& forall|n: u32| #[trigger]
        fields.contains_key(n) ==> exists|i: int|
            0 <= i < listed.len() && #[trigger] listed[i].number == n
}

/// Numbers that a field can have, and no field without a value.
pub open spec fn field_possible(field: FieldView) -> bool {
    &&& 1 <= field.number <= MAX_FIELD_NUMBER
    &&& field.values != Values::none()
}

/// The fields that values make up. Groups leave nothing.
pub open spec fn gather(records: Seq<RecordView>) -> Fields
    decreases records.len(),
{
    if records.len() == 0 {
        Map::empty()
    } else {
        let before = gather(records.drop_last());
        match records.last().value {
            Some(value) => with_value(before, records.last().number, value),
            None => before,
        }
    }
}

/// There is a group under one of the numbers up to `known`.
pub open spec fn has_group(records: Seq<RecordView>, known: u32) -> bool {
    exists|i: int|
        0 <= i < records.len() && (#[trigger] records[i]).value is None && records[i].number
            <= known
}

/// The fields of a message whose fields up to the number `known` are declared, and none of them as
/// a group.
pub open spec fn fields_of(bytes: Seq<u8>, known: u32) -> Option<Fields> {
    match records_of(bytes) {
        Some(records) => if has_group(records, known) {
            None
        } else {
            Some(gather(records))
        },
        None => None,
    }
}

/// The values of a field in the order in which they are written.
pub open spec fn flat(values: Values) -> Seq<ValueView> {
    values.fixed32.map_values(|v: u32| ValueView::Fixed32(v)) + values.fixed64.map_values(
        |v: u64| ValueView::Fixed64(v),
    ) + values.varint.map_values(|v: u64| ValueView::Varint(v)) + values.bytes.map_values(
        |b: Seq<u8>| ValueView::Bytes(b),
    )
}

/// Values of field `number`, written one after the other.
pub open spec fn written(number: u32, values: Seq<ValueView>) -> Seq<u8>
    decreases values.len(),
{
    if values.len() == 0 {
        Seq::empty()
    } else {
        written(number, values.drop_last()) + wire_value(number, values.last())
    }
}

/// A message: its fields, written one after the other.
pub open spec fn wire_bytes(fields: Seq<FieldView>) -> Seq<u8>
    decreases fields.len(),
{
    if fields.len() == 0 {
        Seq::empty()
    } else {
        wire_bytes(fields.drop_last()) + written(fields.last().number, flat(fields.last().values))
    }
}

/// How many bytes a field is written by.
pub open spec fn field_size(field: FieldView) -> nat {
    written(field.number, flat(field.values)).len()
}

/// No byte string of a field is too long for a length of 32 bits.
pub open spec fn lengths_fit(field: FieldView) -> bool {
    forall|i: int| 0 <= i < field.values.bytes.len() ==> (#[trigger] field.values.bytes[i]).len()
        <= u32::MAX
}

/// A byte string is read as a message of the listed fields, whatever fields are declared.
pub open spec fn reads_as(bytes: Seq<u8>, listed: Seq<FieldView>) -> bool {
    &&& records_of(bytes) is Some
    &&& forall|known: u32| !(#[trigger] has_group(records_of(bytes)->0, known))
    &&& lists(listed, gather(records_of(bytes)->0))
}

/// No byte string of the fields is too long for a length of 32 bits.
pub open spec fn all_fit(fields: Seq<FieldView>) -> bool {
    forall|i: int| 0 <= i < fields.len() ==> lengths_fit(#[trigger] fields[i])
}

/// A list of fields that a message can have: each field once, and of lengths that can be written.
pub open spec fn writable(fields: Seq<FieldView>) -> bool {
    &&& forall|i: int| 0 <= i < fields.len() ==> field_possible(#[trigger] fields[i])
    &&& all_fit(fields)
    &&& forall|i: int, j: int| #![trigger fields[i], fields[j]]
        0 <= i < j < fields.len() ==> fields[i].number != fields[j].number
}

spec fn push_all(values: Values, more: Seq<ValueView>) -> Values
    decreases more.len(),
{
    if more.len() == 0 {
        values
    } else {
        push_all(values, more.drop_last()).push(more.last())
    }
}

spec fn with_values(fields: Fields, number: u32, more: Seq<ValueView>) -> Fields
    decreases more.len(),
{
    if more.len() == 0 {
        fields
    } else {
        with_value(with_values(fields, number, more.drop_last()), number, more.last())
    }
}

spec fn gathered(fields: Seq<FieldView>) -> Fields
    decreases fields.len(),
{
    if fields.len() == 0 {
        Map::empty()
    } else {
        gathered(fields.drop_last()).insert(fields.last().number, fields.last().values)
    }
}

proof fn lemma_push_all_add(values: Values, a: Seq<ValueView>, b: Seq<ValueView>)
    ensures
        push_all(values, a + b) == push_all(push_all(values, a), b),
    decreases b.len(),
{
    if b.len() == 0 {
        assert(a + b =~= a);
    } else {
        assert((a + b).drop_last() =~= a + b.drop_last());
        lemma_push_all_add(values, a, b.drop_last());
    }
}

proof fn lemma_push_fixed32(values: Values, more: Seq<u32>)
    ensures
        push_all(values, more.map_values(|v: u32| ValueView::Fixed32(v))) == (Values {
            fixed32: values.fixed32 + more,
            ..values
        }),
    decreases more.len(),
{
    let all = more.map_values(|v: u32| ValueView::Fixed32(v));
    if more.len() == 0 {
        assert(values.fixed32 + more =~= values.fixed32);
    } else {
        assert(all.drop_last() =~= more.drop_last().map_values(|v: u32| ValueView::Fixed32(v)));
        lemma_push_fixed32(values, more.drop_last());
        assert((values.fixed32 + more.drop_last()).push(more.last()) =~= values.fixed32 + more);
    }
}

proof fn lemma_push_fixed64(values: Values, more: Seq<u64>)
    ensures
        push_all(values, more.map_values(|v: u64| ValueView::Fixed64(v))) == (Values {
            fixed64: values.fixed64 + more,
            ..values
        }),
    decreases more.len(),
{
    let all = more.map_values(|v: u64| ValueView::Fixed64(v));
    if more.len() == 0 {
        assert(values.fixed64 + more =~= values.fixed64);
    } else {
        assert(all.drop_last() =~= more.drop_last().map_values(|v: u64| ValueView::Fixed64(v)));
        lemma_push_fixed64(values, more.drop_last());
        assert((values.fixed64 + more.drop_last()).push(more.last()) =~= values.fixed64 + more);
    }
}

proof fn lemma_push_varint(values: Values, more: Seq<u64>)
    ensures
        push_all(values, more.map_values(|v: u64| ValueView::Varint(v))) == (Values {
            varint: values.varint + more,
            ..values
        }),
    decreases more.len(),
{
    let all = more.map_values(|v: u64| ValueView::Varint(v));
    if more.len() == 0 {
        assert(values.varint + more =~= values.varint);
    } else {
        assert(all.drop_last() =~= more.drop_last().map_values(|v: u64| ValueView::Varint(v)));
        lemma_push_varint(values, more.drop_last());
        assert((values.varint + more.drop_last()).push(more.last()) =~= values.varint + more);
    }
}

proof fn lemma_push_bytes(values: Values, more: Seq<Seq<u8>>)
    ensures
        push_all(values, more.map_values(|b: Seq<u8>| ValueView::Bytes(b))) == (Values {
            bytes: values.bytes + more,
            ..values
        }),
    decreases more.len(),
{
    let all = more.map_values(|b: Seq<u8>| ValueView::Bytes(b));
    if more.len() == 0 {
        assert(values.bytes + more =~= values.bytes);
    } else {
        assert(all.drop_last() =~= more.drop_last().map_values(|b: Seq<u8>| ValueView::Bytes(b)));
        lemma_push_bytes(values, more.drop_last());
        assert((values.bytes + more.drop_last()).push(more.last()) =~= values.bytes + more);
    }
}

/// Pushing all values of a field one by one gives the field's values.
proof fn lemma_push_flat(values: Values)
    ensures
        push_all(Values::none(), flat(values)) == values,
{
    let a = values.fixed32.map_values(|v: u32| ValueView::Fixed32(v));
    let b = values.fixed64.map_values(|v: u64| ValueView::Fixed64(v));
    let c = values.varint.map_values(|v: u64| ValueView::Varint(v));
    let d = values.bytes.map_values(|b: Seq<u8>| ValueView::Bytes(b));
    lemma_push_all_add(Values::none(), a + b + c, d);
    lemma_push_all_add(Values::none(), a + b, c);
    lemma_push_all_add(Values::none(), a, b);
    lemma_push_fixed32(Values::none(), values.fixed32);
    let after_a = push_all(Values::none(), a);
    lemma_push_fixed64(after_a, values.fixed64);
    let after_b = push_all(after_a, b);
    lemma_push_varint(after_b, values.varint);
    let after_c = push_all(after_b, c);
    lemma_push_bytes(after_c, values.bytes);
    assert(push_all(after_c, d) =~= values);
}

proof fn lemma_with_values(fields: Fields, number: u32, more: Seq<ValueView>)
    requires
        !fields.contains_key(number),
        more.len() > 0,
    ensures
        with_values(fields, number, more) == fields.insert(
            number,
            push_all(Values::none(), more),
        ),
    decreases more.len(),
{
    if more.len() > 1 {
        lemma_with_values(fields, number, more.drop_last());
        assert(with_values(fields, number, more) =~= fields.insert(
            number,
            push_all(Values::none(), more),
        ));
    } else {
        assert(with_values(fields, number, more.drop_last()) == fields);
        assert(push_all(Values::none(), more.drop_last()) == Values::none());
    }
}

proof fn lemma_flat_empty(values: Values)
    ensures
        flat(values).len() == 0 <==> values == Values::none(),
{
    if flat(values).len() == 0 {
        assert(values =~= Values::none());
    }
}

proof fn lemma_gathered_lists(fields: Seq<FieldView>)
    requires
        forall|i: int, j: int| #![trigger fields[i], fields[j]]
            0 <= i < j < fields.len() ==> fields[i].number != fields[j].number,
    ensures
        lists(fields, gathered(fields)),
    decreases fields.len(),
{
    if fields.len() > 0 {
        let before = fields.drop_last();
        lemma_gathered_lists(before);
        let m = gathered(fields);
        assert forall|i: int| #![trigger fields[i]] 0 <= i < fields.len() implies {
            &&& m.contains_key(fields[i].number)
            &&& m[fields[i].number] == fields[i].values
        } by {
            if i < before.len() {
                assert(before[i] == fields[i]);
                assert(fields[i].number != fields[fields.len() - 1].number);
            }
        }
        assert forall|n: u32| #[trigger] m.contains_key(n) implies exists|i: int|
            0 <= i < fields.len() && #[trigger] fields[i].number == n by {
            if n == fields.last().number {
                assert(fields[fields.len() - 1].number == n);
            } else {
                assert(gathered(before).contains_key(n));
                let i = choose|i: int| 0 <= i < before.len() && #[trigger] before[i].number == n;
                assert(fields[i].number == n);
            }
        }
    }
}

/// The values of a field in the order in which they are written.
fn flatten(field: &Field) -> (r: Vec<Value>)
    ensures
        r@.map_values(|v: Value| v@) == flat(field@.values),
{
    let mut r: Vec<Value> = Vec::new();
    let ghost want = flat(field@.values);
    let ghost n32 = field.fixed32@.len() as int;
    let ghost n64 = field.fixed64@.len() as int;
    let ghost nv = field.varint@.len() as int;
    let mut i: usize = 0;
    while i < field.fixed32.len()
        invariant
            want == flat(field@.values),
            i <= field.fixed32@.len(),
            r@.len() == i,
            forall|j: int| 0 <= j < r@.len() ==> (#[trigger] r@[j])@ == want[j],
        decreases field.fixed32@.len() - i,
    {
        r.push(Value::Fixed32(field.fixed32[i]));
        i += 1;
    }
    i = 0;
    while i < field.fixed64.len()
        invariant
            want == flat(field@.values),
            n32 == field.fixed32@.len(),
            i <= field.fixed64@.len(),
            r@.len() == n32 + i,
            forall|j: int| 0 <= j < r@.len() ==> (#[trigger] r@[j])@ == want[j],
        decreases field.fixed64@.len() - i,
    {
        r.push(Value::Fixed64(field.fixed64[i]));
        i += 1;
    }
    i = 0;
    while i < field.varint.len()
        invariant
            want == flat(field@.values),
            n32 == field.fixed32@.len(),
            n64 == field.fixed64@.len(),
            i <= field.varint@.len(),
            r@.len() == n32 + n64 + i,
            forall|j: int| 0 <= j < r@.len() ==> (#[trigger] r@[j])@ == want[j],
        decreases field.varint@.len() - i,
    {
        r.push(Value::Varint(field.varint[i]));
        i += 1;
    }
    i = 0;
    while i < field.bytes.len()
        invariant
            want == flat(field@.values),
            n32 == field.fixed32@.len(),
            n64 == field.fixed64@.len(),
            nv == field.varint@.len(),
            i <= field.bytes@.len(),
            r@.len() == n32 + n64 + nv + i,
            forall|j: int| 0 <= j < r@.len() ==> (#[trigger] r@[j])@ == want[j],
        decreases field.bytes@.len() - i,
    {
        r.push(Value::Bytes(slice_to_vec(field.bytes[i].as_slice())));
        i += 1;
    }
    assert(r@.map_values(|v: Value| v@) =~= want);
    r
}

/// The values of one field of a message.
spec fn entries(number: u32, values: Seq<ValueView>) -> Seq<RecordView> {
    values.map_values(|v: ValueView| RecordView { number, value: Some(v) })
}

proof fn lemma_gather_entries(records: Seq<RecordView>, number: u32, more: Seq<ValueView>)
    ensures
        gather(records + entries(number, more)) == with_values(gather(records), number, more),
    decreases more.len(),
{
    let all = records + entries(number, more);
    if more.len() == 0 {
        assert(all =~= records);
    } else {
        lemma_gather_entries(records, number, more.drop_last());
        assert(all.drop_last() =~= records + entries(number, more.drop_last()));
        assert(all.last() == RecordView { number, value: Some(more.last()) });
    }
}

/// Values of a field after a message are read as further values of the message.
proof fn lemma_written_reads(bytes: Seq<u8>, number: u32, values: Seq<ValueView>)
    requires
        records_of(bytes) is Some,
        1 <= number <= MAX_FIELD_NUMBER,
        forall|i: int| 0 <= i < values.len() ==> value_fits(#[trigger] values[i]),
    ensures
        records_of(bytes + written(number, values)) == Some(
            records_of(bytes)->0 + entries(number, values),
        ),
    decreases values.len(),
{
    if values.len() == 0 {
        assert(bytes + written(number, values) =~= bytes);
        assert(records_of(bytes)->0 + entries(number, values) =~= records_of(bytes)->0);
    } else {
        let first = values.drop_last();
        assert forall|i: int| 0 <= i < first.len() implies value_fits(#[trigger] first[i]) by {
            assert(first[i] == values[i]);
        }
        lemma_written_reads(bytes, number, first);
        let begun = bytes + written(number, first);
        lemma_records_push(begun, number, values.last());
        assert(bytes + written(number, values) =~= begun + wire_value(number, values.last()));
        assert((records_of(bytes)->0 + entries(number, first)).push(
            RecordView { number, value: Some(values.last()) },
        ) =~= records_of(bytes)->0 + entries(number, values));
    }
}

proof fn lemma_flat_fits(field: FieldView)
    requires
        lengths_fit(field),
    ensures
        forall|i: int| 0 <= i < flat(field.values).len() ==> value_fits(
            #[trigger] flat(field.values)[i],
        ),
{
    let all = flat(field.values);
    let n = field.values.fixed32.len() + field.values.fixed64.len() + field.values.varint.len();
    assert forall|i: int| 0 <= i < all.len() implies value_fits(#[trigger] all[i]) by {
        if i >= n {
            assert(all[i] == ValueView::Bytes(field.values.bytes[i - n]));
        }
    }
}

proof fn lemma_wire_bytes_reads(fields: Seq<FieldView>)
    requires
        writable(fields),
    ensures
        ({
            let records = records_of(wire_bytes(fields));
            &&& records is Some
            &&& forall|i: int| 0 <= i < records->0.len() ==> (#[trigger] records->0[i]).value is Some
            &&& gather(records->0) == gathered(fields)
        }),
    decreases fields.len(),
{
    if fields.len() > 0 {
        let before = fields.drop_last();
        let field = fields.last();
        assert forall|i: int| 0 <= i < before.len() implies field_possible(#[trigger] before[i])
            && lengths_fit(before[i]) by {
            assert(before[i] == fields[i]);
        }
        assert forall|i: int, j: int| #![trigger before[i], before[j]]
            0 <= i < j < before.len() implies before[i].number != before[j].number by {
            assert(before[i] == fields[i] && before[j] == fields[j]);
        }
        lemma_wire_bytes_reads(before);
        assert(field == fields[fields.len() - 1]);
        lemma_flat_fits(field);
        lemma_written_reads(wire_bytes(before), field.number, flat(field.values));
        let records = records_of(wire_bytes(before))->0;
        lemma_gathered_lists(before);
        if gathered(before).contains_key(field.number) {
            let j = choose|j: int|
                0 <= j < before.len() && #[trigger] before[j].number == field.number;
            assert(fields[j].number == field.number);
        }
        lemma_flat_empty(field.values);
        lemma_gather_entries(records, field.number, flat(field.values));
        lemma_with_values(gather(records), field.number, flat(field.values));
        lemma_push_flat(field.values);
    }
}

/// Fields that can be written are read as they were written.
pub(crate) proof fn lemma_reads_as(fields: Seq<FieldView>)
    requires
        writable(fields),
    ensures
        reads_as(wire_bytes(fields), fields),
{
    lemma_wire_bytes_reads(fields);
    lemma_gathered_lists(fields);
}

/// Appends a field.
fn write_field(out: &mut Vec<u8>, field: &Field)
    requires
        field_possible(field@),
    ensures
        final(out)@ == old(out)@ + written(field@.number, flat(field@.values)),
{
    let values = flatten(field);
    let ghost views = values@.map_values(|v: Value| v@);
    let number = field.number;
    assert(out@ + written(number, views.take(0)) =~= out@);
    let mut i: usize = 0;
    while i < values.len()
        invariant
            i <= values@.len(),
            1 <= number <= MAX_FIELD_NUMBER,
            views == values@.map_values(|v: Value| v@),
            out@ == old(out)@ + written(number, views.take(i as int)),
        decreases values@.len() - i,
    {
        write_value(out, number, &values[i]);
        proof {
            let now = views.take(i + 1);
            assert(now.drop_last() =~= views.take(i as int));
            assert(now.last() == values@[i as int]@);
            assert(out@ =~= old(out)@ + written(number, now));
        }
        i += 1;
    }
    assert(views.take(values@.len() as int) =~= views);
}

/// Writes a message of the given fields, one after the other. Read back, the message has exactly
/// these fields.
pub fn write_fields(fields: &Vec<Field>) -> (r: Vec<u8>)
    requires
        forall|i: int| 0 <= i < fields@.len() ==> field_possible(#[trigger] fields@[i]@),
    ensures
        r@ == wire_bytes(field_views(fields@)),
        writable(field_views(fields@)) ==> reads_as(r@, field_views(fields@)),
{
    let mut r: Vec<u8> = Vec::new();
    let ghost views = field_views(fields@);
    let mut i: usize = 0;
    while i < fields.len()
        invariant
            i <= fields@.len(),
            views == field_views(fields@),
            forall|i: int| 0 <= i < fields@.len() ==> field_possible(#[trigger] fields@[i]@),
            r@ == wire_bytes(views.take(i as int)),
        decreases fields@.len() - i,
    {
        proof {
            assert(views.take(i + 1).drop_last() =~= views.take(i as int));
            assert(views[i as int] == fields@[i as int]@);
        }
        write_field(&mut r, &fields[i]);
        i += 1;
    }
    proof {
        assert(views.take(fields@.len() as int) =~= views);
        if writable(views) {
            lemma_reads_as(views);
        }
    }
    r
}

/// Fields in the order of their numbers.
pub open spec fn is_ascending(fields: Seq<FieldView>) -> bool {
    forall|i: int, j: int| #![trigger fields[i], fields[j]]
        0 <= i < j < fields.len() ==> fields[i].number < fields[j].number
}

/// The list of the fields in the order of their numbers.
pub open spec fn ascending(fields: Fields) -> Seq<FieldView> {
    choose|s: Seq<FieldView>| #[trigger] lists(s, fields) && is_ascending(s)
}

/// The values of one field, if the message has it.
pub open spec fn lookup(fields: Fields, number: u32) -> Option<Values> {
    if fields.contains_key(number) {
        Some(fields[number])
    } else {
        None
    }
}

/// There is only one list of the fields in the order of their numbers.
pub proof fn lemma_ascending(s: Seq<FieldView>, fields: Fields)
    requires
        lists(s, fields),
        is_ascending(s),
    ensures
        ascending(fields) == s,
{
    let t = ascending(fields);
    assert(lists(t, fields) && is_ascending(t));
    lemma_same_prefix(s, t, fields, if s.len() < t.len() { s.len() } else { t.len() });
    lemma_no_longer(s, t, fields);
    lemma_no_longer(t, s, fields);
    assert(s =~= t);
}

proof fn lemma_same_prefix(s: Seq<FieldView>, t: Seq<FieldView>, fields: Fields, n: nat)
    requires
        lists(s, fields),
        is_ascending(s),
        lists(t, fields),
        is_ascending(t),
        n <= s.len(),
        n <= t.len(),
    ensures
        forall|i: int| 0 <= i < n ==> #[trigger] s[i] == t[i],
    decreases n,
{
    if n > 0 {
        let i = n - 1;
        lemma_same_prefix(s, t, fields, i as nat);
        lemma_not_before(s, t, fields, i);
        lemma_not_before(t, s, fields, i);
        assert(s[i].number == t[i].number);
        assert(fields[s[i].number] == s[i].values);
        assert(fields[t[i].number] == t[i].values);
    }
}

proof fn lemma_not_before(s: Seq<FieldView>, t: Seq<FieldView>, fields: Fields, i: int)
    requires
        lists(s, fields),
        is_ascending(s),
        lists(t, fields),
        is_ascending(t),
        0 <= i < s.len(),
        i < t.len(),
        forall|k: int| 0 <= k < i ==> #[trigger] s[k] == t[k],
    ensures
        t[i].number <= s[i].number,
{
    assert(fields.contains_key(s[i].number));
    let j = choose|j: int| 0 <= j < t.len() && #[trigger] t[j].number == s[i].number;
    if j < i {
        assert(s[j] == t[j]);
        assert(s[j].number < s[i].number);
    } else if j > i {
        assert(t[i].number < t[j].number);
    }
}

proof fn lemma_no_longer(s: Seq<FieldView>, t: Seq<FieldView>, fields: Fields)
    requires
        lists(s, fields),
        is_ascending(s),
        lists(t, fields),
        forall|k: int| 0 <= k < s.len() && k < t.len() ==> #[trigger] s[k] == t[k],
    ensures
        s.len() <= t.len(),
{
    if s.len() > t.len() {
        let i = t.len() as int;
        assert(fields.contains_key(s[i].number));
        let j = choose|j: int| 0 <= j < t.len() && #[trigger] t[j].number == s[i].number;
        assert(s[j] == t[j]);
        assert(s[j].number < s[i].number);
    }
}

/// Where a list of fields starts with fields of known numbers and goes on with fields of others,
/// the second part lists the message without the known fields.
pub proof fn lemma_tail(
    head: Seq<FieldView>,
    tail: Seq<FieldView>,
    fields: Fields,
    known: Set<u32>,
)
    requires
        lists(head + tail, fields),
        forall|i: int| 0 <= i < head.len() ==> known.contains((#[trigger] head[i]).number),
        forall|i: int| 0 <= i < tail.len() ==> !known.contains((#[trigger] tail[i]).number),
    ensures
        lists(tail, fields.remove_keys(known)),
{
    let all = head + tail;
    let rest = fields.remove_keys(known);
    assert forall|i: int| #![trigger tail[i]] 0 <= i < tail.len() implies {
        &&& rest.contains_key(tail[i].number)
        &&& rest[tail[i].number] == tail[i].values
    } by {
        assert(all[head.len() + i] == tail[i]);
    }
    assert forall|i: int, j: int| #![trigger tail[i], tail[j]]
        0 <= i < j < tail.len() implies tail[i].number != tail[j].number by {
        assert(all[head.len() + i] == tail[i]);
        assert(all[head.len() + j] == tail[j]);
    }
    assert forall|n: u32| #[trigger] rest.contains_key(n) implies exists|i: int|
        0 <= i < tail.len() && #[trigger] tail[i].number == n by {
        assert(fields.contains_key(n));
        let k = choose|k: int| 0 <= k < all.len() && #[trigger] all[k].number == n;
        if k < head.len() {
            assert(head[k] == all[k]);
        } else {
            assert(tail[k - head.len()] == all[k]);
        }
    }
}

proof fn lemma_lists_insert(s: Seq<FieldView>, fields: Fields, at: int, field: FieldView)
    requires
        lists(s, fields),
        0 <= at <= s.len(),
        !fields.contains_key(field.number),
    ensures
        lists(s.insert(at, field), fields.insert(field.number, field.values)),
{
    let t = s.insert(at, field);
    let m = fields.insert(field.number, field.values);
    assert forall|i: int| #![trigger t[i]] 0 <= i < t.len() implies {
        &&& m.contains_key(t[i].number)
        &&& m[t[i].number] == t[i].values
    } by {
        if i < at {
            assert(t[i] == s[i]);
        } else if i > at {
            assert(t[i] == s[i - 1]);
        }
    }
    assert forall|i: int, j: int| #![trigger t[i], t[j]]
        0 <= i < j < t.len() implies t[i].number != t[j].number by {
        let i0 = if i < at { i } else { i - 1 };
        let j0 = if j < at { j } else { j - 1 };
        if i == at {
            assert(t[j] == s[j0]);
        } else if j == at {
            assert(t[i] == s[i0]);
        } else {
            assert(t[i] == s[i0] && t[j] == s[j0]);
        }
    }
    assert forall|n: u32| #[trigger] m.contains_key(n) implies exists|i: int|
        0 <= i < t.len() && #[trigger] t[i].number == n by {
        if n == field.number {
            assert(t[at].number == n);
        } else {
            assert(fields.contains_key(n));
            let k = choose|k: int| 0 <= k < s.len() && #[trigger] s[k].number == n;
            if k < at {
                assert(t[k].number == n);
            } else {
                assert(t[k + 1].number == n);
            }
        }
    }
}

proof fn lemma_lists_remove(s: Seq<FieldView>, fields: Fields, at: int)
    requires
        lists(s, fields),
        0 <= at < s.len(),
    ensures
        lists(s.remove(at), fields.remove(s[at].number)),
{
    let t = s.remove(at);
    let m = fields.remove(s[at].number);
    assert forall|i: int| #![trigger t[i]] 0 <= i < t.len() implies {
        &&& m.contains_key(t[i].number)
        &&& m[t[i].number] == t[i].values
    } by {
        let i0 = if i < at { i } else { i + 1 };
        assert(t[i] == s[i0]);
        assert(s[i0].number != s[at].number);
    }
    assert forall|i: int, j: int| #![trigger t[i], t[j]]
        0 <= i < j < t.len() implies t[i].number != t[j].number by {
        let i0 = if i < at { i } else { i + 1 };
        let j0 = if j < at { j } else { j + 1 };
        assert(t[i] == s[i0] && t[j] == s[j0]);
    }
    assert forall|n: u32| #[trigger] m.contains_key(n) implies exists|i: int|
        0 <= i < t.len() && #[trigger] t[i].number == n by {
        assert(fields.contains_key(n));
        let k = choose|k: int| 0 <= k < s.len() && #[trigger] s[k].number == n;
        if k < at {
            assert(t[k].number == n);
        } else {
            assert(t[k - 1].number == n);
        }
    }
}

/// Whether there is a group under one of the numbers up to `known`.
pub(crate) fn holds_group(records: &Vec<Record>, known: u32) -> (r: bool)
    ensures
        r == has_group(record_views(records@), known),
{
    let ghost views = record_views(records@);
    let mut i: usize = 0;
    while i < records.len()
        invariant
            i <= records@.len(),
            views == record_views(records@),
            forall|j: int|
                0 <= j < i ==> !((#[trigger] views[j]).value is None && views[j].number <= known),
        decreases records@.len() - i,
    {
        assert(views[i as int] == records@[i as int]@);
        if records[i].value.is_none() && records[i].number <= known {
            return true;
        }
        i += 1;
    }
    false
}

pub(crate) proof fn lemma_wire_bytes_add(a: Seq<FieldView>, b: Seq<FieldView>)
    ensures
        wire_bytes(a + b) == wire_bytes(a) + wire_bytes(b),
    decreases b.len(),
{
    if b.len() == 0 {
        assert(a + b =~= a);
        assert(wire_bytes(a) + wire_bytes(b) =~= wire_bytes(a));
    } else {
        lemma_wire_bytes_add(a, b.drop_last());
        assert((a + b).drop_last() =~= a + b.drop_last());
        assert(wire_bytes(a + b) =~= wire_bytes(a) + wire_bytes(b));
    }
}

proof fn lemma_size_insert(s: Seq<FieldView>, at: int, field: FieldView)
    requires
        0 <= at <= s.len(),
    ensures
        wire_bytes(s.insert(at, field)).len() == wire_bytes(s).len() + field_size(field),
    decreases s.len(),
{
    let t = s.insert(at, field);
    if at == s.len() {
        assert(t.drop_last() =~= s);
    } else {
        lemma_size_insert(s.drop_last(), at, field);
        assert(t.drop_last() =~= s.drop_last().insert(at, field));
        assert(t.last() == s.last());
    }
}

proof fn lemma_size_remove(s: Seq<FieldView>, at: int)
    requires
        0 <= at < s.len(),
    ensures
        wire_bytes(s).len() == wire_bytes(s.remove(at)).len() + field_size(s[at]),
{
    lemma_size_insert(s.remove(at), at, s[at]);
    assert(s.remove(at).insert(at, s[at]) =~= s);
}

/// Takes the field `number` out of a list of fields.
pub(crate) fn take_field(fields: &mut Vec<Field>, number: u32) -> (r: Option<Field>)
    requires
        forall|i: int| 0 <= i < old(fields)@.len() ==> field_possible(#[trigger] old(fields)@[i]@),
    ensures
        forall|i: int| 0 <= i < final(fields)@.len() ==> field_possible(
            #[trigger] final(fields)@[i]@,
        ),
        forall|m: Fields| #[trigger]
            lists(field_views(old(fields)@), m) ==> {
                &&& lists(field_views(final(fields)@), m.remove(number))
                &&& lookup(m, number) == match r {
                    Some(field) => Some(field@.values),
                    None => None,
                }
            },
        r is Some ==> field_possible(r->0@) && r->0.number == number,
{
    let ghost views = field_views(fields@);
    let mut i: usize = 0;
    while i < fields.len()
        invariant
            i <= fields@.len(),
            fields@ == old(fields)@,
            forall|j: int| 0 <= j < fields@.len() ==> field_possible(#[trigger] fields@[j]@),
            views == field_views(fields@),
            forall|j: int| 0 <= j < i ==> (#[trigger] views[j]).number != number,
        decreases fields@.len() - i,
    {
        if fields[i].number == number {
            let field = fields.remove(i);
            proof {
                assert(field_views(fields@) =~= views.remove(i as int));
                assert(views[i as int] == field@);
                assert forall|m: Fields| #[trigger] lists(views, m) implies {
                    &&& lists(field_views(fields@), m.remove(number))
                    &&& lookup(m, number) == Some(field@.values)
                } by {
                    lemma_lists_remove(views, m, i as int);
                }
            }
            return Some(field);
        }
        assert(views[i as int].number != number);
        i += 1;
    }
    proof {
        assert forall|m: Fields| #[trigger] lists(views, m) implies {
            &&& lists(field_views(fields@), m.remove(number))
            &&& lookup(m, number) is None
        } by {
            if m.contains_key(number) {
                let k = choose|k: int| 0 <= k < views.len() && #[trigger] views[k].number == number;
                assert(views[k].number != number);
            }
            assert(m.remove(number) =~= m);
        }
    }
    None
}

proof fn lemma_written_add(number: u32, a: Seq<ValueView>, b: Seq<ValueView>)
    ensures
        written(number, a + b) == written(number, a) + written(number, b),
    decreases b.len(),
{
    if b.len() == 0 {
        assert(a + b =~= a);
        assert(written(number, a) + written(number, b) =~= written(number, a));
    } else {
        lemma_written_add(number, a, b.drop_last());
        assert((a + b).drop_last() =~= a + b.drop_last());
        assert(written(number, a + b) =~= written(number, a) + written(number, b));
    }
}

/// One more value adds its own bytes to a field.
proof fn lemma_size_push(number: u32, values: Values, value: ValueView)
    ensures
        field_size(FieldView { number, values: values.push(value) }) == field_size(
            FieldView { number, values },
        ) + wire_value(number, value).len(),
{
    let all = flat(values);
    let more = flat(values.push(value));
    let n32 = values.fixed32.len() as int;
    let n64 = values.fixed64.len() as int;
    let nv = values.varint.len() as int;
    let at = match value {
        ValueView::Fixed32(_) => n32,
        ValueView::Fixed64(_) => n32 + n64,
        ValueView::Varint(_) => n32 + n64 + nv,
        ValueView::Bytes(_) => all.len() as int,
    };
    let a = all.take(at);
    let b = all.skip(at);
    assert(all =~= a + b);
    assert(more =~= a + seq![value] + b);
    lemma_written_add(number, a, b);
    lemma_written_add(number, a + seq![value], b);
    lemma_written_add(number, a, seq![value]);
    let one = seq![value];
    assert(one.drop_last() =~= Seq::empty());
    assert(written(number, one.drop_last()) =~= Seq::empty());
    assert(one.last() == value);
    assert(written(number, one) =~= wire_value(number, value));
}

/// Adds a value to a field.
fn push_value(field: Field, value: &Value) -> (r: Field)
    ensures
        r@.number == field@.number,
        r@.values == field@.values.push(value@),
{
    let mut r = field;
    match value {
        Value::Fixed32(v) => {
            r.fixed32.push(*v);
        },
        Value::Fixed64(v) => {
            r.fixed64.push(*v);
        },
        Value::Varint(v) => {
            r.varint.push(*v);
        },
        Value::Bytes(b) => {
            r.bytes.push(slice_to_vec(b.as_slice()));
            assert(byte_strings(r.bytes@) =~= byte_strings(field.bytes@).push(b@));
        },
    }
    r
}

/// Adds a value to one of the fields, or a field that has only this value.
fn add_value(fields: &mut Vec<Field>, number: u32, value: &Value, Ghost(m): Ghost<Fields>)
    requires
        lists(field_views(old(fields)@), m),
        forall|i: int| 0 <= i < old(fields)@.len() ==> field_possible(#[trigger] old(fields)@[i]@),
        1 <= number <= MAX_FIELD_NUMBER,
    ensures
        lists(field_views(final(fields)@), with_value(m, number, value@)),
        forall|i: int| 0 <= i < final(fields)@.len() ==> field_possible(
            #[trigger] final(fields)@[i]@,
        ),
{
    let field = match take_field(fields, number) {
        Some(field) => field,
        None => {
            let field = Field {
                number,
                fixed32: Vec::new(),
                fixed64: Vec::new(),
                varint: Vec::new(),
                bytes: Vec::new(),
            };
            assert(field@.values =~= Values::none());
            field
        },
    };
    let ghost others = field_views(fields@);
    let ghost left = fields@;
    let field = push_value(field, value);
    let ghost view = field@;
    fields.push(field);
    proof {
        lemma_lists_insert(others, m.remove(number), others.len() as int, view);
        assert(field_views(fields@) =~= others.insert(others.len() as int, view));
        assert(m.remove(number).insert(number, view.values) =~= with_value(m, number, value@));
        assert(view.values != Values::none()) by {
            let none = Values::none();
            assert(none.fixed32.len() == 0 && none.fixed64.len() == 0 && none.varint.len() == 0
                && none.bytes.len() == 0);
        }
        assert forall|i: int| 0 <= i < fields@.len() implies field_possible(
            #[trigger] fields@[i]@,
        ) by {
            if i < left.len() {
                assert(fields@[i] == left[i]);
            }
        }
    }
}

/// The fields that values make up.
pub(crate) fn gather_fields(records: &Vec<Record>) -> (r: Vec<Field>)
    requires
        forall|i: int| 0 <= i < records@.len() ==> record_possible(#[trigger] records@[i]@),
    ensures
        lists(field_views(r@), gather(record_views(records@))),
        forall|i: int| 0 <= i < r@.len() ==> field_possible(#[trigger] r@[i]@),
{
    let ghost views = record_views(records@);
    let mut fields: Vec<Field> = Vec::new();
    let mut i: usize = 0;
    while i < records.len()
        invariant
            i <= records@.len(),
            views == record_views(records@),
            forall|j: int| 0 <= j < records@.len() ==> record_possible(#[trigger] records@[j]@),
            lists(field_views(fields@), gather(views.take(i as int))),
            forall|j: int| 0 <= j < fields@.len() ==> field_possible(#[trigger] fields@[j]@),
        decreases records@.len() - i,
    {
        let ghost so_far = gather(views.take(i as int));
        proof {
            assert(record_possible(records@[i as int]@));
            assert(views.take(i + 1).drop_last() =~= views.take(i as int));
            assert(views.take(i + 1).last() == records@[i as int]@);
        }
        match &records[i].value {
            Some(value) => {
                add_value(&mut fields, records[i].number, value, Ghost(so_far));
            },
            None => {},
        }
        i += 1;
    }
    assert(views.take(i as int) =~= views);
    fields
}

/// The fields of a message whose fields up to the number `known` are declared.
pub fn read_fields(bytes: &[u8], known: u32) -> (r: Result<Vec<Field>, Error>)
    ensures
        match r {
            Ok(fields) => {
                &&& fields_of(bytes@, known) is Some
                &&& lists(field_views(fields@), fields_of(bytes@, known)->0)
                &&& forall|i: int| 0 <= i < fields@.len() ==> field_possible(#[trigger] fields@[i]@)
            },
            Err(e) => fields_of(bytes@, known) is None && e == Error::Protobuf,
        },
{
    let records = match read_records(bytes) {
        Ok(records) => records,
        Err(e) => {
            return Err(e);
        },
    };
    if holds_group(&records, known) {
        return Err(Error::Protobuf);
    }
    Ok(gather_fields(&records))
}

/// Puts fields in the order of their numbers.
pub(crate) fn sort_fields(fields: Vec<Field>) -> (r: Vec<Field>)
    requires
        forall|i: int| 0 <= i < fields@.len() ==> field_possible(#[trigger] fields@[i]@),
        exists|m: Fields| lists(field_views(fields@), m),
    ensures
        forall|i: int| 0 <= i < r@.len() ==> field_possible(#[trigger] r@[i]@),
        is_ascending(field_views(r@)),
        forall|m: Fields| #[trigger]
            lists(field_views(fields@), m) ==> lists(field_views(r@), m) && ascending(m)
                == field_views(r@),
{
    let ghost all = field_views(fields@);
    let ghost whole = choose|m: Fields| lists(all, m);
    let ghost mut left = whole;
    let ghost mut done: Fields = Map::empty();
    let mut fields = fields;
    let mut r: Vec<Field> = Vec::new();
    assert(lists(field_views(r@), done));
    while fields.len() > 0
        invariant
            lists(field_views(fields@), left),
            lists(field_views(r@), done),
            is_ascending(field_views(r@)),
            forall|n: u32| #[trigger] left.contains_key(n) ==> !done.contains_key(n),
            left.union_prefer_right(done) == whole,
            forall|i: int| 0 <= i < fields@.len() ==> field_possible(#[trigger] fields@[i]@),
            forall|i: int| 0 <= i < r@.len() ==> field_possible(#[trigger] r@[i]@),
        decreases fields@.len(),
    {
        let ghost before = field_views(fields@);
        let field = match fields.pop() {
            Some(field) => field,
            None => {
                return r;
            },
        };
        let ghost view = field@;
        proof {
            let last = before.len() - 1;
            assert(before[last] == view);
            lemma_lists_remove(before, left, last);
            assert(before.remove(last) =~= field_views(fields@));
        }
        let mut at: usize = 0;
        let ghost sorted = field_views(r@);
        while at < r.len() && r[at].number < field.number
            invariant
                at <= r@.len(),
                sorted == field_views(r@),
                view == field@,
                forall|j: int| 0 <= j < at ==> (#[trigger] sorted[j]).number < view.number,
            decreases r@.len() - at,
        {
            assert(sorted[at as int] == r@[at as int]@);
            at += 1;
        }
        let ghost old_r = r@;
        r.insert(at, field);
        proof {
            let t = field_views(r@);
            assert(t =~= sorted.insert(at as int, view));
            assert(left.contains_key(view.number));
            assert(!done.contains_key(view.number));
            lemma_lists_insert(sorted, done, at as int, view);
            assert forall|i: int| at <= i < sorted.len() implies (#[trigger] sorted[i]).number
                > view.number by {
                assert(sorted[at as int] == old_r[at as int]@);
                assert(done.contains_key(sorted[at as int].number));
                if i > at {
                    assert(sorted[at as int].number < sorted[i].number);
                }
            }
            lemma_ascending_insert(sorted, at as int, view);
            assert forall|i: int| 0 <= i < r@.len() implies field_possible(#[trigger] r@[i]@) by {
                if i < at {
                    assert(r@[i] == old_r[i]);
                } else if i > at {
                    assert(r@[i] == old_r[i - 1]);
                }
            }
            let next = left.remove(view.number);
            let next_done = done.insert(view.number, view.values);
            assert(left[view.number] == view.values);
            assert(next.union_prefer_right(next_done) =~= left.union_prefer_right(done));
            left = next;
            done = next_done;
        }
    }
    proof {
        let t = field_views(r@);
        assert(left =~= Map::empty()) by {
            assert forall|n: u32| !#[trigger] left.contains_key(n) by {
                if left.contains_key(n) {
                    let views = field_views(fields@);
                    let k = choose|k: int| 0 <= k < views.len() && #[trigger] views[k].number == n;
                    assert(false);
                }
            }
        }
        assert(left.union_prefer_right(done) =~= done);
        assert forall|m: Fields| #[trigger] lists(all, m) implies lists(t, m) && ascending(m)
            == t by {
            lemma_lists_same(all, m, whole);
            lemma_ascending(t, m);
        }
    }
    r
}

/// A list of fields is the list of one message only.
pub proof fn lemma_lists_same(s: Seq<FieldView>, a: Fields, b: Fields)
    requires
        lists(s, a),
        lists(s, b),
    ensures
        a == b,
{
    assert forall|n: u32| #![auto] a.contains_key(n) == b.contains_key(n) && (a.contains_key(n)
        ==> a[n] == b[n]) by {
        if a.contains_key(n) {
            let k = choose|k: int| 0 <= k < s.len() && #[trigger] s[k].number == n;
            assert(b.contains_key(s[k].number));
        }
        if b.contains_key(n) {
            let k = choose|k: int| 0 <= k < s.len() && #[trigger] s[k].number == n;
            assert(a.contains_key(s[k].number));
        }
    }
    assert(a =~= b);
}

/// The fields can be listed in the order of their numbers, and each can be written.
pub open spec fn arranged(fields: Fields) -> bool {
    let s = ascending(fields);
    &&& lists(s, fields)
    &&& is_ascending(s)
    &&& forall|i: int| 0 <= i < s.len() ==> field_possible(#[trigger] s[i])
    &&& all_fit(s)
}

/// Where a field of the number belongs in a list in the order of the numbers.
spec fn place(s: Seq<FieldView>, number: u32) -> int
    decreases s.len(),
{
    if s.len() == 0 {
        0
    } else if s.last().number < number {
        s.len() as int
    } else {
        place(s.drop_last(), number)
    }
}

proof fn lemma_place(s: Seq<FieldView>, number: u32)
    requires
        is_ascending(s),
        forall|i: int| 0 <= i < s.len() ==> (#[trigger] s[i]).number != number,
    ensures
        0 <= place(s, number) <= s.len(),
        forall|i: int| 0 <= i < place(s, number) ==> (#[trigger] s[i]).number < number,
        forall|i: int| place(s, number) <= i < s.len() ==> (#[trigger] s[i]).number > number,
    decreases s.len(),
{
    if s.len() > 0 {
        let first = s.drop_last();
        assert forall|i: int| 0 <= i < first.len() implies (#[trigger] first[i]).number != number by {
            assert(first[i] == s[i]);
        }
        assert forall|i: int, j: int| #![trigger first[i], first[j]]
            0 <= i < j < first.len() implies first[i].number < first[j].number by {
            assert(first[i] == s[i] && first[j] == s[j]);
        }
        lemma_place(first, number);
        let last = s.len() - 1;
        assert(s[last] == s.last());
        if s.last().number < number {
            assert forall|i: int| 0 <= i < s.len() implies (#[trigger] s[i]).number < number by {
                if i < last {
                    assert(s[i].number < s[last].number);
                }
            }
        } else {
            assert forall|i: int| 0 <= i < place(s, number) implies (#[trigger] s[i]).number
                < number by {
                assert(first[i] == s[i]);
            }
            assert forall|i: int| place(s, number) <= i < s.len() implies (#[trigger] s[i]).number
                > number by {
                if i < last {
                    assert(first[i] == s[i]);
                }
            }
        }
    }
}

/// A list in the order of the numbers stays in order with one more field at its place.
proof fn lemma_ascending_insert(s: Seq<FieldView>, at: int, field: FieldView)
    requires
        is_ascending(s),
        0 <= at <= s.len(),
        forall|i: int| 0 <= i < at ==> (#[trigger] s[i]).number < field.number,
        forall|i: int| at <= i < s.len() ==> (#[trigger] s[i]).number > field.number,
    ensures
        is_ascending(s.insert(at, field)),
{
    let t = s.insert(at, field);
    assert forall|i: int, j: int| #![trigger t[i], t[j]]
        0 <= i < j < t.len() implies t[i].number < t[j].number by {
        let i0 = if i < at { i } else { i - 1 };
        let j0 = if j < at { j } else { j - 1 };
        if i == at {
            assert(t[j] == s[j0]);
        } else if j == at {
            assert(t[i] == s[i0]);
        } else {
            assert(t[i] == s[i0] && t[j] == s[j0]);
        }
    }
}

/// Without one of its fields a message can be arranged too, and it is written by so many bytes
/// fewer.
pub(crate) proof fn lemma_arranged_remove(fields: Fields, number: u32)
    requires
        arranged(fields),
    ensures
        arranged(fields.remove(number)),
        wire_bytes(ascending(fields)).len() == wire_bytes(ascending(fields.remove(number))).len()
            + match lookup(fields, number) {
            Some(values) => field_size(FieldView { number, values }),
            None => 0,
        },
        lookup(fields, number) matches Some(values) ==> {
            let field = FieldView { number, values };
            field_possible(field) && lengths_fit(field)
        },
{
    let s = ascending(fields);
    if fields.contains_key(number) {
        let k = choose|k: int| 0 <= k < s.len() && #[trigger] s[k].number == number;
        let t = s.remove(k);
        assert(s[k] == FieldView { number, values: fields[number] });
        lemma_lists_remove(s, fields, k);
        lemma_size_remove(s, k);
        assert forall|i: int, j: int| #![trigger t[i], t[j]]
            0 <= i < j < t.len() implies t[i].number < t[j].number by {
            let i0 = if i < k { i } else { i + 1 };
            let j0 = if j < k { j } else { j + 1 };
            assert(t[i] == s[i0] && t[j] == s[j0]);
        }
        assert forall|i: int| 0 <= i < t.len() implies field_possible(#[trigger] t[i])
            && lengths_fit(t[i]) by {
            let i0 = if i < k { i } else { i + 1 };
            assert(t[i] == s[i0]);
        }
        lemma_ascending(t, fields.remove(number));
    } else {
        assert(fields.remove(number) =~= fields);
    }
}

proof fn lemma_arranged_insert(fields: Fields, field: FieldView)
    requires
        arranged(fields),
        !fields.contains_key(field.number),
        field_possible(field),
        lengths_fit(field),
    ensures
        arranged(fields.insert(field.number, field.values)),
        wire_bytes(ascending(fields.insert(field.number, field.values))).len() == wire_bytes(
            ascending(fields),
        ).len() + field_size(field),
{
    let s = ascending(fields);
    assert forall|i: int| 0 <= i < s.len() implies (#[trigger] s[i]).number != field.number by {
        assert(fields.contains_key(s[i].number));
    }
    lemma_place(s, field.number);
    let at = place(s, field.number);
    let t = s.insert(at, field);
    lemma_ascending_insert(s, at, field);
    lemma_lists_insert(s, fields, at, field);
    lemma_size_insert(s, at, field);
    assert forall|i: int| 0 <= i < t.len() implies field_possible(#[trigger] t[i]) && lengths_fit(
        t[i],
    ) by {
        if i < at {
            assert(t[i] == s[i]);
        } else if i > at {
            assert(t[i] == s[i - 1]);
        }
    }
    lemma_ascending(t, fields.insert(field.number, field.values));
}

/// The fields that values make up can be arranged, and are written by as many bytes as the values.
proof fn lemma_gather_arranged(records: Seq<RecordView>)
    requires
        forall|i: int| 0 <= i < records.len() ==> record_possible(#[trigger] records[i]),
    ensures
        arranged(gather(records)),
        wire_bytes(ascending(gather(records))).len() == records_size(records),
    decreases records.len(),
{
    if records.len() == 0 {
        let none = Seq::<FieldView>::empty();
        assert(lists(none, gather(records)));
        lemma_ascending(none, gather(records));
    } else {
        let before = records.drop_last();
        let last = records.last();
        assert(record_possible(records[records.len() - 1]));
        assert forall|i: int| 0 <= i < before.len() implies record_possible(
            #[trigger] before[i],
        ) by {
            assert(before[i] == records[i]);
        }
        lemma_gather_arranged(before);
        if last.value is Some {
            let m = gather(before);
            let value = last.value->0;
            let held = if m.contains_key(last.number) {
                m[last.number]
            } else {
                Values::none()
            };
            let field = FieldView { number: last.number, values: held.push(value) };
            lemma_arranged_remove(m, last.number);
            lemma_size_push(last.number, held, value);
            if !m.contains_key(last.number) {
                assert(flat(held) =~= Seq::empty());
                assert(field_size(FieldView { number: last.number, values: held }) == 0);
            }
            assert(field.values != Values::none()) by {
                let none = Values::none();
                assert(none.fixed32.len() == 0 && none.fixed64.len() == 0 && none.varint.len() == 0
                    && none.bytes.len() == 0);
            }
            let bytes = field.values.bytes;
            assert forall|i: int| 0 <= i < bytes.len() implies (#[trigger] bytes[i]).len()
                <= u32::MAX by {
                if i < held.bytes.len() {
                    assert(bytes[i] == held.bytes[i]);
                }
            }
            lemma_arranged_insert(m.remove(last.number), field);
            assert(m.remove(last.number).insert(last.number, field.values) =~= gather(records));
        }
    }
}

/// The fields of a message that was read can be arranged, and are written by no more bytes than
/// they were read from.
pub(crate) proof fn lemma_read_arranged(bytes: Seq<u8>, known: u32)
    requires
        fields_of(bytes, known) is Some,
    ensures
        arranged(fields_of(bytes, known)->0),
        wire_bytes(ascending(fields_of(bytes, known)->0)).len() <= bytes.len(),
{
    lemma_records(bytes);
    lemma_gather_arranged(records_of(bytes)->0);
}

/// One more value goes to the end of the values of its kind.
pub proof fn law_values_take_one_more(values: Values, value: ValueView)
    ensures
        ({
            let more = values.push(value);
            &&& more.fixed32 == if value is Fixed32 {
                values.fixed32.push(value->Fixed32_0)
            } else {
                values.fixed32
            }
            &&& more.fixed64 == if value is Fixed64 {
                values.fixed64.push(value->Fixed64_0)
            } else {
                values.fixed64
            }
            &&& more.varint == if value is Varint {
                values.varint.push(value->Varint_0)
            } else {
                values.varint
            }
            &&& more.bytes == if value is Bytes {
                values.bytes.push(value->Bytes_0)
            } else {
                values.bytes
            }
        }),
        Values::none().fixed32.len() == 0,
        Values::none().fixed64.len() == 0,
        Values::none().varint.len() == 0,
        Values::none().bytes.len() == 0,
{
}

/// A message that gives one more value has it in the field of its number, after the values that the
/// field had, and is the same in all other fields. A group leaves nothing, unless it has the number
/// of a declared field: then there is no such message. A message of no bytes has no field.
pub proof fn law_fields_take_values(
    less: Seq<u8>,
    more: Seq<u8>,
    records: Seq<RecordView>,
    record: RecordView,
    known: u32,
    number: u32,
)
    requires
        records_of(less) == Some(records),
        records_of(more) == Some(records.push(record)),
    ensures
        fields_of(less, known) is None ==> fields_of(more, known) is None,
        record.value is None && record.number <= known ==> fields_of(more, known) is None,
        fields_of(less, known) is Some && record.value is None && record.number > known
            ==> fields_of(more, known) == fields_of(less, known),
        fields_of(less, known) is Some && record.value is Some ==> {
            let before = fields_of(less, known)->0;
            let after = fields_of(more, known)->0;
            &&& fields_of(more, known) is Some
            &&& number != record.number ==> (after.contains_key(number) <==> before.contains_key(
                number,
            )) && (before.contains_key(number) ==> after[number] == before[number])
            &&& after.contains_key(record.number)
            &&& after[record.number] == (if before.contains_key(record.number) {
                before[record.number]
            } else {
                Values::none()
            }).push(record.value->0)
        },
        fields_of(Seq::empty(), known) == Some(Map::<u32, Values>::empty()),
{
    lemma_group_push(records, record, known);
    assert(records.push(record).drop_last() =~= records);
    let none = Seq::<RecordView>::empty();
    assert(!has_group(none, known));
    assert(records_of(Seq::<u8>::empty()) == Some(none));
}

pub(crate) proof fn lemma_group_push(records: Seq<RecordView>, record: RecordView, known: u32)
    ensures
        has_group(records.push(record), known) <==> has_group(records, known) || (record.value is None
            && record.number <= known),
        gather(records.push(record)) == match record.value {
            Some(value) => with_value(gather(records), record.number, value),
            None => gather(records),
        },
{
    let all = records.push(record);
    assert(all.drop_last() =~= records);
    if has_group(records, known) {
        let i = choose|i: int|
            0 <= i < records.len() && (#[trigger] records[i]).value is None && records[i].number
                <= known;
        assert(all[i] == records[i]);
    }
    if has_group(all, known) {
        let i = choose|i: int|
            0 <= i < all.len() && (#[trigger] all[i]).value is None && all[i].number <= known;
        if i < records.len() {
            assert(records[i] == all[i]);
        }
    }
    if record.value is None && record.number <= known {
        assert(all[records.len() as int] == record);
    }
}

/// The arranged list has exactly the fields, each with its values.
pub(crate) proof fn lemma_arranged_contains(fields: Fields, field: FieldView)
    requires
        arranged(fields),
    ensures
        ascending(fields).contains(field) <==> fields.contains_key(field.number)
            && fields[field.number] == field.values,
{
    let s = ascending(fields);
    if fields.contains_key(field.number) && fields[field.number] == field.values {
        let k = choose|k: int| 0 <= k < s.len() && #[trigger] s[k].number == field.number;
        assert(s[k] == field);
    }
}

/// Any byte string whose values can be read is a message of which no field is declared.
pub proof fn law_any_message_has_fields(bytes: Seq<u8>)
    ensures
        fields_of(bytes, 0) is Some <==> records_of(bytes) is Some,
{
    if records_of(bytes) is Some {
        lemma_records(bytes);
        let records = records_of(bytes)->0;
        assert forall|i: int| 0 <= i < records.len() implies !((#[trigger] records[i]).value is None
            && records[i].number <= 0) by {
            assert(record_possible(records[i]));
        }
    }
}

/// A field is read as what it is, and so is a list of them.
pub proof fn law_views_of_fields(field: Field, fields: Seq<Field>)
    ensures
        field@.number == field.number,
        field@.values.fixed32 == field.fixed32@,
        field@.values.fixed64 == field.fixed64@,
        field@.values.varint == field.varint@,
        field@.values.bytes.len() == field.bytes@.len(),
        forall|i: int|
            0 <= i < field.bytes@.len() ==> field@.values.bytes[i] == (#[trigger] field.bytes@[i])@,
        field_views(fields).len() == fields.len(),
        forall|i: int| 0 <= i < fields.len() ==> field_views(fields)[i] == (#[trigger] fields[i])@,
{
}

/// Fields are read as they were written: each with all of its values, and no other. This holds of
/// fields that each have a number of their own, at least one value, and no byte string that is too
/// long.
pub proof fn law_fields_read_back(fields: Seq<FieldView>, known: u32)
    requires
        forall|i: int| #![trigger fields[i]]
            0 <= i < fields.len() ==> {
                let values = fields[i].values;
                &&& 1 <= fields[i].number <= 0x1fff_ffff
                &&& values.fixed32.len() + values.fixed64.len() + values.varint.len()
                    + values.bytes.len() > 0
                &&& forall|j: int|
                    0 <= j < values.bytes.len() ==> (#[trigger] values.bytes[j]).len() <= u32::MAX
            },
        forall|i: int, j: int| #![trigger fields[i], fields[j]]
            0 <= i < j < fields.len() ==> fields[i].number != fields[j].number,
    ensures
        ({
            let read = fields_of(wire_bytes(fields), known);
            &&& read is Some
            &&& forall|i: int| #![trigger fields[i]]
                0 <= i < fields.len() ==> read->0.contains_key(fields[i].number)
                    && read->0[fields[i].number] == fields[i].values
            &&& forall|n: u32| #[trigger]
                read->0.contains_key(n) ==> exists|i: int|
                    0 <= i < fields.len() && #[trigger] fields[i].number == n
        }),
{
    assert forall|i: int| 0 <= i < fields.len() implies field_possible(#[trigger] fields[i])
        && lengths_fit(fields[i]) by {
        let none = Values::none();
        assert(none.fixed32.len() == 0 && none.fixed64.len() == 0 && none.varint.len() == 0
            && none.bytes.len() == 0);
    }
    lemma_reads_as(fields);
    assert(!has_group(records_of(wire_bytes(fields))->0, known));
}

} // verus!
