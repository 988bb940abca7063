//! The messages that the router and the services exchange.

use vstd::prelude::*;
use vstd::slice::slice_to_vec;
use vstd::utf8::*;

use crate::bytes::{copy_all, into_text, text_bytes, text_of};
use crate::error::Error;
use crate::record::{
    lemma_records, lemma_varint_size, record_possible, records_of, varint, wire_value, RecordView,
    ValueView, MAX_FIELD_NUMBER,
};
use crate::wire::{
    all_fit, arranged, ascending, field_possible, field_size, field_views, fields_of, flat, gather,
    is_ascending, lemma_arranged_contains, lemma_arranged_remove, lemma_ascending, lemma_group_push,
    lemma_read_arranged, lemma_reads_as, lemma_tail, lemma_wire_bytes_add, lengths_fit, lists,
    lookup, read_fields, sort_fields, take_field, wire_bytes, with_value, writable, write_fields,
    written, Field, FieldView, Fields, Values,
};

verus! {

/// The protocols of the services.
#[derive(Clone, Copy, PartialEq, Eq, Structural, Debug)]
pub enum Protocol {
    Net,
    RouteSrv,
    SessionSrv,
    OriginSrv,
    JobSrv,
    Scheduler,
}

/// The number by which a message names a protocol.
pub open spec fn number_of(protocol: Protocol) -> i32 {
    match protocol {
        Protocol::Net => 0,
        Protocol::RouteSrv => 1,
        Protocol::SessionSrv => 2,
        Protocol::OriginSrv => 3,
        Protocol::JobSrv => 4,
        Protocol::Scheduler => 5,
    }
}

/// The protocol of a number, if there is one.
pub open spec fn numbered(number: i32) -> Option<Protocol> {
    match number {
        0 => Some(Protocol::Net),
        1 => Some(Protocol::RouteSrv),
        2 => Some(Protocol::SessionSrv),
        3 => Some(Protocol::OriginSrv),
        4 => Some(Protocol::JobSrv),
        5 => Some(Protocol::Scheduler),
        _ => None,
    }
}

/// No two protocols have the same number.
pub proof fn law_numbers_tell_protocols(protocol: Protocol)
    ensures
        numbered(number_of(protocol)) == Some(protocol),
{
}

impl Protocol {
    /// The number by which a message names the protocol.
    pub fn number(&self) -> (r: i32)
        ensures
            r == number_of(*self),
    {
        match self {
            Protocol::Net => 0,
            Protocol::RouteSrv => 1,
            Protocol::SessionSrv => 2,
            Protocol::OriginSrv => 3,
            Protocol::JobSrv => 4,
            Protocol::Scheduler => 5,
        }
    }

    /// The protocol of a number, if there is one.
    pub fn from_number(number: i32) -> (r: Option<Protocol>)
        ensures
            r == numbered(number),
    {
        match number {
            0 => Some(Protocol::Net),
            1 => Some(Protocol::RouteSrv),
            2 => Some(Protocol::SessionSrv),
            3 => Some(Protocol::OriginSrv),
            4 => Some(Protocol::JobSrv),
            5 => Some(Protocol::Scheduler),
            _ => None,
        }
    }
}

/// The code of the error that no server services a shard.
pub const NO_SHARD: u64 = 6;

/// A message names its protocol by a signed number, of which the lowest 32 bits count.
pub open spec fn protocol_of(number: u64) -> Option<Protocol> {
    numbered(number as i32)
}

/// All values of a field are byte strings.
pub open spec fn only_bytes(values: Values) -> bool {
    values.fixed32.len() == 0 && values.fixed64.len() == 0 && values.varint.len() == 0
}

/// All values of a field are numbers of variable length.
pub open spec fn only_varints(values: Values) -> bool {
    values.fixed32.len() == 0 && values.fixed64.len() == 0 && values.bytes.len() == 0
}

/// A text: every value given must be one, and the last one counts.
pub open spec fn text_value(values: Values) -> Option<Seq<char>> {
    if only_bytes(values) && values.bytes.len() > 0 && forall|i: int|
        0 <= i < values.bytes.len() ==> valid_utf8(#[trigger] values.bytes[i]) {
        text_of(values.bytes.last())
    } else {
        None
    }
}

/// A byte string: every value given must be one, and the last one counts.
pub open spec fn bytes_value(values: Values) -> Option<Seq<u8>> {
    if only_bytes(values) && values.bytes.len() > 0 {
        Some(values.bytes.last())
    } else {
        None
    }
}

/// A number: every value given must be one, and the last one counts.
pub open spec fn number_value(values: Values) -> Option<u64> {
    if only_varints(values) && values.varint.len() > 0 {
        Some(values.varint.last())
    } else {
        None
    }
}

/// A protocol: every value given must be the number of one, and the last one counts.
pub open spec fn protocol_value(values: Values) -> Option<Protocol> {
    if only_varints(values) && values.varint.len() > 0 && forall|i: int|
        0 <= i < values.varint.len() ==> protocol_of(#[trigger] values.varint[i]) is Some {
        protocol_of(values.varint.last())
    } else {
        None
    }
}

/// An optional field of a protocol: nothing where the field is malformed.
pub open spec fn protocol_field(fields: Fields, number: u32) -> Option<Option<Protocol>> {
    match lookup(fields, number) {
        None => Some(None),
        Some(values) => match protocol_value(values) {
            Some(protocol) => Some(Some(protocol)),
            None => None,
        },
    }
}

/// An optional text field: nothing where the field is malformed.
pub open spec fn text_field(fields: Fields, number: u32) -> Option<Option<Seq<char>>> {
    match lookup(fields, number) {
        None => Some(None),
        Some(values) => match text_value(values) {
            Some(text) => Some(Some(text)),
            None => None,
        },
    }
}

/// An optional field of bytes: nothing where the field is malformed.
pub open spec fn bytes_field(fields: Fields, number: u32) -> Option<Option<Seq<u8>>> {
    match lookup(fields, number) {
        None => Some(None),
        Some(values) => match bytes_value(values) {
            Some(bytes) => Some(Some(bytes)),
            None => None,
        },
    }
}

/// An optional number field: nothing where the field is malformed.
pub open spec fn number_field(fields: Fields, number: u32) -> Option<Option<u64>> {
    match lookup(fields, number) {
        None => Some(None),
        Some(values) => match number_value(values) {
            Some(n) => Some(Some(n)),
            None => None,
        },
    }
}

pub open spec fn text_view(text: Option<String>) -> Option<Seq<char>> {
    match text {
        Some(text) => Some(text@),
        None => None,
    }
}

pub open spec fn bytes_view(bytes: Option<Vec<u8>>) -> Option<Seq<u8>> {
    match bytes {
        Some(bytes) => Some(bytes@),
        None => None,
    }
}

pub open spec fn field_values(field: Option<Field>) -> Option<Values> {
    match field {
        Some(field) => Some(field@.values),
        None => None,
    }
}

pub(crate) fn read_text(
    field: Option<Field>,
    Ghost(fields): Ghost<Fields>,
    number: u32,
) -> (r: Result<Option<String>, Error>)
    requires
        field_values(field) == lookup(fields, number),
        field is Some ==> field_possible(field->0@),
    ensures
        match r {
            Ok(text) => text_field(fields, number) == Some(text_view(text)),
            Err(e) => text_field(fields, number) is None && e == Error::Protobuf,
        },
{
    let field = match field {
        Some(field) => field,
        None => {
            return Ok(None);
        },
    };
    let ghost values = field@.values;
    if field.fixed32.len() != 0 || field.fixed64.len() != 0 || field.varint.len() != 0 {
        return Err(Error::Protobuf);
    }
    proof {
        if values.bytes.len() == 0 {
            assert(values =~= Values::none());
        }
    }
    let mut last: Option<String> = None;
    let mut i: usize = 0;
    while i < field.bytes.len()
        invariant
            i <= field.bytes@.len(),
            values == field@.values,
            only_bytes(values),
            lookup(fields, number) == Some(values),
            forall|j: int| 0 <= j < i ==> valid_utf8(#[trigger] values.bytes[j]),
            i > 0 ==> last is Some && last->0@ == decode_utf8(values.bytes[i - 1]),
        decreases field.bytes@.len() - i,
    {
        assert(values.bytes[i as int] == field.bytes@[i as int]@);
        match into_text(slice_to_vec(field.bytes[i].as_slice())) {
            Some(text) => {
                last = Some(text);
            },
            None => {
                return Err(Error::Protobuf);
            },
        }
        i += 1;
    }
    Ok(last)
}

fn read_bytes(field: Option<Field>, Ghost(fields): Ghost<Fields>, number: u32) -> (r: Result<
    Option<Vec<u8>>,
    Error,
>)
    requires
        field_values(field) == lookup(fields, number),
        field is Some ==> field_possible(field->0@),
    ensures
        match r {
            Ok(bytes) => bytes_field(fields, number) == Some(bytes_view(bytes)),
            Err(e) => bytes_field(fields, number) is None && e == Error::Protobuf,
        },
{
    let mut field = match field {
        Some(field) => field,
        None => {
            return Ok(None);
        },
    };
    let ghost values = field@.values;
    if field.fixed32.len() != 0 || field.fixed64.len() != 0 || field.varint.len() != 0 {
        return Err(Error::Protobuf);
    }
    proof {
        if values.bytes.len() == 0 {
            assert(values =~= Values::none());
        }
        assert(values.bytes.last() == field.bytes@.last()@);
    }
    Ok(field.bytes.pop())
}

pub(crate) fn read_number(
    field: Option<Field>,
    Ghost(fields): Ghost<Fields>,
    number: u32,
) -> (r: Result<Option<u64>, Error>)
    requires
        field_values(field) == lookup(fields, number),
        field is Some ==> field_possible(field->0@),
    ensures
        match r {
            Ok(n) => number_field(fields, number) == Some(n),
            Err(e) => number_field(fields, number) is None && e == Error::Protobuf,
        },
{
    let mut field = match field {
        Some(field) => field,
        None => {
            return Ok(None);
        },
    };
    let ghost values = field@.values;
    if field.fixed32.len() != 0 || field.fixed64.len() != 0 || field.bytes.len() != 0 {
        return Err(Error::Protobuf);
    }
    proof {
        if values.varint.len() == 0 {
            assert(values =~= Values::none());
        }
    }
    Ok(field.varint.pop())
}

pub(crate) fn read_protocol(
    field: Option<Field>,
    Ghost(fields): Ghost<Fields>,
    number: u32,
) -> (r: Result<Option<Protocol>, Error>)
    requires
        field_values(field) == lookup(fields, number),
        field is Some ==> field_possible(field->0@),
    ensures
        match r {
            Ok(protocol) => protocol_field(fields, number) == Some(protocol),
            Err(e) => protocol_field(fields, number) is None && e == Error::Protobuf,
        },
{
    let field = match field {
        Some(field) => field,
        None => {
            return Ok(None);
        },
    };
    let ghost values = field@.values;
    if field.fixed32.len() != 0 || field.fixed64.len() != 0 || field.bytes.len() != 0 {
        return Err(Error::Protobuf);
    }
    proof {
        if values.varint.len() == 0 {
            assert(values =~= Values::none());
        }
    }
    let mut last: Option<Protocol> = None;
    let mut i: usize = 0;
    while i < field.varint.len()
        invariant
            i <= field.varint@.len(),
            values == field@.values,
            only_varints(values),
            lookup(fields, number) == Some(values),
            forall|j: int| 0 <= j < i ==> protocol_of(#[trigger] values.varint[j]) is Some,
            i > 0 ==> last is Some && last == protocol_of(values.varint[i - 1]),
        decreases field.varint@.len() - i,
    {
        let listed = Protocol::from_number(#[verifier::truncate] (field.varint[i] as i32));
        assert(listed == protocol_of(values.varint[i as int]));
        if listed.is_none() {
            return Err(Error::Protobuf);
        }
        last = listed;
        i += 1;
    }
    Ok(last)
}

/// A copy of a list of fields.
fn copy_fields(fields: &Vec<Field>) -> (r: Vec<Field>)
    ensures
        field_views(r@) == field_views(fields@),
{
    let mut r: Vec<Field> = Vec::new();
    let mut i: usize = 0;
    while i < fields.len()
        invariant
            i <= fields@.len(),
            r@.len() == i,
            forall|j: int| 0 <= j < i ==> (#[trigger] r@[j])@ == fields@[j]@,
        decreases fields@.len() - i,
    {
        let field = &fields[i];
        r.push(
            Field {
                number: field.number,
                fixed32: slice_to_vec(field.fixed32.as_slice()),
                fixed64: slice_to_vec(field.fixed64.as_slice()),
                varint: slice_to_vec(field.varint.as_slice()),
                bytes: copy_all(&field.bytes),
            },
        );
        i += 1;
    }
    assert(field_views(r@) =~= field_views(fields@));
    r
}

/// Where a message is to go: to the servers of a protocol, and among them to the one that serves
/// the shard of `hash`. Fields that are not known here are kept as they came.
pub struct RouteInfo {
    pub protocol: Option<Protocol>,
    pub hash: Option<u64>,
    pub extra: Vec<Field>,
}

/// The mathematical reading of a [`RouteInfo`].
pub struct RouteInfoView {
    pub protocol: Option<Protocol>,
    pub hash: Option<u64>,
    pub extra: Seq<FieldView>,
}

impl View for RouteInfo {
    type V = RouteInfoView;

    open spec fn view(&self) -> RouteInfoView {
        RouteInfoView {
            protocol: self.protocol,
            hash: self.hash,
            extra: field_views(self.extra@),
        }
    }
}

/// Fields besides those of the given numbers, in the order of their numbers.
pub open spec fn extra_ok(extra: Seq<FieldView>, known: Set<u32>) -> bool {
    &&& is_ascending(extra)
    &&& forall|i: int| 0 <= i < extra.len() ==> field_possible(#[trigger] extra[i])
    &&& forall|i: int| 0 <= i < extra.len() ==> !known.contains((#[trigger] extra[i]).number)
}

/// The numbers of the fields of a [`RouteInfo`].
pub open spec fn route_info_numbers() -> Set<u32> {
    set![1u32, 2u32]
}

/// The numbers of the fields of a [`Msg`].
pub open spec fn msg_numbers() -> Set<u32> {
    set![1u32, 2u32, 3u32]
}

/// A field with one byte string, or none.
pub open spec fn bytes_part(number: u32, bytes: Option<Seq<u8>>) -> Seq<FieldView> {
    match bytes {
        Some(bytes) => seq![
            FieldView { number, values: Values { bytes: seq![bytes], ..Values::none() } },
        ],
        None => Seq::empty(),
    }
}

/// A field with one number, or none.
pub open spec fn number_part(number: u32, n: Option<u64>) -> Seq<FieldView> {
    match n {
        Some(n) => seq![FieldView { number, values: Values { varint: seq![n], ..Values::none() } }],
        None => Seq::empty(),
    }
}

impl RouteInfoView {
    pub open spec fn wf(self) -> bool {
        extra_ok(self.extra, route_info_numbers())
    }

    /// The protocol, which is the first where none is given.
    pub open spec fn get_protocol(self) -> Protocol {
        match self.protocol {
            Some(protocol) => protocol,
            None => Protocol::Net,
        }
    }

    /// The fields that are written.
    pub open spec fn fields(self) -> Seq<FieldView> {
        let protocol = match self.protocol {
            Some(protocol) => Some(number_of(protocol) as u64),
            None => None,
        };
        number_part(1, protocol) + number_part(2, self.hash) + self.extra
    }

    /// Every byte string can be written with its length.
    pub open spec fn fits(self) -> bool {
        all_fit(self.extra)
    }
}

/// The routing information that fields make up.
pub open spec fn route_info_from(fields: Fields) -> Option<RouteInfoView> {
    match (protocol_field(fields, 1), number_field(fields, 2)) {
        (Some(protocol), Some(hash)) => Some(
            RouteInfoView {
                protocol,
                hash,
                extra: ascending(fields.remove_keys(route_info_numbers())),
            },
        ),
        _ => None,
    }
}

/// The routing information that a byte string holds.
pub open spec fn route_info_of(bytes: Seq<u8>) -> Option<RouteInfoView> {
    match fields_of(bytes, 2) {
        Some(fields) => route_info_from(fields),
        None => None,
    }
}

impl RouteInfo {
    /// Routing information with these fields alone.
    pub fn new(protocol: Option<Protocol>, hash: Option<u64>) -> (r: RouteInfo)
        ensures
            r@ == (RouteInfoView { protocol, hash, extra: Seq::empty() }),
            r@.wf(),
            r@.fits(),
    {
        let r = RouteInfo { protocol, hash, extra: Vec::new() };
        assert(r@.extra =~= Seq::empty());
        r
    }

    pub fn get_protocol(&self) -> (r: Protocol)
        ensures
            r == self@.get_protocol(),
    {
        match self.protocol {
            Some(protocol) => protocol,
            None => Protocol::Net,
        }
    }

    /// The routing information that the fields of a message make up.
    pub fn from_fields(fields: Vec<Field>) -> (r: Result<RouteInfo, Error>)
        requires
            forall|i: int| 0 <= i < fields@.len() ==> field_possible(#[trigger] fields@[i]@),
            exists|m: Fields| lists(field_views(fields@), m),
        ensures
            forall|m: Fields| #[trigger]
                lists(field_views(fields@), m) ==> match r {
                    Ok(info) => route_info_from(m) == Some(info@),
                    Err(e) => route_info_from(m) is None && e == Error::Protobuf,
                },
            r is Ok ==> r->Ok_0@.wf(),
    {
        let ghost all = field_views(fields@);
        let ghost m0 = choose|m: Fields| lists(all, m);
        let mut fields = fields;
        let first = take_field(&mut fields, 1);
        let second = take_field(&mut fields, 2);
        proof {
            assert(lists(field_views(fields@), m0.remove(1).remove(2)));
            assert forall|m: Fields| lists(all, m) implies m == m0 by {
                crate::wire::lemma_lists_same(all, m, m0);
            }
        }
        let protocol = match read_protocol(first, Ghost(m0), 1) {
            Ok(protocol) => protocol,
            Err(e) => {
                return Err(e);
            },
        };
        let hash = match read_number(second, Ghost(m0), 2) {
            Ok(hash) => hash,
            Err(e) => {
                return Err(e);
            },
        };
        let extra = sort_fields(fields);
        proof {
            let rest = m0.remove_keys(route_info_numbers());
            assert(m0.remove(1).remove(2) =~= rest);
            let views = field_views(extra@);
            assert forall|i: int| 0 <= i < views.len() implies field_possible(#[trigger] views[i])
                && !route_info_numbers().contains(views[i].number) by {
                assert(views[i] == extra@[i]@);
                assert(rest.contains_key(views[i].number));
            }
        }
        Ok(RouteInfo { protocol, hash, extra })
    }

    /// Reads routing information from its bytes.
    pub fn parse_from_bytes(bytes: &[u8]) -> (r: Result<RouteInfo, Error>)
        ensures
            match r {
                Ok(info) => {
                    &&& route_info_of(bytes@) == Some(info@)
                    &&& info@.wf()
                    &&& info@.fits()
                },
                Err(e) => route_info_of(bytes@) is None && e == Error::Protobuf,
            },
    {
        proof {
            if route_info_of(bytes@) is Some {
                law_read_route_info_fits(bytes@);
            }
        }
        match read_fields(bytes, 2) {
            Ok(fields) => RouteInfo::from_fields(fields),
            Err(e) => Err(e),
        }
    }

    /// Writes the known fields that are set, and then the others. Read back, they are the same.
    pub fn write_to_bytes(&self) -> (r: Vec<u8>)
        requires
            self@.wf(),
        ensures
            r@ == wire_bytes(self@.fields()),
            self@.fits() ==> route_info_of(r@) == Some(self@),
    {
        let mut fields: Vec<Field> = Vec::new();
        match self.protocol {
            Some(protocol) => {
                fields.push(number_entry(1, protocol.number() as u64));
            },
            None => {},
        }
        match self.hash {
            Some(hash) => {
                fields.push(number_entry(2, hash));
            },
            None => {},
        }
        let ghost head = field_views(fields@);
        let mut extra = copy_fields(&self.extra);
        let ghost tail = field_views(extra@);
        fields.append(&mut extra);
        let ghost all = field_views(fields@);
        proof {
            assert(all =~= head + tail);
            assert(head =~= number_part(
                1,
                match self@.protocol {
                    Some(protocol) => Some(number_of(protocol) as u64),
                    None => None,
                },
            ) + number_part(2, self@.hash));
            assert(all =~= self@.fields());
            assert forall|i: int| 0 <= i < fields@.len() implies field_possible(
                #[trigger] fields@[i]@,
            ) by {
                assert(fields@[i]@ == all[i]);
                if i >= head.len() {
                    assert(all[i] == self@.extra[i - head.len()]);
                }
            }
        }
        let r = write_fields(&fields);
        proof {
            if self@.fits() {
                law_route_info_reads_back(self@);
            }
        }
        r
    }
}

/// A number is written by no more bytes than a field whose last number takes as many.
proof fn lemma_number_size(number: u32, n: u64, values: Values)
    requires
        only_varints(values),
        values.varint.len() > 0,
        varint(n as nat).len() <= varint(values.varint.last() as nat).len(),
    ensures
        wire_bytes(number_part(number, Some(n))).len() <= field_size(FieldView { number, values }),
{
    let part = number_part(number, Some(n));
    let one = seq![ValueView::Varint(n)];
    assert(part.drop_last() =~= Seq::empty());
    assert(wire_bytes(part.drop_last()) =~= Seq::empty());
    assert(flat(part.last().values) =~= one);
    assert(one.drop_last() =~= Seq::empty());
    assert(written(number, one.drop_last()) =~= Seq::empty());
    assert(one.last() == ValueView::Varint(n));
    let all = flat(values);
    assert(all.last() == ValueView::Varint(values.varint.last()));
    assert(written(number, all).len() == written(number, all.drop_last()).len() + wire_value(
        number,
        all.last(),
    ).len());
}

/// Routing information is read as it was written.
pub proof fn law_route_info_reads_back(info: RouteInfoView)
    requires
        info.wf(),
        info.fits(),
    ensures
        route_info_of(wire_bytes(info.fields())) == Some(info),
{
    let known = route_info_numbers();
    let all = info.fields();
    let bytes = wire_bytes(all);
    let number = match info.protocol {
        Some(protocol) => Some(number_of(protocol) as u64),
        None => None,
    };
    let first = number_part(1, number);
    let second = number_part(2, info.hash);
    let head = first + second;
    assert forall|i: int| 0 <= i < all.len() implies field_possible(#[trigger] all[i])
        && lengths_fit(all[i]) by {
        if i >= head.len() {
            assert(all[i] == info.extra[i - head.len()]);
        } else {
            assert(all[i] == head[i]);
            assert(all[i].values.varint.len() == 1 && Values::none().varint.len() == 0);
        }
    }
    assert forall|i: int| 0 <= i < head.len() implies known.contains((#[trigger] head[i]).number) by {}
    assert forall|i: int, j: int| #![trigger all[i], all[j]]
        0 <= i < j < all.len() implies all[i].number != all[j].number by {
        if i >= head.len() {
            assert(all[i] == info.extra[i - head.len()] && all[j] == info.extra[j - head.len()]);
        } else if j >= head.len() {
            assert(all[i] == head[i] && all[j] == info.extra[j - head.len()]);
        }
    }
    lemma_reads_as(all);
    let m = fields_of(bytes, 2)->0;
    assert(all =~= head + info.extra);
    lemma_tail(head, info.extra, m, known);
    lemma_ascending(info.extra, m.remove_keys(known));
    assert(protocol_field(m, 1) == Some(info.protocol)) by {
        if number is Some {
            assert(all[0] == first[0]);
            law_numbers_tell_protocols(info.protocol->0);
        } else if m.contains_key(1) {
            let k = choose|k: int| 0 <= k < all.len() && #[trigger] all[k].number == 1;
            if k >= head.len() {
                assert(all[k] == info.extra[k - head.len()]);
            }
        }
    }
    assert(number_field(m, 2) == Some(info.hash)) by {
        if info.hash is Some {
            assert(all[first.len() as int] == second[0]);
        } else if m.contains_key(2) {
            let k = choose|k: int| 0 <= k < all.len() && #[trigger] all[k].number == 2;
            if k >= head.len() {
                assert(all[k] == info.extra[k - head.len()]);
            }
        }
    }
}

/// A field with one number.
pub(crate) fn number_entry(number: u32, n: u64) -> (r: Field)
    requires
        1 <= number <= MAX_FIELD_NUMBER,
    ensures
        seq![r@] == number_part(number, Some(n)),
        field_possible(r@),
{
    let r = Field {
        number,
        fixed32: Vec::new(),
        fixed64: Vec::new(),
        varint: vec![n],
        bytes: Vec::new(),
    };
    proof {
        assert(r@.values.bytes =~= Seq::empty());
        assert(r@.values.varint =~= seq![n]);
        assert(seq![r@] =~= number_part(number, Some(n)));
        assert(Values::none().varint.len() == 0);
    }
    r
}

/// A field with one byte string.
pub(crate) fn bytes_entry(number: u32, bytes: Vec<u8>) -> (r: Field)
    requires
        1 <= number <= MAX_FIELD_NUMBER,
    ensures
        seq![r@] == bytes_part(number, Some(bytes@)),
        field_possible(r@),
{
    let r = Field {
        number,
        fixed32: Vec::new(),
        fixed64: Vec::new(),
        varint: Vec::new(),
        bytes: vec![bytes],
    };
    proof {
        assert(r@.values.bytes =~= seq![bytes@]);
        assert(seq![r@] =~= bytes_part(number, Some(bytes@)));
        assert(Values::none().bytes.len() == 0);
    }
    r
}

/// The envelope in which every message travels: the name of the message, its bytes, and where it
/// is to go. Fields that are not known here are kept as they came.
pub struct Msg {
    pub message_id: Option<String>,
    pub body: Option<Vec<u8>>,
    pub route_info: Option<RouteInfo>,
    pub extra: Vec<Field>,
}

/// The mathematical reading of a [`Msg`].
pub struct MsgView {
    pub message_id: Option<Seq<char>>,
    pub body: Option<Seq<u8>>,
    pub route_info: Option<RouteInfoView>,
    pub extra: Seq<FieldView>,
}

pub open spec fn route_info_view(info: Option<RouteInfo>) -> Option<RouteInfoView> {
    match info {
        Some(info) => Some(info@),
        None => None,
    }
}

impl View for Msg {
    type V = MsgView;

    open spec fn view(&self) -> MsgView {
        MsgView {
            message_id: text_view(self.message_id),
            body: bytes_view(self.body),
            route_info: route_info_view(self.route_info),
            extra: field_views(self.extra@),
        }
    }
}

impl MsgView {
    /// A message with no field set.
    pub open spec fn blank() -> MsgView {
        MsgView { message_id: None, body: None, route_info: None, extra: Seq::empty() }
    }

    /// A message of the given name and bytes, and nothing else.
    pub open spec fn of(message_id: Seq<char>, body: Seq<u8>) -> MsgView {
        MsgView {
            message_id: Some(message_id),
            body: Some(body),
            route_info: None,
            extra: Seq::empty(),
        }
    }

    pub open spec fn wf(self) -> bool {
        &&& extra_ok(self.extra, msg_numbers())
        &&& self.route_info is Some ==> self.route_info->0.wf()
    }

    /// The name of the message, which is empty where none is given.
    pub open spec fn get_message_id(self) -> Seq<char> {
        match self.message_id {
            Some(id) => id,
            None => Seq::empty(),
        }
    }

    /// The bytes of the message, which are none where none are given.
    pub open spec fn get_body(self) -> Seq<u8> {
        match self.body {
            Some(body) => body,
            None => Seq::empty(),
        }
    }

    /// The routing information, which is blank where none is given.
    pub open spec fn get_route_info(self) -> RouteInfoView {
        match self.route_info {
            Some(info) => info,
            None => RouteInfoView { protocol: None, hash: None, extra: Seq::empty() },
        }
    }

    /// The fields that are written.
    pub open spec fn fields(self) -> Seq<FieldView> {
        let id = match self.message_id {
            Some(id) => Some(encode_utf8(id)),
            None => None,
        };
        let info = match self.route_info {
            Some(info) => Some(wire_bytes(info.fields())),
            None => None,
        };
        bytes_part(1, id) + bytes_part(2, self.body) + bytes_part(3, info) + self.extra
    }

    /// Every byte string can be written with its length.
    pub open spec fn fits(self) -> bool {
        &&& self.message_id is Some ==> encode_utf8(self.message_id->0).len() <= u32::MAX
        &&& self.body is Some ==> self.body->0.len() <= u32::MAX
        &&& self.route_info is Some ==> {
            &&& self.route_info->0.fits()
            &&& wire_bytes(self.route_info->0.fields()).len() <= u32::MAX
        }
        &&& all_fit(self.extra)
    }
}

/// An optional field of routing information: every value given must be such, and the last counts.
pub open spec fn route_info_field(fields: Fields, number: u32) -> Option<Option<RouteInfoView>> {
    match lookup(fields, number) {
        None => Some(None),
        Some(values) => if only_bytes(values) && values.bytes.len() > 0 && forall|i: int|
            0 <= i < values.bytes.len() ==> route_info_of(#[trigger] values.bytes[i]) is Some {
            Some(route_info_of(values.bytes.last()))
        } else {
            None
        },
    }
}

/// The message that fields make up.
pub open spec fn msg_from(fields: Fields) -> Option<MsgView> {
    match (text_field(fields, 1), bytes_field(fields, 2), route_info_field(fields, 3)) {
        (Some(message_id), Some(body), Some(route_info)) => Some(
            MsgView {
                message_id,
                body,
                route_info,
                extra: ascending(fields.remove_keys(msg_numbers())),
            },
        ),
        _ => None,
    }
}

/// The message that a byte string holds.
pub open spec fn msg_of(bytes: Seq<u8>) -> Option<MsgView> {
    match fields_of(bytes, 3) {
        Some(fields) => msg_from(fields),
        None => None,
    }
}

fn read_route_info(field: Option<Field>, Ghost(fields): Ghost<Fields>, number: u32) -> (r: Result<
    Option<RouteInfo>,
    Error,
>)
    requires
        field_values(field) == lookup(fields, number),
        field is Some ==> field_possible(field->0@),
    ensures
        match r {
            Ok(info) => {
                &&& route_info_field(fields, number) == Some(route_info_view(info))
                &&& info is Some ==> info->0@.wf()
            },
            Err(e) => route_info_field(fields, number) is None && e == Error::Protobuf,
        },
{
    let field = match field {
        Some(field) => field,
        None => {
            return Ok(None);
        },
    };
    let ghost values = field@.values;
    if field.fixed32.len() != 0 || field.fixed64.len() != 0 || field.varint.len() != 0 {
        return Err(Error::Protobuf);
    }
    proof {
        if values.bytes.len() == 0 {
            assert(values =~= Values::none());
        }
    }
    let mut last: Option<RouteInfo> = None;
    let mut i: usize = 0;
    while i < field.bytes.len()
        invariant
            i <= field.bytes@.len(),
            values == field@.values,
            only_bytes(values),
            lookup(fields, number) == Some(values),
            forall|j: int| 0 <= j < i ==> route_info_of(#[trigger] values.bytes[j]) is Some,
            i > 0 ==> last is Some && Some(last->0@) == route_info_of(values.bytes[i - 1])
                && last->0@.wf(),
        decreases field.bytes@.len() - i,
    {
        assert(values.bytes[i as int] == field.bytes@[i as int]@);
        match RouteInfo::parse_from_bytes(field.bytes[i].as_slice()) {
            Ok(info) => {
                last = Some(info);
            },
            Err(e) => {
                return Err(e);
            },
        }
        i += 1;
    }
    Ok(last)
}

impl Msg {
    /// A message with no field set.
    pub fn blank() -> (r: Msg)
        ensures
            r@ == MsgView::blank(),
            r@.wf(),
    {
        let r = Msg { message_id: None, body: None, route_info: None, extra: Vec::new() };
        assert(r@.extra =~= Seq::empty());
        r
    }

    /// A message of the given name and bytes, with the routing information where there is any.
    pub fn new(message_id: &str, body: Vec<u8>, route_info: Option<RouteInfo>) -> (r: Msg)
        requires
            route_info is Some ==> route_info->0@.wf(),
        ensures
            r@ == (MsgView {
                route_info: route_info_view(route_info),
                ..MsgView::of(message_id@, body@)
            }),
            r@.wf(),
    {
        let r = Msg {
            message_id: Some(message_id.to_owned()),
            body: Some(body),
            route_info,
            extra: Vec::new(),
        };
        assert(r@.extra =~= Seq::empty());
        r
    }

    pub fn get_message_id(&self) -> (r: &str)
        ensures
            r@ == self@.get_message_id(),
    {
        proof {
            reveal_strlit("");
            assert(""@ =~= Seq::empty());
        }
        match &self.message_id {
            Some(id) => id.as_str(),
            None => "",
        }
    }

    pub fn get_body(&self) -> (r: Vec<u8>)
        ensures
            r@ == self@.get_body(),
    {
        match &self.body {
            Some(body) => slice_to_vec(body.as_slice()),
            None => Vec::new(),
        }
    }

    /// The message that fields make up.
    pub fn from_fields(fields: Vec<Field>) -> (r: Result<Msg, Error>)
        requires
            forall|i: int| 0 <= i < fields@.len() ==> field_possible(#[trigger] fields@[i]@),
            exists|m: Fields| lists(field_views(fields@), m),
        ensures
            forall|m: Fields| #[trigger]
                lists(field_views(fields@), m) ==> match r {
                    Ok(msg) => msg_from(m) == Some(msg@),
                    Err(e) => msg_from(m) is None && e == Error::Protobuf,
                },
            r is Ok ==> r->Ok_0@.wf(),
    {
        let ghost all = field_views(fields@);
        let ghost m0 = choose|m: Fields| lists(all, m);
        let mut fields = fields;
        let first = take_field(&mut fields, 1);
        let second = take_field(&mut fields, 2);
        let third = take_field(&mut fields, 3);
        proof {
            assert(lists(field_views(fields@), m0.remove(1).remove(2).remove(3)));
            assert forall|m: Fields| lists(all, m) implies m == m0 by {
                crate::wire::lemma_lists_same(all, m, m0);
            }
        }
        let message_id = match read_text(first, Ghost(m0), 1) {
            Ok(message_id) => message_id,
            Err(e) => {
                return Err(e);
            },
        };
        let body = match read_bytes(second, Ghost(m0), 2) {
            Ok(body) => body,
            Err(e) => {
                return Err(e);
            },
        };
        let route_info = match read_route_info(third, Ghost(m0), 3) {
            Ok(route_info) => route_info,
            Err(e) => {
                return Err(e);
            },
        };
        let extra = sort_fields(fields);
        proof {
            let rest = m0.remove_keys(msg_numbers());
            assert(m0.remove(1).remove(2).remove(3) =~= rest);
            let views = field_views(extra@);
            assert forall|i: int| 0 <= i < views.len() implies field_possible(#[trigger] views[i])
                && !msg_numbers().contains(views[i].number) by {
                assert(views[i] == extra@[i]@);
                assert(rest.contains_key(views[i].number));
            }
        }
        Ok(Msg { message_id, body, route_info, extra })
    }

    /// Reads a message from its bytes.
    pub fn parse_from_bytes(bytes: &[u8]) -> (r: Result<Msg, Error>)
        ensures
            match r {
                Ok(msg) => msg_of(bytes@) == Some(msg@) && msg@.wf() && msg@.fits(),
                Err(e) => msg_of(bytes@) is None && e == Error::Protobuf,
            },
    {
        proof {
            if msg_of(bytes@) is Some {
                law_read_message_fits(bytes@);
            }
        }
        match read_fields(bytes, 3) {
            Ok(fields) => Msg::from_fields(fields),
            Err(e) => Err(e),
        }
    }

    /// Writes the known fields that are set, and then the others. Read back, they are the same.
    pub fn write_to_bytes(&self) -> (r: Vec<u8>)
        requires
            self@.wf(),
        ensures
            r@ == wire_bytes(self@.fields()),
            self@.fits() ==> msg_of(r@) == Some(self@),
    {
        let mut fields: Vec<Field> = Vec::new();
        match &self.message_id {
            Some(id) => {
                fields.push(bytes_entry(1, text_bytes(id.as_str())));
            },
            None => {},
        }
        match &self.body {
            Some(body) => {
                fields.push(bytes_entry(2, slice_to_vec(body.as_slice())));
            },
            None => {},
        }
        match &self.route_info {
            Some(info) => {
                fields.push(bytes_entry(3, info.write_to_bytes()));
            },
            None => {},
        }
        let ghost head = field_views(fields@);
        let mut extra = copy_fields(&self.extra);
        let ghost tail = field_views(extra@);
        fields.append(&mut extra);
        let ghost all = field_views(fields@);
        proof {
            assert(all =~= head + tail);
            let id = match self@.message_id {
                Some(id) => Some(encode_utf8(id)),
                None => None,
            };
            let info = match self@.route_info {
                Some(info) => Some(wire_bytes(info.fields())),
                None => None,
            };
            assert(head =~= bytes_part(1, id) + bytes_part(2, self@.body) + bytes_part(3, info));
            assert(all =~= self@.fields());
            assert forall|i: int| 0 <= i < fields@.len() implies field_possible(
                #[trigger] fields@[i]@,
            ) by {
                assert(fields@[i]@ == all[i]);
                if i >= head.len() {
                    assert(all[i] == self@.extra[i - head.len()]);
                }
            }
        }
        let r = write_fields(&fields);
        proof {
            if self@.fits() {
                law_message_reads_back(self@);
            }
        }
        r
    }
}

spec fn one_value(bytes: Option<Seq<u8>>) -> Option<Values> {
    match bytes {
        Some(bytes) => Some(Values { bytes: seq![bytes], ..Values::none() }),
        None => None,
    }
}

spec fn one_fits(bytes: Option<Seq<u8>>) -> bool {
    bytes is Some ==> bytes->0.len() <= u32::MAX
}

spec fn three_parts(a: Option<Seq<u8>>, b: Option<Seq<u8>>, c: Option<Seq<u8>>) -> Seq<FieldView> {
    bytes_part(1, a) + bytes_part(2, b) + bytes_part(3, c)
}

proof fn lemma_three_parts(a: Option<Seq<u8>>, b: Option<Seq<u8>>, c: Option<Seq<u8>>)
    ensures
        ({
            let head = three_parts(a, b, c);
            &&& head.len() <= 3
            &&& forall|i: int| 0 <= i < head.len() ==> field_possible(#[trigger] head[i])
            &&& one_fits(a) && one_fits(b) && one_fits(c) ==> forall|i: int|
                0 <= i < head.len() ==> lengths_fit(#[trigger] head[i])
            &&& forall|i: int| 0 <= i < head.len() ==> msg_numbers().contains(
                (#[trigger] head[i]).number,
            )
            &&& is_ascending(head)
        }),
{
    let head = three_parts(a, b, c);
    assert forall|i: int| 0 <= i < head.len() implies field_possible(#[trigger] head[i]) by {
        assert(head[i].values.bytes.len() == 1 && Values::none().bytes.len() == 0);
    }
}

proof fn lemma_three_writable(
    a: Option<Seq<u8>>,
    b: Option<Seq<u8>>,
    c: Option<Seq<u8>>,
    extra: Seq<FieldView>,
)
    requires
        extra_ok(extra, msg_numbers()),
        one_fits(a),
        one_fits(b),
        one_fits(c),
        all_fit(extra),
    ensures
        writable(three_parts(a, b, c) + extra),
{
    lemma_three_parts(a, b, c);
    let head = three_parts(a, b, c);
    let all = head + extra;
    assert forall|i: int| 0 <= i < all.len() implies field_possible(#[trigger] all[i]) by {
        if i >= head.len() {
            assert(all[i] == extra[i - head.len()]);
        } else {
            assert(all[i] == head[i]);
        }
    }
    assert forall|i: int| 0 <= i < all.len() implies lengths_fit(#[trigger] all[i]) by {
        if i >= head.len() {
            assert(all[i] == extra[i - head.len()]);
        } else {
            assert(all[i] == head[i]);
        }
    }
    assert forall|i: int, j: int| #![trigger all[i], all[j]]
        0 <= i < j < all.len() implies all[i].number != all[j].number by {
        if i >= head.len() {
            assert(all[i] == extra[i - head.len()] && all[j] == extra[j - head.len()]);
        } else if j >= head.len() {
            assert(all[i] == head[i] && all[j] == extra[j - head.len()]);
        } else {
            assert(all[i] == head[i] && all[j] == head[j]);
        }
    }
}

proof fn lemma_three_lookup(
    a: Option<Seq<u8>>,
    b: Option<Seq<u8>>,
    c: Option<Seq<u8>>,
    extra: Seq<FieldView>,
    fields: Fields,
)
    requires
        extra_ok(extra, msg_numbers()),
        lists(three_parts(a, b, c) + extra, fields),
    ensures
        lookup(fields, 1) == one_value(a),
        lookup(fields, 2) == one_value(b),
        lookup(fields, 3) == one_value(c),
        ascending(fields.remove_keys(msg_numbers())) == extra,
{
    lemma_three_parts(a, b, c);
    let head = three_parts(a, b, c);
    let all = head + extra;
    lemma_tail(head, extra, fields, msg_numbers());
    lemma_ascending(extra, fields.remove_keys(msg_numbers()));
    let n1 = bytes_part(1, a).len() as int;
    let n2 = n1 + bytes_part(2, b).len() as int;
    assert forall|n: u32| 1 <= n <= 3 && #[trigger] fields.contains_key(n) implies exists|k: int|
        0 <= k < head.len() && #[trigger] head[k].number == n by {
        let k = choose|k: int| 0 <= k < all.len() && #[trigger] all[k].number == n;
        if k >= head.len() {
            assert(all[k] == extra[k - head.len()]);
            assert(msg_numbers().contains(n));
        } else {
            assert(head[k].number == n);
        }
    }
    if a is Some {
        assert(all[0] == bytes_part(1, a)[0]);
    }
    if b is Some {
        assert(all[n1] == bytes_part(2, b)[0]);
    }
    if c is Some {
        assert(all[n2] == bytes_part(3, c)[0]);
    }
}

/// A message is read as it was written.
pub proof fn law_message_reads_back(msg: MsgView)
    requires
        msg.wf(),
        msg.fits(),
    ensures
        msg_of(wire_bytes(msg.fields())) == Some(msg),
{
    let id = match msg.message_id {
        Some(id) => Some(encode_utf8(id)),
        None => None,
    };
    let info = match msg.route_info {
        Some(info) => Some(wire_bytes(info.fields())),
        None => None,
    };
    assert(msg.fields() == three_parts(id, msg.body, info) + msg.extra);
    lemma_three_writable(id, msg.body, info, msg.extra);
    lemma_reads_as(msg.fields());
    let m = fields_of(wire_bytes(msg.fields()), 3)->0;
    if msg.route_info is Some {
        law_route_info_reads_back(msg.route_info->0);
    }
    lemma_three_lookup(id, msg.body, info, msg.extra, m);
    if msg.message_id is Some {
        encode_utf8_valid_utf8(msg.message_id->0);
        encode_utf8_decode_utf8(msg.message_id->0);
    }
    assert(text_field(m, 1) == Some(msg.message_id));
    assert(bytes_field(m, 2) == Some(msg.body));
    assert(route_info_field(m, 3) == Some(msg.route_info));
}

/// Routing information that was read can be written, by no more bytes than it was read from.
pub proof fn law_read_route_info_fits(bytes: Seq<u8>)
    requires
        route_info_of(bytes) is Some,
    ensures
        route_info_of(bytes)->0.wf(),
        route_info_of(bytes)->0.fits(),
        wire_bytes(route_info_of(bytes)->0.fields()).len() <= bytes.len(),
{
    let m = fields_of(bytes, 2)->0;
    let info = route_info_of(bytes)->0;
    lemma_read_arranged(bytes, 2);
    lemma_arranged_remove(m, 1);
    lemma_arranged_remove(m.remove(1), 2);
    let rest = m.remove(1).remove(2);
    assert(rest =~= m.remove_keys(route_info_numbers()));
    lemma_extra(rest, route_info_numbers());
    let number = match info.protocol {
        Some(protocol) => Some(number_of(protocol) as u64),
        None => None,
    };
    let first = number_part(1, number);
    let second = number_part(2, info.hash);
    if info.protocol is Some {
        let n = number->0;
        lemma_varint_size(0, m[1].varint.last() as nat);
        assert(varint(n as nat).len() == 1);
        lemma_number_size(1, n, m[1]);
    }
    if info.hash is Some {
        lemma_number_size(2, info.hash->0, m[2]);
    }
    lemma_wire_bytes_add(first, second);
    lemma_wire_bytes_add(first + second, info.extra);
}

/// Fields that can be arranged, and have none of the known numbers, can be kept as they came.
proof fn lemma_extra(rest: Fields, known: Set<u32>)
    requires
        arranged(rest),
        forall|n: u32| #[trigger] rest.contains_key(n) ==> !known.contains(n),
    ensures
        extra_ok(ascending(rest), known),
{
    let s = ascending(rest);
    assert forall|i: int| 0 <= i < s.len() implies !known.contains((#[trigger] s[i]).number) by {
        assert(rest.contains_key(s[i].number));
    }
}

/// A message that was read can be written.
pub proof fn law_read_message_fits(bytes: Seq<u8>)
    requires
        msg_of(bytes) is Some,
    ensures
        msg_of(bytes)->0.wf(),
        msg_of(bytes)->0.fits(),
{
    let m = fields_of(bytes, 3)->0;
    let msg = msg_of(bytes)->0;
    lemma_read_arranged(bytes, 3);
    lemma_arranged_remove(m, 1);
    lemma_arranged_remove(m.remove(1), 2);
    lemma_arranged_remove(m.remove(1).remove(2), 3);
    let rest = m.remove(1).remove(2).remove(3);
    assert(rest =~= m.remove_keys(msg_numbers()));
    lemma_extra(rest, msg_numbers());
    if msg.message_id is Some {
        let id = m[1].bytes.last();
        assert(id == m[1].bytes[m[1].bytes.len() - 1]);
        decode_utf8_encode_utf8(id);
    }
    if msg.body is Some {
        assert(m[2].bytes.last() == m[2].bytes[m[2].bytes.len() - 1]);
    }
    if msg.route_info is Some {
        let info = m[3].bytes.last();
        assert(info == m[3].bytes[m[3].bytes.len() - 1]);
        law_read_route_info_fits(info);
    }
}

/// A message that was read, and is written and read again, is the same.
pub proof fn law_read_message_reads_back(bytes: Seq<u8>)
    requires
        msg_of(bytes) is Some,
    ensures
        msg_of(wire_bytes(msg_of(bytes)->0.fields())) == msg_of(bytes),
{
    law_read_message_fits(bytes);
    law_message_reads_back(msg_of(bytes)->0);
}

pub(crate) proof fn lemma_bytes_part(number: u32, bytes: Seq<u8>)
    ensures
        wire_bytes(bytes_part(number, Some(bytes))) == wire_value(number, ValueView::Bytes(bytes)),
{
    let part = bytes_part(number, Some(bytes));
    let one = seq![ValueView::Bytes(bytes)];
    assert(part.drop_last() =~= Seq::empty());
    assert(wire_bytes(part.drop_last()) =~= Seq::empty());
    assert(flat(part.last().values) =~= one);
    assert(one.drop_last() =~= Seq::empty());
    assert(written(number, one.drop_last()) =~= Seq::empty());
    assert(one.last() == ValueView::Bytes(bytes));
    assert(wire_bytes(part) =~= wire_value(number, ValueView::Bytes(bytes)));
}

pub(crate) proof fn lemma_number_part(number: u32, n: u64)
    ensures
        wire_bytes(number_part(number, Some(n))) == wire_value(number, ValueView::Varint(n)),
{
    let part = number_part(number, Some(n));
    let one = seq![ValueView::Varint(n)];
    assert(part.drop_last() =~= Seq::empty());
    assert(wire_bytes(part.drop_last()) =~= Seq::empty());
    assert(flat(part.last().values) =~= one);
    assert(one.drop_last() =~= Seq::empty());
    assert(written(number, one.drop_last()) =~= Seq::empty());
    assert(one.last() == ValueView::Varint(n));
    assert(wire_bytes(part) =~= wire_value(number, ValueView::Varint(n)));
}

/// The bytes of one value, or none.
pub open spec fn if_given(number: u32, value: Option<ValueView>) -> Seq<u8> {
    match value {
        Some(value) => wire_value(number, value),
        None => Seq::empty(),
    }
}

/// A message is written by the values that it has: its name as field 1, its bytes as field 2 and
/// its routing information as field 3; and then what else came with it.
pub proof fn law_message_is_written(msg: MsgView)
    ensures
        wire_bytes(msg.fields()) == if_given(
            1,
            match msg.message_id {
                Some(id) => Some(ValueView::Bytes(encode_utf8(id))),
                None => None,
            },
        ) + if_given(
            2,
            match msg.body {
                Some(body) => Some(ValueView::Bytes(body)),
                None => None,
            },
        ) + if_given(
            3,
            match msg.route_info {
                Some(info) => Some(ValueView::Bytes(wire_bytes(info.fields()))),
                None => None,
            },
        ) + wire_bytes(msg.extra),
{
    let id = match msg.message_id {
        Some(id) => Some(encode_utf8(id)),
        None => None,
    };
    let info = match msg.route_info {
        Some(info) => Some(wire_bytes(info.fields())),
        None => None,
    };
    let a = bytes_part(1, id);
    let b = bytes_part(2, msg.body);
    let c = bytes_part(3, info);
    lemma_wire_bytes_add(a, b);
    lemma_wire_bytes_add(a + b, c);
    lemma_wire_bytes_add(a + b + c, msg.extra);
    if id is Some {
        lemma_bytes_part(1, id->0);
    }
    if msg.body is Some {
        lemma_bytes_part(2, msg.body->0);
    }
    if info is Some {
        lemma_bytes_part(3, info->0);
    }
}

/// Routing information is written by the values that it has: the number of its protocol as field 1
/// and its hash as field 2; and then what else came with it.
pub proof fn law_route_info_is_written(info: RouteInfoView)
    ensures
        wire_bytes(info.fields()) == if_given(
            1,
            match info.protocol {
                Some(protocol) => Some(ValueView::Varint(number_of(protocol) as u64)),
                None => None,
            },
        ) + if_given(
            2,
            match info.hash {
                Some(hash) => Some(ValueView::Varint(hash)),
                None => None,
            },
        ) + wire_bytes(info.extra),
{
    let number = match info.protocol {
        Some(protocol) => Some(number_of(protocol) as u64),
        None => None,
    };
    let a = number_part(1, number);
    let b = number_part(2, info.hash);
    lemma_wire_bytes_add(a, b);
    lemma_wire_bytes_add(a + b, info.extra);
    if number is Some {
        lemma_number_part(1, number->0);
    }
    if info.hash is Some {
        lemma_number_part(2, info.hash->0);
    }
}

/// A message that has a name and bytes alone is written by these two values.
pub proof fn law_bare_message_is_written(message_id: Seq<char>, body: Seq<u8>)
    ensures
        wire_bytes(MsgView::of(message_id, body).fields()) == wire_value(
            1,
            ValueView::Bytes(encode_utf8(message_id)),
        ) + wire_value(2, ValueView::Bytes(body)),
{
    let msg = MsgView::of(message_id, body);
    law_message_is_written(msg);
    assert(wire_bytes(msg.fields()) =~= wire_value(
        1,
        ValueView::Bytes(encode_utf8(message_id)),
    ) + wire_value(2, ValueView::Bytes(body)));
}

/// What a message or its routing information does not give is the first protocol, or empty.
pub proof fn law_what_is_not_given(msg: MsgView, info: RouteInfoView)
    ensures
        msg.get_message_id() == if msg.message_id is Some {
            msg.message_id->0
        } else {
            Seq::empty()
        },
        msg.get_body() == if msg.body is Some {
            msg.body->0
        } else {
            Seq::empty()
        },
        msg.route_info is Some ==> msg.get_route_info() == msg.route_info->0,
        msg.route_info is None ==> msg.get_route_info().protocol is None
            && msg.get_route_info().hash is None && msg.get_route_info().extra.len() == 0,
        info.get_protocol() == if info.protocol is Some {
            info.protocol->0
        } else {
            Protocol::Net
        },
        MsgView::blank().message_id is None,
        MsgView::blank().body is None,
        MsgView::blank().route_info is None,
        MsgView::blank().extra.len() == 0,
{
}

/// Each protocol has its number, and no other number is that of a protocol.
pub proof fn law_protocols_are_listed(number: i32)
    ensures
        number_of(Protocol::Net) == 0,
        number_of(Protocol::RouteSrv) == 1,
        number_of(Protocol::SessionSrv) == 2,
        number_of(Protocol::OriginSrv) == 3,
        number_of(Protocol::JobSrv) == 4,
        number_of(Protocol::Scheduler) == 5,
        numbered(number) is Some <==> 0 <= number <= 5,
        numbered(number) is Some ==> number_of(numbered(number)->0) == number,
{
}

/// A value names a protocol exactly when its lowest 32 bits are the number of one.
proof fn lemma_protocol_of(v: u64, protocol: Protocol)
    ensures
        protocol_of(v) == Some(protocol) <==> number_of(protocol) == v % 0x1_0000_0000,
{
    assert(0 <= (v as i32) <= 5 ==> ((v as i32) as u64) == v % 0x1_0000_0000u64) by (bit_vector);
    assert(v % 0x1_0000_0000u64 <= 5 ==> (v as i32) == ((v % 0x1_0000_0000u64) as i32)
        && 0 <= (v as i32) <= 5) by (bit_vector);
    law_protocols_are_listed(v as i32);
    law_numbers_tell_protocols(protocol);
}

proof fn lemma_rest_two(m: Fields)
    requires
        arranged(m),
    ensures
        arranged(m.remove_keys(route_info_numbers())),
{
    lemma_arranged_remove(m, 1);
    lemma_arranged_remove(m.remove(1), 2);
    assert(m.remove(1).remove(2) =~= m.remove_keys(route_info_numbers()));
}

proof fn lemma_rest_three(m: Fields)
    requires
        arranged(m),
    ensures
        arranged(m.remove_keys(msg_numbers())),
{
    lemma_arranged_remove(m, 1);
    lemma_arranged_remove(m.remove(1), 2);
    lemma_arranged_remove(m.remove(1).remove(2), 3);
    assert(m.remove(1).remove(2).remove(3) =~= m.remove_keys(msg_numbers()));
}

/// Besides the fields of the given numbers, one more value: the others are as they were, and the
/// value is after those that its field had.
pub open spec fn takes_extra(
    before: Seq<FieldView>,
    after: Seq<FieldView>,
    number: u32,
    value: ValueView,
) -> bool {
    &&& is_ascending(after)
    &&& forall|f: FieldView| #![trigger after.contains(f)]
        f.number != number ==> (after.contains(f) <==> before.contains(f))
    &&& forall|f: FieldView| #![trigger before.contains(f)]
        f.number == number && before.contains(f) ==> after.contains(
            FieldView { number, values: f.values.push(value) },
        )
    &&& (forall|f: FieldView| #[trigger] before.contains(f) ==> f.number != number)
        ==> after.contains(FieldView { number, values: Values::none().push(value) })
}

proof fn lemma_takes_extra(m: Fields, known: Set<u32>, number: u32, value: ValueView)
    requires
        !known.contains(number),
        arranged(m.remove_keys(known)),
        arranged(with_value(m, number, value).remove_keys(known)),
    ensures
        takes_extra(
            ascending(m.remove_keys(known)),
            ascending(with_value(m, number, value).remove_keys(known)),
            number,
            value,
        ),
{
    let old_rest = m.remove_keys(known);
    let new_rest = with_value(m, number, value).remove_keys(known);
    let before = ascending(old_rest);
    let after = ascending(new_rest);
    assert forall|f: FieldView| #![trigger after.contains(f)] f.number != number implies (
    after.contains(f) <==> before.contains(f)) by {
        lemma_arranged_contains(old_rest, f);
        lemma_arranged_contains(new_rest, f);
    }
    assert forall|f: FieldView| #![trigger before.contains(f)]
        f.number == number && before.contains(f) implies after.contains(
        FieldView { number, values: f.values.push(value) },
    ) by {
        lemma_arranged_contains(old_rest, f);
        lemma_arranged_contains(new_rest, FieldView { number, values: f.values.push(value) });
    }
    if forall|f: FieldView| #[trigger] before.contains(f) ==> f.number != number {
        if old_rest.contains_key(number) {
            let f = FieldView { number, values: old_rest[number] };
            lemma_arranged_contains(old_rest, f);
            assert(before.contains(f));
        }
        lemma_arranged_contains(
            new_rest,
            FieldView { number, values: Values::none().push(value) },
        );
    }
}

/// Routing information that gives one more value: the last protocol counts, and every one that is
/// given must be listed; the last hash counts; and of other fields every value is kept. A value
/// that is written in another way than its field leaves nothing to read, and so does a group under
/// the number of a field. Routing information of no bytes has no field.
pub proof fn law_route_info_takes_values(
    less: Seq<u8>,
    more: Seq<u8>,
    records: Seq<RecordView>,
    record: RecordView,
)
    requires
        records_of(less) == Some(records),
        records_of(more) == Some(records.push(record)),
    ensures
        route_info_of(less) is None ==> route_info_of(more) is None,
        route_info_of(less) matches Some(info) ==> {
            let n = record.number;
            if n == 1 {
                match record.value {
                    Some(ValueView::Varint(v)) => {
                        &&& forall|p: Protocol| #[trigger]
                            number_of(p) == v % 0x1_0000_0000 ==> route_info_of(more) == Some(
                                RouteInfoView { protocol: Some(p), ..info },
                            )
                        &&& v % 0x1_0000_0000 > 5 ==> route_info_of(more) is None
                    },
                    _ => route_info_of(more) is None,
                }
            } else if n == 2 {
                match record.value {
                    Some(ValueView::Varint(h)) => route_info_of(more) == Some(
                        RouteInfoView { hash: Some(h), ..info },
                    ),
                    _ => route_info_of(more) is None,
                }
            } else {
                match record.value {
                    Some(value) => {
                        &&& route_info_of(more) is Some
                        &&& route_info_of(more)->0.protocol == info.protocol
                        &&& route_info_of(more)->0.hash == info.hash
                        &&& takes_extra(info.extra, route_info_of(more)->0.extra, n, value)
                    },
                    None => route_info_of(more) == Some(info),
                }
            }
        },
        route_info_of(Seq::empty()) matches Some(info) && info.protocol is None && info.hash is None
            && info.extra.len() == 0,
{
    lemma_records(more);
    assert(record_possible(records.push(record)[records.len() as int]));
    lemma_group_push(records, record, 2);
    lemma_nothing_read();
    let m = gather(records);
    if fields_of(less, 2) is Some && record.value is Some {
        let value = record.value->0;
        let after = with_value(m, record.number, value);
        lemma_read_arranged(less, 2);
        lemma_read_arranged(more, 2);
        lemma_field_push(m, record.number, value);
        if record.number > 2 {
            lemma_rest_two(m);
            lemma_rest_two(after);
            lemma_takes_extra(m, route_info_numbers(), record.number, value);
        } else {
            assert(after.remove_keys(route_info_numbers()) =~= m.remove_keys(route_info_numbers()));
            lemma_arranged_remove(m, record.number);
            lemma_numbers_push(m, record.number, value);
        }
        if let ValueView::Varint(v) = value {
            lemma_protocol_found(v);
        }
    }
}

pub(crate) proof fn lemma_protocol_found(v: u64)
    ensures
        forall|p: Protocol| #[trigger]
            number_of(p) == v % 0x1_0000_0000 ==> protocol_of(v) == Some(p),
        v % 0x1_0000_0000 > 5 ==> protocol_of(v) is None,
{
    assert forall|p: Protocol| #[trigger] number_of(p) == v % 0x1_0000_0000 implies protocol_of(v)
        == Some(p) by {
        lemma_protocol_of(v, p);
    }
    if protocol_of(v) is Some {
        lemma_protocol_of(v, protocol_of(v)->0);
    }
}

/// The values of a field that is given one more.
pub(crate) proof fn lemma_field_push(m: Fields, number: u32, value: ValueView)
    ensures
        ({
            let after = with_value(m, number, value);
            let held = if m.contains_key(number) {
                m[number]
            } else {
                Values::none()
            };
            &&& lookup(after, number) == Some(held.push(value))
            &&& forall|n: u32| n != number ==> #[trigger] lookup(after, n) == lookup(m, n)
            &&& value is Varint ==> held.push(value).varint.last() == value->Varint_0
            &&& value is Bytes ==> held.push(value).bytes.last() == value->Bytes_0
        }),
{
}

/// A message of no bytes has no field.
pub(crate) proof fn lemma_nothing_read()
    ensures
        forall|known: u32| #[trigger] fields_of(Seq::empty(), known) == Some(
            Map::<u32, Values>::empty(),
        ),
        route_info_of(Seq::empty()) == Some(
            RouteInfoView { protocol: None, hash: None, extra: Seq::empty() },
        ),
        msg_of(Seq::empty()) == Some(MsgView::blank()),
{
    let empty = Seq::<u8>::empty();
    assert(records_of(empty) == Some(Seq::<RecordView>::empty()));
    let nothing = Map::<u32, Values>::empty();
    let none = Seq::<FieldView>::empty();
    assert(lists(none, nothing));
    lemma_ascending(none, nothing);
    assert(nothing.remove_keys(route_info_numbers()) =~= nothing);
    assert(nothing.remove_keys(msg_numbers()) =~= nothing);
}

/// A message that gives one more value: the last name counts, and every one that is given must be a
/// text; the last bytes count; the last routing information counts, and every one that is given
/// must be such; and of other fields every value is kept. A value that is written in another way
/// than its field leaves nothing to read, and so does a group under the number of a field. A
/// message of no bytes has no field.
pub proof fn law_message_takes_values(
    less: Seq<u8>,
    more: Seq<u8>,
    records: Seq<RecordView>,
    record: RecordView,
)
    requires
        records_of(less) == Some(records),
        records_of(more) == Some(records.push(record)),
    ensures
        msg_of(less) is None ==> msg_of(more) is None,
        msg_of(less) matches Some(msg) ==> {
            let n = record.number;
            if n == 1 {
                match record.value {
                    Some(ValueView::Bytes(b)) => msg_of(more) == if valid_utf8(b) {
                        Some(MsgView { message_id: Some(decode_utf8(b)), ..msg })
                    } else {
                        None
                    },
                    _ => msg_of(more) is None,
                }
            } else if n == 2 {
                match record.value {
                    Some(ValueView::Bytes(b)) => msg_of(more) == Some(
                        MsgView { body: Some(b), ..msg },
                    ),
                    _ => msg_of(more) is None,
                }
            } else if n == 3 {
                match record.value {
                    Some(ValueView::Bytes(b)) => msg_of(more) == if route_info_of(b) is Some {
                        Some(MsgView { route_info: route_info_of(b), ..msg })
                    } else {
                        None
                    },
                    _ => msg_of(more) is None,
                }
            } else {
                match record.value {
                    Some(value) => {
                        &&& msg_of(more) is Some
                        &&& msg_of(more)->0.message_id == msg.message_id
                        &&& msg_of(more)->0.body == msg.body
                        &&& msg_of(more)->0.route_info == msg.route_info
                        &&& takes_extra(msg.extra, msg_of(more)->0.extra, n, value)
                    },
                    None => msg_of(more) == Some(msg),
                }
            }
        },
        msg_of(Seq::empty()) matches Some(msg) && msg.message_id is None && msg.body is None
            && msg.route_info is None && msg.extra.len() == 0,
{
    lemma_records(more);
    assert(record_possible(records.push(record)[records.len() as int]));
    lemma_group_push(records, record, 3);
    let m = gather(records);
    if let Some(value) = record.value {
        let after = with_value(m, record.number, value);
        if fields_of(less, 3) is Some {
            lemma_read_arranged(less, 3);
            lemma_read_arranged(more, 3);
            lemma_rest_three(m);
            lemma_rest_three(after);
        }
        if record.number > 3 {
            if fields_of(less, 3) is Some {
                lemma_takes_extra(m, msg_numbers(), record.number, value);
            }
        } else {
            assert(after.remove_keys(msg_numbers()) =~= m.remove_keys(msg_numbers()));
        }
        lemma_field_push(m, record.number, value);
        if fields_of(less, 3) is Some {
            lemma_arranged_remove(m, record.number);
            lemma_bytes_push(m, record.number, value);
        }
    }
    lemma_nothing_read();
}

/// What a field of byte strings holds, given one more value.
pub(crate) proof fn lemma_bytes_push(m: Fields, number: u32, value: ValueView)
    requires
        m.contains_key(number) ==> m[number] != Values::none(),
    ensures
        ({
            let after = with_value(m, number, value);
            &&& text_field(m, number) is None ==> text_field(after, number) is None
            &&& bytes_field(m, number) is None ==> bytes_field(after, number) is None
            &&& route_info_field(m, number) is None ==> route_info_field(after, number) is None
            &&& !(value is Bytes) ==> text_field(after, number) is None && bytes_field(
                after,
                number,
            ) is None && route_info_field(after, number) is None
            &&& value matches ValueView::Bytes(b) ==> {
                &&& text_field(m, number) is Some ==> text_field(after, number) == if valid_utf8(b) {
                    Some(Some(decode_utf8(b)))
                } else {
                    None
                }
                &&& bytes_field(m, number) is Some ==> bytes_field(after, number) == Some(Some(b))
                &&& route_info_field(m, number) is Some ==> route_info_field(after, number)
                    == if route_info_of(b) is Some {
                    Some(route_info_of(b))
                } else {
                    None
                }
            }
        }),
{
    let after = with_value(m, number, value);
    let held = if m.contains_key(number) {
        m[number]
    } else {
        Values::none()
    };
    let now = held.push(value);
    assert(after[number] == now);
    if let ValueView::Bytes(b) = value {
        assert(now.bytes[held.bytes.len() as int] == b);
    }
    assert forall|i: int| 0 <= i < held.bytes.len() implies #[trigger] held.bytes[i]
        == now.bytes[i] by {}
    if held.bytes.len() == 0 && only_bytes(held) {
        assert(held =~= Values::none());
    }
}

/// What a field of numbers holds, given one more value.
pub(crate) proof fn lemma_numbers_push(m: Fields, number: u32, value: ValueView)
    requires
        m.contains_key(number) ==> m[number] != Values::none(),
    ensures
        ({
            let after = with_value(m, number, value);
            &&& protocol_field(m, number) is None ==> protocol_field(after, number) is None
            &&& number_field(m, number) is None ==> number_field(after, number) is None
            &&& !(value is Varint) ==> protocol_field(after, number) is None && number_field(
                after,
                number,
            ) is None
            &&& value matches ValueView::Varint(v) ==> {
                &&& protocol_field(m, number) is Some ==> protocol_field(after, number)
                    == match protocol_of(v) {
                    Some(protocol) => Some(Some(protocol)),
                    None => None,
                }
                &&& number_field(m, number) is Some ==> number_field(after, number) == Some(Some(v))
            }
        }),
{
    let after = with_value(m, number, value);
    let held = if m.contains_key(number) {
        m[number]
    } else {
        Values::none()
    };
    let now = held.push(value);
    assert(after[number] == now);
    if let ValueView::Varint(v) = value {
        assert(now.varint[held.varint.len() as int] == v);
    }
    assert forall|i: int| 0 <= i < held.varint.len() implies #[trigger] held.varint[i]
        == now.varint[i] by {}
    if held.varint.len() == 0 && only_varints(held) {
        assert(held =~= Values::none());
    }
}

/// Bytes whose values cannot be read are no message and no routing information.
pub proof fn law_unreadable_bytes_are_no_message(bytes: Seq<u8>)
    requires
        records_of(bytes) is None,
    ensures
        msg_of(bytes) is None,
        route_info_of(bytes) is None,
{
}

/// A message and its routing information are read as what they are; and a message made of a name
/// and bytes has these and nothing else.
pub proof fn law_views_of_messages(
    msg: Msg,
    info: RouteInfo,
    message_id: Seq<char>,
    body: Seq<u8>,
)
    ensures
        msg.message_id is None <==> msg@.message_id is None,
        msg.message_id matches Some(id) ==> msg@.message_id == Some(id@),
        msg.body is None <==> msg@.body is None,
        msg.body matches Some(b) ==> msg@.body == Some(b@),
        msg.route_info is None <==> msg@.route_info is None,
        msg.route_info matches Some(i) ==> msg@.route_info == Some(i@),
        msg@.extra == field_views(msg.extra@),
        info@.protocol == info.protocol,
        info@.hash == info.hash,
        info@.extra == field_views(info.extra@),
        MsgView::of(message_id, body).message_id == Some(message_id),
        MsgView::of(message_id, body).body == Some(body),
        MsgView::of(message_id, body).route_info is None,
        MsgView::of(message_id, body).extra.len() == 0,
{
}

} // verus!
