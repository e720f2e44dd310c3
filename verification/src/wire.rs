//! The protobuf wire format: fields written to and read from byte strings.

use protobuf::rt::read_unknown_or_skip_group;
use protobuf::{CodedInputStream, CodedOutputStream, ProtobufError, UnknownFields};
use vstd::prelude::*;
use vstd::slice::slice_subrange;

use crate::byte_string::byte_strings;

verus! {

/// The largest field number of the wire format.
pub const MAX_FIELD_NUMBER: u32 = 0x1fff_ffff;

/// The error of the protobuf crate.
#[verifier::external_type_specification]
#[verifier::external_body]
pub struct ExProtobufError(ProtobufError);

/// The value of one field, as it stands on the wire.
pub enum WireValue {
    Varint(u64),
    Bytes(Seq<u8>),
}

/// The variable-length encoding of an integer: seven bits to a byte, the least significant first,
/// the top bit set on every byte but the last.
pub open spec fn varint(n: nat) -> Seq<u8>
    decreases n,
{
    if n < 128 {
        seq![n as u8]
    } else {
        seq![(n % 128 + 128) as u8] + varint(n / 128)
    }
}

/// The encoding of one field. A byte string is preceded by its length, of which the wire format
/// keeps 32 bits.
pub open spec fn encode_field(number: u32, value: WireValue) -> Seq<u8> {
    match value {
        WireValue::Varint(n) => varint((number * 8) as nat) + varint(n as nat),
        WireValue::Bytes(bytes) => varint((number * 8 + 2) as nat) + varint(
            bytes.len() % 0x1_0000_0000,
        ) + bytes,
    }
}

/// The encoding of fields one after the other.
pub open spec fn encode_fields(fields: Seq<(u32, WireValue)>) -> Seq<u8>
    decreases fields.len(),
{
    if fields.len() == 0 {
        Seq::empty()
    } else {
        encode_fields(fields.drop_last()) + encode_field(fields.last().0, fields.last().1)
    }
}

/// Whether the wire format can hold a field: its number is a field number, and its length fits in
/// 32 bits.
pub open spec fn writable_field(number: u32, value: WireValue) -> bool {
    &&& 1 <= number <= MAX_FIELD_NUMBER
    &&& (value matches WireValue::Bytes(bytes) ==> bytes.len() <= 0xffff_ffff)
}

/// Whether the wire format can hold these fields.
pub open spec fn writable(fields: Seq<(u32, WireValue)>) -> bool {
    forall|i: int|
        #![trigger fields[i]]
        0 <= i < fields.len() ==> writable_field(fields[i].0, fields[i].1)
}

/// The varints among the fields with the given number, in order.
pub open spec fn varints_of(fields: Seq<(u32, WireValue)>, number: u32) -> Seq<u64>
    decreases fields.len(),
{
    if fields.len() == 0 {
        Seq::empty()
    } else {
        let rest = varints_of(fields.drop_last(), number);
        match fields.last().1 {
            WireValue::Varint(n) if fields.last().0 == number => rest.push(n),
            _ => rest,
        }
    }
}

/// The byte strings among the fields with the given number, in order.
pub open spec fn bytes_of(fields: Seq<(u32, WireValue)>, number: u32) -> Seq<Seq<u8>>
    decreases fields.len(),
{
    if fields.len() == 0 {
        Seq::empty()
    } else {
        let rest = bytes_of(fields.drop_last(), number);
        match fields.last().1 {
            WireValue::Bytes(bytes) if fields.last().0 == number => rest.push(bytes),
            _ => rest,
        }
    }
}

/// What stands in fields: the varints, the length-delimited values, the 32-bit and the 64-bit
/// values, each in the order in which they stand.
pub type ValuesView = (Seq<u64>, Seq<Seq<u8>>, Seq<u32>, Seq<u64>);

/// The field that the protobuf parser finds at the front of an encoded message: its number, what
/// stands in it, and the number of bytes that it takes up. Nothing stands in a group, which is
/// skipped. `None` where no field stands there.
pub uninterp spec fn front_field(bytes: Seq<u8>) -> Option<
    (u32, (Seq<u64>, Seq<Seq<u8>>, Seq<u32>, Seq<u64>), nat),
>;

/// The values of one field.
pub struct FieldValues {
    pub varints: Vec<u64>,
    pub byte_strings: Vec<Vec<u8>>,
    pub fixed32: Vec<u32>,
    pub fixed64: Vec<u64>,
}

impl View for FieldValues {
    type V = ValuesView;

    open spec fn view(&self) -> ValuesView {
        (self.varints@, byte_strings(self.byte_strings@), self.fixed32@, self.fixed64@)
    }
}

/// The field at the front of an encoded message.
pub struct FrontField {
    pub number: u32,
    pub values: FieldValues,
    /// The number of bytes that the field takes up
    pub length: usize,
}

/// What was read from the front of an encoded message.
pub open spec fn front_read(r: Result<FrontField, ProtobufError>) -> Option<
    (u32, ValuesView, nat),
> {
    match r {
        Ok(front) => Some((front.number, front.values@, front.length as nat)),
        Err(_) => None,
    }
}

/// The values of one field with one value.
pub open spec fn single_value(value: WireValue) -> ValuesView {
    match value {
        WireValue::Varint(n) => (seq![n], Seq::empty(), Seq::empty(), Seq::empty()),
        WireValue::Bytes(bytes) => (Seq::empty(), seq![bytes], Seq::empty(), Seq::empty()),
    }
}

/// A field that was written at the front of a message reads back.
pub open spec fn reads_back(bytes: Seq<u8>, found: Option<(u32, ValuesView, nat)>) -> bool {
    forall|number: u32, value: WireValue, rest: Seq<u8>|
        #![trigger encode_field(number, value) + rest]
        bytes == encode_field(number, value) + rest && writable_field(number, value) ==> found
            == Some((number, single_value(value), encode_field(number, value).len()))
}

/// Reads the field at the front of an encoded message: `protobuf::CodedInputStream`'s
/// `read_tag_unpack`, then `protobuf::rt::read_unknown_or_skip_group`, which keeps the value of the
/// field, or skips a group.
///
/// Trusted: the result depends on the bytes alone, the field takes up at least one of them and no
/// more than there are, and a field that was written at the front reads back.
#[verifier::external_body]
fn read_front(bytes: &[u8]) -> (r: Result<FrontField, ProtobufError>)
    ensures
        front_read(r) == front_field(bytes@),
        (r matches Ok(front) ==> 0 < front.length <= bytes@.len()),
        reads_back(bytes@, front_read(r)),
{
    let mut stream = CodedInputStream::from_bytes(bytes);
    let (number, wire_type) = stream.read_tag_unpack()?;
    let mut fields = UnknownFields::new();
    read_unknown_or_skip_group(number, wire_type, &mut stream, &mut fields)?;
    let found = fields.get(number).cloned().unwrap_or_default();
    let values = FieldValues {
        varints: found.varint,
        byte_strings: found.length_delimited,
        fixed32: found.fixed32,
        fixed64: found.fixed64,
    };
    Ok(FrontField { number, values, length: stream.pos() as usize })
}

/// Whether nothing stands in a field, as in a group.
pub open spec fn no_value(values: ValuesView) -> bool {
    let (varints, strings, fixed32, fixed64) = values;
    varints.len() + strings.len() + fixed32.len() + fixed64.len() == 0
}

/// What stands in some fields and then in others.
pub open spec fn joined(first: ValuesView, second: ValuesView) -> ValuesView {
    (first.0 + second.0, first.1 + second.1, first.2 + second.2, first.3 + second.3)
}

/// What stands in some fields and then in others, if the others can be read.
pub open spec fn joined_after(first: ValuesView, second: Option<ValuesView>) -> Option<ValuesView> {
    match second {
        Some(second) => Some(joined(first, second)),
        None => None,
    }
}

/// What stands under one field number of an encoded message. `None` where the bytes are no encoded
/// message, or a group stands under that number.
pub open spec fn wire_values(bytes: Seq<u8>, number: u32) -> Option<ValuesView>
    decreases bytes.len(),
{
    if bytes.len() == 0 {
        Some((Seq::empty(), Seq::empty(), Seq::empty(), Seq::empty()))
    } else {
        match front_field(bytes) {
            Some((found, values, length)) => if 0 < length <= bytes.len() {
                match wire_values(bytes.skip(length as int), number) {
                    Some(rest) => if found != number {
                        Some(rest)
                    } else if no_value(values) {
                        None
                    } else {
                        Some(joined(values, rest))
                    },
                    None => None,
                }
            } else {
                None
            },
            None => None,
        }
    }
}

proof fn lemma_encoded_field_not_empty(number: u32, value: WireValue)
    ensures
        encode_field(number, value).len() > 0,
{
    reveal_with_fuel(varint, 2);
}

/// The encoding of fields starts with that of the first.
proof fn lemma_first_field(fields: Seq<(u32, WireValue)>, number: u32)
    requires
        fields.len() > 0,
    ensures
        encode_fields(fields) == encode_field(fields[0].0, fields[0].1) + encode_fields(
            fields.skip(1),
        ),
        values_of(fields, number) == (if fields[0].0 == number {
            joined(single_value(fields[0].1), values_of(fields.skip(1), number))
        } else {
            values_of(fields.skip(1), number)
        }),
        writable(fields) ==> writable(fields.skip(1)),
{
    let first = seq![(fields[0].0, fields[0].1)];
    let rest = fields.skip(1);
    assert(first + rest =~= fields);
    lemma_concatenated_fields(first, rest);
    lemma_single_field(fields[0].0, fields[0].1);
    assert(varints_of(first + rest, number) == varints_of(first, number) + varints_of(rest, number));
    assert(bytes_of(first + rest, number) == bytes_of(first, number) + bytes_of(rest, number));
    assert(Seq::<u64>::empty() + varints_of(rest, number) =~= varints_of(rest, number));
    assert(Seq::<Seq<u8>>::empty() + bytes_of(rest, number) =~= bytes_of(rest, number));
    assert(Seq::<u32>::empty() + Seq::<u32>::empty() =~= Seq::<u32>::empty());
    assert(Seq::<u64>::empty() + Seq::<u64>::empty() =~= Seq::<u64>::empty());
    if writable(fields) {
        assert forall|i: int| #![trigger rest[i]] 0 <= i < rest.len() implies writable_field(
            rest[i].0,
            rest[i].1,
        ) by {
            assert(rest[i] == fields[i + 1]);
        }
    }
}

/// An empty message was written without fields.
proof fn lemma_empty_finds_written(bytes: Seq<u8>, number: u32)
    requires
        bytes.len() == 0,
    ensures
        finds_written(bytes, number),
{
    assert forall|fields: Seq<(u32, WireValue)>|
        #![trigger encode_fields(fields)]
        encode_fields(fields) == bytes && writable(fields) implies wire_values(bytes, number)
        == Some(values_of(fields, number)) by {
        if fields.len() > 0 {
            lemma_encoded_field_not_empty(fields.last().0, fields.last().1);
        }
    }
}

/// If what follows the front field reads back, so does the whole; and nothing that was written has
/// anything but a value at the front.
proof fn lemma_front_finds_written(bytes: Seq<u8>, number: u32)
    requires
        bytes.len() > 0,
        reads_back(bytes, front_field(bytes)),
        (match front_field(bytes) {
            Some((found, values, length)) => (found == number && no_value(values)) || (0 < length
                <= bytes.len() && finds_written(bytes.skip(length as int), number)),
            None => true,
        }),
    ensures
        finds_written(bytes, number),
{
    assert forall|fields: Seq<(u32, WireValue)>|
        #![trigger encode_fields(fields)]
        encode_fields(fields) == bytes && writable(fields) implies wire_values(bytes, number)
        == Some(values_of(fields, number)) by {
        assert(fields.len() > 0);
        let rest = fields.skip(1);
        lemma_first_field(fields, number);
        assert(writable_field(fields[0].0, fields[0].1));
        let front = encode_field(fields[0].0, fields[0].1);
        assert(bytes == front + encode_fields(rest));
        lemma_encoded_field_not_empty(fields[0].0, fields[0].1);
        assert(front_field(bytes) == Some(
            (fields[0].0, single_value(fields[0].1), front.len()),
        ));
        assert(bytes.skip(front.len() as int) =~= encode_fields(rest));
        assert(wire_values(bytes.skip(front.len() as int), number) == Some(
            values_of(rest, number),
        ));
    }
}

impl FieldValues {
    /// No values.
    fn none() -> (values: FieldValues)
        ensures
            values@ == (Seq::<u64>::empty(), Seq::<Seq<u8>>::empty(), Seq::<u32>::empty(), Seq::<
                u64,
            >::empty()),
    {
        let values = FieldValues {
            varints: Vec::new(),
            byte_strings: Vec::new(),
            fixed32: Vec::new(),
            fixed64: Vec::new(),
        };
        assert(byte_strings(values.byte_strings@) =~= Seq::<Seq<u8>>::empty());
        values
    }

    /// Whether there are none.
    fn is_empty(&self) -> (empty: bool)
        ensures
            empty == no_value(self@),
    {
        self.varints.len() == 0 && self.byte_strings.len() == 0 && self.fixed32.len() == 0
            && self.fixed64.len() == 0
    }

    /// Appends other values.
    fn join(&mut self, other: FieldValues)
        ensures
            final(self)@ == joined(old(self)@, other@),
    {
        let mut other = other;
        let ghost before = self.byte_strings@;
        let ghost added = other.byte_strings@;
        self.varints.append(&mut other.varints);
        self.byte_strings.append(&mut other.byte_strings);
        self.fixed32.append(&mut other.fixed32);
        self.fixed64.append(&mut other.fixed64);
        assert(byte_strings(self.byte_strings@) =~= byte_strings(before) + byte_strings(added));
    }
}

/// Reads what stands under one field number of an encoded message.
fn read_field(bytes: &[u8], number: u32) -> (r: Option<FieldValues>)
    ensures
        (match r {
            Some(values) => wire_values(bytes@, number) == Some(values@),
            None => wire_values(bytes@, number) is None,
        }),
        finds_written(bytes@, number),
{
    let mut found = FieldValues::none();
    let mut at: usize = 0;
    proof {
        assert(bytes@.skip(0) =~= bytes@);
        lemma_joins_nothing(bytes@, number, found@);
    }
    while at < bytes.len()
        invariant
            at <= bytes@.len(),
            wire_values(bytes@, number) == joined_after(
                found@,
                wire_values(bytes@.skip(at as int), number),
            ),
            finds_written(bytes@.skip(at as int), number) ==> finds_written(bytes@, number),
        decreases bytes@.len() - at,
    {
        let ghost rest = bytes@.skip(at as int);
        let remaining = slice_subrange(bytes, at, bytes.len());
        assert(remaining@ =~= rest);
        let front = match read_front(remaining) {
            Ok(front) => front,
            Err(_) => {
                proof {
                    lemma_front_finds_written(rest, number);
                }
                return None;
            },
        };
        let ghost values = front.values@;
        let ghost next = rest.skip(front.length as int);
        assert(next =~= bytes@.skip(at + front.length));
        if front.number == number && front.values.is_empty() {
            proof {
                lemma_front_finds_written(rest, number);
            }
            return None;
        }
        proof {
            if finds_written(next, number) {
                lemma_front_finds_written(rest, number);
            }
            lemma_joins_in_order(found@, values, wire_values(next, number));
        }
        at += front.length;
        if front.number == number {
            found.join(front.values);
        }
    }
    proof {
        assert(bytes@.skip(at as int) =~= Seq::<u8>::empty());
        lemma_empty_finds_written(bytes@.skip(at as int), number);
        lemma_nothing_joins(found@);
    }
    Some(found)
}

proof fn lemma_joins_nothing(bytes: Seq<u8>, number: u32, none: ValuesView)
    requires
        no_value(none),
    ensures
        wire_values(bytes, number) == joined_after(none, wire_values(bytes, number)),
{
    match wire_values(bytes, number) {
        Some(values) => {
            assert(joined(none, values).0 =~= values.0);
            assert(joined(none, values).1 =~= values.1);
            assert(joined(none, values).2 =~= values.2);
            assert(joined(none, values).3 =~= values.3);
        },
        None => {},
    }
}

proof fn lemma_nothing_joins(values: ValuesView)
    ensures
        joined(values, (Seq::empty(), Seq::empty(), Seq::empty(), Seq::empty())) == values,
{
    let none: ValuesView = (Seq::empty(), Seq::empty(), Seq::empty(), Seq::empty());
    assert(joined(values, none).0 =~= values.0);
    assert(joined(values, none).1 =~= values.1);
    assert(joined(values, none).2 =~= values.2);
    assert(joined(values, none).3 =~= values.3);
}

proof fn lemma_joins_in_order(first: ValuesView, second: ValuesView, third: Option<ValuesView>)
    ensures
        joined_after(first, joined_after(second, third)) == joined_after(
            joined(first, second),
            third,
        ),
{
    match third {
        Some(third) => {
            let left = joined(first, joined(second, third));
            let right = joined(joined(first, second), third);
            assert(left.0 =~= right.0);
            assert(left.1 =~= right.1);
            assert(left.2 =~= right.2);
            assert(left.3 =~= right.3);
        },
        None => {},
    }
}

/// What stands under `number` among the given fields.
pub open spec fn values_of(fields: Seq<(u32, WireValue)>, number: u32) -> ValuesView {
    (
        varints_of(fields, number),
        bytes_of(fields, number),
        Seq::<u32>::empty(),
        Seq::<u64>::empty(),
    )
}

/// If the bytes were written field by field, the parser finds what was written under `number`.
pub open spec fn finds_written(bytes: Seq<u8>, number: u32) -> bool {
    forall|fields: Seq<(u32, WireValue)>|
        #![trigger encode_fields(fields)]
        encode_fields(fields) == bytes && writable(fields) ==> wire_values(bytes, number) == Some(
            values_of(fields, number),
        )
}

/// The value of a `uint64` field, by what stands under its number: the last one, and zero where
/// none stands. A value of another wire type makes the message invalid.
pub open spec fn uint64_value(values: ValuesView) -> Option<u64> {
    let (varints, strings, fixed32, fixed64) = values;
    if strings.len() + fixed32.len() + fixed64.len() > 0 {
        None
    } else if varints.len() == 0 {
        Some(0)
    } else {
        Some(varints.last())
    }
}

/// The values of a length-delimited field, by what stands under its number. A value of another wire
/// type makes the message invalid.
pub open spec fn repeated_values(values: ValuesView) -> Option<Seq<Seq<u8>>> {
    let (varints, strings, fixed32, fixed64) = values;
    if varints.len() + fixed32.len() + fixed64.len() > 0 {
        None
    } else {
        Some(strings)
    }
}

/// The value of a `uint64` field of a message; `None` where the message is invalid.
pub open spec fn uint64_field(bytes: Seq<u8>, number: u32) -> Option<u64> {
    match wire_values(bytes, number) {
        Some(values) => uint64_value(values),
        None => None,
    }
}

/// The values of a length-delimited field of a message; `None` where the message is invalid.
pub open spec fn repeated_field(bytes: Seq<u8>, number: u32) -> Option<Seq<Seq<u8>>> {
    match wire_values(bytes, number) {
        Some(values) => repeated_values(values),
        None => None,
    }
}

/// The last value of a list, and an empty one where there is none.
pub open spec fn last_value(values: Seq<Seq<u8>>) -> Seq<u8> {
    if values.len() == 0 {
        Seq::empty()
    } else {
        values.last()
    }
}

/// The value of a `bytes` field: the last one that stands in the message, and an empty one where
/// none does.
pub open spec fn bytes_field(bytes: Seq<u8>, number: u32) -> Option<Seq<u8>> {
    match repeated_field(bytes, number) {
        Some(values) => Some(last_value(values)),
        None => None,
    }
}

impl FieldValues {
    /// The value of a `uint64` field.
    pub fn uint64(&self) -> (r: Option<u64>)
        ensures
            r == uint64_value(self@),
    {
        if self.byte_strings.len() > 0 || self.fixed32.len() > 0 || self.fixed64.len() > 0 {
            None
        } else if self.varints.len() == 0 {
            Some(0)
        } else {
            Some(self.varints[self.varints.len() - 1])
        }
    }

    /// The values of a length-delimited field.
    pub fn repeated(self) -> (r: Option<Vec<Vec<u8>>>)
        ensures
            (match r {
                Some(values) => repeated_values(self@) == Some(byte_strings(values@)),
                None => repeated_values(self@) is None,
            }),
    {
        if self.varints.len() > 0 || self.fixed32.len() > 0 || self.fixed64.len() > 0 {
            None
        } else {
            Some(self.byte_strings)
        }
    }
}

/// Reads a `uint64` field.
pub fn get_uint64(bytes: &[u8], number: u32) -> (r: Option<u64>)
    ensures
        r == uint64_field(bytes@, number),
        finds_written(bytes@, number),
{
    match read_field(bytes, number) {
        Some(values) => values.uint64(),
        None => None,
    }
}

/// Reads a length-delimited field that may stand in the message any number of times.
pub fn get_repeated(bytes: &[u8], number: u32) -> (r: Option<Vec<Vec<u8>>>)
    ensures
        (match r {
            Some(values) => repeated_field(bytes@, number) == Some(byte_strings(values@)),
            None => repeated_field(bytes@, number) is None,
        }),
        finds_written(bytes@, number),
{
    match read_field(bytes, number) {
        Some(values) => values.repeated(),
        None => None,
    }
}

/// Reads a `bytes` field.
pub fn get_bytes(bytes: &[u8], number: u32) -> (r: Option<Vec<u8>>)
    ensures
        (match r {
            Some(value) => bytes_field(bytes@, number) == Some(value@),
            None => bytes_field(bytes@, number) is None,
        }),
        finds_written(bytes@, number),
{
    match get_repeated(bytes, number) {
        Some(mut values) => {
            let last = values.pop();
            match last {
                Some(value) => Some(value),
                None => Some(Vec::new()),
            }
        },
        None => None,
    }
}

/// A `uint64` field, left out where it is zero.
pub open spec fn optional_uint64(number: u32, value: u64) -> Seq<(u32, WireValue)> {
    if value == 0 {
        Seq::empty()
    } else {
        seq![(number, WireValue::Varint(value))]
    }
}

/// A `bytes` field, left out where it is empty.
pub open spec fn optional_bytes(number: u32, value: Seq<u8>) -> Seq<(u32, WireValue)> {
    if value.len() == 0 {
        Seq::empty()
    } else {
        seq![(number, WireValue::Bytes(value))]
    }
}

/// Appends a `uint64` field, unless it is zero.
pub(crate) fn put_optional_uint64(out: &mut Vec<u8>, number: u32, value: u64)
    requires
        1 <= number <= MAX_FIELD_NUMBER,
    ensures
        final(out)@ == old(out)@ + encode_fields(optional_uint64(number, value)),
{
    proof {
        lemma_single_field(number, WireValue::Varint(value));
    }
    if value != 0 {
        put_uint64(out, number, value);
    } else {
        assert(out@ =~= out@ + Seq::<u8>::empty());
    }
}

/// Appends a `bytes` field, unless it is empty.
pub(crate) fn put_optional_bytes(out: &mut Vec<u8>, number: u32, value: &[u8])
    requires
        1 <= number <= MAX_FIELD_NUMBER,
    ensures
        final(out)@ == old(out)@ + encode_fields(optional_bytes(number, value@)),
{
    proof {
        lemma_single_field(number, WireValue::Bytes(value@));
    }
    if value.len() != 0 {
        put_bytes(out, number, value);
    } else {
        assert(out@ =~= out@ + Seq::<u8>::empty());
    }
}

/// The encoding of one field alone, and what stands in it.
pub proof fn lemma_single_field(number: u32, value: WireValue)
    ensures
        encode_fields(seq![(number, value)]) == encode_field(number, value),
        forall|n: u32| #[trigger]
            varints_of(seq![(number, value)], n) == (match value {
                WireValue::Varint(v) if number == n => seq![v],
                _ => Seq::empty(),
            }),
        forall|n: u32| #[trigger]
            bytes_of(seq![(number, value)], n) == (match value {
                WireValue::Bytes(v) if number == n => seq![v],
                _ => Seq::empty(),
            }),
{
    let fields = seq![(number, value)];
    assert(fields.drop_last() =~= Seq::<(u32, WireValue)>::empty());
    reveal_with_fuel(encode_fields, 2);
    assert(encode_fields(fields) =~= encode_field(number, value));
    assert forall|n: u32| #[trigger] varints_of(fields, n) == (match value {
        WireValue::Varint(v) if number == n => seq![v],
        _ => Seq::empty(),
    }) by {
        reveal_with_fuel(varints_of, 2);
    }
    assert forall|n: u32| #[trigger] bytes_of(fields, n) == (match value {
        WireValue::Bytes(v) if number == n => seq![v],
        _ => Seq::empty(),
    }) by {
        reveal_with_fuel(bytes_of, 2);
    }
}

/// Encoding, and finding what stands under a number, go through the fields in order.
pub proof fn lemma_concatenated_fields(a: Seq<(u32, WireValue)>, b: Seq<(u32, WireValue)>)
    ensures
        encode_fields(a + b) == encode_fields(a) + encode_fields(b),
        forall|n: u32| #[trigger] varints_of(a + b, n) == varints_of(a, n) + varints_of(b, n),
        forall|n: u32| #[trigger] bytes_of(a + b, n) == bytes_of(a, n) + bytes_of(b, n),
        writable(a) && writable(b) ==> writable(a + b),
    decreases b.len(),
{
    if b.len() == 0 {
        assert(a + b =~= a);
        assert(encode_fields(a + b) =~= encode_fields(a) + encode_fields(b));
        assert forall|n: u32| #[trigger]
            varints_of(a + b, n) == varints_of(a, n) + varints_of(b, n) by {
            assert(varints_of(a, n) =~= varints_of(a, n) + varints_of(b, n));
        }
        assert forall|n: u32| #[trigger] bytes_of(a + b, n) == bytes_of(a, n) + bytes_of(b, n) by {
            assert(bytes_of(a, n) =~= bytes_of(a, n) + bytes_of(b, n));
        }
    } else {
        let front = b.drop_last();
        lemma_concatenated_fields(a, front);
        assert((a + b).drop_last() =~= a + front);
        assert((a + b).last() == b.last());
        assert(encode_fields(a + b) =~= encode_fields(a) + encode_fields(b));
        assert forall|n: u32| #[trigger]
            varints_of(a + b, n) == varints_of(a, n) + varints_of(b, n) by {
            assert(varints_of(a + front, n) == varints_of(a, n) + varints_of(front, n));
            assert(varints_of(a + b, n) =~= varints_of(a, n) + varints_of(b, n));
        }
        assert forall|n: u32| #[trigger] bytes_of(a + b, n) == bytes_of(a, n) + bytes_of(b, n) by {
            assert(bytes_of(a + front, n) == bytes_of(a, n) + bytes_of(front, n));
            assert(bytes_of(a + b, n) =~= bytes_of(a, n) + bytes_of(b, n));
        }
    }
}

/// The fields of a repeated length-delimited field.
pub open spec fn repeated(number: u32, values: Seq<Seq<u8>>) -> Seq<(u32, WireValue)> {
    Seq::new(values.len(), |i: int| (number, WireValue::Bytes(values[i])))
}

/// What stands in a repeated field.
pub proof fn lemma_repeated_field(number: u32, values: Seq<Seq<u8>>)
    ensures
        forall|n: u32| #[trigger]
            varints_of(repeated(number, values), n) == Seq::<u64>::empty(),
        forall|n: u32| #[trigger]
            bytes_of(repeated(number, values), n) == (if n == number {
                values
            } else {
                Seq::empty()
            }),
    decreases values.len(),
{
    if values.len() > 0 {
        let front = values.drop_last();
        lemma_repeated_field(number, front);
        assert(repeated(number, values).drop_last() =~= repeated(number, front));
        assert forall|n: u32| #[trigger]
            varints_of(repeated(number, values), n) == Seq::<u64>::empty() by {
            assert(varints_of(repeated(number, front), n) == Seq::<u64>::empty());
        }
        assert forall|n: u32| #[trigger]
            bytes_of(repeated(number, values), n) == (if n == number {
                values
            } else {
                Seq::empty()
            }) by {
            assert(bytes_of(repeated(number, front), n) == (if n == number {
                front
            } else {
                Seq::<Seq<u8>>::empty()
            }));
            assert(front.push(values.last()) =~= values);
        }
    } else {
        assert forall|n: u32| #[trigger]
            bytes_of(repeated(number, values), n) == (if n == number {
                values
            } else {
                Seq::empty()
            }) by {
            assert(values =~= Seq::<Seq<u8>>::empty());
        }
    }
}

/// Appends a repeated length-delimited field.
pub(crate) fn put_repeated(out: &mut Vec<u8>, number: u32, values: &Vec<Vec<u8>>)
    requires
        1 <= number <= MAX_FIELD_NUMBER,
    ensures
        final(out)@ == old(out)@ + encode_fields(repeated(number, byte_strings(values@))),
{
    let ghost start = out@;
    let ghost all = byte_strings(values@);
    let mut i: usize = 0;
    assert(repeated(number, all.take(0)) =~= Seq::<(u32, WireValue)>::empty());
    assert(start =~= start + Seq::<u8>::empty());
    while i < values.len()
        invariant
            1 <= number <= MAX_FIELD_NUMBER,
            i <= values@.len(),
            all == byte_strings(values@),
            out@ == start + encode_fields(repeated(number, all.take(i as int))),
        decreases values@.len() - i,
    {
        put_bytes(out, number, &values[i]);
        proof {
            let before = repeated(number, all.take(i as int));
            let after = repeated(number, all.take(i + 1));
            assert(after.drop_last() =~= before);
            assert(out@ =~= start + encode_fields(after));
        }
        i += 1;
    }
    assert(all.take(all.len() as int) =~= all);
}

/// Appends a `uint64` field: `protobuf::CodedOutputStream::write_uint64` on a stream over a
/// vector, on which writing cannot fail.
///
/// Trusted: the bytes that it appends.
#[verifier::external_body]
pub(crate) fn put_uint64(out: &mut Vec<u8>, number: u32, value: u64)
    requires
        1 <= number <= MAX_FIELD_NUMBER,
    ensures
        final(out)@ == old(out)@ + encode_field(number, WireValue::Varint(value)),
{
    let mut stream = CodedOutputStream::vec(out);
    stream.write_uint64(number, value).expect("a vector takes every write");
    stream.flush().expect("a vector takes every write");
}

/// Appends a `bytes`, `string` or message field: `protobuf::CodedOutputStream::write_bytes` on a
/// stream over a vector, on which writing cannot fail.
///
/// Trusted: the bytes that it appends.
#[verifier::external_body]
pub(crate) fn put_bytes(out: &mut Vec<u8>, number: u32, value: &[u8])
    requires
        1 <= number <= MAX_FIELD_NUMBER,
    ensures
        final(out)@ == old(out)@ + encode_field(number, WireValue::Bytes(value@)),
{
    let mut stream = CodedOutputStream::vec(out);
    stream.write_bytes(number, value).expect("a vector takes every write");
    stream.flush().expect("a vector takes every write");
}

} // verus!
