//! The wire format of the messages of an index: fields, each a key and a
//! value, one after the other.
//!
//! A key is a variable-length number that holds the number of the field and
//! the kind of its value. A value is a variable-length number, a run of bytes
//! with its length in front, or four or eight bytes. Groups are not part of
//! the format of an index: a message that holds one is refused.

use vstd::prelude::*;
use vstd::slice::slice_subrange;
use crate::bytes::append_bytes;

verus! {

/// The bytes of `value` as a variable-length number: seven bits a byte, the
/// least significant first, and the top bit set in every byte but the last.
pub open spec fn varint(value: int) -> Seq<u8>
    decreases value,
{
    if value < 0x80 {
        seq![value as u8]
    } else {
        seq![(value % 0x80 + 0x80) as u8] + varint(value / 0x80)
    }
}

/// The variable-length number at the start of `bytes`, and how many bytes it
/// takes, where `place` bytes of the number came before. A number takes ten
/// bytes at most, and the tenth holds one bit.
pub open spec fn varint_prefix(bytes: Seq<u8>, place: int) -> Option<(int, int)>
    decreases bytes.len(),
{
    if bytes.len() == 0 || place < 0 || place >= 10 {
        None
    } else if bytes[0] < 0x80 {
        if place == 9 && bytes[0] >= 2 {
            None
        } else {
            Some((bytes[0] as int, 1))
        }
    } else {
        match varint_prefix(bytes.skip(1), place + 1) {
            Some((value, count)) => Some((bytes[0] - 0x80 + 0x80 * value, count + 1)),
            None => None,
        }
    }
}

/// One more than the largest number whose bytes may begin at byte `place` of
/// a variable-length number.
pub open spec fn varint_limit(place: int) -> int
    decreases 9 - place,
{
    if place >= 9 {
        2
    } else {
        0x80 * varint_limit(place + 1)
    }
}

/// A number of 64 bits may begin a variable-length number.
pub proof fn lemma_varint_limit()
    ensures
        varint_limit(0) == 0x1_0000_0000_0000_0000,
{
    reveal_with_fuel(varint_limit, 11);
}

/// A variable-length number is at least one byte long.
pub proof fn lemma_varint_length(value: int)
    requires
        0 <= value,
    ensures
        varint(value).len() >= 1,
    decreases value,
{
    if value >= 0x80 {
        lemma_varint_length(value / 0x80);
    }
}

/// A variable-length number that is read where it was written is the number
/// that was written, whatever follows it.
pub proof fn lemma_varint_round_trip(value: int, rest: Seq<u8>, place: int)
    requires
        0 <= place <= 9,
        0 <= value < varint_limit(place),
    ensures
        varint_prefix(varint(value) + rest, place) == Some((value, varint(value).len() as int)),
    decreases value,
{
    let bytes = varint(value) + rest;
    if value < 0x80 {
        assert(bytes[0] == value);
    } else {
        assert(bytes[0] == value % 0x80 + 0x80);
        assert(place < 9);
        assert(varint_limit(place) == 0x80 * varint_limit(place + 1));
        assert(bytes.skip(1) == varint(value / 0x80) + rest);
        lemma_varint_round_trip(value / 0x80, rest, place + 1);
    }
}

/// What a variable-length number that can be read says: it is not negative,
/// it is below the limit of its place, and it takes between one byte and all
/// the bytes that are there.
pub proof fn lemma_varint_prefix_bounds(bytes: Seq<u8>, place: int)
    requires
        0 <= place,
        varint_prefix(bytes, place) is Some,
    ensures
        0 <= varint_prefix(bytes, place).unwrap().0 < varint_limit(place),
        1 <= varint_prefix(bytes, place).unwrap().1 <= bytes.len(),
    decreases bytes.len(),
{
    if bytes[0] >= 0x80 {
        lemma_varint_prefix_bounds(bytes.skip(1), place + 1);
        assert(varint_limit(place) == 0x80 * varint_limit(place + 1));
    } else {
        lemma_varint_limit_grows(place);
    }
}

/// The limit of every place of a variable-length number is at least 2, and
/// that of every place but the last at least 128.
proof fn lemma_varint_limit_grows(place: int)
    requires
        0 <= place,
    ensures
        varint_limit(place) >= 2,
        place < 9 ==> varint_limit(place) >= 0x80,
    decreases 9 - place,
{
    if place < 9 {
        lemma_varint_limit_grows(place + 1);
    }
}

/// Puts the bytes of `value` as a variable-length number at the end of
/// `bytes`.
pub fn encode_varint(value: u64, bytes: &mut Vec<u8>)
    ensures
        final(bytes)@ == old(bytes)@ + varint(value as int),
{
    let mut left: u64 = value;
    while left >= 0x80
        invariant
            bytes@ + varint(left as int) == old(bytes)@ + varint(value as int),
        decreases left,
    {
        let ghost before = bytes@;
        let low: u64 = left % 0x80 + 0x80;
        bytes.push(low as u8);
        proof {
            assert(bytes@ + varint(left as int / 0x80) == before + varint(left as int));
        }
        left = left / 0x80;
    }
    let ghost before = bytes@;
    bytes.push(left as u8);
    proof {
        assert(bytes@ == before + varint(left as int));
    }
}

/// What is read of a variable-length number whose first `place` bytes hold
/// `value`, where `rest` reads what is behind them.
pub open spec fn varint_after(value: int, place: int, scale: int, rest: Option<(int, int)>) -> Option<
    (int, int),
> {
    match rest {
        Some((more, count)) => Some((value + scale * more, place + count)),
        None => None,
    }
}

/// Reading a variable-length number byte by byte: a byte with its top bit set
/// adds its seven bits at its place, and the number goes on behind it.
proof fn lemma_varint_next(bytes: Seq<u8>, value: int, place: int, scale: int)
    requires
        0 <= place < 10,
        place < bytes.len(),
        bytes[place] >= 0x80,
    ensures
        varint_after(value, place, scale, varint_prefix(bytes.skip(place), place)) == varint_after(
            value + scale * (bytes[place] - 0x80),
            place + 1,
            scale * 0x80,
            varint_prefix(bytes.skip(place + 1), place + 1),
        ),
{
    let here = bytes.skip(place);
    assert(here[0] == bytes[place]);
    assert(here.skip(1) == bytes.skip(place + 1));
    match varint_prefix(bytes.skip(place + 1), place + 1) {
        Some((more, count)) => {
            let low = bytes[place] - 0x80;
            assert(value + scale * (low + 0x80 * more) == value + scale * low + scale * 0x80 * more)
                by (nonlinear_arith);
        },
        None => {},
    }
}

/// The variable-length number at the start of `bytes`, and what is behind it.
/// There is none where the bytes end before the number does, or the number
/// takes more than ten bytes or more than 64 bits.
pub fn decode_varint(bytes: &[u8]) -> (r: Option<(u64, &[u8])>)
    ensures
        match r {
            Some((value, rest)) => varint_prefix(bytes@, 0) == Some(
                (value as int, bytes@.len() - rest@.len()),
            ) && rest@ == bytes@.skip(bytes@.len() - rest@.len()),
            None => varint_prefix(bytes@, 0) is None,
        },
{
    let mut value: u64 = 0;
    let mut scale: u64 = 1;
    let mut place: usize = 0;
    proof {
        lemma_varint_limit();
        assert(bytes@.skip(0) == bytes@);
    }
    while place < bytes.len() && place < 10
        invariant
            place <= bytes@.len(),
            place <= 10,
            value < scale,
            place < 10 ==> scale * varint_limit(place as int) == 0x1_0000_0000_0000_0000,
            varint_prefix(bytes@, 0) == varint_after(
                value as int,
                place as int,
                scale as int,
                varint_prefix(bytes@.skip(place as int), place as int),
            ),
        decreases bytes.len() - place,
    {
        let byte: u8 = bytes[place];
        let ghost here = bytes@.skip(place as int);
        proof {
            assert(here[0] == byte);
            lemma_varint_limit_grows(place as int);
            lemma_varint_limit_grows(place + 1);
            if place < 9 {
                assert(varint_limit(place as int) == 0x80 * varint_limit(place + 1));
                assert(scale * 0x80 * varint_limit(place + 1) == scale * (0x80 * varint_limit(
                    place + 1,
                ))) by (nonlinear_arith);
                assert(scale * 0x80 <= 0x8000_0000_0000_0000) by (nonlinear_arith)
                    requires
                        scale * 0x80 * varint_limit(place + 1) == 0x1_0000_0000_0000_0000,
                        varint_limit(place + 1) >= 2,
                        scale >= 0,
                ;
            } else {
                assert(scale * 2 == 0x1_0000_0000_0000_0000);
            }
        }
        if byte < 0x80 {
            if place == 9 && byte >= 2 {
                return None;
            }
            proof {
                assert(scale * byte <= scale * 0x7f) by (nonlinear_arith)
                    requires
                        byte <= 0x7f,
                        scale >= 0,
                ;
                if place == 9 {
                    assert(scale * byte <= scale * 1) by (nonlinear_arith)
                        requires
                            byte <= 1,
                            scale >= 0,
                    ;
                }
            }
            let found: u64 = value + scale * (byte as u64);
            let rest = slice_subrange(bytes, place + 1, bytes.len());
            return Some((found, rest));
        }
        if place == 9 {
            proof {
                assert(varint_prefix(here.skip(1), 10) is None);
            }
            return None;
        }
        proof {
            lemma_varint_next(bytes@, value as int, place as int, scale as int);
            assert(scale * (byte - 0x80) <= scale * 0x7f) by (nonlinear_arith)
                requires
                    byte - 0x80 <= 0x7f,
                    scale >= 0,
            ;
        }
        value = value + scale * ((byte - 0x80) as u64);
        scale = scale * 0x80;
        place = place + 1;
    }
    None
}

/// The value of one field.
pub enum WireValue {
    /// A variable-length number.
    Varint(int),
    /// Eight bytes.
    Fixed64(Seq<u8>),
    /// A run of bytes with its length in front.
    Bytes(Seq<u8>),
    /// Four bytes.
    Fixed32(Seq<u8>),
}

impl WireValue {
    /// The number that stands for the kind of the value in a key.
    pub open spec fn kind(self) -> int {
        match self {
            WireValue::Varint(_) => 0,
            WireValue::Fixed64(_) => 1,
            WireValue::Bytes(_) => 2,
            WireValue::Fixed32(_) => 5,
        }
    }

    /// The bytes of the value.
    pub open spec fn bytes(self) -> Seq<u8> {
        match self {
            WireValue::Varint(value) => varint(value),
            WireValue::Fixed64(bytes) => bytes,
            WireValue::Bytes(bytes) => varint(bytes.len() as int) + bytes,
            WireValue::Fixed32(bytes) => bytes,
        }
    }
}

/// One field: its number and its value.
pub struct WireField {
    pub tag: int,
    pub value: WireValue,
}

impl WireField {
    /// The field can be written: its number is one that a key can hold, a
    /// variable-length number has 64 bits at most, the length of a run of
    /// bytes too, and four and eight bytes are four and eight bytes.
    pub open spec fn wf(self) -> bool {
        &&& 1 <= self.tag < 0x2000_0000
        &&& match self.value {
            WireValue::Varint(value) => 0 <= value <= u64::MAX,
            WireValue::Fixed64(bytes) => bytes.len() == 8,
            WireValue::Bytes(bytes) => bytes.len() <= u64::MAX,
            WireValue::Fixed32(bytes) => bytes.len() == 4,
        }
    }

    /// The bytes of the field: its key and its value.
    pub open spec fn bytes(self) -> Seq<u8> {
        match self.value {
            WireValue::Varint(value) => varint(self.tag * 8) + varint(value),
            WireValue::Fixed64(bytes) => varint(self.tag * 8 + 1) + bytes,
            WireValue::Bytes(bytes) => varint(self.tag * 8 + 2) + varint(bytes.len() as int)
                + bytes,
            WireValue::Fixed32(bytes) => varint(self.tag * 8 + 5) + bytes,
        }
    }
}

/// The value of the kind `kind` at the start of `bytes`, and how many bytes
/// it takes.
pub open spec fn value_prefix(kind: int, bytes: Seq<u8>) -> Option<(WireValue, int)> {
    if kind == 0 {
        match varint_prefix(bytes, 0) {
            Some((value, count)) => Some((WireValue::Varint(value), count)),
            None => None,
        }
    } else if kind == 1 {
        if bytes.len() < 8 {
            None
        } else {
            Some((WireValue::Fixed64(bytes.take(8)), 8))
        }
    } else if kind == 2 {
        match varint_prefix(bytes, 0) {
            Some((length, count)) => if length > bytes.len() - count {
                None
            } else {
                Some((WireValue::Bytes(bytes.subrange(count, count + length)), count + length))
            },
            None => None,
        }
    } else if kind == 5 {
        if bytes.len() < 4 {
            None
        } else {
            Some((WireValue::Fixed32(bytes.take(4)), 4))
        }
    } else {
        None
    }
}

/// The field at the start of `bytes`, and how many bytes it takes. There is
/// none where the key is no variable-length number of 32 bits, names the
/// field 0 or a kind of value that is not one of the four, or the value is
/// not all there.
pub open spec fn field_prefix(bytes: Seq<u8>) -> Option<(WireField, int)> {
    match varint_prefix(bytes, 0) {
        None => None,
        Some((key, used)) => if key > u32::MAX || key / 8 < 1 {
            None
        } else {
            match value_prefix(key % 8, bytes.skip(used)) {
                Some((value, count)) => Some((WireField { tag: key / 8, value }, used + count)),
                None => None,
            }
        },
    }
}

/// The fields that `bytes` are made of, where they are made of fields.
pub open spec fn fields_of(bytes: Seq<u8>) -> Option<Seq<WireField>>
    decreases bytes.len(),
{
    if bytes.len() == 0 {
        Some(Seq::empty())
    } else {
        match field_prefix(bytes) {
            None => None,
            Some((field, used)) => if used <= 0 || used > bytes.len() {
                None
            } else {
                match fields_of(bytes.skip(used)) {
                    Some(rest) => Some(seq![field] + rest),
                    None => None,
                }
            },
        }
    }
}

/// The bytes of `fields`, one field after the other.
pub open spec fn fields_bytes(fields: Seq<WireField>) -> Seq<u8>
    decreases fields.len(),
{
    if fields.len() == 0 {
        Seq::empty()
    } else {
        fields_bytes(fields.drop_last()) + fields.last().bytes()
    }
}

/// Every field of `fields` can be written.
pub open spec fn fields_wf(fields: Seq<WireField>) -> bool {
    forall|i: int| 0 <= i < fields.len() ==> (#[trigger] fields[i]).wf()
}

/// The bytes of two runs of fields, one after the other, are the bytes of
/// all the fields.
pub proof fn lemma_fields_bytes_concat(a: Seq<WireField>, b: Seq<WireField>)
    ensures
        fields_bytes(a + b) == fields_bytes(a) + fields_bytes(b),
    decreases b.len(),
{
    if b.len() == 0 {
        assert(a + b == a);
    } else {
        assert((a + b).drop_last() == a + b.drop_last());
        lemma_fields_bytes_concat(a, b.drop_last());
    }
}

/// A key that is read where it was written is the key that was written, and
/// behind it stands what was written behind it.
proof fn lemma_key_round_trip(key: int, behind: Seq<u8>)
    requires
        0 <= key <= u64::MAX,
    ensures
        varint(key).len() >= 1,
        varint_prefix(varint(key) + behind, 0) == Some((key, varint(key).len() as int)),
        (varint(key) + behind).skip(varint(key).len() as int) == behind,
{
    lemma_varint_limit();
    lemma_varint_length(key);
    lemma_varint_round_trip(key, behind, 0);
    assert((varint(key) + behind).skip(varint(key).len() as int) == behind);
}

/// A value that is read where it was written is the value that was written,
/// whatever follows it.
proof fn lemma_value_round_trip(field: WireField, rest: Seq<u8>)
    requires
        field.wf(),
    ensures
        (field.value.bytes() + rest).len() >= field.value.bytes().len(),
        value_prefix(field.value.kind(), field.value.bytes() + rest) == Some(
            (field.value, field.value.bytes().len() as int),
        ),
{
    match field.value {
        WireValue::Varint(value) => {
            lemma_key_round_trip(value, rest);
        },
        WireValue::Fixed64(data) => {
            assert((data + rest).take(8) == data);
        },
        WireValue::Bytes(data) => {
            let length = data.len() as int;
            let behind = varint(length) + data + rest;
            assert(behind == varint(length) + (data + rest));
            lemma_key_round_trip(length, data + rest);
            let count = varint(length).len() as int;
            assert(behind.subrange(count, count + length) == data);
        },
        WireValue::Fixed32(data) => {
            assert((data + rest).take(4) == data);
        },
    }
}

/// A field that is read where it was written is the field that was written,
/// whatever follows it.
pub proof fn lemma_field_round_trip(field: WireField, rest: Seq<u8>)
    requires
        field.wf(),
    ensures
        field_prefix(field.bytes() + rest) == Some((field, field.bytes().len() as int)),
        field.bytes().len() >= 1,
{
    let key = field.tag * 8 + field.value.kind();
    let behind = field.value.bytes() + rest;
    assert(field.bytes() == varint(key) + field.value.bytes());
    assert(field.bytes() + rest == varint(key) + behind);
    lemma_key_round_trip(key, behind);
    lemma_value_round_trip(field, rest);
    assert(key / 8 == field.tag && key % 8 == field.value.kind());
}

/// Fields that are read where they were written are the fields that were
/// written.
pub proof fn lemma_fields_round_trip(fields: Seq<WireField>)
    requires
        fields_wf(fields),
    ensures
        fields_of(fields_bytes(fields)) == Some(fields),
    decreases fields.len(),
{
    if fields.len() > 0 {
        let first = fields[0];
        let rest = fields.skip(1);
        assert(fields == seq![first] + rest);
        lemma_fields_bytes_concat(seq![first], rest);
        assert(seq![first].drop_last() == Seq::<WireField>::empty());
        assert(seq![first].last() == first);
        assert(fields_bytes(Seq::<WireField>::empty()) == Seq::<u8>::empty());
        assert(fields_bytes(seq![first]) == Seq::<u8>::empty() + first.bytes());
        assert(Seq::<u8>::empty() + first.bytes() == first.bytes());
        assert(first.wf());
        lemma_field_round_trip(first, fields_bytes(rest));
        let bytes = fields_bytes(fields);
        assert(bytes == first.bytes() + fields_bytes(rest));
        assert(bytes.skip(first.bytes().len() as int) == fields_bytes(rest));
        assert forall|i: int| 0 <= i < rest.len() implies (#[trigger] rest[i]).wf() by {
            assert(rest[i] == fields[i + 1]);
        }
        lemma_fields_round_trip(rest);
    }
}

/// The value of one field, as it lies in the bytes that were read.
pub enum Wire<'a> {
    /// A variable-length number.
    Varint(u64),
    /// Eight bytes.
    Fixed64(&'a [u8]),
    /// A run of bytes with its length in front.
    Bytes(&'a [u8]),
    /// Four bytes.
    Fixed32(&'a [u8]),
}

impl<'a> View for Wire<'a> {
    type V = WireValue;

    open spec fn view(&self) -> WireValue {
        match self {
            Wire::Varint(value) => WireValue::Varint(*value as int),
            Wire::Fixed64(bytes) => WireValue::Fixed64(bytes@),
            Wire::Bytes(bytes) => WireValue::Bytes(bytes@),
            Wire::Fixed32(bytes) => WireValue::Fixed32(bytes@),
        }
    }
}

/// Reads the field at the start of `bytes`: its number, its value, and the
/// bytes behind it.
pub fn take_field<'a>(bytes: &'a [u8]) -> (r: Option<(u32, Wire<'a>, &'a [u8])>)
    ensures
        match r {
            Some((tag, value, rest)) => {
                &&& field_prefix(bytes@) == Some(
                    (WireField { tag: tag as int, value: value@ }, bytes@.len() - rest@.len()),
                )
                &&& rest@ == bytes@.skip(bytes@.len() - rest@.len())
                &&& rest@.len() < bytes@.len()
            },
            None => field_prefix(bytes@) is None,
        },
{
    let (key, behind) = match decode_varint(bytes) {
        Some(found) => found,
        None => {
            return None;
        },
    };
    proof {
        lemma_varint_prefix_bounds(bytes@, 0);
    }
    if key > u32::MAX as u64 || key / 8 < 1 {
        return None;
    }
    let tag = (key / 8) as u32;
    let kind = key % 8;
    let ghost used = bytes@.len() - behind@.len();
    if kind == 0 {
        match decode_varint(behind) {
            Some((value, rest)) => {
                proof {
                    lemma_varint_prefix_bounds(behind@, 0);
                    let count = behind@.len() - rest@.len();
                    assert(bytes@.skip(used).skip(count) == bytes@.skip(used + count));
                }
                Some((tag, Wire::Varint(value), rest))
            },
            None => None,
        }
    } else if kind == 1 {
        if behind.len() < 8 {
            None
        } else {
            let value = slice_subrange(behind, 0, 8);
            let rest = slice_subrange(behind, 8, behind.len());
            proof {
                assert(value@ == behind@.take(8));
                assert(rest@ == bytes@.skip(used + 8));
            }
            Some((tag, Wire::Fixed64(value), rest))
        }
    } else if kind == 2 {
        match decode_varint(behind) {
            Some((length, data)) => {
                proof {
                    lemma_varint_prefix_bounds(behind@, 0);
                }
                if length > data.len() as u64 {
                    None
                } else {
                    let value = slice_subrange(data, 0, length as usize);
                    let rest = slice_subrange(data, length as usize, data.len());
                    proof {
                        let count = behind@.len() - data@.len();
                        assert(value@ == behind@.subrange(count, count + length));
                        assert(rest@ == bytes@.skip(used + count + length));
                    }
                    Some((tag, Wire::Bytes(value), rest))
                }
            },
            None => None,
        }
    } else if kind == 5 {
        if behind.len() < 4 {
            None
        } else {
            let value = slice_subrange(behind, 0, 4);
            let rest = slice_subrange(behind, 4, behind.len());
            proof {
                assert(value@ == behind@.take(4));
                assert(rest@ == bytes@.skip(used + 4));
            }
            Some((tag, Wire::Fixed32(value), rest))
        }
    } else {
        None
    }
}

/// Puts a field that holds the variable-length number `value` at the end of
/// `out`.
pub fn put_varint_field(out: &mut Vec<u8>, tag: u32, value: u64)
    requires
        1 <= tag < 0x2000_0000,
    ensures
        final(out)@ == old(out)@ + (WireField {
            tag: tag as int,
            value: WireValue::Varint(value as int),
        }).bytes(),
{
    encode_varint(tag as u64 * 8, out);
    encode_varint(value, out);
    assert(out@ =~= old(out)@ + (varint(tag * 8) + varint(value as int)));
}

/// Puts a field that holds the bytes `data` at the end of `out`.
pub fn put_bytes_field(out: &mut Vec<u8>, tag: u32, data: &[u8])
    requires
        1 <= tag < 0x2000_0000,
    ensures
        final(out)@ == old(out)@ + (WireField {
            tag: tag as int,
            value: WireValue::Bytes(data@),
        }).bytes(),
{
    encode_varint(tag as u64 * 8 + 2, out);
    encode_varint(data.len() as u64, out);
    append_bytes(out, data);
    assert(out@ =~= old(out)@ + (varint(tag * 8 + 2) + varint(data@.len() as int) + data@));
}

/// What becomes of `start` when the fields of `fields` are taken in, one
/// after the other, each by `step`; `None` where `step` refuses one.
pub open spec fn fold_fields<A>(
    step: spec_fn(A, WireField) -> Option<A>,
    start: A,
    fields: Seq<WireField>,
) -> Option<A>
    decreases fields.len(),
{
    if fields.len() == 0 {
        Some(start)
    } else {
        match step(start, fields[0]) {
            Some(next) => fold_fields(step, next, fields.skip(1)),
            None => None,
        }
    }
}

/// What becomes of `start` when the fields that `bytes` are made of are
/// taken in; `None` where they are not made of fields, or `step` refuses
/// one.
pub open spec fn merged<A>(
    step: spec_fn(A, WireField) -> Option<A>,
    start: A,
    bytes: Seq<u8>,
) -> Option<A> {
    match fields_of(bytes) {
        Some(fields) => fold_fields(step, start, fields),
        None => None,
    }
}

/// Taking in the fields of `bytes` is taking in the first, and what is behind
/// it after that.
pub proof fn lemma_merged_step<A>(
    step: spec_fn(A, WireField) -> Option<A>,
    start: A,
    bytes: Seq<u8>,
)
    ensures
        merged(step, start, bytes) == if bytes.len() == 0 {
            Some(start)
        } else {
            match field_prefix(bytes) {
                None => None,
                Some((field, used)) => if used <= 0 || used > bytes.len() {
                    None
                } else {
                    match step(start, field) {
                        Some(next) => merged(step, next, bytes.skip(used)),
                        None => None,
                    }
                },
            }
        },
{
    if bytes.len() > 0 {
        match field_prefix(bytes) {
            None => {},
            Some((field, used)) => {
                if 0 < used <= bytes.len() {
                    match fields_of(bytes.skip(used)) {
                        Some(rest) => {
                            let all = seq![field] + rest;
                            assert(all[0] == field);
                            assert(all.skip(1) == rest);
                        },
                        None => {},
                    }
                }
            },
        }
    }
}

/// Taking in two runs of fields, one after the other, is taking in the
/// first and the second after that.
pub proof fn lemma_fold_concat<A>(
    step: spec_fn(A, WireField) -> Option<A>,
    start: A,
    a: Seq<WireField>,
    b: Seq<WireField>,
)
    ensures
        fold_fields(step, start, a + b) == match fold_fields(step, start, a) {
            Some(mid) => fold_fields(step, mid, b),
            None => None,
        },
    decreases a.len(),
{
    if a.len() == 0 {
        assert(a + b == b);
    } else {
        assert((a + b)[0] == a[0]);
        assert((a + b).skip(1) == a.skip(1) + b);
        match step(start, a[0]) {
            Some(next) => {
                lemma_fold_concat(step, next, a.skip(1), b);
            },
            None => {},
        }
    }
}

/// Taking in one more field at the end is taking in the others first.
pub proof fn lemma_fold_push<A>(
    step: spec_fn(A, WireField) -> Option<A>,
    start: A,
    fields: Seq<WireField>,
    field: WireField,
)
    ensures
        fold_fields(step, start, fields.push(field)) == match fold_fields(step, start, fields) {
            Some(mid) => step(mid, field),
            None => None,
        },
{
    assert(fields.push(field) == fields + seq![field]);
    lemma_fold_concat(step, start, fields, seq![field]);
    match fold_fields(step, start, fields) {
        Some(mid) => {
            assert(seq![field].skip(1) == Seq::<WireField>::empty());
            match step(mid, field) {
                Some(next) => {
                    assert(fold_fields(step, next, Seq::<WireField>::empty()) == Some(next));
                },
                None => {},
            }
        },
        None => {},
    }
}

} // verus!
