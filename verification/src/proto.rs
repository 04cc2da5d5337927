//! The messages of the key-value service and their encoding.
//!
//! A `SetRequest` travels as a Protocol Buffers message with two fields of
//! bytes: the key under tag 1 and the value under tag 2. A field that is
//! empty is left out. Fields may come in any order and any number of times,
//! the last one counts, and fields under other tags are skipped.

use prost::encoding::{decode_key, skip_field, DecodeContext, WireType};
use crate::errors::Error;
use prost::DecodeError;
use vstd::prelude::*;

verus! {

/// `prost::DecodeError`, why a message does not decode. It is carried along
/// and never looked into.
#[verifier::external_type_specification]
#[verifier::external_body]
pub struct ExDecodeError(DecodeError);

/// Asks for `value` to be stored under `key`. An empty value is a value
/// like any other.
#[derive(Clone, Debug)]
pub struct SetRequest {
    pub key: Vec<u8>,
    pub value: Vec<u8>,
}

/// What a [`SetRequest`] says, as plain values.
pub struct SetRequestView {
    pub key: Seq<u8>,
    pub value: Seq<u8>,
}

impl View for SetRequest {
    type V = SetRequestView;

    open spec fn view(&self) -> SetRequestView {
        SetRequestView { key: self.key@, value: self.value@ }
    }
}

/// The answer to a [`SetRequest`].
#[derive(Clone, Debug)]
pub struct SetReply {}

/// Asks for the value stored under `key`.
#[derive(Clone, Debug)]
pub struct GetRequest {
    pub key: Vec<u8>,
}

/// The value that was asked for, empty where there is none.
#[derive(Clone, Debug)]
pub struct GetReply {
    pub value: Vec<u8>,
}

/// The tag of the key of a `SetRequest`.
pub const KEY_TAG: u32 = 1;

/// The tag of the value of a `SetRequest`.
pub const VALUE_TAG: u32 = 2;

/// The largest tag a field can have.
pub const MAX_TAG: u32 = 0x1fff_ffff;

/// The wire type of a field that carries its length.
pub const LENGTH_DELIMITED: u8 = 2;

/// The bytes of `value` as a variable-length integer: seven bits a byte,
/// the low ones first, and the top bit set on every byte but the last.
pub open spec fn varint(value: nat) -> Seq<u8>
    decreases value,
{
    if value < 128 {
        seq![value as u8]
    } else {
        seq![(value % 128 + 128) as u8] + varint(value / 128)
    }
}

/// The variable-length integer at the front of `data`, whose first
/// `count` bytes were read already, and the number of bytes it takes from
/// here on. An integer takes at most ten bytes, and the tenth may only
/// carry the one bit that is left of sixty-four.
pub open spec fn varint_at(data: Seq<u8>, count: nat) -> Option<(nat, nat)>
    decreases data.len(),
{
    if data.len() == 0 || count >= 10 {
        None
    } else if data[0] < 128 {
        if count == 9 && data[0] >= 2 {
            None
        } else {
            Some((data[0] as nat, 1))
        }
    } else {
        match varint_at(data.skip(1), count + 1) {
            Some((rest, used)) => Some(((data[0] - 128 + 128 * rest) as nat, used + 1)),
            None => None,
        }
    }
}

/// The variable-length integer at the front of `data` and the number of
/// bytes it takes.
pub open spec fn parse_varint(data: Seq<u8>) -> Option<(nat, nat)> {
    varint_at(data, 0)
}

/// The tag and the wire type of the field at the front of `data`, and the
/// number of bytes that the two take.
pub open spec fn parse_key(data: Seq<u8>) -> Option<(u32, u8, nat)> {
    match parse_varint(data) {
        Some((key, used)) => if key > u32::MAX || key % 8 > 5 || key / 8 < 1 {
            None
        } else {
            Some(((key / 8) as u32, (key % 8) as u8, used))
        },
        None => None,
    }
}

/// The bytes that a field of wire type `wire` carries at the front of
/// `data`, and the number of bytes that the field takes: its length as a
/// variable-length integer and as many bytes.
pub open spec fn parse_bytes(wire: u8, data: Seq<u8>) -> Option<(Seq<u8>, nat)> {
    if wire != LENGTH_DELIMITED {
        None
    } else {
        match parse_varint(data) {
            Some((len, used)) => if len > data.len() - used {
                None
            } else {
                Some((data.subrange(used as int, (used + len) as int), used + len))
            },
            None => None,
        }
    }
}

/// The field of bytes `value` under `tag`: the tag with the wire type, the
/// length, and the bytes.
pub open spec fn bytes_field(tag: u32, value: Seq<u8>) -> Seq<u8> {
    varint((tag * 8 + 2) as nat) + varint(value.len()) + value
}

/// What `prost::encoding::skip_field` makes of a field of wire type `wire`
/// under `tag` whose content starts at the front of `data`: the number of
/// bytes that the field takes there, or nothing where it rejects the
/// field.
pub uninterp spec fn skipped(wire: u8, tag: u32, data: Seq<u8>) -> Option<nat>;

/// `prost::encoding::bytes::encode`: appends to `buf` the field of bytes
/// `value` under `tag`, which has to be a tag that a field can have. What
/// is appended is the tag with the wire type of length-delimited fields,
/// the length of `value` and `value` itself, the two numbers as
/// variable-length integers.
#[verifier::external_body]
fn put_bytes_field(tag: u32, value: &Vec<u8>, buf: &mut Vec<u8>)
    requires
        1 <= tag <= MAX_TAG,
    ensures
        final(buf)@ == old(buf)@ + bytes_field(tag, value@),
{
    prost::encoding::bytes::encode(tag, value, buf);
}

/// `prost::encoding::decode_key`: reads the tag and the wire type at the
/// front of `data` and says how many bytes are left behind them. It reads
/// one variable-length integer and fails where there is none, where the
/// integer does not fit into thirty-two bits, where its low three bits are
/// no wire type, and where the tag is zero.
#[verifier::external_body]
fn take_key(data: &[u8]) -> (result: Result<(u32, u8, usize), DecodeError>)
    ensures
        match result {
            Ok((tag, wire, left)) => {
                &&& parse_key(data@) matches Some((t, w, used))
                &&& t == tag
                &&& w == wire
                &&& used + left == data@.len()
            },
            Err(_) => parse_key(data@) is None,
        },
{
    let mut buf = data;
    match decode_key(&mut buf) {
        Ok((tag, wire_type)) => Ok((tag, wire_type as u8, buf.len())),
        Err(e) => Err(e),
    }
}

/// `prost::encoding::bytes::merge`, on an empty value and with the wire
/// type that `prost::encoding::WireType::try_from` makes of `wire`: reads
/// the bytes that a field of wire type `wire` carries at the front of
/// `data` and says how many bytes are left behind the field. It fails
/// where the wire type is not that of length-delimited fields, where no
/// length can be read, and where fewer bytes follow than the length says.
#[verifier::external_body]
fn take_bytes(wire: u8, data: &[u8]) -> (result: Result<(Vec<u8>, usize), DecodeError>)
    requires
        wire <= 5,
    ensures
        match result {
            Ok((value, left)) => {
                &&& parse_bytes(wire, data@) matches Some((bytes, used))
                &&& bytes == value@
                &&& used + left == data@.len()
            },
            Err(_) => parse_bytes(wire, data@) is None,
        },
{
    let mut buf = data;
    let mut value: Vec<u8> = Vec::new();
    let wire_type = WireType::try_from(u64::from(wire))?;
    match prost::encoding::bytes::merge(wire_type, &mut value, &mut buf, DecodeContext::default()) {
        Ok(()) => Ok((value, buf.len())),
        Err(e) => Err(e),
    }
}

/// `prost::encoding::skip_field`, with the wire type that
/// `prost::encoding::WireType::try_from` makes of `wire` and at the top of
/// the recursion: passes over the field of wire type `wire` under `tag` at
/// the front of `data` and says how many bytes are left behind it. What
/// it passes over depends on the arguments alone and never reaches beyond
/// `data`.
#[verifier::external_body]
fn skip_unknown(wire: u8, tag: u32, data: &[u8]) -> (result: Result<usize, DecodeError>)
    requires
        wire <= 5,
    ensures
        match result {
            Ok(left) => {
                &&& skipped(wire, tag, data@) matches Some(used)
                &&& used + left == data@.len()
            },
            Err(_) => skipped(wire, tag, data@) is None,
        },
{
    let mut buf = data;
    let wire_type = WireType::try_from(u64::from(wire))?;
    match skip_field(wire_type, tag, &mut buf, DecodeContext::default()) {
        Ok(()) => Ok(buf.len()),
        Err(e) => Err(e),
    }
}

/// A variable-length integer takes at least one byte and no more than
/// there are.
pub proof fn lemma_varint_at_used(data: Seq<u8>, count: nat)
    ensures
        varint_at(data, count) matches Some((value, used)) ==> 1 <= used <= data.len(),
    decreases data.len(),
{
    if data.len() > 0 && count < 10 && data[0] >= 128 {
        lemma_varint_at_used(data.skip(1), count + 1);
    }
}

/// The payload of `request`: the key as a field under tag 1, followed by
/// the value as a field under tag 2. A field that holds no bytes is left
/// out.
pub open spec fn set_encoding(request: SetRequestView) -> Seq<u8> {
    (if request.key.len() > 0 {
        bytes_field(KEY_TAG, request.key)
    } else {
        Seq::empty()
    }) + (if request.value.len() > 0 {
        bytes_field(VALUE_TAG, request.value)
    } else {
        Seq::empty()
    })
}

/// The request that the fields of `data` make of `request`: a key or a
/// value replaces the one before, another field changes nothing, and a
/// field that does not parse spoils the whole.
pub open spec fn merge_fields(data: Seq<u8>, request: SetRequestView) -> Option<SetRequestView>
    decreases data.len(),
{
    if data.len() == 0 {
        Some(request)
    } else {
        match parse_key(data) {
            None => None,
            Some((tag, wire, used)) => {
                proof {
                    lemma_varint_at_used(data, 0);
                }
                let rest = data.skip(used as int);
                if tag == KEY_TAG {
                    match parse_bytes(wire, rest) {
                        Some((key, taken)) => merge_fields(
                            rest.skip(taken as int),
                            SetRequestView { key, value: request.value },
                        ),
                        None => None,
                    }
                } else if tag == VALUE_TAG {
                    match parse_bytes(wire, rest) {
                        Some((value, taken)) => merge_fields(
                            rest.skip(taken as int),
                            SetRequestView { key: request.key, value },
                        ),
                        None => None,
                    }
                } else {
                    match skipped(wire, tag, rest) {
                        Some(taken) => if taken <= rest.len() {
                            merge_fields(rest.skip(taken as int), request)
                        } else {
                            None
                        },
                        None => None,
                    }
                }
            },
        }
    }
}

/// The request that `data` stands for, if it stands for one.
pub open spec fn set_decoding(data: Seq<u8>) -> Option<SetRequestView> {
    merge_fields(data, SetRequestView { key: Seq::empty(), value: Seq::empty() })
}

/// The first number that a variable-length integer cannot hold where
/// `count` of its bytes were read already.
pub open spec fn varint_limit(count: nat) -> nat
    decreases 9 - count,
{
    if count >= 9 {
        2
    } else {
        128 * varint_limit(count + 1)
    }
}

/// A variable-length integer holds every number of sixty-four bits.
pub proof fn lemma_varint_limit()
    ensures
        varint_limit(0) == 0x1_0000_0000_0000_0000,
{
    reveal_with_fuel(varint_limit, 11);
}

/// A variable-length integer reads back as the number it was made of,
/// whatever follows it.
pub proof fn lemma_varint_round_trip(value: nat, rest: Seq<u8>, count: nat)
    requires
        count <= 9,
        value < varint_limit(count),
    ensures
        varint_at(varint(value) + rest, count) == Some((value, varint(value).len())),
    decreases value,
{
    let data = varint(value) + rest;
    if value < 128 {
        assert(data[0] == value as u8);
    } else {
        assert(count < 9);
        let tail = varint(value / 128);
        assert(data[0] == (value % 128 + 128) as u8);
        assert(data.skip(1) =~= tail + rest);
        lemma_varint_round_trip(value / 128, rest, count + 1);
    }
}

/// The tag of a field of bytes reads back with the wire type of such
/// fields.
pub proof fn lemma_key_round_trip(tag: u32, rest: Seq<u8>)
    requires
        1 <= tag <= MAX_TAG,
    ensures
        parse_key(varint((tag * 8 + 2) as nat) + rest) == Some(
            (tag, LENGTH_DELIMITED, varint((tag * 8 + 2) as nat).len()),
        ),
{
    lemma_varint_limit();
    lemma_varint_round_trip((tag * 8 + 2) as nat, rest, 0);
}

/// The bytes of a field read back as they were written, whatever follows
/// the field.
pub proof fn lemma_bytes_round_trip(value: Seq<u8>, rest: Seq<u8>)
    requires
        value.len() <= u64::MAX,
    ensures
        parse_bytes(LENGTH_DELIMITED, varint(value.len()) + value + rest) == Some(
            (value, varint(value.len()).len() + value.len()),
        ),
{
    let prefix = varint(value.len());
    let data = prefix + value + rest;
    lemma_varint_limit();
    assert(data =~= prefix + (value + rest));
    lemma_varint_round_trip(value.len(), value + rest, 0);
    assert(data.subrange(prefix.len() as int, (prefix.len() + value.len()) as int) =~= value);
}

/// A key in front of other fields replaces the key that was read before.
pub proof fn lemma_key_field(key: Seq<u8>, rest: Seq<u8>, request: SetRequestView)
    requires
        key.len() <= u64::MAX,
    ensures
        merge_fields(bytes_field(KEY_TAG, key) + rest, request) == merge_fields(
            rest,
            SetRequestView { key, value: request.value },
        ),
{
    let head = varint((KEY_TAG * 8 + 2) as nat);
    let body = varint(key.len()) + key;
    let data = bytes_field(KEY_TAG, key) + rest;
    assert(data =~= head + (body + rest));
    lemma_key_round_trip(KEY_TAG, body + rest);
    assert(data.skip(head.len() as int) =~= body + rest);
    assert(body + rest =~= varint(key.len()) + key + rest);
    lemma_bytes_round_trip(key, rest);
    assert((body + rest).skip(body.len() as int) =~= rest);
}

/// A value in front of other fields replaces the value that was read
/// before.
pub proof fn lemma_value_field(value: Seq<u8>, rest: Seq<u8>, request: SetRequestView)
    requires
        value.len() <= u64::MAX,
    ensures
        merge_fields(bytes_field(VALUE_TAG, value) + rest, request) == merge_fields(
            rest,
            SetRequestView { key: request.key, value },
        ),
{
    let head = varint((VALUE_TAG * 8 + 2) as nat);
    let body = varint(value.len()) + value;
    let data = bytes_field(VALUE_TAG, value) + rest;
    assert(data =~= head + (body + rest));
    lemma_key_round_trip(VALUE_TAG, body + rest);
    assert(data.skip(head.len() as int) =~= body + rest);
    assert(body + rest =~= varint(value.len()) + value + rest);
    lemma_bytes_round_trip(value, rest);
    assert((body + rest).skip(body.len() as int) =~= rest);
}

/// An encoded request decodes as itself.
pub proof fn lemma_set_round_trip(request: SetRequestView)
    requires
        request.key.len() <= u64::MAX,
        request.value.len() <= u64::MAX,
    ensures
        set_decoding(set_encoding(request)) == Some(request),
{
    let empty = SetRequestView { key: Seq::empty(), value: Seq::empty() };
    let nothing = Seq::<u8>::empty();
    let key_part = if request.key.len() > 0 {
        bytes_field(KEY_TAG, request.key)
    } else {
        nothing
    };
    let value_part = if request.value.len() > 0 {
        bytes_field(VALUE_TAG, request.value)
    } else {
        nothing
    };
    let with_key = SetRequestView { key: request.key, value: nothing };
    assert(merge_fields(key_part + value_part, empty) == merge_fields(value_part, with_key)) by {
        if request.key.len() > 0 {
            lemma_key_field(request.key, value_part, empty);
        } else {
            assert(key_part + value_part =~= value_part);
            assert(request.key =~= nothing);
        }
    }
    assert(merge_fields(value_part, with_key) == Some(request)) by {
        if request.value.len() > 0 {
            assert(value_part =~= bytes_field(VALUE_TAG, request.value) + nothing);
            lemma_value_field(request.value, nothing, with_key);
        } else {
            assert(request.value =~= nothing);
        }
    }
}

impl SetRequest {
    /// The payload that stands for the request to store `value` under
    /// `key`.
    pub fn encode_pair(key: &Vec<u8>, value: &Vec<u8>) -> (payload: Vec<u8>)
        ensures
            payload@ == set_encoding(SetRequestView { key: key@, value: value@ }),
    {
        let mut payload: Vec<u8> = Vec::new();
        if key.len() > 0 {
            put_bytes_field(KEY_TAG, key, &mut payload);
        }
        if value.len() > 0 {
            put_bytes_field(VALUE_TAG, value, &mut payload);
        }
        assert(payload@ =~= set_encoding(SetRequestView { key: key@, value: value@ }));
        payload
    }

    /// The payload that stands for this request.
    pub fn encode(&self) -> (payload: Vec<u8>)
        ensures
            payload@ == set_encoding(self@),
    {
        Self::encode_pair(&self.key, &self.value)
    }

    /// The request that `data` stands for, or `MutationDecode` where it
    /// stands for none.
    pub fn decode(data: &[u8]) -> (result: Result<SetRequest, Error>)
        ensures
            match result {
                Ok(request) => set_decoding(data@) == Some(request@),
                Err(e) => e == Error::MutationDecode && set_decoding(data@) is None,
            },
    {
        let mut key: Vec<u8> = Vec::new();
        let mut value: Vec<u8> = Vec::new();
        let mut pos: usize = 0;
        let n: usize = data.len();
        proof {
            assert(data@.skip(0) =~= data@);
        }
        while pos < n
            invariant
                n == data@.len(),
                pos <= n,
                merge_fields(data@.skip(pos as int), SetRequestView { key: key@, value: value@ })
                    == set_decoding(data@),
            decreases n - pos,
        {
            let front = vstd::slice::slice_subrange(data, pos, n);
            proof {
                assert(front@ =~= data@.skip(pos as int));
                lemma_varint_at_used(front@, 0);
            }
            let (tag, wire, left) = match take_key(front) {
                Ok(found) => found,
                Err(_) => {
                    return Err(Error::MutationDecode);
                },
            };
            let at: usize = n - left;
            let rest = vstd::slice::slice_subrange(data, at, n);
            proof {
                assert(rest@ =~= front@.skip(at - pos));
            }
            let behind: usize = if tag == KEY_TAG {
                match take_bytes(wire, rest) {
                    Ok((bytes, behind)) => {
                        key = bytes;
                        behind
                    },
                    Err(_) => {
                        return Err(Error::MutationDecode);
                    },
                }
            } else if tag == VALUE_TAG {
                match take_bytes(wire, rest) {
                    Ok((bytes, behind)) => {
                        value = bytes;
                        behind
                    },
                    Err(_) => {
                        return Err(Error::MutationDecode);
                    },
                }
            } else {
                match skip_unknown(wire, tag, rest) {
                    Ok(behind) => behind,
                    Err(_) => {
                        return Err(Error::MutationDecode);
                    },
                }
            };
            proof {
                assert(rest@.skip(n - behind - at) =~= data@.skip(n - behind));
            }
            pos = n - behind;
        }
        Ok(SetRequest { key, value })
    }
}

} // verus!
