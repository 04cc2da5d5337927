//! Little-endian integers and length-prefixed records.
//!
//! Every persistent format of the service is built from two pieces: unsigned
//! integers stored least significant byte first, and records that carry a
//! four-byte length in front of their content.

use crate::errors::Error;
use byteorder::{ByteOrder, LittleEndian};
use vstd::prelude::*;

verus! {

/// Width in bytes of the length prefix of a record.
pub const LENGTH_SIZE: usize = 4;

/// The number that `bytes` spell, least significant byte first.
pub open spec fn le_value(bytes: Seq<u8>) -> nat
    decreases bytes.len(),
{
    if bytes.len() == 0 {
        0
    } else {
        bytes[0] as nat + 256 * le_value(bytes.skip(1))
    }
}

/// The `width` low-order bytes of `value`, least significant byte first.
pub open spec fn le_bytes(value: nat, width: nat) -> Seq<u8>
    decreases width,
{
    if width == 0 {
        Seq::empty()
    } else {
        seq![(value % 256) as u8] + le_bytes(value / 256, (width - 1) as nat)
    }
}

/// `256` to the power `width`.
pub open spec fn le_limit(width: nat) -> nat
    decreases width,
{
    if width == 0 {
        1
    } else {
        256 * le_limit((width - 1) as nat)
    }
}

/// A number written in `width` bytes takes `width` bytes.
pub proof fn lemma_le_bytes_len(value: nat, width: nat)
    ensures
        le_bytes(value, width).len() == width,
    decreases width,
{
    if width > 0 {
        lemma_le_bytes_len(value / 256, (width - 1) as nat);
    }
}

/// Reading back what was written gives the number that was written.
pub proof fn lemma_le_value_of_bytes(value: nat, width: nat)
    requires
        value < le_limit(width),
    ensures
        le_value(le_bytes(value, width)) == value,
    decreases width,
{
    if width > 0 {
        let rest = le_bytes(value / 256, (width - 1) as nat);
        let all = le_bytes(value, width);
        lemma_le_bytes_len(value / 256, (width - 1) as nat);
        assert(all.skip(1) =~= rest);
        lemma_le_value_of_bytes(value / 256, (width - 1) as nat);
    }
}

/// Writing what was read gives the bytes that were read.
pub proof fn lemma_le_bytes_of_value(bytes: Seq<u8>)
    ensures
        le_bytes(le_value(bytes), bytes.len()) == bytes,
        le_value(bytes) < le_limit(bytes.len()),
    decreases bytes.len(),
{
    if bytes.len() > 0 {
        let tail = bytes.skip(1);
        lemma_le_bytes_of_value(tail);
        let v = le_value(bytes);
        assert(v % 256 == bytes[0] as nat);
        assert(v / 256 == le_value(tail));
        assert(le_bytes(v, bytes.len()) =~= bytes);
    } else {
        assert(le_bytes(0, 0) =~= bytes);
    }
}

/// Four bytes hold every number below `2^32` and eight bytes every number
/// below `2^64`.
pub proof fn lemma_le_limits()
    ensures
        le_limit(4) == 0x1_0000_0000,
        le_limit(8) == 0x1_0000_0000_0000_0000,
{
    reveal_with_fuel(le_limit, 9);
}

/// `byteorder::LittleEndian::read_u32`: the number spelled by the first four
/// bytes of `buf`, least significant byte first.
#[verifier::external_body]
pub(crate) fn read_u32_le(buf: &[u8]) -> (value: u32)
    requires
        buf@.len() >= 4,
    ensures
        value as nat == le_value(buf@.subrange(0, 4)),
{
    LittleEndian::read_u32(buf)
}

/// `byteorder::LittleEndian::read_u64`: the number spelled by the first eight
/// bytes of `buf`, least significant byte first.
#[verifier::external_body]
pub(crate) fn read_u64_le(buf: &[u8]) -> (value: u64)
    requires
        buf@.len() >= 8,
    ensures
        value as nat == le_value(buf@.subrange(0, 8)),
{
    LittleEndian::read_u64(buf)
}

/// `byteorder::LittleEndian::write_u32` into a fresh four-byte buffer: the
/// bytes of `value`, least significant first.
#[verifier::external_body]
pub(crate) fn u32_le(value: u32) -> (bytes: Vec<u8>)
    ensures
        bytes@ == le_bytes(value as nat, 4),
{
    let mut bytes = vec![0u8; 4];
    LittleEndian::write_u32(&mut bytes, value);
    bytes
}

/// `byteorder::LittleEndian::write_u64` into a fresh eight-byte buffer: the
/// bytes of `value`, least significant first.
#[verifier::external_body]
pub(crate) fn u64_le(value: u64) -> (bytes: Vec<u8>)
    ensures
        bytes@ == le_bytes(value as nat, 8),
{
    let mut bytes = vec![0u8; 8];
    LittleEndian::write_u64(&mut bytes, value);
    bytes
}

/// Appends `bytes` to `buf`.
pub fn append_bytes(buf: &mut Vec<u8>, bytes: &[u8])
    ensures
        final(buf)@ == old(buf)@ + bytes@,
{
    let mut i: usize = 0;
    while i < bytes.len()
        invariant
            i <= bytes@.len(),
            buf@ == old(buf)@ + bytes@.subrange(0, i as int),
        decreases bytes@.len() - i,
    {
        buf.push(bytes[i]);
        i += 1;
        assert(buf@ =~= old(buf)@ + bytes@.subrange(0, i as int));
    }
    assert(bytes@.subrange(0, i as int) =~= bytes@);
}

/// A copy of the bytes of `data` from position `from` up to `to`.
pub fn copy_range(data: &[u8], from: usize, to: usize) -> (bytes: Vec<u8>)
    requires
        from <= to <= data@.len(),
    ensures
        bytes@ == data@.subrange(from as int, to as int),
{
    let mut bytes: Vec<u8> = Vec::new();
    let mut i: usize = from;
    while i < to
        invariant
            from <= i <= to <= data@.len(),
            bytes@ == data@.subrange(from as int, i as int),
        decreases to - i,
    {
        bytes.push(data[i]);
        i += 1;
        assert(bytes@ =~= data@.subrange(from as int, i as int));
    }
    bytes
}

/// A record: the length of `content` in four bytes, followed by `content`.
pub open spec fn frame(content: Seq<u8>) -> Seq<u8> {
    le_bytes(content.len(), 4) + content
}

/// The records of `contents`, one after the other.
pub open spec fn frames(contents: Seq<Seq<u8>>) -> Seq<u8>
    decreases contents.len(),
{
    if contents.len() == 0 {
        Seq::empty()
    } else {
        frames(contents.drop_last()) + frame(contents.last())
    }
}

/// What stands at the front of a stream of records.
pub enum Head {
    /// The stream is empty.
    End,
    /// The stream stops inside a length prefix or inside a record.
    Truncated,
    /// A complete record with this content, taking up `size` bytes.
    Record { content: Seq<u8>, size: nat },
}

/// Classifies the front of `data`.
pub open spec fn head(data: Seq<u8>) -> Head {
    if data.len() == 0 {
        Head::End
    } else if data.len() < 4 {
        Head::Truncated
    } else {
        let len = le_value(data.subrange(0, 4));
        if data.len() - 4 < len {
            Head::Truncated
        } else {
            Head::Record { content: data.subrange(4, 4 + len as int), size: 4 + len }
        }
    }
}

/// The contents of the complete records at the front of `data`, up to its
/// end or to the first record that is cut short.
pub open spec fn records(data: Seq<u8>) -> Seq<Seq<u8>>
    decreases data.len(),
{
    match head(data) {
        Head::Record { content, size } => seq![content] + records(data.skip(size as int)),
        _ => Seq::empty(),
    }
}

/// Whether `data` stops in the middle of a record.
pub open spec fn truncated(data: Seq<u8>) -> bool
    decreases data.len(),
{
    match head(data) {
        Head::End => false,
        Head::Truncated => true,
        Head::Record { content, size } => truncated(data.skip(size as int)),
    }
}

/// A record in front of a stream reads back as that record, followed by the
/// stream.
pub proof fn lemma_head_of_frame(content: Seq<u8>, rest: Seq<u8>)
    requires
        content.len() < 0x1_0000_0000,
    ensures
        head(frame(content) + rest) == (Head::Record {
            content,
            size: 4 + content.len(),
        }),
        (frame(content) + rest).skip(4 + content.len() as int) == rest,
{
    let data = frame(content) + rest;
    let prefix = le_bytes(content.len(), 4);
    lemma_le_bytes_len(content.len(), 4);
    lemma_le_limits();
    lemma_le_value_of_bytes(content.len(), 4);
    assert(data.subrange(0, 4) =~= prefix);
    assert(data.subrange(4, 4 + content.len() as int) =~= content);
    assert(data.skip(4 + content.len() as int) =~= rest);
}

/// A record written behind others follows them in the stream.
pub proof fn lemma_frames_push(contents: Seq<Seq<u8>>, content: Seq<u8>)
    ensures
        frames(contents.push(content)) == frames(contents) + frame(content),
{
    assert(contents.push(content).drop_last() =~= contents);
}

/// A stream of records is its first record followed by the stream of the
/// others.
pub proof fn lemma_frames_front(content: Seq<u8>, rest: Seq<Seq<u8>>)
    ensures
        frames(seq![content] + rest) == frame(content) + frames(rest),
    decreases rest.len(),
{
    let all = seq![content] + rest;
    if rest.len() == 0 {
        assert(all.drop_last().len() == 0);
        assert(all.last() == content);
        assert(frames(all.drop_last()) =~= Seq::<u8>::empty());
        assert(frames(rest) =~= Seq::<u8>::empty());
        assert(frames(all) =~= frame(content) + frames(rest));
    } else {
        assert(all.drop_last() =~= seq![content] + rest.drop_last());
        assert(all.last() == rest.last());
        lemma_frames_front(content, rest.drop_last());
        assert(frames(all) =~= frame(content) + frames(rest));
    }
}

/// Records that were written whole read back as they were written, and the
/// stream they make is not cut short.
pub proof fn lemma_records_of_frames(contents: Seq<Seq<u8>>)
    requires
        forall|i: int| 0 <= i < contents.len() ==> (#[trigger] contents[i]).len() < 0x1_0000_0000,
    ensures
        records(frames(contents)) == contents,
        !truncated(frames(contents)),
    decreases contents.len(),
{
    if contents.len() == 0 {
        assert(records(frames(contents)) =~= contents);
    } else {
        let first = contents[0];
        let rest = contents.skip(1);
        assert(contents =~= seq![first] + rest);
        lemma_frames_front(first, rest);
        lemma_head_of_frame(first, frames(rest));
        assert forall|i: int| 0 <= i < rest.len() implies (#[trigger] rest[i]).len()
            < 0x1_0000_0000 by {
            assert(rest[i] == contents[i + 1]);
        }
        lemma_records_of_frames(rest);
        assert(records(frames(contents)) =~= contents);
    }
}

/// Reading a stream of records to its clean end and writing the records out
/// again gives the stream back.
pub proof fn lemma_frames_of_records(data: Seq<u8>)
    requires
        !truncated(data),
    ensures
        frames(records(data)) == data,
    decreases data.len(),
{
    match head(data) {
        Head::Record { content, size } => {
            let rest = data.skip(size as int);
            lemma_frames_of_records(rest);
            lemma_frames_front(content, records(rest));
            lemma_le_bytes_of_value(data.subrange(0, 4));
            assert(frame(content) + rest =~= data);
        },
        _ => {
            assert(frames(records(data)) =~= data);
        },
    }
}

/// Reads the record that starts at position `pos` of `data`.
///
/// Gives `None` at the end of the data, the content of the record together
/// with the position right after it where a whole record stands, and
/// `UnexpectedEof` where the data stops inside the length or the content.
pub fn read_record(data: &[u8], pos: usize) -> (result: Result<Option<(Vec<u8>, usize)>, Error>)
    requires
        pos <= data@.len(),
    ensures
        match head(data@.skip(pos as int)) {
            Head::End => result == Ok::<Option<(Vec<u8>, usize)>, Error>(None),
            Head::Truncated => result == Err::<Option<(Vec<u8>, usize)>, Error>(
                Error::UnexpectedEof,
            ),
            Head::Record { content, size } => match result {
                Ok(Some((blob, next))) => blob@ == content && next == pos + size,
                _ => false,
            },
        },
{
    let ghost rest = data@.skip(pos as int);
    let left: usize = data.len() - pos;
    if left == 0 {
        return Ok(None);
    }
    if left < LENGTH_SIZE {
        return Err(Error::UnexpectedEof);
    }
    let prefix = vstd::slice::slice_subrange(data, pos, pos + LENGTH_SIZE);
    let len: u32 = read_u32_le(prefix);
    proof {
        assert(prefix@.subrange(0, 4) =~= rest.subrange(0, 4));
    }
    if left - LENGTH_SIZE < len as usize {
        return Err(Error::UnexpectedEof);
    }
    let start: usize = pos + LENGTH_SIZE;
    let end: usize = start + len as usize;
    let blob = copy_range(data, start, end);
    proof {
        assert(blob@ =~= rest.subrange(4, 4 + len as int));
    }
    Ok(Some((blob, end)))
}

/// Appends the record of `content` to `buf`.
pub fn append_record(buf: &mut Vec<u8>, content: &[u8])
    requires
        content@.len() < 0x1_0000_0000,
    ensures
        final(buf)@ == old(buf)@ + frame(content@),
{
    let prefix = u32_le(content.len() as u32);
    append_bytes(buf, prefix.as_slice());
    append_bytes(buf, content);
    assert(buf@ =~= old(buf)@ + frame(content@));
}

} // verus!
