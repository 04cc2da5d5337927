//! Small helpers shared by the services.

use crate::errors::Error;
use crate::wire::{le_value, read_u32_le};
use uuid::Uuid;
use vstd::prelude::*;

verus! {

/// `uuid::Uuid`, an identifier that is carried along and never looked into.
#[verifier::external_type_specification]
#[verifier::external_body]
pub struct ExUuid(Uuid);

/// `<uuid::Uuid as Clone>::clone`: the copy is the identifier itself.
pub assume_specification[ <Uuid as Clone>::clone ](id: &Uuid) -> (copy: Uuid)
    ensures
        copy == *id,
;

/// A payload together with the identifier under which it is traced through
/// the services.
#[derive(Clone, Debug)]
pub struct Traced<T> {
    pub id: Uuid,
    pub payload: T,
}

/// `uuid::Uuid::new_v4`: a random identifier. Nothing is promised of it.
#[verifier::external_body]
fn random_id() -> Uuid {
    Uuid::new_v4()
}

impl<T> Traced<T> {
    /// Wraps `payload` under a fresh random identifier.
    pub fn new(payload: T) -> (traced: Self)
        ensures
            traced.payload == payload,
    {
        let id = random_id();
        Self { id, payload }
    }

    /// Wraps `payload` under the identifier `id`.
    pub fn with_id(id: Uuid, payload: T) -> (traced: Self)
        ensures
            traced.id == id,
            traced.payload == payload,
    {
        Self { id, payload }
    }

    /// Gives up the identifier and hands out the payload.
    pub fn into_payload(self) -> (payload: T)
        ensures
            payload == self.payload,
    {
        self.payload
    }

    /// Replaces the payload by what `func` makes of it and keeps the
    /// identifier.
    pub fn map<U, F: FnOnce(T) -> U>(self, func: F) -> (traced: Traced<U>)
        requires
            func.requires((self.payload,)),
        ensures
            traced.id == self.id,
            func.ensures((self.payload,), traced.payload),
    {
        Traced::<U> { id: self.id, payload: func(self.payload) }
    }
}

/// Reads the four-byte little-endian number at position `pos` of `data`.
///
/// Gives `None` where `pos` is the end of the data, and `UnexpectedEof` where
/// between one and three bytes are left.
pub fn try_read_u32(data: &[u8], pos: usize) -> (result: Result<Option<u32>, Error>)
    requires
        pos <= data@.len(),
    ensures
        data@.len() == pos ==> result == Ok::<Option<u32>, Error>(None),
        0 < data@.len() - pos < 4 ==> result == Err::<Option<u32>, Error>(Error::UnexpectedEof),
        data@.len() - pos >= 4 ==> match result {
            Ok(Some(value)) => value as nat == le_value(data@.subrange(pos as int, pos + 4)),
            _ => false,
        },
{
    let left: usize = data.len() - pos;
    if left == 0 {
        return Ok(None);
    }
    if left < 4 {
        return Err(Error::UnexpectedEof);
    }
    let prefix = vstd::slice::slice_subrange(data, pos, pos + 4);
    let value: u32 = read_u32_le(prefix);
    proof {
        assert(prefix@.subrange(0, 4) =~= data@.subrange(pos as int, pos + 4));
    }
    Ok(Some(value))
}

/// The elements of `items` in the opposite order.
pub fn reversed<T>(items: Vec<T>) -> (turned: Vec<T>)
    ensures
        turned@ == items@.reverse(),
{
    let mut rest = items;
    let mut turned: Vec<T> = Vec::new();
    let ghost n = items@.len() as int;
    while rest.len() > 0
        invariant
            n == items@.len(),
            rest@.len() + turned@.len() == n,
            rest@ == items@.take(rest@.len() as int),
            forall|i: int| 0 <= i < turned@.len() ==> #[trigger] turned@[i] == items@[n - 1 - i],
        decreases rest@.len(),
    {
        let item = rest.pop().unwrap();
        turned.push(item);
        assert(rest@ =~= items@.take(rest@.len() as int));
    }
    assert(turned@ =~= items@.reverse());
    turned
}

/// The number `value` in decimal digits.
pub fn decimal(value: u64) -> (text: String)
    ensures
        vstd::string::to_string_from_display_ensures::<u64>(&value, text),
{
    value.to_string()
}

/// The kinds of bytes that a scan runs over.
#[derive(Clone, Copy, Debug, PartialEq, Eq, Structural)]
pub enum Run {
    /// Spaces and tabs.
    Blanks,
    /// Everything but spaces and tabs.
    Word,
    /// Everything but the line feed.
    Line,
}

/// Whether a run of kind `run` goes on over the byte `b`.
pub open spec fn runs_over(run: Run, b: u8) -> bool {
    match run {
        Run::Blanks => b == 0x20 || b == 0x09,
        Run::Word => !(b == 0x20 || b == 0x09),
        Run::Line => b != 0x0a,
    }
}

/// Whether a run of kind `run` goes on over the byte `b`.
pub fn goes_on(run: Run, b: u8) -> (on: bool)
    ensures
        on == runs_over(run, b),
{
    match run {
        Run::Blanks => b == 0x20 || b == 0x09,
        Run::Word => !(b == 0x20 || b == 0x09),
        Run::Line => b != 0x0a,
    }
}

/// The length of the run of kind `run` at the front of `text`.
pub open spec fn leading(text: Seq<u8>, run: Run) -> nat
    decreases text.len(),
{
    if text.len() == 0 || !runs_over(run, text[0]) {
        0
    } else {
        1 + leading(text.skip(1), run)
    }
}

/// A run is no longer than the text it is in.
pub proof fn lemma_leading_bound(text: Seq<u8>, run: Run)
    ensures
        leading(text, run) <= text.len(),
    decreases text.len(),
{
    if text.len() > 0 && runs_over(run, text[0]) {
        lemma_leading_bound(text.skip(1), run);
    }
}

/// The position at which the run of kind `run` that starts at `from`
/// ends.
pub fn scan(bytes: &[u8], from: usize, run: Run) -> (to: usize)
    requires
        from <= bytes@.len(),
    ensures
        from <= to <= bytes@.len(),
        to - from == leading(bytes@.skip(from as int), run),
{
    let mut to: usize = from;
    while to < bytes.len() && goes_on(run, bytes[to])
        invariant
            from <= to <= bytes@.len(),
            leading(bytes@.skip(from as int), run) == (to - from) + leading(
                bytes@.skip(to as int),
                run,
            ),
        decreases bytes@.len() - to,
    {
        proof {
            let rest = bytes@.skip(to as int);
            assert(rest[0] == bytes@[to as int]);
            assert(rest.skip(1) =~= bytes@.skip(to + 1));
        }
        to += 1;
    }
    proof {
        let rest = bytes@.skip(to as int);
        if to < bytes@.len() {
            assert(rest[0] == bytes@[to as int]);
        }
    }
    to
}

/// The number that the decimal digits `digits` spell.
pub open spec fn decimal_value(digits: Seq<u8>) -> nat
    decreases digits.len(),
{
    if digits.len() == 0 {
        0
    } else {
        10 * decimal_value(digits.drop_last()) + (digits.last() - 0x30) as nat
    }
}

/// Whether `digits` holds decimal digits only.
pub open spec fn all_digits(digits: Seq<u8>) -> bool {
    forall|i: int| 0 <= i < digits.len() ==> 0x30 <= #[trigger] digits[i] <= 0x39
}

/// The number that `text` spells: decimal digits, at least one, behind a
/// plus sign or behind nothing, as long as the number fits.
pub open spec fn parse_u32(text: Seq<u8>) -> Option<u32> {
    let digits = if text.len() > 0 && text[0] == 0x2b {
        text.skip(1)
    } else {
        text
    };
    if digits.len() > 0 && all_digits(digits) && decimal_value(digits) <= u32::MAX {
        Some(decimal_value(digits) as u32)
    } else {
        None
    }
}

/// More digits never spell a smaller number.
proof fn lemma_decimal_value_grows(digits: Seq<u8>, k: int)
    requires
        0 <= k <= digits.len(),
        all_digits(digits),
    ensures
        decimal_value(digits.take(k)) <= decimal_value(digits),
    decreases digits.len() - k,
{
    if k == digits.len() {
        assert(digits.take(k) =~= digits);
    } else {
        assert(digits.take(k + 1).drop_last() =~= digits.take(k));
        assert(digits.take(k + 1).last() == digits[k]);
        lemma_decimal_value_grows(digits, k + 1);
    }
}

/// Reads the number that the bytes from `from` up to `to` spell.
pub fn parse_number(bytes: &[u8], from: usize, to: usize) -> (number: Option<u32>)
    requires
        from <= to <= bytes@.len(),
    ensures
        number == parse_u32(bytes@.subrange(from as int, to as int)),
{
    let ghost text = bytes@.subrange(from as int, to as int);
    let start: usize = if from < to && bytes[from] == 0x2b {
        from + 1
    } else {
        from
    };
    let ghost digits = bytes@.subrange(start as int, to as int);
    proof {
        if start > from {
            assert(text[0] == bytes@[from as int]);
            assert(text.skip(1) =~= digits);
        } else {
            if text.len() > 0 {
                assert(text[0] == bytes@[from as int]);
            }
            assert(text =~= digits);
        }
    }
    if start == to {
        return None;
    }
    let mut value: u64 = 0;
    let mut i: usize = start;
    proof {
        assert(digits.take(0) =~= Seq::<u8>::empty());
    }
    while i < to
        invariant
            from <= start <= i <= to <= bytes@.len(),
            start < to,
            digits == bytes@.subrange(start as int, to as int),
            parse_u32(bytes@.subrange(from as int, to as int)) == if all_digits(digits)
                && decimal_value(digits) <= u32::MAX {
                Some(decimal_value(digits) as u32)
            } else {
                None
            },
            all_digits(digits.take(i - start)),
            value == decimal_value(digits.take(i - start)),
            value <= u32::MAX,
        decreases to - i,
    {
        let b: u8 = bytes[i];
        proof {
            assert(digits[i - start] == b);
            assert(digits.take(i - start + 1).drop_last() =~= digits.take(i - start));
            assert(digits.take(i - start + 1).last() == b);
        }
        if b < 0x30 || b > 0x39 {
            return None;
        }
        value = value * 10 + (b - 0x30) as u64;
        proof {
            let longer = digits.take(i - start + 1);
            assert forall|k: int| 0 <= k < longer.len() implies 0x30 <= #[trigger] longer[k]
                <= 0x39 by {
                if k < i - start {
                    assert(longer[k] == digits.take(i - start)[k]);
                }
            }
        }
        if value > 0xffff_ffff {
            proof {
                if all_digits(digits) {
                    lemma_decimal_value_grows(digits, i - start + 1);
                }
            }
            return None;
        }
        i += 1;
    }
    proof {
        assert(digits.take(to - start) =~= digits);
    }
    Some(value as u32)
}

/// The first line of `text`, without its line ending: a line feed, or a
/// carriage return and a line feed.
pub open spec fn first_line(text: Seq<u8>) -> Seq<u8> {
    let n = leading(text, Run::Line);
    if 0 < n < text.len() && text[n - 1] == 0x0d {
        text.take(n - 1)
    } else {
        text.take(n as int)
    }
}

/// What follows the first line of `text` and its line ending.
pub open spec fn after_first_line(text: Seq<u8>) -> Seq<u8> {
    let n = leading(text, Run::Line);
    if n < text.len() {
        text.skip(n as int + 1)
    } else {
        Seq::empty()
    }
}

/// The numbers that the lines of `text` spell, in the order of the lines.
/// A line that spells no number is passed over.
pub open spec fn listed_numbers(text: Seq<u8>) -> Seq<u32>
    decreases text.len(),
{
    if text.len() == 0 {
        Seq::empty()
    } else {
        proof {
            lemma_leading_bound(text, Run::Line);
        }
        (match parse_u32(first_line(text)) {
            Some(number) => seq![number],
            None => Seq::empty(),
        }) + listed_numbers(after_first_line(text))
    }
}

/// The identifiers of the threads of a process, read from the listing of
/// its task directory, which names one thread a line. Lines that name no
/// thread are passed over.
pub fn get_children_pids(listing: &str) -> (pids: Vec<u32>)
    ensures
        pids@ == listed_numbers(vstd::utf8::encode_utf8(listing@)),
{
    let bytes = listing.as_bytes();
    let n: usize = bytes.len();
    let mut pids: Vec<u32> = Vec::new();
    let mut start: usize = 0;
    proof {
        assert(bytes@.skip(0) =~= bytes@);
    }
    while start < n
        invariant
            n == bytes@.len(),
            start <= n,
            pids@ + listed_numbers(bytes@.skip(start as int)) == listed_numbers(bytes@),
        decreases n - start,
    {
        let ghost rest = bytes@.skip(start as int);
        let ghost found = pids@;
        let end: usize = scan(bytes, start, Run::Line);
        let stop: usize = if end < n && end > start && bytes[end - 1] == 0x0d {
            end - 1
        } else {
            end
        };
        let next: usize = if end < n {
            end + 1
        } else {
            n
        };
        proof {
            if end > start {
                assert(rest[end - start - 1] == bytes@[end - 1]);
            }
            assert(first_line(rest) =~= bytes@.subrange(start as int, stop as int));
            assert(after_first_line(rest) =~= bytes@.skip(next as int));
        }
        match parse_number(bytes, start, stop) {
            Some(pid) => {
                pids.push(pid);
                proof {
                    assert(pids@ =~= found + seq![pid]);
                }
            },
            None => {},
        }
        proof {
            assert(pids@ + listed_numbers(bytes@.skip(next as int)) =~= found + listed_numbers(
                rest,
            ));
        }
        start = next;
    }
    proof {
        assert(pids@ + listed_numbers(bytes@.skip(start as int)) =~= pids@);
    }
    pids
}

/// The second of the words of `line`, which blanks part from one another,
/// or nothing where the line has fewer than two words.
pub open spec fn second_word(line: Seq<u8>) -> Seq<u8> {
    let a = leading(line, Run::Blanks);
    let b = a + leading(line.skip(a as int), Run::Word);
    let c = b + leading(line.skip(b as int), Run::Blanks);
    let d = c + leading(line.skip(c as int), Run::Word);
    line.subrange(c as int, d as int)
}

/// The name of a process, read from its status, whose first line is the
/// word `Name:` followed by the name: the second word of that line.
pub fn get_process_name(status: &str) -> (name: Vec<u8>)
    ensures
        name@ == second_word(
            vstd::utf8::encode_utf8(status@).take(
                leading(vstd::utf8::encode_utf8(status@), Run::Line) as int,
            ),
        ),
{
    let bytes = status.as_bytes();
    let end: usize = scan(bytes, 0, Run::Line);
    proof {
        assert(bytes@.skip(0) =~= bytes@);
    }
    let line = vstd::slice::slice_subrange(bytes, 0, end);
    let a: usize = scan(line, 0, Run::Blanks);
    let b: usize = scan(line, a, Run::Word);
    let c: usize = scan(line, b, Run::Blanks);
    let d: usize = scan(line, c, Run::Word);
    proof {
        assert(line@.skip(0) =~= line@);
        assert(line@ =~= bytes@.take(end as int));
    }
    crate::wire::copy_range(line, c, d)
}

} // verus!
