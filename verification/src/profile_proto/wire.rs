//! Field-tagged, length-delimited wire encoding.
//!
//! The byte layout is stated here as spec functions; the bytes themselves are
//! produced by `protobuf::CodedOutputStream`, one field at a time.

use protobuf::CodedOutputStream;
use vstd::prelude::*;

verus! {

/// Largest payload, in bytes, that a length-delimited field may carry.
pub const MAX_MESSAGE_SIZE: usize = 0x7fff_ffff;

/// Largest field number that a tag can hold.
pub const FIELD_NUMBER_MAX: u32 = 0x1fff_ffff;

/// Why a document could not be encoded.
#[derive(Debug, Clone, Copy, PartialEq, Eq, Structural)]
pub enum EncodeError {
    /// A length-delimited payload is longer than `MAX_MESSAGE_SIZE`.
    TooLarge,
    /// The output stream reported a failure.
    Stream,
}

/// `protobuf::Error`, the failure that an output stream reports: carried
/// through, never looked into.
#[verifier::external_type_specification]
#[verifier::external_body]
pub struct ExStreamError(protobuf::Error);

/// Base-128 encoding of `v`, least significant group first; every byte but
/// the last has its high bit set.
pub open spec fn varint(v: u64) -> Seq<u8>
    decreases v,
{
    if v < 0x80 {
        seq![v as u8]
    } else {
        seq![(v % 0x80 + 0x80) as u8] + varint(v / 0x80)
    }
}

/// The number that introduces a field: field number and wire type together.
pub open spec fn key(field: u32, wire_type: u8) -> u64 {
    (field * 8 + wire_type) as u64
}

/// A varint field: its key (wire type 0), then the value.
pub open spec fn scalar(field: u32, v: u64) -> Seq<u8> {
    varint(key(field, 0)) + varint(v)
}

/// A varint field that is left out when it holds zero.
pub open spec fn optional_scalar(field: u32, v: u64) -> Seq<u8> {
    if v == 0 {
        Seq::<u8>::empty()
    } else {
        scalar(field, v)
    }
}

/// A length-delimited field: its key (wire type 2), the payload's length,
/// then the payload.
pub open spec fn delimited(field: u32, body: Seq<u8>) -> Seq<u8> {
    varint(key(field, 2)) + varint(body.len() as u64) + body
}

/// The varints of `vals`, one after the other.
pub open spec fn varints(vals: Seq<u64>) -> Seq<u8>
    decreases vals.len(),
{
    if vals.len() == 0 {
        Seq::<u8>::empty()
    } else {
        varints(vals.drop_last()) + varint(vals.last())
    }
}

/// A packed repeated varint field: nothing when empty, else one
/// length-delimited field that holds all the values.
pub open spec fn packed(field: u32, vals: Seq<u64>) -> Seq<u8> {
    if vals.len() == 0 {
        Seq::<u8>::empty()
    } else {
        delimited(field, varints(vals))
    }
}

/// Signed values as the wire holds them: the same 64 bits read unsigned.
pub open spec fn unsigned(vals: Seq<i64>) -> Seq<u64> {
    Seq::new(vals.len(), |i: int| vals[i] as u64)
}

/// Whether `field` can stand in a tag.
pub open spec fn valid_field(field: u32) -> bool {
    0 < field <= FIELD_NUMBER_MAX
}

/// `protobuf::rt::compute_raw_varint64_size`: the number of bytes that the
/// varint of `v` takes.
#[verifier::external_body]
pub(crate) fn varint_size(v: u64) -> (n: u64)
    ensures
        n == varint(v).len(),
{
    protobuf::rt::compute_raw_varint64_size(v)
}

/// `CodedOutputStream::write_repeated_packed_uint64` on a stream over
/// `out`, flushed. A stream over a vector never reports failure, and `out`
/// has grown by the packed field: nothing for an empty list, else the key
/// of a length-delimited field, the length of the varints and the varints.
/// The stream writes the length as a 32-bit number, so longer lists are
/// left out.
#[verifier::external_body]
pub(crate) fn stream_packed_uint64(out: &mut Vec<u8>, field: u32, vals: &[u64]) -> (r: Result<
    (),
    protobuf::Error,
>)
    requires
        valid_field(field),
        varints(vals@).len() <= u32::MAX,
    ensures
        r is Ok,
        final(out)@ == old(out)@ + packed(field, vals@),
{
    let mut os = CodedOutputStream::vec(out);
    os.write_repeated_packed_uint64(field, vals)?;
    os.flush()
}

/// `CodedOutputStream::write_repeated_packed_int64` on a stream over `out`,
/// flushed. As `stream_packed_uint64`, with each value read as an unsigned
/// 64-bit number.
#[verifier::external_body]
pub(crate) fn stream_packed_int64(out: &mut Vec<u8>, field: u32, vals: &[i64]) -> (r: Result<
    (),
    protobuf::Error,
>)
    requires
        valid_field(field),
        varints(unsigned(vals@)).len() <= u32::MAX,
    ensures
        r is Ok,
        final(out)@ == old(out)@ + packed(field, unsigned(vals@)),
{
    let mut os = CodedOutputStream::vec(out);
    os.write_repeated_packed_int64(field, vals)?;
    os.flush()
}

/// `CodedOutputStream::write_uint64` on a stream over `out`, flushed.
/// A stream over a vector never reports failure, and `out` has grown by the
/// key of a varint field and the varint of `v`. The stream panics on a
/// field number that no tag can hold.
#[verifier::external_body]
pub(crate) fn stream_uint64(out: &mut Vec<u8>, field: u32, v: u64) -> (r: Result<(), protobuf::Error>)
    requires
        valid_field(field),
    ensures
        r is Ok,
        final(out)@ == old(out)@ + scalar(field, v),
{
    let mut os = CodedOutputStream::vec(out);
    os.write_uint64(field, v)?;
    os.flush()
}

/// `CodedOutputStream::write_int64` on a stream over `out`, flushed.
/// A stream over a vector never reports failure, and `out` has grown by the
/// key of a varint field and the varint of `v` read as an unsigned 64-bit
/// number.
#[verifier::external_body]
pub(crate) fn stream_int64(out: &mut Vec<u8>, field: u32, v: i64) -> (r: Result<(), protobuf::Error>)
    requires
        valid_field(field),
    ensures
        r is Ok,
        final(out)@ == old(out)@ + scalar(field, v as u64),
{
    let mut os = CodedOutputStream::vec(out);
    os.write_int64(field, v)?;
    os.flush()
}

/// `CodedOutputStream::write_bytes` on a stream over `out`, flushed.
/// A stream over a vector never reports failure, and `out` has grown by the
/// key of a length-delimited field, the length of `body` and `body` itself.
/// The stream writes the length as a 32-bit number, so longer payloads are
/// left out.
#[verifier::external_body]
pub(crate) fn stream_bytes(out: &mut Vec<u8>, field: u32, body: &[u8]) -> (r: Result<(), protobuf::Error>)
    requires
        valid_field(field),
        body@.len() <= u32::MAX,
    ensures
        r is Ok,
        final(out)@ == old(out)@ + delimited(field, body@),
{
    let mut os = CodedOutputStream::vec(out);
    os.write_bytes(field, body)?;
    os.flush()
}

/// `CodedOutputStream::write_string` on a stream over `out`, flushed.
/// A stream over a vector never reports failure, and `out` has grown by the
/// key of a length-delimited field, the length of the text in bytes and its
/// UTF-8 bytes.
#[verifier::external_body]
pub(crate) fn stream_string(out: &mut Vec<u8>, field: u32, text: &str) -> (r: Result<(), protobuf::Error>)
    requires
        valid_field(field),
        vstd::utf8::encode_utf8(text@).len() <= u32::MAX,
    ensures
        r is Ok,
        final(out)@ == old(out)@ + delimited(field, vstd::utf8::encode_utf8(text@)),
{
    let mut os = CodedOutputStream::vec(out);
    os.write_string(field, text)?;
    os.flush()
}

/// What the encoder makes of the stream's answer: its failure becomes
/// `EncodeError::Stream`.
pub fn written(answer: Result<(), protobuf::Error>) -> (r: Result<(), EncodeError>)
    ensures
        answer is Ok ==> r == Ok::<(), EncodeError>(()),
        answer is Err ==> r == Err::<(), EncodeError>(EncodeError::Stream),
{
    match answer {
        Ok(_) => Ok(()),
        Err(_) => Err(EncodeError::Stream),
    }
}

/// The length of a payload as the wire holds it, or `TooLarge` when the
/// payload is longer than `MAX_MESSAGE_SIZE`.
pub fn message_size(len: usize) -> (r: Result<u32, EncodeError>)
    ensures
        len <= MAX_MESSAGE_SIZE ==> r == Ok::<u32, EncodeError>(len as u32),
        len > MAX_MESSAGE_SIZE ==> r == Err::<u32, EncodeError>(EncodeError::TooLarge),
{
    if len <= MAX_MESSAGE_SIZE {
        Ok(len as u32)
    } else {
        Err(EncodeError::TooLarge)
    }
}

/// Length-delimited fields with one number, one per payload, in order.
pub open spec fn repeated(field: u32, bodies: Seq<Seq<u8>>) -> Seq<u8>
    decreases bodies.len(),
{
    if bodies.len() == 0 {
        Seq::<u8>::empty()
    } else {
        repeated(field, bodies.drop_last()) + delimited(field, bodies.last())
    }
}

/// What an encoding step may answer, given the bytes it is to append and the
/// buffer before and after: success with exactly those bytes appended, or
/// `TooLarge` when `oversized` holds. The stream never fails.
pub open spec fn appended(
    r: Result<(), EncodeError>,
    before: Seq<u8>,
    after: Seq<u8>,
    bytes: Seq<u8>,
    oversized: bool,
) -> bool {
    match r {
        Ok(_) => after == before + bytes,
        Err(EncodeError::TooLarge) => oversized,
        Err(EncodeError::Stream) => false,
    }
}

/// A varint has at least one byte and at most ten.
pub proof fn lemma_varint_len(v: u64)
    ensures
        1 <= varint(v).len() <= 10,
{
    reveal_with_fuel(varint, 11);
}

/// A length-delimited field is longer than its payload by its key and the
/// payload's length: two bytes at least, twenty at most.
pub proof fn lemma_delimited_len(field: u32, body: Seq<u8>)
    ensures
        body.len() + 2 <= delimited(field, body).len() <= body.len() + 20,
{
    lemma_varint_len(key(field, 2));
    lemma_varint_len(body.len() as u64);
}

/// A repeated field has at least two bytes for each of its payloads.
pub proof fn lemma_repeated_counts(field: u32, bodies: Seq<Seq<u8>>)
    ensures
        repeated(field, bodies).len() >= 2 * bodies.len(),
    decreases bodies.len(),
{
    if bodies.len() > 0 {
        lemma_repeated_counts(field, bodies.drop_last());
        lemma_varint_len(key(field, 2));
        lemma_varint_len(bodies.last().len() as u64);
    }
}

/// A repeated field whose payloads are no longer than `most` takes no more
/// than `most + 20` bytes for each of them.
pub proof fn lemma_repeated_bound(field: u32, bodies: Seq<Seq<u8>>, most: nat)
    requires
        forall|i: int| 0 <= i < bodies.len() ==> (#[trigger] bodies[i]).len() <= most,
    ensures
        repeated(field, bodies).len() <= bodies.len() * (most + 20),
    decreases bodies.len(),
{
    if bodies.len() > 0 {
        assert forall|i: int| 0 <= i < bodies.drop_last().len() implies (
        #[trigger] bodies.drop_last()[i]).len() <= most by {
            assert(bodies.drop_last()[i] == bodies[i]);
        }
        lemma_repeated_bound(field, bodies.drop_last(), most);
        lemma_delimited_len(field, bodies.last());
        assert(bodies.len() * (most + 20) == (bodies.len() - 1) * (most + 20) + (most + 20))
            by (nonlinear_arith);
    }
}

/// A repeated field is at least as long as any one of its payloads.
pub proof fn lemma_repeated_covers(field: u32, bodies: Seq<Seq<u8>>, i: int)
    requires
        0 <= i < bodies.len(),
    ensures
        repeated(field, bodies).len() >= bodies[i].len(),
    decreases bodies.len(),
{
    if i < bodies.len() - 1 {
        lemma_repeated_covers(field, bodies.drop_last(), i);
    }
}

/// Appends a varint field, or nothing when the value is zero.
pub fn put_uint64(out: &mut Vec<u8>, field: u32, v: u64) -> (r: Result<(), EncodeError>)
    requires
        valid_field(field),
    ensures
        appended(r, old(out)@, final(out)@, optional_scalar(field, v), false),
{
    if v == 0 {
        assert(out@ + Seq::<u8>::empty() =~= out@);
        Ok(())
    } else {
        written(stream_uint64(out, field, v))
    }
}

/// Appends a signed varint field, or nothing when the value is zero.
pub fn put_int64(out: &mut Vec<u8>, field: u32, v: i64) -> (r: Result<(), EncodeError>)
    requires
        valid_field(field),
    ensures
        appended(r, old(out)@, final(out)@, optional_scalar(field, v as u64), false),
{
    if v == 0 {
        assert(v as u64 == 0) by (bit_vector)
            requires
                v == 0,
        ;
        assert(out@ + Seq::<u8>::empty() =~= out@);
        Ok(())
    } else {
        assert(v as u64 != 0) by (bit_vector)
            requires
                v != 0,
        ;
        written(stream_int64(out, field, v))
    }
}

/// Appends a length-delimited field that holds `body`.
pub fn put_message(out: &mut Vec<u8>, field: u32, body: &Vec<u8>) -> (r: Result<(), EncodeError>)
    requires
        valid_field(field),
    ensures
        appended(
            r,
            old(out)@,
            final(out)@,
            delimited(field, body@),
            body@.len() > MAX_MESSAGE_SIZE,
        ),
        body@.len() > MAX_MESSAGE_SIZE ==> r == Err::<(), EncodeError>(EncodeError::TooLarge)
            && final(out)@ == old(out)@,
{
    match message_size(body.len()) {
        Ok(_) => written(stream_bytes(out, field, body.as_slice())),
        Err(e) => Err(e),
    }
}

/// Appends a length-delimited field that holds the UTF-8 bytes of `text`.
pub fn put_string(out: &mut Vec<u8>, field: u32, text: &str) -> (r: Result<(), EncodeError>)
    requires
        valid_field(field),
    ensures
        appended(
            r,
            old(out)@,
            final(out)@,
            delimited(field, vstd::utf8::encode_utf8(text@)),
            vstd::utf8::encode_utf8(text@).len() > MAX_MESSAGE_SIZE,
        ),
        vstd::utf8::encode_utf8(text@).len() > MAX_MESSAGE_SIZE ==> r == Err::<(), EncodeError>(
            EncodeError::TooLarge,
        ) && final(out)@ == old(out)@,
{
    match message_size(text.as_bytes().len()) {
        Ok(_) => written(stream_string(out, field, text)),
        Err(e) => Err(e),
    }
}

/// The varints of a list are at least as long as those of its beginning.
pub proof fn lemma_varints_prefix(vals: Seq<u64>, i: int)
    requires
        0 <= i <= vals.len(),
    ensures
        varints(vals.take(i)).len() <= varints(vals).len(),
    decreases vals.len(),
{
    if i < vals.len() {
        assert(vals.drop_last().take(i) =~= vals.take(i));
        lemma_varints_prefix(vals.drop_last(), i);
    } else {
        assert(vals.take(i) =~= vals);
    }
}

/// How many bytes the varints of `vals` take, if no more than
/// `MAX_MESSAGE_SIZE`.
pub fn packed_size(vals: &Vec<u64>) -> (size: Option<usize>)
    ensures
        match size {
            Some(n) => n == varints(vals@).len() && n <= MAX_MESSAGE_SIZE,
            None => varints(vals@).len() > MAX_MESSAGE_SIZE,
        },
{
    let mut total: usize = 0;
    let mut i: usize = 0;
    while i < vals.len()
        invariant
            i <= vals.len(),
            total == varints(vals@.take(i as int)).len(),
            total <= MAX_MESSAGE_SIZE,
        decreases vals.len() - i,
    {
        let step = varint_size(vals[i]);
        proof {
            lemma_varint_len(vals[i as int]);
            assert(vals@.take(i + 1).drop_last() =~= vals@.take(i as int));
            lemma_varints_prefix(vals@, i + 1);
        }
        if step as usize > MAX_MESSAGE_SIZE - total {
            return None;
        }
        total = total + step as usize;
        i += 1;
    }
    assert(vals@.take(vals.len() as int) =~= vals@);
    Some(total)
}

/// How many bytes the varints of the signed `vals` take, if no more than
/// `MAX_MESSAGE_SIZE`.
pub fn packed_size_signed(vals: &Vec<i64>) -> (size: Option<usize>)
    ensures
        match size {
            Some(n) => n == varints(unsigned(vals@)).len() && n <= MAX_MESSAGE_SIZE,
            None => varints(unsigned(vals@)).len() > MAX_MESSAGE_SIZE,
        },
{
    let ghost all = unsigned(vals@);
    let mut total: usize = 0;
    let mut i: usize = 0;
    while i < vals.len()
        invariant
            i <= vals.len(),
            all == unsigned(vals@),
            total == varints(all.take(i as int)).len(),
            total <= MAX_MESSAGE_SIZE,
        decreases vals.len() - i,
    {
        let step = varint_size(vals[i] as u64);
        proof {
            lemma_varint_len(vals[i as int] as u64);
            assert(all.take(i + 1).drop_last() =~= all.take(i as int));
            assert(all.take(i + 1).last() == vals[i as int] as u64);
            lemma_varints_prefix(all, i + 1);
        }
        if step as usize > MAX_MESSAGE_SIZE - total {
            return None;
        }
        total = total + step as usize;
        i += 1;
    }
    assert(all.take(vals.len() as int) =~= all);
    Some(total)
}

/// Appends a packed repeated varint field: nothing for an empty list.
/// Answers `TooLarge`, and appends nothing, when the varints are longer
/// than `MAX_MESSAGE_SIZE`.
pub fn put_packed(out: &mut Vec<u8>, field: u32, vals: &Vec<u64>) -> (r: Result<(), EncodeError>)
    requires
        valid_field(field),
    ensures
        appended(
            r,
            old(out)@,
            final(out)@,
            packed(field, vals@),
            varints(vals@).len() > MAX_MESSAGE_SIZE,
        ),
        varints(vals@).len() > MAX_MESSAGE_SIZE ==> r == Err::<(), EncodeError>(
            EncodeError::TooLarge,
        ) && final(out)@ == old(out)@,
{
    match packed_size(vals) {
        Some(_) => written(stream_packed_uint64(out, field, vals.as_slice())),
        None => Err(EncodeError::TooLarge),
    }
}

/// Appends a packed repeated field of signed varints, as `put_packed` does
/// for unsigned ones.
pub fn put_packed_signed(out: &mut Vec<u8>, field: u32, vals: &Vec<i64>) -> (r: Result<
    (),
    EncodeError,
>)
    requires
        valid_field(field),
    ensures
        appended(
            r,
            old(out)@,
            final(out)@,
            packed(field, unsigned(vals@)),
            varints(unsigned(vals@)).len() > MAX_MESSAGE_SIZE,
        ),
        varints(unsigned(vals@)).len() > MAX_MESSAGE_SIZE ==> r == Err::<(), EncodeError>(
            EncodeError::TooLarge,
        ) && final(out)@ == old(out)@,
{
    match packed_size_signed(vals) {
        Some(_) => written(stream_packed_int64(out, field, vals.as_slice())),
        None => Err(EncodeError::TooLarge),
    }
}

} // verus!
