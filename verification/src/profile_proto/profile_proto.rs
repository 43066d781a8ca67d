//! The messages of a profile document and their wire encoding.
//!
//! Field numbers follow the `pprof` profile schema. Scalar fields that hold
//! zero are left out, repeated scalars are packed, and fields are written in
//! the order of their numbers.

use super::wire::{
    appended, lemma_repeated_counts, lemma_repeated_covers, message_size, optional_scalar,
    packed, put_int64, put_message, put_packed, put_packed_signed, put_string, put_uint64,
    repeated, unsigned, EncodeError, MAX_MESSAGE_SIZE,
};
use vstd::prelude::*;

verus! {

/// What `encode` answers for a message whose encoding is `bytes`: exactly
/// those bytes when they fit a length-delimited field, and `TooLarge` when
/// they do not.
pub open spec fn encoded(r: Result<Vec<u8>, EncodeError>, bytes: Seq<u8>) -> bool {
    match r {
        Ok(out) => out@ == bytes && bytes.len() <= MAX_MESSAGE_SIZE,
        Err(EncodeError::TooLarge) => bytes.len() > MAX_MESSAGE_SIZE,
        Err(EncodeError::Stream) => false,
    }
}

/// A message with a wire encoding.
pub trait Message: Sized {
    /// The message's encoding.
    spec fn bytes(&self) -> Seq<u8>;

    /// Encodes the message into a fresh buffer.
    fn encode(&self) -> (r: Result<Vec<u8>, EncodeError>)
        ensures
            encoded(r, self.bytes()),
    ;
}

/// The encodings of `items`, in order.
pub open spec fn bodies<M: Message>(items: Seq<M>) -> Seq<Seq<u8>> {
    Seq::new(items.len(), |i: int| items[i].bytes())
}

/// Closes a finished buffer: it is the message's encoding if it fits.
fn finish(out: Vec<u8>) -> (r: Result<Vec<u8>, EncodeError>)
    ensures
        encoded(r, out@),
        !(r is Err && r->Err_0 == EncodeError::Stream),
{
    match message_size(out.len()) {
        Ok(_) => Ok(out),
        Err(e) => Err(e),
    }
}

/// Appends one length-delimited field per message, in order.
pub fn put_messages<M: Message>(out: &mut Vec<u8>, field: u32, items: &Vec<M>) -> (r: Result<
    (),
    EncodeError,
>)
    requires
        super::wire::valid_field(field),
    ensures
        appended(
            r,
            old(out)@,
            final(out)@,
            repeated(field, bodies(items@)),
            repeated(field, bodies(items@)).len() > MAX_MESSAGE_SIZE,
        ),
{
    let mut i: usize = 0;
    assert(out@ + repeated(field, bodies(items@).take(0)) =~= out@);
    while i < items.len()
        invariant
            super::wire::valid_field(field),
            i <= items.len(),
            out@ == old(out)@ + repeated(field, bodies(items@).take(i as int)),
        decreases items.len() - i,
    {
        let ghost all = bodies(items@);
        let body = match items[i].encode() {
            Ok(body) => body,
            Err(e) => {
                proof {
                    lemma_repeated_covers(field, all, i as int);
                }
                return Err(e);
            },
        };
        match put_message(out, field, &body) {
            Ok(_) => {},
            Err(e) => {
                return Err(e);
            },
        }
        proof {
            assert(all.take(i + 1).drop_last() =~= all.take(i as int));
            assert(all.take(i + 1).last() == items[i as int].bytes());
            assert(out@ =~= old(out)@ + repeated(field, all.take(i + 1)));
        }
        i += 1;
    }
    assert(bodies(items@).take(items.len() as int) =~= bodies(items@));
    Ok(())
}

/// Names what a sample's values measure: a kind and a unit, both as indexes
/// into the string table.
#[derive(Debug, Clone, Copy, PartialEq, Eq, Structural)]
pub struct ValueType {
    pub type_: i64,
    pub unit: i64,
}

/// A key and a text attached to a sample, both as indexes into the string
/// table.
#[derive(Debug, Clone, Copy, PartialEq, Eq, Structural)]
pub struct Label {
    pub key: i64,
    pub str: i64,
}

/// A source line inside a function.
#[derive(Debug, Clone, Copy, PartialEq, Eq, Structural)]
pub struct Line {
    pub function_id: u64,
    pub line: i64,
}

/// A function; its names and file are indexes into the string table.
#[derive(Debug, Clone, Copy, PartialEq, Eq, Structural)]
pub struct Function {
    pub id: u64,
    pub name: i64,
    pub system_name: i64,
    pub filename: i64,
    pub start_line: i64,
}

pub open spec fn value_type_bytes(v: ValueType) -> Seq<u8> {
    optional_scalar(1, v.type_ as u64) + optional_scalar(2, v.unit as u64)
}

pub open spec fn label_bytes(l: Label) -> Seq<u8> {
    optional_scalar(1, l.key as u64) + optional_scalar(2, l.str as u64)
}

pub open spec fn line_bytes(l: Line) -> Seq<u8> {
    optional_scalar(1, l.function_id) + optional_scalar(2, l.line as u64)
}

pub open spec fn function_bytes(f: Function) -> Seq<u8> {
    optional_scalar(1, f.id) + optional_scalar(2, f.name as u64) + optional_scalar(
        3,
        f.system_name as u64,
    ) + optional_scalar(4, f.filename as u64) + optional_scalar(5, f.start_line as u64)
}

impl Message for ValueType {
    open spec fn bytes(&self) -> Seq<u8> {
        value_type_bytes(*self)
    }

    fn encode(&self) -> (r: Result<Vec<u8>, EncodeError>) {
        let mut out: Vec<u8> = Vec::new();
        match put_int64(&mut out, 1, self.type_) {
            Ok(_) => {},
            Err(e) => {
                return Err(e);
            },
        }
        match put_int64(&mut out, 2, self.unit) {
            Ok(_) => {},
            Err(e) => {
                return Err(e);
            },
        }
        finish(out)
    }
}

impl Message for Label {
    open spec fn bytes(&self) -> Seq<u8> {
        label_bytes(*self)
    }

    fn encode(&self) -> (r: Result<Vec<u8>, EncodeError>) {
        let mut out: Vec<u8> = Vec::new();
        match put_int64(&mut out, 1, self.key) {
            Ok(_) => {},
            Err(e) => {
                return Err(e);
            },
        }
        match put_int64(&mut out, 2, self.str) {
            Ok(_) => {},
            Err(e) => {
                return Err(e);
            },
        }
        finish(out)
    }
}

impl Message for Line {
    open spec fn bytes(&self) -> Seq<u8> {
        line_bytes(*self)
    }

    fn encode(&self) -> (r: Result<Vec<u8>, EncodeError>) {
        let mut out: Vec<u8> = Vec::new();
        match put_uint64(&mut out, 1, self.function_id) {
            Ok(_) => {},
            Err(e) => {
                return Err(e);
            },
        }
        match put_int64(&mut out, 2, self.line) {
            Ok(_) => {},
            Err(e) => {
                return Err(e);
            },
        }
        finish(out)
    }
}

impl Message for Function {
    open spec fn bytes(&self) -> Seq<u8> {
        function_bytes(*self)
    }

    fn encode(&self) -> (r: Result<Vec<u8>, EncodeError>) {
        let mut out: Vec<u8> = Vec::new();
        match put_uint64(&mut out, 1, self.id) {
            Ok(_) => {},
            Err(e) => {
                return Err(e);
            },
        }
        match put_int64(&mut out, 2, self.name) {
            Ok(_) => {},
            Err(e) => {
                return Err(e);
            },
        }
        match put_int64(&mut out, 3, self.system_name) {
            Ok(_) => {},
            Err(e) => {
                return Err(e);
            },
        }
        match put_int64(&mut out, 4, self.filename) {
            Ok(_) => {},
            Err(e) => {
                return Err(e);
            },
        }
        match put_int64(&mut out, 5, self.start_line) {
            Ok(_) => {},
            Err(e) => {
                return Err(e);
            },
        }
        finish(out)
    }
}

/// One live allocation: the locations of its call stack, its measured
/// values, and its labels.
#[derive(Debug, Clone, PartialEq, Eq)]
pub struct Sample {
    pub location_id: Vec<u64>,
    pub value: Vec<i64>,
    pub label: Vec<Label>,
}

pub struct SampleView {
    pub location_id: Seq<u64>,
    pub value: Seq<i64>,
    pub label: Seq<Label>,
}

impl View for Sample {
    type V = SampleView;

    open spec fn view(&self) -> SampleView {
        SampleView { location_id: self.location_id@, value: self.value@, label: self.label@ }
    }
}

/// One frame of a call stack: an instruction address and the source lines
/// that it stands for.
#[derive(Debug, Clone, PartialEq, Eq)]
pub struct Location {
    pub id: u64,
    pub address: u64,
    pub line: Vec<Line>,
}

pub struct LocationView {
    pub id: u64,
    pub address: u64,
    pub line: Seq<Line>,
}

impl View for Location {
    type V = LocationView;

    open spec fn view(&self) -> LocationView {
        LocationView { id: self.id, address: self.address, line: self.line@ }
    }
}

/// The whole document.
#[derive(Debug, Clone, PartialEq, Eq)]
pub struct Profile {
    pub sample_type: Vec<ValueType>,
    pub sample: Vec<Sample>,
    pub location: Vec<Location>,
    pub function: Vec<Function>,
    pub string_table: Vec<String>,
}

pub struct ProfileView {
    pub sample_type: Seq<ValueType>,
    pub sample: Seq<SampleView>,
    pub location: Seq<LocationView>,
    pub function: Seq<Function>,
    pub string_table: Seq<Seq<char>>,
}

impl View for Profile {
    type V = ProfileView;

    open spec fn view(&self) -> ProfileView {
        ProfileView {
            sample_type: self.sample_type@,
            sample: Seq::new(self.sample@.len(), |i: int| self.sample@[i]@),
            location: Seq::new(self.location@.len(), |i: int| self.location@[i]@),
            function: self.function@,
            string_table: Seq::new(self.string_table@.len(), |i: int| self.string_table@[i]@),
        }
    }
}

pub open spec fn sample_bytes(s: SampleView) -> Seq<u8> {
    packed(1, s.location_id) + packed(2, unsigned(s.value)) + repeated(
        3,
        Seq::new(s.label.len(), |i: int| label_bytes(s.label[i])),
    )
}

pub open spec fn location_bytes(l: LocationView) -> Seq<u8> {
    optional_scalar(1, l.id) + optional_scalar(3, l.address) + repeated(
        4,
        Seq::new(l.line.len(), |i: int| line_bytes(l.line[i])),
    )
}

pub open spec fn profile_bytes(p: ProfileView) -> Seq<u8> {
    repeated(1, Seq::new(p.sample_type.len(), |i: int| value_type_bytes(p.sample_type[i])))
        + repeated(2, Seq::new(p.sample.len(), |i: int| sample_bytes(p.sample[i]))) + repeated(
        4,
        Seq::new(p.location.len(), |i: int| location_bytes(p.location[i])),
    ) + repeated(5, Seq::new(p.function.len(), |i: int| function_bytes(p.function[i])))
        + repeated(
        6,
        Seq::new(p.string_table.len(), |i: int| vstd::utf8::encode_utf8(p.string_table[i])),
    )
}

/// A document is at least as long as it has strings, and as it has
/// locations.
pub proof fn lemma_profile_strings(p: ProfileView)
    ensures
        profile_bytes(p).len() >= p.string_table.len(),
        profile_bytes(p).len() >= p.location.len(),
{
    lemma_repeated_counts(
        6,
        Seq::new(p.string_table.len(), |i: int| vstd::utf8::encode_utf8(p.string_table[i])),
    );
    lemma_repeated_counts(4, Seq::new(p.location.len(), |i: int| location_bytes(p.location[i])));
}

/// Appends one length-delimited field per text, in order.
fn put_strings(out: &mut Vec<u8>, field: u32, texts: &Vec<String>) -> (r: Result<(), EncodeError>)
    requires
        super::wire::valid_field(field),
    ensures
        appended(
            r,
            old(out)@,
            final(out)@,
            repeated(field, Seq::new(texts@.len(), |i: int| vstd::utf8::encode_utf8(texts@[i]@))),
            repeated(
                field,
                Seq::new(texts@.len(), |i: int| vstd::utf8::encode_utf8(texts@[i]@)),
            ).len() > MAX_MESSAGE_SIZE,
        ),
{
    let ghost all = Seq::new(texts@.len(), |i: int| vstd::utf8::encode_utf8(texts@[i]@));
    let mut i: usize = 0;
    assert(out@ + repeated(field, all.take(0)) =~= out@);
    while i < texts.len()
        invariant
            super::wire::valid_field(field),
            i <= texts.len(),
            all == Seq::new(texts@.len(), |i: int| vstd::utf8::encode_utf8(texts@[i]@)),
            out@ == old(out)@ + repeated(field, all.take(i as int)),
        decreases texts.len() - i,
    {
        match put_string(out, field, texts[i].as_str()) {
            Ok(_) => {},
            Err(e) => {
                proof {
                    lemma_repeated_covers(field, all, i as int);
                }
                return Err(e);
            },
        }
        proof {
            assert(all.take(i + 1).drop_last() =~= all.take(i as int));
            assert(all.take(i + 1).last() == vstd::utf8::encode_utf8(texts@[i as int]@));
            assert(out@ =~= old(out)@ + repeated(field, all.take(i + 1)));
        }
        i += 1;
    }
    assert(all.take(texts.len() as int) =~= all);
    Ok(())
}

impl Message for Sample {
    open spec fn bytes(&self) -> Seq<u8> {
        sample_bytes(self@)
    }

    fn encode(&self) -> (r: Result<Vec<u8>, EncodeError>) {
        let mut out: Vec<u8> = Vec::new();
        match put_packed(&mut out, 1, &self.location_id) {
            Ok(_) => {},
            Err(e) => {
                return Err(e);
            },
        }
        match put_packed_signed(&mut out, 2, &self.value) {
            Ok(_) => {},
            Err(e) => {
                return Err(e);
            },
        }
        assert(bodies(self.label@) =~= Seq::new(
            self.label@.len(),
            |i: int| label_bytes(self.label@[i]),
        ));
        match put_messages(&mut out, 3, &self.label) {
            Ok(_) => {},
            Err(e) => {
                return Err(e);
            },
        }
        finish(out)
    }
}

impl Message for Location {
    open spec fn bytes(&self) -> Seq<u8> {
        location_bytes(self@)
    }

    fn encode(&self) -> (r: Result<Vec<u8>, EncodeError>) {
        let mut out: Vec<u8> = Vec::new();
        match put_uint64(&mut out, 1, self.id) {
            Ok(_) => {},
            Err(e) => {
                return Err(e);
            },
        }
        match put_uint64(&mut out, 3, self.address) {
            Ok(_) => {},
            Err(e) => {
                return Err(e);
            },
        }
        assert(bodies(self.line@) =~= Seq::new(
            self.line@.len(),
            |i: int| line_bytes(self.line@[i]),
        ));
        match put_messages(&mut out, 4, &self.line) {
            Ok(_) => {},
            Err(e) => {
                return Err(e);
            },
        }
        finish(out)
    }
}

impl Message for Profile {
    open spec fn bytes(&self) -> Seq<u8> {
        profile_bytes(self@)
    }

    fn encode(&self) -> (r: Result<Vec<u8>, EncodeError>) {
        let mut out: Vec<u8> = Vec::new();
        proof {
            let p = self@;
            assert(bodies(self.sample_type@) =~= Seq::new(
                p.sample_type.len(),
                |i: int| value_type_bytes(p.sample_type[i]),
            ));
            assert(bodies(self.sample@) =~= Seq::new(
                p.sample.len(),
                |i: int| sample_bytes(p.sample[i]),
            ));
            assert(bodies(self.location@) =~= Seq::new(
                p.location.len(),
                |i: int| location_bytes(p.location[i]),
            ));
            assert(bodies(self.function@) =~= Seq::new(
                p.function.len(),
                |i: int| function_bytes(p.function[i]),
            ));
            assert(Seq::new(
                self.string_table@.len(),
                |i: int| vstd::utf8::encode_utf8(self.string_table@[i]@),
            ) =~= Seq::new(
                p.string_table.len(),
                |i: int| vstd::utf8::encode_utf8(p.string_table[i]),
            ));
        }
        match put_messages(&mut out, 1, &self.sample_type) {
            Ok(_) => {},
            Err(e) => {
                return Err(e);
            },
        }
        match put_messages(&mut out, 2, &self.sample) {
            Ok(_) => {},
            Err(e) => {
                return Err(e);
            },
        }
        match put_messages(&mut out, 4, &self.location) {
            Ok(_) => {},
            Err(e) => {
                return Err(e);
            },
        }
        match put_messages(&mut out, 5, &self.function) {
            Ok(_) => {},
            Err(e) => {
                return Err(e);
            },
        }
        match put_strings(&mut out, 6, &self.string_table) {
            Ok(_) => {},
            Err(e) => {
                return Err(e);
            },
        }
        finish(out)
    }
}

} // verus!
