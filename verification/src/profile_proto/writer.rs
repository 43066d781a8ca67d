//! Builds a profile document from resolved allocations: interns strings,
//! keeps one function per function address, and emits one location per
//! resolved frame and one sample per allocation.

use super::profile_proto::{
    encoded, function_bytes, location_bytes, profile_bytes, sample_bytes, value_type_bytes,
    Function, Label, Line, Location, LocationView, Message, Profile, ProfileView, Sample,
    SampleView, ValueType,
};
use super::wire::{
    key, lemma_repeated_bound, lemma_varint_len, repeated, EncodeError, MAX_MESSAGE_SIZE,
};
use crate::profiler::{AllocSymbolFrames, AllocSymbolFramesView, SymbolInfo, SymbolView};
use crate::text::{pointer_label, pointer_text};
use std::collections::HashMap;
use vstd::prelude::*;

verus! {

/// Whether `table` is a sound string table: it begins with the empty string
/// and holds no string twice.
pub open spec fn interned(table: Seq<Seq<char>>) -> bool {
    &&& table.len() > 0
    &&& table[0] == Seq::<char>::empty()
    &&& table.no_duplicates()
}

/// The id that interning `text` into `table` yields: its place if it is
/// there, else the next free place.
pub open spec fn id_after(table: Seq<Seq<char>>, text: Seq<char>) -> int {
    if table.contains(text) {
        table.index_of(text)
    } else {
        table.len() as int
    }
}

/// The table after interning `text`: unchanged if it is there, else with
/// `text` at the end.
pub open spec fn table_after(table: Seq<Seq<char>>, text: Seq<char>) -> Seq<Seq<char>> {
    if table.contains(text) {
        table
    } else {
        table.push(text)
    }
}

/// One step of the hash that the cache is keyed by.
spec fn mixed(h: u64, byte: u8) -> u64 {
    ((h * 31 + byte) % 0x1_0000_0000_0000_0000) as u64
}

/// The hash of a run of bytes.
spec fn bytes_hash(bytes: Seq<u8>) -> u64
    decreases bytes.len(),
{
    if bytes.len() == 0 {
        0
    } else {
        mixed(bytes_hash(bytes.drop_last()), bytes.last())
    }
}

/// The hash of a text: that of its UTF-8 bytes.
spec fn text_hash(text: Seq<char>) -> u64 {
    bytes_hash(vstd::utf8::encode_utf8(text))
}

/// Hashes a text.
fn hash_text(text: &str) -> (h: u64)
    ensures
        h == text_hash(text@),
{
    let bytes = text.as_bytes();
    let mut h: u64 = 0;
    let mut i: usize = 0;
    while i < bytes.len()
        invariant
            i <= bytes.len(),
            h == bytes_hash(bytes@.take(i as int)),
        decreases bytes.len() - i,
    {
        assert(bytes@.take(i + 1).drop_last() =~= bytes@.take(i as int));
        h = ((h as u128 * 31 + bytes[i] as u128) % 0x1_0000_0000_0000_0000u128) as u64;
        i += 1;
    }
    assert(bytes@.take(bytes.len() as int) =~= bytes@);
    h
}

/// The strings of a document, each held once; a string's id is its place.
/// A cache from a string's hash to the ids of the strings with that hash
/// finds a string without a walk over the table. The cache is keyed by an
/// integer because `vstd` specifies hash maps for integer keys and gives
/// `String` keys no model.
pub struct StringsTable {
    table: Vec<String>,
    cache: HashMap<u64, Vec<usize>>,
}

impl View for StringsTable {
    type V = Seq<Seq<char>>;

    closed spec fn view(&self) -> Seq<Seq<char>> {
        Seq::new(self.table@.len(), |i: int| self.table@[i]@)
    }
}

impl StringsTable {
    /// The table's invariant: it is a sound string table, every string is
    /// listed under its hash, and the cache lists nothing else.
    pub closed spec fn wf(&self) -> bool {
        interned(self@) && self.cached()
    }

    /// A table that satisfies its invariant is a sound string table.
    pub proof fn lemma_wf(&self)
        requires
            self.wf(),
        ensures
            interned(self@),
    {
    }

    /// A table that holds the empty string alone, at id 0.
    pub fn new() -> (st: StringsTable)
        ensures
            st.wf(),
            interned(st@),
            st@ == seq![Seq::<char>::empty()],
    {
        let mut st = StringsTable { table: Vec::new(), cache: HashMap::new() };
        assert(st@ =~= Seq::<Seq<char>>::empty());
        st.append(String::new());
        assert(st@ =~= seq![Seq::<char>::empty()]);
        st
    }

    /// Whether no string stands twice, every string is listed under its
    /// hash, and the cache lists nothing else.
    spec fn cached(&self) -> bool {
        &&& self@.no_duplicates()
        &&& forall|i: int|
            0 <= i < self.table@.len() ==> {
                &&& self.cache@.contains_key(text_hash(#[trigger] self.table@[i]@))
                &&& self.cache@[text_hash(self.table@[i]@)]@.contains(i as usize)
            }
        &&& forall|h: u64, j: int|
            self.cache@.contains_key(h) && 0 <= j < self.cache@[h]@.len() ==> {
                &&& (#[trigger] self.cache@[h]@[j]) < self.table@.len()
                &&& text_hash(self.table@[self.cache@[h]@[j] as int]@) == h
            }
    }

    /// The id of `s`, if the table holds it.
    fn find(&self, s: &String, h: u64) -> (found: Option<usize>)
        requires
            self.cached(),
            h == text_hash(s@),
        ensures
            match found {
                Some(idx) => idx < self@.len() && self@[idx as int] == s@,
                None => !self@.contains(s@),
            },
    {
        broadcast use vstd::std_specs::hash::group_hash_axioms;

        let held = self.table.len();
        match self.cache.get(&h) {
            Some(ids) => {
                let mut j: usize = 0;
                while j < ids.len()
                    invariant
                        self.cached(),
                        held == self.table@.len(),
                        self.cache@.contains_key(h),
                        ids@ == self.cache@[h]@,
                        j <= ids.len(),
                        forall|k: int| 0 <= k < j ==> self@[ids@[k] as int] != s@,
                    decreases ids.len() - j,
                {
                    let idx = ids[j];
                    assert(idx == self.cache@[h]@[j as int]);
                    if self.table[idx] == *s {
                        return Some(idx);
                    }
                    j += 1;
                }
                assert forall|i: int| 0 <= i < self@.len() implies self@[i] != s@ by {
                    if self@[i] == s@ {
                        assert(i < held);
                        assert(self.table@[i]@ == s@);
                        assert(text_hash(self.table@[i]@) == h);
                        assert(self.cache@[h]@.contains(i as usize));
                        let k = ids@.index_of(i as usize);
                        assert(ids@[k] == i as usize);
                        assert(self@[ids@[k] as int] != s@);
                    }
                }
                None
            },
            None => {
                assert forall|i: int| 0 <= i < self@.len() implies self@[i] != s@ by {
                    if self@[i] == s@ {
                        assert(i < self.table@.len());
                        assert(self.table@[i]@ == s@);
                        assert(self.cache@.contains_key(text_hash(self.table@[i]@)));
                    }
                }
                None
            },
        }
    }

    /// Puts a string that the table does not hold at its end.
    fn append(&mut self, s: String) -> (idx: usize)
        requires
            old(self).cached(),
            !old(self)@.contains(s@),
        ensures
            final(self).cached(),
            final(self)@ == old(self)@.push(s@),
            idx == old(self)@.len(),
    {
        broadcast use vstd::std_specs::hash::group_hash_axioms;

        let h = hash_text(s.as_str());
        let idx = self.table.len();
        let mut ids = match self.cache.remove(&h) {
            Some(ids) => ids,
            None => Vec::new(),
        };
        let ghost listed = ids@;
        ids.push(idx);
        self.table.push(s);
        self.cache.insert(h, ids);
        proof {
            assert(self@ =~= old(self)@.push(s@));
            assert(ids@[listed.len() as int] == idx);
            assert forall|i: int| 0 <= i < self.table@.len() implies {
                &&& self.cache@.contains_key(text_hash(#[trigger] self.table@[i]@))
                &&& self.cache@[text_hash(self.table@[i]@)]@.contains(i as usize)
            } by {
                if i < idx {
                    assert(self.table@[i] == old(self).table@[i]);
                    let hi = text_hash(old(self).table@[i]@);
                    if hi == h {
                        let k = listed.index_of(i as usize);
                        assert(listed[k] == i as usize);
                        assert(ids@[k] == i as usize);
                    }
                }
            }
            assert forall|k: u64, j: int|
                self.cache@.contains_key(k) && 0 <= j < self.cache@[k]@.len() implies {
                &&& (#[trigger] self.cache@[k]@[j]) < self.table@.len()
                &&& text_hash(self.table@[self.cache@[k]@[j] as int]@) == k
            } by {
                if k == h {
                    if j < listed.len() {
                        assert(ids@[j] == listed[j]);
                        assert(old(self).cache@[h]@[j] == listed[j]);
                    }
                } else {
                    assert(self.cache@[k] == old(self).cache@[k]);
                    assert(old(self).cache@[k]@[j] < old(self).table@.len());
                }
            }
            assert forall|i: int, j: int|
                0 <= i < self@.len() && 0 <= j < self@.len() && i != j implies self@[i]
                != self@[j] by {
                if i < idx {
                    assert(old(self)@.contains(old(self)@[i]));
                }
                if j < idx {
                    assert(old(self)@.contains(old(self)@[j]));
                }
            }
        }
        idx
    }

    /// Interns `s` and returns its id: the id it already has, or a new one
    /// after all the others.
    pub fn add(&mut self, s: String) -> (idx: usize)
        requires
            old(self).wf(),
        ensures
            final(self).wf(),
            interned(final(self)@),
            final(self)@ == table_after(old(self)@, s@),
            idx == id_after(old(self)@, s@),
    {
        let h = hash_text(s.as_str());
        match self.find(&s, h) {
            Some(idx) => idx,
            None => self.append(s),
        }
    }

    /// How many strings the table holds.
    pub fn len(&self) -> (n: usize)
        ensures
            n == self@.len(),
    {
        self.table.len()
    }

    /// The string with id `idx`.
    pub fn get(&self, idx: usize) -> (s: &String)
        requires
            idx < self@.len(),
        ensures
            s@ == self@[idx as int],
    {
        &self.table[idx]
    }

    /// The strings in the order of their ids.
    pub fn into_table(self) -> (table: Vec<String>)
        ensures
            table@.len() == self@.len(),
            forall|i: int| 0 <= i < table@.len() ==> table@[i]@ == self@[i],
    {
        self.table
    }
}

/// Interning keeps a sound table sound, keeps every id that was given, and
/// gives equal strings equal ids and different strings different ids; the
/// empty string has id 0.
pub proof fn lemma_interning(table: Seq<Seq<char>>, a: Seq<char>, b: Seq<char>)
    requires
        interned(table),
    ensures
        interned(table_after(table, a)),
        table.is_prefix_of(table_after(table, a)),
        0 <= id_after(table, a) < table_after(table, a).len(),
        id_after(table_after(table, a), a) == id_after(table, a),
        table_after(table, a)[id_after(table, a)] == a,
        table.contains(b) ==> id_after(table_after(table, a), b) == id_after(table, b),
        (id_after(table_after(table, a), b) == id_after(table, a)) <==> a == b,
        id_after(table, Seq::<char>::empty()) == 0,
{
    let after = table_after(table, a);
    assert(table.contains(Seq::<char>::empty()));
    if table.contains(a) {
    } else {
        assert(after[table.len() as int] == a);
        assert(after.contains(a));
        assert forall|i: int, j: int| 0 <= i < after.len() && 0 <= j < after.len() && i != j
        implies after[i] != after[j] by {
            if i < table.len() && j < table.len() {
            } else if i < table.len() {
                assert(table.contains(table[i]));
            } else {
                assert(table.contains(table[j]));
            }
        }
    }
    assert(after.contains(a));
    if table.contains(b) {
        let i = table.index_of(b);
        assert(table[i] == b);
        assert(after[i] == b);
    }
    if after.contains(b) {
        assert(after[after.index_of(b)] == b);
    }
}

/// The functions of a document with the address that each was found at.
pub struct FunctionsView {
    pub functions: Seq<Function>,
    pub addrs: Seq<usize>,
}

/// Whether `fv` is a sound function table: one function per address, no
/// address twice, and the function at place `i` has id `i + 1`.
pub open spec fn distinct_functions(fv: FunctionsView) -> bool {
    &&& fv.addrs.len() == fv.functions.len()
    &&& fv.addrs.no_duplicates()
    &&& forall|i: int| 0 <= i < fv.functions.len() ==> (#[trigger] fv.functions[i]).id == i + 1
}

/// What adding a symbol's function came to.
#[derive(Debug, Clone, Copy, PartialEq, Eq, Structural)]
pub enum FuncationAdd {
    /// The function's address was known; this is the id it has.
    Exist(usize),
    /// The function is new; this is the id it was given.
    Insert(usize),
}

/// The function that a first sighting of `symbol` enters under `id`, given
/// the string table at that moment.
pub open spec fn function_of(strings: Seq<Seq<char>>, symbol: SymbolView, id: int) -> Function {
    let name = id_after(strings, symbol.name);
    let filename = id_after(table_after(strings, symbol.name), symbol.file_name);
    Function {
        id: id as u64,
        name: name as usize as i64,
        system_name: name as usize as i64,
        filename: filename as usize as i64,
        start_line: symbol.line_no as i64,
    }
}

/// The function table after a sighting of `symbol`.
pub open spec fn functions_after(
    fv: FunctionsView,
    strings: Seq<Seq<char>>,
    symbol: SymbolView,
) -> FunctionsView {
    if fv.addrs.contains(symbol.addr) {
        fv
    } else {
        FunctionsView {
            functions: fv.functions.push(function_of(strings, symbol, (fv.functions.len() + 1) as int)),
            addrs: fv.addrs.push(symbol.addr),
        }
    }
}

/// The string table after a sighting of `symbol`: a new function interns its
/// name, then its file name.
pub open spec fn strings_after(
    fv: FunctionsView,
    strings: Seq<Seq<char>>,
    symbol: SymbolView,
) -> Seq<Seq<char>> {
    if fv.addrs.contains(symbol.addr) {
        strings
    } else {
        table_after(table_after(strings, symbol.name), symbol.file_name)
    }
}

/// What a sighting of `symbol` answers: the id of its function.
pub open spec fn sighting(fv: FunctionsView, symbol: SymbolView) -> FuncationAdd {
    if fv.addrs.contains(symbol.addr) {
        FuncationAdd::Exist((fv.addrs.index_of(symbol.addr) + 1) as usize)
    } else {
        FuncationAdd::Insert((fv.functions.len() + 1) as usize)
    }
}

/// A sound function table stays sound under any sighting, and a second
/// sighting of an address enters nothing and answers with the id that the
/// first one was given.
pub proof fn lemma_function_dedup(
    fv: FunctionsView,
    strings: Seq<Seq<char>>,
    first: SymbolView,
    later_strings: Seq<Seq<char>>,
    second: SymbolView,
)
    requires
        distinct_functions(fv),
        fv.addrs.contains(first.addr) || fv.functions.len() < usize::MAX,
        second.addr == first.addr,
    ensures
        distinct_functions(functions_after(fv, strings, first)),
        functions_after(functions_after(fv, strings, first), later_strings, second)
            == functions_after(fv, strings, first),
        sighting(functions_after(fv, strings, first), second) == FuncationAdd::Exist(
            function_id(sighting(fv, first)),
        ),
{
    let after = functions_after(fv, strings, first);
    if fv.addrs.contains(first.addr) {
        let at = fv.addrs.index_of(first.addr);
        assert(fv.addrs[at] == first.addr);
    } else {
        let at = fv.addrs.len() as int;
        assert(after.addrs[at] == first.addr);
        assert(after.addrs.contains(first.addr));
        assert forall|i: int, j: int|
            0 <= i < after.addrs.len() && 0 <= j < after.addrs.len() && i != j
        implies after.addrs[i] != after.addrs[j] by {
            if i < at {
                assert(fv.addrs.contains(fv.addrs[i]));
            }
            if j < at {
                assert(fv.addrs.contains(fv.addrs[j]));
            }
        }
        let found = after.addrs.index_of(first.addr);
        assert(after.addrs[found] == first.addr);
        assert(found == at);
    }
}

/// The functions of a document, one per function address.
pub struct FuncationsTable {
    table: Vec<Function>,
    index: HashMap<usize, usize>,
    addrs: Ghost<Seq<usize>>,
}

impl View for FuncationsTable {
    type V = FunctionsView;

    closed spec fn view(&self) -> FunctionsView {
        FunctionsView { functions: self.table@, addrs: self.addrs@ }
    }
}

impl FuncationsTable {
    /// The table's invariant.
    pub closed spec fn wf(&self) -> bool {
        &&& distinct_functions(self@)
        &&& forall|a: usize| self.index@.contains_key(a) <==> self.addrs@.contains(a)
        &&& forall|i: int|
            0 <= i < self.addrs@.len() ==> self.index@[#[trigger] self.addrs@[i]] == i + 1
    }

    /// A sound table has distinct functions.
    pub proof fn lemma_wf(&self)
        requires
            self.wf(),
        ensures
            distinct_functions(self@),
    {
    }

    /// An empty table.
    pub fn new() -> (ft: FuncationsTable)
        ensures
            ft.wf(),
            ft@.functions == Seq::<Function>::empty(),
            ft@.addrs == Seq::<usize>::empty(),
    {
        FuncationsTable { table: Vec::new(), index: HashMap::new(), addrs: Ghost(Seq::empty()) }
    }

    /// How many functions the table holds.
    pub fn len(&self) -> (n: usize)
        ensures
            n == self@.functions.len(),
    {
        self.table.len()
    }

    /// The functions in the order of their ids.
    pub fn into_table(self) -> (table: Vec<Function>)
        ensures
            table@ == self@.functions,
    {
        self.table
    }

    /// Records a sighting of `symbol`. A known function address answers with
    /// the id it has and changes nothing. A new one is given the next id,
    /// and its name and file name are interned, in that order. Only a new
    /// address needs room in the table: ids are counted in `usize`.
    pub fn add(&mut self, strings: &mut StringsTable, symbol: SymbolInfo) -> (r: FuncationAdd)
        requires
            old(self).wf(),
            old(strings).wf(),
            old(self)@.addrs.contains(symbol@.addr) || old(self)@.functions.len() < usize::MAX,
        ensures
            final(self).wf(),
            final(strings).wf(),
            final(self)@ == functions_after(old(self)@, old(strings)@, symbol@),
            final(strings)@ == strings_after(old(self)@, old(strings)@, symbol@),
            r == sighting(old(self)@, symbol@),
    {
        broadcast use vstd::std_specs::hash::group_hash_axioms;

        match self.index.get(&symbol.addr) {
            Some(index) => {
                let id: usize = *index;
                proof {
                    let at = self.addrs@.index_of(symbol.addr);
                    assert(self.addrs@[at] == symbol.addr);
                }
                FuncationAdd::Exist(id)
            },
            None => {
                let index: usize = self.table.len() + 1;
                let ghost before = strings@;
                let name = strings.add(symbol.name);
                let filename = strings.add(symbol.file_name);
                proof {
                    lemma_interning(before, symbol.name@, symbol.file_name@);
                }
                let func = Function {
                    id: index as u64,
                    name: name as i64,
                    system_name: name as i64,
                    filename: filename as i64,
                    start_line: symbol.line_no as i64,
                };
                self.table.push(func);
                self.index.insert(symbol.addr, index);
                proof {
                    self.addrs@ = self.addrs@.push(symbol.addr);
                    assert(func == function_of(before, symbol@, index as int));
                    assert forall|a: usize|
                        self.index@.contains_key(a) <==> self.addrs@.contains(a) by {
                        if old(self).addrs@.contains(a) {
                            let i = old(self).addrs@.index_of(a);
                            assert(self.addrs@[i] == a);
                        }
                        if a == symbol.addr {
                            assert(self.addrs@[index - 1] == a);
                        }
                    }
                    assert forall|i: int| 0 <= i < self.addrs@.len() implies self.index@[#[trigger] self.addrs@[i]]
                        == i + 1 by {
                        if i < index - 1 {
                            assert(old(self).addrs@.contains(old(self).addrs@[i]));
                        }
                    }
                    assert forall|i: int, j: int|
                        0 <= i < self.addrs@.len() && 0 <= j < self.addrs@.len() && i != j
                    implies self.addrs@[i] != self.addrs@[j] by {
                        if i < index - 1 {
                            assert(old(self).addrs@.contains(old(self).addrs@[i]));
                        }
                        if j < index - 1 {
                            assert(old(self).addrs@.contains(old(self).addrs@[j]));
                        }
                    }
                }
                FuncationAdd::Insert(index)
            },
        }
    }
}

/// The key of the label that ties a sample to its allocation.
pub open spec fn block_key() -> Seq<char> {
    "block"@
}

/// The kind of value that a sample measures.
pub open spec fn space_type() -> Seq<char> {
    "space"@
}

/// The unit of a sample's value.
pub open spec fn bytes_unit() -> Seq<char> {
    "bytes"@
}

/// A document under construction.
pub struct WriterView {
    pub strings: Seq<Seq<char>>,
    pub functions: FunctionsView,
    pub locations: Seq<LocationView>,
    pub samples: Seq<SampleView>,
}

/// The id of the function that a sighting answered with.
pub open spec fn function_id(r: FuncationAdd) -> usize {
    match r {
        FuncationAdd::Exist(id) => id,
        FuncationAdd::Insert(id) => id,
    }
}

/// The document after one resolved frame: its function is entered if it is
/// new, and the frame becomes a location of its own, with the next id.
pub open spec fn frame_added(w: WriterView, frame: SymbolView) -> WriterView {
    WriterView {
        strings: strings_after(w.functions, w.strings, frame),
        functions: functions_after(w.functions, w.strings, frame),
        locations: w.locations.push(
            LocationView {
                id: (w.locations.len() + 1) as u64,
                address: frame.addr as u64,
                line: seq![
                    Line {
                        function_id: function_id(sighting(w.functions, frame)) as u64,
                        line: frame.line_no as i64,
                    },
                ],
            },
        ),
        samples: w.samples,
    }
}

/// The document after the frames of one stack, in capture order.
pub open spec fn frames_added(w: WriterView, frames: Seq<SymbolView>) -> WriterView
    decreases frames.len(),
{
    if frames.len() == 0 {
        w
    } else {
        frame_added(frames_added(w, frames.drop_last()), frames.last())
    }
}

/// The ids of `count` locations entered one after the other, the first of
/// them when the table held `held` locations.
pub open spec fn stack_ids(held: nat, count: nat) -> Seq<u64> {
    Seq::new(count, |i: int| (held + 1 + i) as u64)
}

/// The document after one allocation: its frames, then the label's key and
/// the allocation's address as text are interned, and a sample is added
/// that holds the stack's locations, the size, and the label.
pub open spec fn record_added(w: WriterView, rec: AllocSymbolFramesView) -> WriterView {
    let framed = frames_added(w, rec.frames);
    let keyed = table_after(framed.strings, block_key());
    WriterView {
        strings: table_after(keyed, pointer_text(rec.ptr)),
        functions: framed.functions,
        locations: framed.locations,
        samples: w.samples.push(
            SampleView {
                location_id: stack_ids(w.locations.len(), rec.frames.len()),
                value: seq![rec.size as i64],
                label: seq![
                    Label {
                        key: id_after(framed.strings, block_key()) as usize as i64,
                        str: id_after(keyed, pointer_text(rec.ptr)) as usize as i64,
                    },
                ],
            },
        ),
    }
}

/// The allocations of a run: the document after `recs`, in order.
pub open spec fn records_added(w: WriterView, recs: Seq<AllocSymbolFramesView>) -> WriterView
    decreases recs.len(),
{
    if recs.len() == 0 {
        w
    } else {
        record_added(records_added(w, recs.drop_last()), recs.last())
    }
}

/// The frames of a stack enter one location each and leave the samples
/// alone.
pub proof fn lemma_frames_added(w: WriterView, frames: Seq<SymbolView>)
    ensures
        frames_added(w, frames).samples == w.samples,
        frames_added(w, frames).locations.len() == w.locations.len() + frames.len(),
        frames_added(w, frames).functions.functions.len() <= w.functions.functions.len()
            + frames.len(),
    decreases frames.len(),
{
    if frames.len() > 0 {
        lemma_frames_added(w, frames.drop_last());
    }
}

/// The frames of a stack keep a sound function table sound and keep every
/// function that was there, and the function of each frame is in the table
/// afterwards.
pub proof fn lemma_frames_functions(w: WriterView, frames: Seq<SymbolView>)
    requires
        distinct_functions(w.functions),
        frames_added(w, frames).functions.functions.len() < usize::MAX,
    ensures
        distinct_functions(frames_added(w, frames).functions),
        w.functions.functions.len() <= frames_added(w, frames).functions.functions.len(),
        forall|addr: usize|
            w.functions.addrs.contains(addr) ==> frames_added(w, frames).functions.addrs.contains(
                addr,
            ),
        forall|j: int|
            0 <= j < frames.len() ==> frames_added(w, frames).functions.addrs.contains(
                (#[trigger] frames[j]).addr,
            ),
    decreases frames.len(),
{
    if frames.len() > 0 {
        let before = frames_added(w, frames.drop_last());
        let after = frames_added(w, frames);
        let frame = frames.last();
        lemma_frames_functions(w, frames.drop_last());
        lemma_function_dedup(before.functions, before.strings, frame, before.strings, frame);
        assert forall|addr: usize| before.functions.addrs.contains(addr)
        implies after.functions.addrs.contains(addr) by {
            let at = before.functions.addrs.index_of(addr);
            assert(before.functions.addrs[at] == addr);
            assert(after.functions.addrs[at] == addr);
        }
        assert(after.functions.addrs.contains(frame.addr)) by {
            if !before.functions.addrs.contains(frame.addr) {
                assert(after.functions.addrs[before.functions.addrs.len() as int] == frame.addr);
            }
        }
        assert forall|j: int| 0 <= j < frames.len() implies after.functions.addrs.contains(
            (#[trigger] frames[j]).addr,
        ) by {
            if j < frames.len() - 1 {
                assert(frames.drop_last()[j] == frames[j]);
            }
        }
    }
}

/// A run of allocations keeps a sound function table sound: the table holds
/// one function for each function address that occurs in a stack, and none
/// twice.
pub proof fn lemma_records_functions(w: WriterView, recs: Seq<AllocSymbolFramesView>)
    requires
        distinct_functions(w.functions),
        records_added(w, recs).functions.functions.len() < usize::MAX,
    ensures
        distinct_functions(records_added(w, recs).functions),
        w.functions.functions.len() <= records_added(w, recs).functions.functions.len(),
        forall|addr: usize|
            w.functions.addrs.contains(addr) ==> records_added(w, recs).functions.addrs.contains(
                addr,
            ),
        forall|i: int, j: int|
            0 <= i < recs.len() && 0 <= j < recs[i].frames.len() ==> records_added(
                w,
                recs,
            ).functions.addrs.contains((#[trigger] recs[i].frames[j]).addr),
    decreases recs.len(),
{
    if recs.len() > 0 {
        let before = records_added(w, recs.drop_last());
        let after = records_added(w, recs);
        let rec = recs.last();
        assert(after.functions == frames_added(before, rec.frames).functions);
        lemma_frames_len_functions(before, rec.frames);
        lemma_records_functions(w, recs.drop_last());
        lemma_frames_functions(before, rec.frames);
        assert forall|i: int, j: int| 0 <= i < recs.len() && 0 <= j < recs[i].frames.len()
        implies after.functions.addrs.contains((#[trigger] recs[i].frames[j]).addr) by {
            if i < recs.len() - 1 {
                assert(recs.drop_last()[i] == recs[i]);
                assert(before.functions.addrs.contains(recs.drop_last()[i].frames[j].addr));
            }
        }
    }
}

/// The frames of a stack never shorten the function table.
proof fn lemma_frames_len_functions(w: WriterView, frames: Seq<SymbolView>)
    ensures
        w.functions.functions.len() <= frames_added(w, frames).functions.functions.len(),
    decreases frames.len(),
{
    if frames.len() > 0 {
        lemma_frames_len_functions(w, frames.drop_last());
    }
}

/// The frames of a stack keep a sound string table sound and keep every
/// string at its place.
pub proof fn lemma_frames_strings(w: WriterView, frames: Seq<SymbolView>)
    requires
        interned(w.strings),
    ensures
        interned(frames_added(w, frames).strings),
        w.strings.is_prefix_of(frames_added(w, frames).strings),
    decreases frames.len(),
{
    if frames.len() > 0 {
        let before = frames_added(w, frames.drop_last());
        lemma_frames_strings(w, frames.drop_last());
        let frame = frames.last();
        lemma_interning(before.strings, frame.name, frame.file_name);
        lemma_interning(table_after(before.strings, frame.name), frame.file_name, frame.name);
    }
}

/// One allocation keeps a sound string table sound and every string at its
/// place, and the label of its sample names the key `block` and the
/// allocation's address as text.
pub proof fn lemma_record_label(w: WriterView, rec: AllocSymbolFramesView)
    requires
        interned(w.strings),
        indexable(record_added(w, rec).strings.len()),
    ensures
        interned(record_added(w, rec).strings),
        w.strings.is_prefix_of(record_added(w, rec).strings),
        ({
            let after = record_added(w, rec);
            let label = after.samples.last().label[0];
            &&& 0 <= label.key < after.strings.len()
            &&& 0 <= label.str < after.strings.len()
            &&& after.strings[label.key as int] == block_key()
            &&& after.strings[label.str as int] == pointer_text(rec.ptr)
        }),
{
    let framed = frames_added(w, rec.frames);
    lemma_frames_strings(w, rec.frames);
    let keyed = table_after(framed.strings, block_key());
    lemma_interning(framed.strings, block_key(), pointer_text(rec.ptr));
    lemma_interning(keyed, pointer_text(rec.ptr), block_key());
    let after = record_added(w, rec);
    let key = id_after(framed.strings, block_key());
    let text = id_after(keyed, pointer_text(rec.ptr));
    assert(after.strings[key] == keyed[key]);
    let label = after.samples.last().label[0];
    assert(label.key == key);
    assert(label.str == text);
}

/// One allocation never shortens the string table.
proof fn lemma_frames_strings_len(w: WriterView, rec: AllocSymbolFramesView)
    ensures
        w.strings.len() <= record_added(w, rec).strings.len(),
{
    lemma_frames_len(w, rec.frames);
}

/// The frames of a stack never shorten the string table.
proof fn lemma_frames_len(w: WriterView, frames: Seq<SymbolView>)
    ensures
        w.strings.len() <= frames_added(w, frames).strings.len(),
    decreases frames.len(),
{
    if frames.len() > 0 {
        lemma_frames_len(w, frames.drop_last());
    }
}

/// Whether a table of `n` strings has ids that fit the document's fields.
pub open spec fn indexable(n: nat) -> bool {
    n <= i64::MAX && n <= usize::MAX
}

/// Whether `sample` stands for the allocation `rec` in a document with
/// these strings: its value is the size, it has one location for each
/// frame, and its one label has the key `block` and, as text, the
/// allocation's address.
pub open spec fn stands_for(
    strings: Seq<Seq<char>>,
    sample: SampleView,
    rec: AllocSymbolFramesView,
) -> bool {
    &&& sample.value == seq![rec.size as i64]
    &&& sample.location_id.len() == rec.frames.len()
    &&& sample.label.len() == 1
    &&& 0 <= sample.label[0].key < strings.len()
    &&& 0 <= sample.label[0].str < strings.len()
    &&& strings[sample.label[0].key as int] == block_key()
    &&& strings[sample.label[0].str as int] == pointer_text(rec.ptr)
}

/// Whether the location at place `k` has id `k + 1`, for every place.
pub open spec fn numbered(locations: Seq<LocationView>) -> bool {
    forall|k: int| 0 <= k < locations.len() ==> (#[trigger] locations[k]).id == k + 1
}

/// Whether every location id of `sample` is the id of an entry of
/// `locations`.
pub open spec fn located(locations: Seq<LocationView>, sample: SampleView) -> bool {
    forall|j: int|
        0 <= j < sample.location_id.len() ==> 1 <= (#[trigger] sample.location_id[j])
            <= locations.len() && locations[sample.location_id[j] - 1].id
            == sample.location_id[j]
}

/// The frames of a stack keep the locations numbered and keep every
/// location at its place.
pub proof fn lemma_frames_numbered(w: WriterView, frames: Seq<SymbolView>)
    requires
        numbered(w.locations),
        frames_added(w, frames).locations.len() <= u64::MAX,
    ensures
        numbered(frames_added(w, frames).locations),
        w.locations.is_prefix_of(frames_added(w, frames).locations),
    decreases frames.len(),
{
    if frames.len() > 0 {
        lemma_frames_added(w, frames.drop_last());
        lemma_frames_added(w, frames);
        lemma_frames_numbered(w, frames.drop_last());
    }
}

/// A run of allocations keeps the locations numbered, and every location
/// id of every sample that it adds is the id of an entry of the location
/// table.
pub proof fn lemma_records_located(w: WriterView, recs: Seq<AllocSymbolFramesView>)
    requires
        numbered(w.locations),
        records_added(w, recs).locations.len() <= u64::MAX,
    ensures
        numbered(records_added(w, recs).locations),
        w.locations.is_prefix_of(records_added(w, recs).locations),
        records_added(w, recs).samples.len() == w.samples.len() + recs.len(),
        forall|i: int|
            0 <= i < recs.len() ==> located(
                records_added(w, recs).locations,
                #[trigger] records_added(w, recs).samples[w.samples.len() + i],
            ),
    decreases recs.len(),
{
    if recs.len() > 0 {
        let shorter = recs.drop_last();
        let before = records_added(w, shorter);
        let after = records_added(w, recs);
        let rec = recs.last();
        lemma_frames_added(before, rec.frames);
        lemma_records_located(w, shorter);
        lemma_frames_numbered(before, rec.frames);
        assert(after.locations == frames_added(before, rec.frames).locations);
        assert forall|i: int| 0 <= i < recs.len() implies located(
            after.locations,
            #[trigger] after.samples[w.samples.len() + i],
        ) by {
            let sample = after.samples[w.samples.len() + i];
            if i < recs.len() - 1 {
                assert(sample == before.samples[w.samples.len() + i]);
                assert(located(before.locations, sample));
                assert forall|j: int| 0 <= j < sample.location_id.len() implies 1 <= (
                #[trigger] sample.location_id[j]) <= after.locations.len()
                    && after.locations[sample.location_id[j] - 1].id == sample.location_id[j] by {
                    assert(after.locations[sample.location_id[j] - 1]
                        == before.locations[sample.location_id[j] - 1]);
                }
            } else {
                assert(sample == after.samples.last());
                assert(sample.location_id == stack_ids(before.locations.len(), rec.frames.len()));
            }
        }
    }
}

/// In the finished document of a run of allocations every location id of
/// every sample is the id of an entry of the location table.
pub proof fn lemma_dump_locations(recs: Seq<AllocSymbolFramesView>)
    requires
        finished(records_added(fresh(), recs)).location.len() <= u64::MAX,
    ensures
        numbered(finished(records_added(fresh(), recs)).location),
        forall|i: int|
            0 <= i < recs.len() ==> located(
                finished(records_added(fresh(), recs)).location,
                #[trigger] finished(records_added(fresh(), recs)).sample[i],
            ),
{
    lemma_records_located(fresh(), recs);
    let w = records_added(fresh(), recs);
    assert forall|i: int| 0 <= i < recs.len() implies located(
        finished(w).location,
        #[trigger] finished(w).sample[i],
    ) by {
        assert(located(w.locations, w.samples[fresh().samples.len() + i]));
    }
}

/// In the finished document of a run of allocations the string table is
/// sound and sample `i` stands for allocation `i`.
pub proof fn lemma_dump_samples(recs: Seq<AllocSymbolFramesView>)
    requires
        indexable(finished(records_added(fresh(), recs)).string_table.len()),
    ensures
        finished(records_added(fresh(), recs)).sample.len() == recs.len(),
        interned(finished(records_added(fresh(), recs)).string_table),
        forall|i: int|
            0 <= i < recs.len() ==> stands_for(
                finished(records_added(fresh(), recs)).string_table,
                #[trigger] finished(records_added(fresh(), recs)).sample[i],
                recs[i],
            ),
{
    let w = records_added(fresh(), recs);
    let doc = finished(w);
    assert(interned(fresh().strings));
    lemma_labels_stay(fresh(), recs);
    lemma_interning(w.strings, space_type(), bytes_unit());
    lemma_interning(table_after(w.strings, space_type()), bytes_unit(), space_type());
    assert forall|i: int| 0 <= i < recs.len() implies stands_for(
        doc.string_table,
        #[trigger] doc.sample[i],
        recs[i],
    ) by {
        assert(stands_for(w.strings, w.samples[fresh().samples.len() + i], recs[i]));
    }
}

/// Every sample of a run still stands for its allocation when the run is
/// over.
proof fn lemma_labels_stay(w: WriterView, recs: Seq<AllocSymbolFramesView>)
    requires
        interned(w.strings),
        indexable(records_added(w, recs).strings.len()),
    ensures
        interned(records_added(w, recs).strings),
        w.strings.is_prefix_of(records_added(w, recs).strings),
        records_added(w, recs).samples.len() == w.samples.len() + recs.len(),
        forall|i: int|
            0 <= i < recs.len() ==> stands_for(
                records_added(w, recs).strings,
                #[trigger] records_added(w, recs).samples[w.samples.len() + i],
                recs[i],
            ),
    decreases recs.len(),
{
    if recs.len() > 0 {
        let shorter = recs.drop_last();
        let before = records_added(w, shorter);
        let after = records_added(w, recs);
        lemma_frames_strings_len(before, recs.last());
        lemma_labels_stay(w, shorter);
        lemma_record_label(before, recs.last());
        lemma_frames_added(before, recs.last().frames);
        assert forall|i: int| 0 <= i < recs.len() implies stands_for(
            after.strings,
            #[trigger] after.samples[w.samples.len() + i],
            recs[i],
        ) by {
            if i < recs.len() - 1 {
                assert(after.samples[w.samples.len() + i] == before.samples[w.samples.len() + i]);
                assert(shorter[i] == recs[i]);
            } else {
                assert(after.samples[w.samples.len() + i] == after.samples.last());
            }
        }
    }
}

/// Whether the tables can take `records` more allocations with `frames`
/// frames in all: a function and a location for each frame, and two
/// strings for each frame and for each allocation, with ids that fit the
/// document's fields.
pub open spec fn room_for(w: WriterView, frames: nat, records: nat) -> bool {
    &&& w.functions.functions.len() + frames < usize::MAX
    &&& w.locations.len() + frames < usize::MAX
    &&& indexable(w.strings.len() + 2 * frames + 2 * records)
}

/// Whether the tables can take one more allocation with `frames` frames.
pub open spec fn has_room(w: WriterView, frames: nat) -> bool {
    room_for(w, frames, 1)
}

/// The frames of a stack enter two strings each at most.
pub proof fn lemma_frames_strings_bound(w: WriterView, frames: Seq<SymbolView>)
    ensures
        frames_added(w, frames).strings.len() <= w.strings.len() + 2 * frames.len(),
    decreases frames.len(),
{
    if frames.len() > 0 {
        lemma_frames_strings_bound(w, frames.drop_last());
    }
}

/// One allocation enters two strings for each frame at most, and two more.
pub proof fn lemma_record_strings_bound(w: WriterView, rec: AllocSymbolFramesView)
    ensures
        record_added(w, rec).strings.len() <= w.strings.len() + 2 * rec.frames.len() + 2,
{
    lemma_frames_strings_bound(w, rec.frames);
}

/// Whether `strings + 2 * frames + 2` strings have ids that fit the
/// document's fields.
fn ids_fit(strings: usize, frames: usize) -> (fit: bool)
    ensures
        fit == indexable((strings + 2 * frames + 2) as nat),
{
    let need: u128 = strings as u128 + 2 * (frames as u128) + 2;
    need <= i64::MAX as u128 && need <= usize::MAX as u128
}

/// The finished document: the sample type `space` in `bytes` is interned
/// last.
pub open spec fn finished(w: WriterView) -> ProfileView {
    let typed = table_after(w.strings, space_type());
    ProfileView {
        sample_type: seq![
            ValueType {
                type_: id_after(w.strings, space_type()) as usize as i64,
                unit: id_after(typed, bytes_unit()) as usize as i64,
            },
        ],
        sample: w.samples,
        location: w.locations,
        function: w.functions.functions,
        string_table: table_after(typed, bytes_unit()),
    }
}

/// The document that a new writer holds: the empty string and nothing
/// else.
pub open spec fn fresh() -> WriterView {
    WriterView {
        strings: seq![Seq::<char>::empty()],
        functions: FunctionsView { functions: Seq::empty(), addrs: Seq::empty() },
        locations: Seq::empty(),
        samples: Seq::empty(),
    }
}

/// The document of a new writer holds the sample type `space` in `bytes`,
/// the strings empty, `space` and `bytes`, and nothing else, and it is far
/// shorter than `MAX_MESSAGE_SIZE`.
pub proof fn lemma_fresh_document()
    ensures
        finished(fresh()).sample_type == seq![ValueType { type_: 1, unit: 2 }],
        finished(fresh()).string_table == seq![Seq::<char>::empty(), space_type(), bytes_unit()],
        finished(fresh()).sample.len() == 0,
        finished(fresh()).location.len() == 0,
        finished(fresh()).function.len() == 0,
        profile_bytes(finished(fresh())).len() <= MAX_MESSAGE_SIZE,
{
    reveal_strlit("space");
    reveal_strlit("bytes");
    let strings = fresh().strings;
    let doc = finished(fresh());
    assert(space_type().len() == 5 && bytes_unit().len() == 5);
    assert(space_type()[0] == 's' && bytes_unit()[0] == 'b');
    assert(!strings.contains(space_type()));
    let typed = table_after(strings, space_type());
    assert(typed =~= seq![Seq::<char>::empty(), space_type()]);
    assert(!typed.contains(bytes_unit()));
    assert(doc.string_table =~= seq![Seq::<char>::empty(), space_type(), bytes_unit()]);
    assert(doc.sample_type =~= seq![ValueType { type_: 1, unit: 2 }]);
    let types = Seq::new(doc.sample_type.len(), |i: int| value_type_bytes(doc.sample_type[i]));
    let samples = Seq::new(doc.sample.len(), |i: int| sample_bytes(doc.sample[i]));
    let locations = Seq::new(doc.location.len(), |i: int| location_bytes(doc.location[i]));
    let functions = Seq::new(doc.function.len(), |i: int| function_bytes(doc.function[i]));
    let texts = Seq::new(
        doc.string_table.len(),
        |i: int| vstd::utf8::encode_utf8(doc.string_table[i]),
    );
    assert forall|i: int| 0 <= i < types.len() implies (#[trigger] types[i]).len() <= 24 by {
        lemma_varint_len(key(1, 0));
        lemma_varint_len(key(2, 0));
        lemma_varint_len(1);
        lemma_varint_len(2);
    }
    assert forall|i: int| 0 <= i < texts.len() implies (#[trigger] texts[i]).len() <= 5 by {
        assert(vstd::utf8::is_ascii_chars(doc.string_table[i]));
        vstd::utf8::is_ascii_chars_encode_utf8(doc.string_table[i]);
    }
    lemma_repeated_bound(1, types, 24);
    lemma_repeated_bound(2, samples, 0);
    lemma_repeated_bound(4, locations, 0);
    lemma_repeated_bound(5, functions, 0);
    lemma_repeated_bound(6, texts, 5);
    assert(types.len() == 1 && texts.len() == 3);
    assert(samples.len() == 0 && locations.len() == 0 && functions.len() == 0);
    assert(repeated(1, types).len() <= 44);
    assert(repeated(6, texts).len() <= 75);
    assert(repeated(2, samples).len() == 0);
    assert(repeated(4, locations).len() == 0);
    assert(repeated(5, functions).len() == 0);
}

/// Collects resolved allocations into a profile document.
pub struct ProfileProtoWriter {
    strings_table: StringsTable,
    functions_table: FuncationsTable,
    loc_table: Vec<Location>,
    samples: Vec<Sample>,
}

impl View for ProfileProtoWriter {
    type V = WriterView;

    closed spec fn view(&self) -> WriterView {
        WriterView {
            strings: self.strings_table@,
            functions: self.functions_table@,
            locations: Seq::new(self.loc_table@.len(), |i: int| self.loc_table@[i]@),
            samples: Seq::new(self.samples@.len(), |i: int| self.samples@[i]@),
        }
    }
}

impl ProfileProtoWriter {
    /// The writer's invariant: both tables are sound.
    pub closed spec fn wf(&self) -> bool {
        &&& self.strings_table.wf()
        &&& self.functions_table.wf()
    }

    /// A sound writer holds a sound string table and distinct functions.
    pub proof fn lemma_wf(&self)
        requires
            self.wf(),
        ensures
            interned(self@.strings),
            distinct_functions(self@.functions),
    {
        self.functions_table.lemma_wf();
    }

    /// A writer that holds nothing but the empty string.
    pub fn new() -> (w: ProfileProtoWriter)
        ensures
            w.wf(),
            w@ == fresh(),
    {
        let w = ProfileProtoWriter {
            strings_table: StringsTable::new(),
            functions_table: FuncationsTable::new(),
            loc_table: Vec::new(),
            samples: Vec::new(),
        };
        assert(w@.locations =~= Seq::<LocationView>::empty());
        assert(w@.samples =~= Seq::<SampleView>::empty());
        assert(w@.functions == fresh().functions);
        w
    }

    /// Enters one resolved frame and returns the id of its location.
    fn write_frame(&mut self, frame: SymbolInfo) -> (id: u64)
        requires
            old(self).wf(),
            old(self)@.functions.functions.len() + 1 < usize::MAX,
            old(self)@.locations.len() + 1 < usize::MAX,
        ensures
            final(self).wf(),
            final(self)@ == frame_added(old(self)@, frame@),
            id == (old(self)@.locations.len() + 1) as u64,
    {
        let line_no = frame.line_no as i64;
        let address = frame.addr as u64;
        let func_index = match self.functions_table.add(&mut self.strings_table, frame) {
            FuncationAdd::Exist(idx) => idx as u64,
            FuncationAdd::Insert(idx) => idx as u64,
        };
        let id = (self.loc_table.len() + 1) as u64;
        let mut line: Vec<Line> = Vec::new();
        line.push(Line { function_id: func_index, line: line_no });
        let loc = Location { id, line, address };
        self.loc_table.push(loc);
        assert(self@.locations =~= frame_added(old(self)@, frame@).locations);
        assert(self@.samples =~= old(self)@.samples);
        id
    }

    /// Adds one allocation to the document: a location per frame, in
    /// capture order, and a sample that holds them, the allocation's size,
    /// and a label with the key `block` and the allocation's address as
    /// text. Answers `TooLarge`, and changes nothing, when the tables cannot
    /// take that many entries.
    pub fn write_symbol_frame(&mut self, symbol_frame: AllocSymbolFrames) -> (r: Result<
        (),
        EncodeError,
    >)
        requires
            old(self).wf(),
        ensures
            final(self).wf(),
            has_room(old(self)@, symbol_frame@.frames.len()) ==> r is Ok && final(self)@
                == record_added(old(self)@, symbol_frame@),
            r is Ok ==> final(self)@.samples.len() == old(self)@.samples.len() + 1 && stands_for(
                final(self)@.strings,
                final(self)@.samples.last(),
                symbol_frame@,
            ),
            !has_room(old(self)@, symbol_frame@.frames.len()) ==> r == Err::<(), EncodeError>(
                EncodeError::TooLarge,
            ) && final(self)@ == old(self)@,
    {
        let AllocSymbolFrames { ptr, size, frames } = symbol_frame;
        let count = frames.len();
        if count >= usize::MAX - self.functions_table.len() || count >= usize::MAX
            - self.loc_table.len() || !ids_fit(self.strings_table.len(), count) {
            return Err(EncodeError::TooLarge);
        }
        proof {
            lemma_record_strings_bound(old(self)@, symbol_frame@);
            lemma_record_label(old(self)@, symbol_frame@);
        }
        let ghost all = symbol_frame@.frames;
        let ghost held = self.loc_table@.len();
        let mut locs: Vec<u64> = Vec::new();
        for frame in it: frames.into_iter()
            invariant
                self.wf(),
                it.seq() == frames@,
                all == Seq::new(frames@.len(), |i: int| frames@[i]@),
                self@ == frames_added(old(self)@, all.take(it.index() as int)),
                self@.locations.len() == held + it.index(),
                self@.samples == old(self)@.samples,
                self@.functions.functions.len() <= old(self)@.functions.functions.len()
                    + it.index(),
                has_room(old(self)@, frames@.len()),
                held == old(self)@.locations.len(),
                locs@ == stack_ids(held, it.index() as nat),
        {
            let ghost i = it.index() as int;
            proof {
                assert(all.take(i + 1).drop_last() =~= all.take(i));
                assert(all.take(i + 1).last() == frame@);
            }
            let id = self.write_frame(frame);
            locs.push(id);
            assert(locs@ =~= stack_ids(held, (i + 1) as nat));
        }
        assert(all.take(all.len() as int) =~= all);
        let ghost framed = self@;
        let key = self.strings_table.add("block".to_owned());
        let text = self.strings_table.add(pointer_label(ptr));
        let lab = Label { key: key as i64, str: text as i64 };
        let mut label: Vec<Label> = Vec::new();
        label.push(lab);
        let mut value: Vec<i64> = Vec::new();
        value.push(size as i64);
        let sample = Sample { location_id: locs, label, value };
        self.samples.push(sample);
        proof {
            lemma_interning(framed.strings, block_key(), block_key());
            let added = record_added(old(self)@, symbol_frame@).samples.last();
            assert(sample@.value =~= added.value);
            assert(sample@.label =~= added.label);
            assert(sample@ == added);
            assert(self@.samples =~= record_added(old(self)@, symbol_frame@).samples);
            assert(self@.locations =~= framed.locations);
        }
        Ok(())
    }

    /// Closes the document: interns the sample type and hands the tables
    /// over.
    pub fn finish(self) -> (profile: Profile)
        requires
            self.wf(),
        ensures
            profile@ == finished(self@),
    {
        let ProfileProtoWriter { mut strings_table, functions_table, loc_table, samples } = self;
        let ghost before = strings_table@;
        let type_ = strings_table.add("space".to_owned());
        let unit = strings_table.add("bytes".to_owned());
        let mut sample_type: Vec<ValueType> = Vec::new();
        sample_type.push(ValueType { type_: type_ as i64, unit: unit as i64 });
        let ghost strings = strings_table@;
        let profile = Profile {
            sample_type,
            sample: samples,
            string_table: strings_table.into_table(),
            function: functions_table.into_table(),
            location: loc_table,
        };
        proof {
            assert(profile@.string_table =~= strings);
            assert(profile@.sample_type =~= finished(self@).sample_type);
        }
        profile
    }

    /// Closes the document and encodes it. Succeeds whenever the document
    /// is no longer than `MAX_MESSAGE_SIZE`, and answers `TooLarge`
    /// otherwise.
    pub fn flush(self) -> (r: Result<Vec<u8>, EncodeError>)
        requires
            self.wf(),
        ensures
            encoded(r, profile_bytes(finished(self@))),
            profile_bytes(finished(self@)).len() <= MAX_MESSAGE_SIZE ==> r is Ok,
    {
        self.finish().encode()
    }
}

} // verus!
