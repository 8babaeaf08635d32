use vstd::prelude::*;
use crate::wire::bytes_words;
use crate::wire::lemma_varint_len_u64;
use crate::wire::lemma_varint_round_trip;
use crate::wire::lemma_words_round_trip;
use crate::wire::put_varint;
use crate::wire::put_words;
use crate::wire::read_field;
use crate::wire::read_varint;
use crate::wire::take_field;
use crate::wire::take_words;
use crate::wire::varint;
use crate::wire::varint_prefix;
use crate::wire::words_bytes;
use crate::wire::Field;
use crate::wire::NESTING_LIMIT;
use crate::wire::Payload;
use crate::wire::Token;

verus! {

/// A document as a value: its identifier and the bit patterns of its vector.
pub type DocumentModel = (u64, Seq<u32>);

/// A checkpoint as a value: its format version and its documents in order.
pub type StateModel = (u32, Seq<DocumentModel>);

/// The only format version that is written and accepted.
pub const FORMAT_VERSION: u32 = 1;

/// A stored vector with its identifier. Each component is the bit pattern of
/// a single-precision number.
#[derive(Clone, Debug, PartialEq, Eq)]
pub struct Document {
    pub id: u64,
    pub vector: Vec<u32>,
}

impl View for Document {
    type V = DocumentModel;

    open spec fn view(&self) -> DocumentModel {
        (self.id, self.vector@)
    }
}

/// The documents of a list as values.
pub open spec fn models_of(docs: Seq<Document>) -> Seq<DocumentModel> {
    docs.map_values(|d: Document| d@)
}

/// The fields of a document: the identifier under number 1 unless it is
/// zero, then the vector under number 2, packed, unless it is empty.
pub open spec fn document_bytes(d: DocumentModel) -> Seq<u8> {
    let id_part = if d.0 != 0 {
        seq![0x08u8] + varint(d.0 as nat)
    } else {
        Seq::empty()
    };
    let vector_part = if d.1.len() > 0 {
        seq![0x12u8] + varint(words_bytes(d.1).len()) + words_bytes(d.1)
    } else {
        Seq::empty()
    };
    id_part + vector_part
}

/// A document as field number 2 of a checkpoint: the key, the length of the
/// document's fields, and the fields.
pub open spec fn record_bytes(d: DocumentModel) -> Seq<u8> {
    seq![0x12u8] + varint(document_bytes(d).len()) + document_bytes(d)
}

/// The records of the documents, one after another.
pub open spec fn records_bytes(docs: Seq<DocumentModel>) -> Seq<u8>
    decreases docs.len(),
{
    if docs.len() == 0 {
        Seq::empty()
    } else {
        record_bytes(docs[0]) + records_bytes(docs.skip(1))
    }
}

/// A checkpoint: the format version under number 1, then the records.
pub open spec fn state_bytes(docs: Seq<DocumentModel>) -> Seq<u8> {
    seq![0x08u8, 0x01u8] + records_bytes(docs)
}

/// The document's fields have a length that a length prefix can hold.
pub open spec fn encodable(d: DocumentModel) -> bool {
    document_bytes(d).len() <= u64::MAX
}

/// A document after one more of its fields was read. The identifier is the
/// last one read; vector components, packed or single, add up in order;
/// known fields of the wrong wire type are refused and unknown fields are
/// passed over.
pub open spec fn document_step(acc: DocumentModel, f: Field) -> Option<DocumentModel> {
    if f.number == 1 {
        match f.payload {
            Payload::Varint(v) => Some((v, acc.1)),
            _ => None,
        }
    } else if f.number == 2 {
        match f.payload {
            Payload::Bytes(p) => if p.len() % 4 == 0 {
                Some((acc.0, acc.1 + bytes_words(p)))
            } else {
                None
            },
            Payload::Fixed32(w) => Some((acc.0, acc.1.push(w))),
            _ => None,
        }
    } else {
        Some(acc)
    }
}

/// The document that the fields in `s` make of `acc`, if all of `s` is
/// well-formed fields.
pub open spec fn document_from(s: Seq<u8>, acc: DocumentModel, budget: nat) -> Option<
    DocumentModel,
>
    decreases s.len(),
{
    if s.len() == 0 {
        Some(acc)
    } else {
        match read_field(s, budget) {
            None => None,
            Some((f, n)) => match document_step(acc, f) {
                None => None,
                Some(next) => if 0 < n <= s.len() {
                    document_from(s.skip(n as int), next, budget)
                } else {
                    None
                },
            },
        }
    }
}

/// The document that `s` encodes, if any, where groups may nest `budget`
/// deep.
pub open spec fn parse_document(s: Seq<u8>, budget: nat) -> Option<DocumentModel> {
    document_from(s, (0, Seq::empty()), budget)
}

/// A checkpoint after one more of its fields was read. The version is the
/// low 32 bits of the last one read; each record adds a document.
pub open spec fn state_step(acc: StateModel, f: Field) -> Option<StateModel> {
    if f.number == 1 {
        match f.payload {
            Payload::Varint(v) => Some(((v % 0x1_0000_0000) as u32, acc.1)),
            _ => None,
        }
    } else if f.number == 2 {
        match f.payload {
            Payload::Bytes(p) => match parse_document(p, (NESTING_LIMIT - 1) as nat) {
                Some(d) => Some((acc.0, acc.1.push(d))),
                None => None,
            },
            _ => None,
        }
    } else {
        Some(acc)
    }
}

/// The checkpoint that the fields in `s` make of `acc`, if all of `s` is
/// well-formed fields.
pub open spec fn state_from(s: Seq<u8>, acc: StateModel) -> Option<StateModel>
    decreases s.len(),
{
    if s.len() == 0 {
        Some(acc)
    } else {
        match read_field(s, NESTING_LIMIT as nat) {
            None => None,
            Some((f, n)) => match state_step(acc, f) {
                None => None,
                Some(next) => if 0 < n <= s.len() {
                    state_from(s.skip(n as int), next)
                } else {
                    None
                },
            },
        }
    }
}

/// The checkpoint that `s` encodes, if any.
pub open spec fn parse_state(s: Seq<u8>) -> Option<StateModel> {
    state_from(s, (0, Seq::empty()))
}

impl Document {
    /// A document with the given identifier and vector.
    pub fn new(id: u64, vector: Vec<u32>) -> (r: Document)
        ensures
            r.id == id,
            r.vector == vector,
    {
        Document { id, vector }
    }

    /// Appends the document's fields to `buf`.
    pub fn encode(&self, buf: &mut Vec<u8>)
        ensures
            final(buf)@ == old(buf)@ + document_bytes(self@),
    {
        put_document(buf, self.id, &self.vector)
    }

    /// Reads a document from all of `bytes`.
    pub fn decode(bytes: &[u8]) -> (r: Option<Document>)
        ensures
            match parse_document(bytes@, NESTING_LIMIT as nat) {
                Some(d) => r matches Some(doc) && doc@ == d,
                None => r is None,
            },
    {
        proof {
            assert(bytes@.subrange(0, bytes.len() as int) =~= bytes@);
        }
        take_document(bytes, 0, bytes.len(), NESTING_LIMIT)
    }
}

/// Appends the fields of the document `(id, vector)` to `buf`.
pub fn put_document(buf: &mut Vec<u8>, id: u64, vector: &Vec<u32>)
    ensures
        final(buf)@ == old(buf)@ + document_bytes((id, vector@)),
{
    if id != 0 {
        buf.push(0x08);
        put_varint(buf, id);
    }
    if vector.len() > 0 {
        let mut packed: Vec<u8> = Vec::new();
        put_words(&mut packed, vector);
        buf.push(0x12);
        put_varint(buf, packed.len() as u64);
        buf.extend_from_slice(packed.as_slice());
    }
    proof {
        assert(final(buf)@ =~= old(buf)@ + document_bytes((id, vector@)));
    }
}

/// Appends the record of the document `(id, vector)` to `buf`.
pub fn put_record(buf: &mut Vec<u8>, id: u64, vector: &Vec<u32>)
    ensures
        final(buf)@ == old(buf)@ + record_bytes((id, vector@)),
        encodable((id, vector@)),
{
    let mut body: Vec<u8> = Vec::new();
    put_document(&mut body, id, vector);
    buf.push(0x12);
    put_varint(buf, body.len() as u64);
    buf.extend_from_slice(body.as_slice());
    proof {
        assert(final(buf)@ =~= old(buf)@ + record_bytes((id, vector@)));
    }
}

/// Reads a document from `bytes[start..stop]`, where groups may nest
/// `budget` deep.
pub fn take_document(bytes: &[u8], start: usize, stop: usize, budget: u32) -> (r: Option<Document>)
    requires
        start <= stop <= bytes.len(),
    ensures
        match parse_document(bytes@.subrange(start as int, stop as int), budget as nat) {
            Some(d) => r matches Some(doc) && doc@ == d,
            None => r is None,
        },
{
    let ghost whole = bytes@.subrange(start as int, stop as int);
    let mut doc = Document { id: 0, vector: Vec::new() };
    let mut pos: usize = start;
    while pos < stop
        invariant
            start <= pos <= stop <= bytes.len(),
            whole == bytes@.subrange(start as int, stop as int),
            parse_document(whole, budget as nat) == document_from(
                bytes@.subrange(pos as int, stop as int),
                doc@,
                budget as nat,
            ),
        decreases stop - pos,
    {
        let ghost s = bytes@.subrange(pos as int, stop as int);
        let t = match take_field(bytes, pos, stop, budget) {
            None => { return None; },
            Some(t) => t,
        };
        proof {
            assert(s.skip(t.next - pos) =~= bytes@.subrange(t.next as int, stop as int));
        }
        if t.number == 1 {
            match t.token {
                Token::Varint(v) => { doc.id = v; },
                _ => { return None; },
            }
        } else if t.number == 2 {
            match t.token {
                Token::Bytes { start: from, stop: to } => {
                    if (to - from) % 4 != 0 {
                        return None;
                    }
                    take_words(&mut doc.vector, bytes, from, to);
                },
                Token::Fixed32(w) => { doc.vector.push(w); },
                _ => { return None; },
            }
        }
        pos = t.next;
    }
    proof {
        assert(bytes@.subrange(pos as int, stop as int).len() == 0);
    }
    Some(doc)
}

/// A checkpoint as read from a buffer.
#[derive(Debug)]
pub struct EngineState {
    pub format_version: u32,
    pub documents: Vec<Document>,
}

impl View for EngineState {
    type V = StateModel;

    open spec fn view(&self) -> StateModel {
        (self.format_version, models_of(self.documents@))
    }
}

impl EngineState {
    /// Reads a checkpoint from all of `bytes`.
    pub fn decode(bytes: &[u8]) -> (r: Option<EngineState>)
        ensures
            match parse_state(bytes@) {
                Some(st) => r matches Some(state) && state@ == st,
                None => r is None,
            },
    {
        let mut state = EngineState { format_version: 0, documents: Vec::new() };
        let stop: usize = bytes.len();
        let mut pos: usize = 0;
        proof {
            assert(bytes@.subrange(0, stop as int) =~= bytes@);
            assert(state@.1 =~= Seq::empty());
        }
        while pos < stop
            invariant
                pos <= stop == bytes.len(),
                parse_state(bytes@) == state_from(bytes@.subrange(pos as int, stop as int), state@),
            decreases stop - pos,
        {
            let ghost s = bytes@.subrange(pos as int, stop as int);
            let ghost before = state@;
            let t = match take_field(bytes, pos, stop, NESTING_LIMIT) {
                None => { return None; },
                Some(t) => t,
            };
            proof {
                assert(s.skip(t.next - pos) =~= bytes@.subrange(t.next as int, stop as int));
            }
            if t.number == 1 {
                match t.token {
                    Token::Varint(v) => { state.format_version = (v % 0x1_0000_0000) as u32; },
                    _ => { return None; },
                }
            } else if t.number == 2 {
                match t.token {
                    Token::Bytes { start: from, stop: to } => {
                        match take_document(bytes, from, to, NESTING_LIMIT - 1) {
                            None => { return None; },
                            Some(doc) => {
                                state.documents.push(doc);
                                proof {
                                    assert(state@.1 =~= before.1.push(doc@));
                                }
                            },
                        }
                    },
                    _ => { return None; },
                }
            }
            pos = t.next;
        }
        proof {
            assert(bytes@.subrange(pos as int, stop as int).len() == 0);
        }
        Some(state)
    }
}

/// A field written as a one-byte key below 128 and a variable-length integer
/// is read back as that integer.
pub proof fn lemma_read_varint_field(key: u8, v: u64, rest: Seq<u8>, budget: nat)
    requires
        8 <= key < 128,
        key % 8 == 0,
    ensures
        read_field(seq![key] + varint(v as nat) + rest, budget) == Some(
            (
                Field { number: (key / 8) as nat, payload: Payload::Varint(v) },
                (1 + varint(v as nat).len()) as nat,
            ),
        ),
{
    let s = seq![key] + varint(v as nat) + rest;
    reveal_with_fuel(varint_prefix, 2);
    assert(s[0] == key);
    assert(read_varint(s) == Some((key as u64, 1nat)));
    assert(s.skip(1) =~= varint(v as nat) + rest);
    lemma_varint_len_u64(v);
    lemma_varint_round_trip(v as nat, rest, 10);
}

/// A field written as a one-byte key below 128, a length and that many bytes
/// is read back as those bytes.
pub proof fn lemma_read_bytes_field(key: u8, p: Seq<u8>, rest: Seq<u8>, budget: nat)
    requires
        8 <= key < 128,
        key % 8 == 2,
        p.len() <= u64::MAX,
    ensures
        read_field(seq![key] + varint(p.len()) + p + rest, budget) == Some(
            (
                Field { number: (key / 8) as nat, payload: Payload::Bytes(p) },
                (1 + varint(p.len()).len() + p.len()) as nat,
            ),
        ),
{
    let s = seq![key] + varint(p.len()) + p + rest;
    reveal_with_fuel(varint_prefix, 2);
    assert(s[0] == key);
    assert(read_varint(s) == Some((key as u64, 1nat)));
    let after_key = s.skip(1);
    assert(after_key =~= varint(p.len()) + (p + rest));
    lemma_varint_len_u64(p.len() as u64);
    lemma_varint_round_trip(p.len(), p + rest, 10);
    let m = varint(p.len()).len();
    assert(after_key.subrange(m as int, (m + p.len()) as int) =~= p);
}

/// Reading the fields of an encodable document gives the document back.
pub proof fn lemma_document_round_trip(d: DocumentModel, budget: nat)
    requires
        encodable(d),
    ensures
        parse_document(document_bytes(d), budget) == Some(d),
{
    let empty = Seq::<u8>::empty();
    let none = Seq::<u32>::empty();
    let packed = words_bytes(d.1);
    lemma_words_round_trip(d.1);
    let vector_part = if d.1.len() > 0 {
        seq![0x12u8] + varint(packed.len()) + packed
    } else {
        empty
    };
    // The vector part alone makes (id, vector) of (id, []).
    assert(document_from(vector_part, (d.0, none), budget) == Some(d)) by {
        if d.1.len() > 0 {
            lemma_read_bytes_field(0x12, packed, empty, budget);
            assert(vector_part =~= seq![0x12u8] + varint(packed.len()) + packed + empty);
            assert(vector_part.skip(vector_part.len() as int) =~= empty);
            assert(none + d.1 =~= d.1);
            reveal_with_fuel(document_from, 2);
        } else {
            assert(d.1 =~= none);
        }
    }
    if d.0 != 0 {
        let id_part = seq![0x08u8] + varint(d.0 as nat);
        lemma_read_varint_field(0x08, d.0, vector_part, budget);
        assert(document_bytes(d) =~= id_part + vector_part);
        assert((id_part + vector_part).skip(id_part.len() as int) =~= vector_part);
    } else {
        assert(document_bytes(d) =~= vector_part);
    }
}

/// Reading a record adds its document to those read before.
pub proof fn lemma_record_round_trip(d: DocumentModel, rest: Seq<u8>, acc: StateModel)
    requires
        encodable(d),
    ensures
        state_from(record_bytes(d) + rest, acc) == state_from(rest, (acc.0, acc.1.push(d))),
{
    let body = document_bytes(d);
    lemma_document_round_trip(d, (NESTING_LIMIT - 1) as nat);
    lemma_read_bytes_field(0x12, body, rest, NESTING_LIMIT as nat);
    let s = record_bytes(d) + rest;
    assert(s =~= seq![0x12u8] + varint(body.len()) + body + rest);
    assert(s.skip(record_bytes(d).len() as int) =~= rest);
}

/// Reading the records of encodable documents adds them, in order, to those
/// read before.
pub proof fn lemma_records_round_trip(docs: Seq<DocumentModel>, acc: StateModel)
    requires
        forall|i: int| 0 <= i < docs.len() ==> encodable(#[trigger] docs[i]),
    ensures
        state_from(records_bytes(docs), acc) == Some((acc.0, acc.1 + docs)),
    decreases docs.len(),
{
    if docs.len() == 0 {
        assert(acc.1 + docs =~= acc.1);
    } else {
        let rest = docs.skip(1);
        lemma_record_round_trip(docs[0], records_bytes(rest), acc);
        assert forall|i: int| 0 <= i < rest.len() implies encodable(#[trigger] rest[i]) by {
            assert(rest[i] == docs[i + 1]);
        }
        lemma_records_round_trip(rest, (acc.0, acc.1.push(docs[0])));
        assert(acc.1.push(docs[0]) + rest =~= acc.1 + docs);
    }
}

/// Reading a checkpoint of encodable documents gives the current format
/// version and the documents back, in order.
pub proof fn lemma_state_round_trip(docs: Seq<DocumentModel>)
    requires
        forall|i: int| 0 <= i < docs.len() ==> encodable(#[trigger] docs[i]),
    ensures
        parse_state(state_bytes(docs)) == Some((FORMAT_VERSION, docs)),
{
    let none = Seq::<DocumentModel>::empty();
    let rest = records_bytes(docs);
    assert(varint(1) =~= seq![0x01u8]);
    lemma_read_varint_field(0x08, 1, rest, NESTING_LIMIT as nat);
    assert(state_bytes(docs) =~= seq![0x08u8] + varint(1) + rest);
    assert(state_bytes(docs).skip(2) =~= rest);
    lemma_records_round_trip(docs, (1u32, none));
    assert(none + docs =~= docs);
}

/// The records of a list with one more document are the records of the list
/// and then that document's record.
pub proof fn lemma_records_push(docs: Seq<DocumentModel>, d: DocumentModel)
    ensures
        records_bytes(docs.push(d)) == records_bytes(docs) + record_bytes(d),
    decreases docs.len(),
{
    let more = docs.push(d);
    if docs.len() == 0 {
        assert(more.skip(1) =~= Seq::<DocumentModel>::empty());
        assert(records_bytes(more.skip(1)) =~= Seq::<u8>::empty());
        assert(records_bytes(more) =~= record_bytes(d));
        assert(records_bytes(docs) + record_bytes(d) =~= record_bytes(d));
    } else {
        lemma_records_push(docs.skip(1), d);
        assert(more.skip(1) =~= docs.skip(1).push(d));
        assert(records_bytes(more) =~= records_bytes(docs) + record_bytes(d));
    }
}

} // verus!
