//! Log records and their on-disk form: one JSON object per record, written
//! back to back with no separator.
use crate::json::{
    lemma_read_tagged1, lemma_read_tagged1_len, lemma_read_tagged1_local, lemma_read_tagged2,
    lemma_read_tagged2_len, lemma_read_tagged2_local,
    object_head, read_tagged1, read_tagged1_at, read_tagged2,
    read_tagged2_at, tagged1, tagged2, write_tagged1, write_tagged2,
};
use vstd::prelude::*;
use vstd::utf8::{decode_utf8, encode_utf8, encode_utf8_decode_utf8, encode_utf8_valid_utf8, valid_utf8};

verus! {

/// What a log record says, over character sequences.
pub enum RecordView {
    Put { key: Seq<char>, val: Seq<char> },
    Remove { key: Seq<char> },
}

impl RecordView {
    pub open spec fn key(self) -> Seq<char> {
        match self {
            RecordView::Put { key, .. } => key,
            RecordView::Remove { key } => key,
        }
    }
}

/// One entry of the log: a key set to a value, or a key removed.
pub enum Ops {
    Put { key: String, val: String },
    Rm { key: String },
}

impl View for Ops {
    type V = RecordView;

    open spec fn view(&self) -> RecordView {
        match self {
            Ops::Put { key, val } => RecordView::Put { key: key@, val: val@ },
            Ops::Rm { key } => RecordView::Remove { key: key@ },
        }
    }
}

impl Ops {
    /// A record that sets `key` to `val`.
    pub fn set(key: String, val: String) -> (r: Ops)
        ensures
            r@ == (RecordView::Put { key: key@, val: val@ }),
    {
        Ops::Put { key, val }
    }

    /// A record that removes `key`.
    pub fn rm(key: String) -> (r: Ops)
        ensures
            r@ == (RecordView::Remove { key: key@ }),
    {
        Ops::Rm { key }
    }
}

/// `Set`
pub open spec fn word_set() -> Seq<u8> {
    seq![83u8, 101u8, 116u8]
}

/// `Rm`
pub open spec fn word_rm() -> Seq<u8> {
    seq![82u8, 109u8]
}

/// `key`
pub open spec fn word_key() -> Seq<u8> {
    seq![107u8, 101u8, 121u8]
}

/// `val`
pub open spec fn word_val() -> Seq<u8> {
    seq![118u8, 97u8, 108u8]
}

/// The bytes of a record: `{"Set":{"key":K,"val":V}}` or `{"Rm":{"key":K}}`,
/// strings in UTF-8 with JSON escapes.
pub open spec fn record_bytes(r: RecordView) -> Seq<u8> {
    match r {
        RecordView::Put { key, val } => tagged2(
            word_set(),
            word_key(),
            encode_utf8(key),
            word_val(),
            encode_utf8(val),
        ),
        RecordView::Remove { key } => tagged1(word_rm(), word_key(), encode_utf8(key)),
    }
}

/// The text that UTF-8 bytes spell, if they are valid UTF-8.
pub open spec fn utf8_text(b: Seq<u8>) -> Option<Seq<char>> {
    if valid_utf8(b) {
        Some(decode_utf8(b))
    } else {
        None
    }
}

/// Reads the record at the front of `b`: the record and its length in bytes.
#[verifier::opaque]
pub open spec fn parse_record(b: Seq<u8>) -> Option<(RecordView, int)> {
    match read_tagged2(b, word_set(), word_key(), word_val()) {
        Some((k, v, n)) => match (utf8_text(k), utf8_text(v)) {
            (Some(key), Some(val)) => Some((RecordView::Put { key, val }, n)),
            _ => None,
        },
        None => match read_tagged1(b, word_rm(), word_key()) {
            Some((k, n)) => match utf8_text(k) {
                Some(key) => Some((RecordView::Remove { key }, n)),
                None => None,
            },
            None => None,
        },
    }
}

/// A record reads back from its own bytes, whatever follows them.
pub proof fn lemma_parse_record_bytes(r: RecordView, rest: Seq<u8>)
    ensures
        parse_record(record_bytes(r) + rest) == Some((r, record_bytes(r).len() as int)),
        record_bytes(r).len() > 0,
{
    reveal(parse_record);
    match r {
        RecordView::Put { key, val } => {
            lemma_read_tagged2(
                word_set(),
                word_key(),
                encode_utf8(key),
                word_val(),
                encode_utf8(val),
                rest,
            );
            encode_utf8_valid_utf8(key);
            encode_utf8_valid_utf8(val);
            encode_utf8_decode_utf8(key);
            encode_utf8_decode_utf8(val);
        },
        RecordView::Remove { key } => {
            let b = record_bytes(r) + rest;
            lemma_read_tagged1(word_rm(), word_key(), encode_utf8(key), rest);
            // the `Set` form already differs in its third byte
            assert(b[2] == 82u8);
            assert(!(b.subrange(0, 15)[2] == 83u8));
            encode_utf8_valid_utf8(key);
            encode_utf8_decode_utf8(key);
        },
    }
}

/// A record is at least one byte long and fits in what it is read from.
pub proof fn lemma_parse_record_len(b: Seq<u8>)
    requires
        parse_record(b) is Some,
    ensures
        1 <= parse_record(b).unwrap().1 <= b.len(),
{
    reveal(parse_record);
    if read_tagged2(b, word_set(), word_key(), word_val()) is Some {
        lemma_read_tagged2_len(b, word_set(), word_key(), word_val());
    } else {
        lemma_read_tagged1_len(b, word_rm(), word_key());
    }
}

/// What `parse_record` reads depends only on the bytes of the record.
pub proof fn lemma_parse_record_local(b: Seq<u8>, c: Seq<u8>)
    requires
        parse_record(b) is Some,
        parse_record(b).unwrap().1 <= c.len(),
        c.subrange(0, parse_record(b).unwrap().1) == b.subrange(0, parse_record(b).unwrap().1),
    ensures
        parse_record(c) == parse_record(b),
        1 <= parse_record(b).unwrap().1 <= b.len(),
{
    reveal(parse_record);
    let n = parse_record(b).unwrap().1;
    if read_tagged2(b, word_set(), word_key(), word_val()) is Some {
        lemma_read_tagged2_len(b, word_set(), word_key(), word_val());
        lemma_read_tagged2_local(b, c, word_set(), word_key(), word_val());
    } else {
        lemma_read_tagged1_len(b, word_rm(), word_key());
        lemma_read_tagged1_local(b, c, word_rm(), word_key());
        let h = object_head(word_rm(), word_key());
        assert(b.subrange(0, h.len() as int)[2] == 82u8);
        assert(c[2] == c.subrange(0, n)[2]);
        assert(!(c.subrange(0, 15)[2] == 83u8));
    }
}

/// Relies on `String::from_utf8`: it accepts a byte vector exactly when the
/// bytes are valid UTF-8, and the string it returns holds those bytes.
#[verifier::external_body]
fn string_from_utf8(v: Vec<u8>) -> (r: Option<String>)
    ensures
        match r {
            Some(s) => valid_utf8(v@) && encode_utf8(s@) == v@,
            None => !valid_utf8(v@),
        },
{
    String::from_utf8(v).ok()
}

/// Turns UTF-8 bytes into a string.
pub fn text_from_bytes(v: Vec<u8>) -> (r: Option<String>)
    ensures
        match utf8_text(v@) {
            Some(t) => r matches Some(s) && s@ == t,
            None => r is None,
        },
{
    let r = string_from_utf8(v);
    proof {
        if r is Some {
            encode_utf8_decode_utf8(r.unwrap()@);
        }
    }
    r
}

/// The UTF-8 bytes of a string.
pub fn text_bytes(s: &String) -> (r: &[u8])
    ensures
        r@ == encode_utf8(s@),
{
    s.as_str().as_bytes()
}

fn word_set_bytes() -> (r: [u8; 3])
    ensures
        r@ == word_set(),
{
    let w: [u8; 3] = [83, 101, 116];
    assert(w@ =~= word_set());
    w
}

fn word_rm_bytes() -> (r: [u8; 2])
    ensures
        r@ == word_rm(),
{
    let w: [u8; 2] = [82, 109];
    assert(w@ =~= word_rm());
    w
}

fn word_key_bytes() -> (r: [u8; 3])
    ensures
        r@ == word_key(),
{
    let w: [u8; 3] = [107, 101, 121];
    assert(w@ =~= word_key());
    w
}

fn word_val_bytes() -> (r: [u8; 3])
    ensures
        r@ == word_val(),
{
    let w: [u8; 3] = [118, 97, 108];
    assert(w@ =~= word_val());
    w
}

/// Appends the bytes of a record to `out`.
pub fn encode_ops_into(out: &mut Vec<u8>, op: &Ops)
    ensures
        final(out)@ == old(out)@ + record_bytes(op@),
{
    match op {
        Ops::Put { key, val } => {
            let t = word_set_bytes();
            let k = word_key_bytes();
            let v = word_val_bytes();
            write_tagged2(
                out,
                t.as_slice(),
                k.as_slice(),
                text_bytes(key),
                v.as_slice(),
                text_bytes(val),
            );
        },
        Ops::Rm { key } => {
            let t = word_rm_bytes();
            let k = word_key_bytes();
            write_tagged1(out, t.as_slice(), k.as_slice(), text_bytes(key));
        },
    }
}

/// The bytes of a record.
pub fn encode_ops(op: &Ops) -> (r: Vec<u8>)
    ensures
        r@ == record_bytes(op@),
{
    let mut out: Vec<u8> = Vec::new();
    encode_ops_into(&mut out, op);
    assert(out@ =~= record_bytes(op@));
    out
}

/// Reads the record that starts at `pos`: the record and the position just
/// after it.
pub fn decode_ops(buf: &[u8], pos: usize) -> (r: Option<(Ops, usize)>)
    requires
        pos <= buf@.len(),
    ensures
        match parse_record(buf@.skip(pos as int)) {
            Some((rec, n)) => r matches Some((op, end)) && op@ == rec && end == pos + n,
            None => r is None,
        },
{
    reveal(parse_record);
    let t = word_set_bytes();
    let k = word_key_bytes();
    let v = word_val_bytes();
    match read_tagged2_at(buf, pos, t.as_slice(), k.as_slice(), v.as_slice()) {
        Some((kb, vb, end)) => {
            let key = text_from_bytes(kb);
            let val = text_from_bytes(vb);
            match (key, val) {
                (Some(key), Some(val)) => Some((Ops::Put { key, val }, end)),
                _ => None,
            }
        },
        None => {
            let t = word_rm_bytes();
            match read_tagged1_at(buf, pos, t.as_slice(), k.as_slice()) {
                Some((kb, end)) => match text_from_bytes(kb) {
                    Some(key) => Some((Ops::Rm { key }, end)),
                    None => None,
                },
                None => None,
            }
        },
    }
}

} // verus!
