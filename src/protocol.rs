//! The wire protocol: one framed JSON command and one framed JSON response
//! per connection. A frame is an 8-byte big-endian length and that many bytes.
use crate::codec::{text_bytes, text_from_bytes, utf8_text, word_key, word_val, word_set};
use crate::error::{kind_message, KVError};
use crate::json::{
    escape_into, has_prefix, lemma_read_tagged1, lemma_read_tagged2, lemma_unescape_escape,
    matches_at, member_head, quoted, read_string, read_tagged1, read_tagged1_at, read_tagged2,
    read_tagged2_at, tagged1, tagged2, unescape, write_tagged1, write_tagged2, QUOTE,
};
use vstd::prelude::*;
use vstd::utf8::{encode_utf8, encode_utf8_decode_utf8, encode_utf8_valid_utf8};

verus! {

/// A client's request.
#[derive(Debug)]
pub enum Command {
    /// Read the value of `key`.
    Get { key: String },
    /// Set `key` to `val`.
    Put { key: String, val: String },
    /// Remove `key`.
    Remove { key: String },
}

/// What a command asks, over character sequences.
pub enum CommandView {
    Get { key: Seq<char> },
    Put { key: Seq<char>, val: Seq<char> },
    Remove { key: Seq<char> },
}

impl View for Command {
    type V = CommandView;

    open spec fn view(&self) -> CommandView {
        match self {
            Command::Get { key } => CommandView::Get { key: key@ },
            Command::Put { key, val } => CommandView::Put { key: key@, val: val@ },
            Command::Remove { key } => CommandView::Remove { key: key@ },
        }
    }
}

/// The server's answer: whether the command succeeded, and the value read
/// or the reason of the failure.
#[derive(Debug)]
pub struct Response {
    pub success: bool,
    pub message: String,
}

impl Response {
    /// A successful response carrying `message`.
    pub fn success(message: String) -> (r: Response)
        ensures
            r.success,
            r.message@ == message@,
    {
        Response { success: true, message }
    }

    /// A failed response carrying `message`.
    pub fn failure(message: String) -> (r: Response)
        ensures
            !r.success,
            r.message@ == message@,
    {
        Response { success: false, message }
    }

    /// The response to a `Get`: the value on a hit, an empty message on a
    /// miss, the error's text on a failure.
    pub fn for_get(outcome: Result<Option<String>, KVError>) -> (r: Response)
        ensures
            match outcome {
                Ok(Some(v)) => r.success && r.message@ == v@,
                Ok(None) => r.success && r.message@ == Seq::<char>::empty(),
                Err(e) => !r.success && r.message@ == kind_message(e.inner),
            },
    {
        match outcome {
            Ok(Some(v)) => Response::success(v),
            Ok(None) => Response::success(String::new()),
            Err(e) => Response::failure(e.message()),
        }
    }

    /// The response to a `Set` or a `Remove`: an empty message on success,
    /// the error's text on a failure.
    pub fn for_update(outcome: Result<(), KVError>) -> (r: Response)
        ensures
            match outcome {
                Ok(()) => r.success && r.message@ == Seq::<char>::empty(),
                Err(e) => !r.success && r.message@ == kind_message(e.inner),
            },
    {
        match outcome {
            Ok(()) => Response::success(String::new()),
            Err(e) => Response::failure(e.message()),
        }
    }
}

/// `Get`
pub open spec fn word_get() -> Seq<u8> {
    seq![71u8, 101u8, 116u8]
}

/// `Remove`
pub open spec fn word_remove() -> Seq<u8> {
    seq![82u8, 101u8, 109u8, 111u8, 118u8, 101u8]
}

/// `{"success":`
pub open spec fn response_head() -> Seq<u8> {
    seq![123u8, 34u8, 115u8, 117u8, 99u8, 99u8, 101u8, 115u8, 115u8, 34u8, 58u8]
}

/// `true` or `false`
pub open spec fn bool_word(b: bool) -> Seq<u8> {
    if b {
        seq![116u8, 114u8, 117u8, 101u8]
    } else {
        seq![102u8, 97u8, 108u8, 115u8, 101u8]
    }
}

/// `message`
pub open spec fn word_message() -> Seq<u8> {
    seq![109u8, 101u8, 115u8, 115u8, 97u8, 103u8, 101u8]
}

/// The JSON text of a command: `{"Get":{"key":K}}`,
/// `{"Set":{"key":K,"val":V}}` or `{"Remove":{"key":K}}`.
pub open spec fn command_bytes(c: CommandView) -> Seq<u8> {
    match c {
        CommandView::Get { key } => tagged1(word_get(), word_key(), encode_utf8(key)),
        CommandView::Put { key, val } => tagged2(
            word_set(),
            word_key(),
            encode_utf8(key),
            word_val(),
            encode_utf8(val),
        ),
        CommandView::Remove { key } => tagged1(word_remove(), word_key(), encode_utf8(key)),
    }
}

/// The JSON text of a response: `{"success":B,"message":M}`.
pub open spec fn response_bytes(success: bool, message: Seq<char>) -> Seq<u8> {
    response_head() + bool_word(success) + member_head(word_message()) + quoted(
        encode_utf8(message),
    ) + seq![125u8]
}

/// Reads a command that fills `b` exactly.
pub open spec fn parse_command(b: Seq<u8>) -> Option<CommandView> {
    match read_tagged1(b, word_get(), word_key()) {
        Some((k, n)) => if n == b.len() && utf8_text(k) is Some {
            Some(CommandView::Get { key: utf8_text(k).unwrap() })
        } else {
            None
        },
        None => match read_tagged2(b, word_set(), word_key(), word_val()) {
            Some((k, v, n)) => if n == b.len() && utf8_text(k) is Some && utf8_text(v) is Some {
                Some(CommandView::Put { key: utf8_text(k).unwrap(), val: utf8_text(v).unwrap() })
            } else {
                None
            },
            None => match read_tagged1(b, word_remove(), word_key()) {
                Some((k, n)) => if n == b.len() && utf8_text(k) is Some {
                    Some(CommandView::Remove { key: utf8_text(k).unwrap() })
                } else {
                    None
                },
                None => None,
            },
        },
    }
}

/// Reads the flag of a response at the front of `b`: the flag and its length.
pub open spec fn parse_bool(b: Seq<u8>) -> Option<(bool, int)> {
    if has_prefix(b, bool_word(true)) {
        Some((true, 4))
    } else if has_prefix(b, bool_word(false)) {
        Some((false, 5))
    } else {
        None
    }
}

/// Reads a response that fills `b` exactly.
pub open spec fn parse_response(b: Seq<u8>) -> Option<(bool, Seq<char>)> {
    let h = response_head();
    if has_prefix(b, h) {
        match parse_bool(b.skip(h.len() as int)) {
            Some((flag, n)) => {
                let p = h.len() + n;
                let m = member_head(word_message());
                if has_prefix(b.skip(p), m) {
                    match unescape(b.skip(p + m.len())) {
                        Some((x, k)) => {
                            let q = p + m.len() + k;
                            if q + 1 == b.len() && b[q] == 125u8 && utf8_text(x) is Some {
                                Some((flag, utf8_text(x).unwrap()))
                            } else {
                                None
                            }
                        },
                        None => None,
                    }
                } else {
                    None
                }
            },
            None => None,
        }
    } else {
        None
    }
}

proof fn lemma_get_round_trip(key: Seq<char>)
    ensures
        parse_command(command_bytes(CommandView::Get { key })) == Some(CommandView::Get { key }),
{
    let e = Seq::<u8>::empty();
    let b = command_bytes(CommandView::Get { key });
    assert(b + e =~= b);
    lemma_read_tagged1(word_get(), word_key(), encode_utf8(key), e);
    encode_utf8_valid_utf8(key);
    encode_utf8_decode_utf8(key);
}

proof fn lemma_put_round_trip(key: Seq<char>, val: Seq<char>)
    ensures
        parse_command(command_bytes(CommandView::Put { key, val })) == Some(
            CommandView::Put { key, val },
        ),
{
    let e = Seq::<u8>::empty();
    let b = command_bytes(CommandView::Put { key, val });
    assert(b + e =~= b);
    lemma_read_tagged2(word_set(), word_key(), encode_utf8(key), word_val(), encode_utf8(val), e);
    // the `Get` form differs in its third byte
    assert(b[2] == 83u8);
    assert(!(b.subrange(0, 15)[2] == 71u8));
    assert(read_tagged1(b, word_get(), word_key()) is None);
    encode_utf8_valid_utf8(key);
    encode_utf8_decode_utf8(key);
    encode_utf8_valid_utf8(val);
    encode_utf8_decode_utf8(val);
}

proof fn lemma_remove_round_trip(key: Seq<char>)
    ensures
        parse_command(command_bytes(CommandView::Remove { key })) == Some(
            CommandView::Remove { key },
        ),
{
    let e = Seq::<u8>::empty();
    let b = command_bytes(CommandView::Remove { key });
    assert(b + e =~= b);
    lemma_read_tagged1(word_remove(), word_key(), encode_utf8(key), e);
    // the other forms differ in the third byte
    assert(b[2] == 82u8);
    assert(!(b.subrange(0, 15)[2] == 71u8));
    assert(!(b.subrange(0, 15)[2] == 83u8));
    assert(read_tagged1(b, word_get(), word_key()) is None);
    assert(read_tagged2(b, word_set(), word_key(), word_val()) is None);
    encode_utf8_valid_utf8(key);
    encode_utf8_decode_utf8(key);
}

/// A command reads back from its own text.
pub proof fn lemma_command_round_trip(c: CommandView)
    ensures
        parse_command(command_bytes(c)) == Some(c),
{
    match c {
        CommandView::Get { key } => lemma_get_round_trip(key),
        CommandView::Put { key, val } => lemma_put_round_trip(key, val),
        CommandView::Remove { key } => lemma_remove_round_trip(key),
    }
}

/// A response reads back from its own text.
pub proof fn lemma_response_round_trip(success: bool, message: Seq<char>)
    ensures
        parse_response(response_bytes(success, message)) == Some((success, message)),
{
    let h = response_head();
    let w = bool_word(success);
    let m = member_head(word_message());
    let x = encode_utf8(message);
    let close = seq![125u8];
    let b = response_bytes(success, message);
    assert(b =~= h + (w + (m + (quoted(x) + close))));
    assert(b.subrange(0, h.len() as int) =~= h);
    let b1 = b.skip(h.len() as int);
    assert(b1 =~= w + (m + (quoted(x) + close)));
    assert(b1.subrange(0, w.len() as int) =~= w);
    if !success {
        assert(b1[0] == 102u8);
        assert(!(b1.subrange(0, 4)[0] == 116u8));
    }
    let p: int = h.len() + w.len() as int;
    assert(b.skip(p) =~= m + (quoted(x) + close));
    assert(b.skip(p).subrange(0, m.len() as int) =~= m);
    assert(b.skip(p + m.len() as int) =~= escape_then(x, close));
    lemma_unescape_escape(x, close);
    let q: int = p + m.len() + quoted(x).len() as int;
    assert(b.len() == q + 1);
    assert(b[q] == 125u8);
    encode_utf8_valid_utf8(message);
    encode_utf8_decode_utf8(message);
}

spec fn escape_then(x: Seq<u8>, rest: Seq<u8>) -> Seq<u8> {
    crate::json::escape(x) + seq![QUOTE] + rest
}

fn word_get_bytes() -> (r: [u8; 3])
    ensures
        r@ == word_get(),
{
    let w: [u8; 3] = [71, 101, 116];
    assert(w@ =~= word_get());
    w
}

fn word_set_bytes() -> (r: [u8; 3])
    ensures
        r@ == word_set(),
{
    let w: [u8; 3] = [83, 101, 116];
    assert(w@ =~= word_set());
    w
}

fn word_remove_bytes() -> (r: [u8; 6])
    ensures
        r@ == word_remove(),
{
    let w: [u8; 6] = [82, 101, 109, 111, 118, 101];
    assert(w@ =~= word_remove());
    w
}

fn word_key_bytes() -> (r: [u8; 3])
    ensures
        r@ == word_key(),
{
    let w: [u8; 3] = [107, 101, 121];
    assert(w@ =~= word_key());
    w
}

fn word_val_bytes() -> (r: [u8; 3])
    ensures
        r@ == word_val(),
{
    let w: [u8; 3] = [118, 97, 108];
    assert(w@ =~= word_val());
    w
}

fn response_head_bytes() -> (r: [u8; 11])
    ensures
        r@ == response_head(),
{
    let w: [u8; 11] = [123, 34, 115, 117, 99, 99, 101, 115, 115, 34, 58];
    assert(w@ =~= response_head());
    w
}

fn message_head_bytes() -> (r: [u8; 12])
    ensures
        r@ == member_head(word_message()),
{
    let w: [u8; 12] = [44, 34, 109, 101, 115, 115, 97, 103, 101, 34, 58, 34];
    assert(w@ =~= member_head(word_message()));
    w
}

fn bool_word_bytes(b: bool) -> (r: Vec<u8>)
    ensures
        r@ == bool_word(b),
{
    let mut v: Vec<u8> = Vec::new();
    if b {
        v.push(116);
        v.push(114);
        v.push(117);
        v.push(101);
    } else {
        v.push(102);
        v.push(97);
        v.push(108);
        v.push(115);
        v.push(101);
    }
    assert(v@ =~= bool_word(b));
    v
}

/// The JSON text of a command.
pub fn encode_command(c: &Command) -> (r: Vec<u8>)
    ensures
        r@ == command_bytes(c@),
{
    let mut out: Vec<u8> = Vec::new();
    let k = word_key_bytes();
    match c {
        Command::Get { key } => {
            let t = word_get_bytes();
            write_tagged1(&mut out, t.as_slice(), k.as_slice(), text_bytes(key));
        },
        Command::Put { key, val } => {
            let t = word_set_bytes();
            let v = word_val_bytes();
            write_tagged2(
                &mut out,
                t.as_slice(),
                k.as_slice(),
                text_bytes(key),
                v.as_slice(),
                text_bytes(val),
            );
        },
        Command::Remove { key } => {
            let t = word_remove_bytes();
            write_tagged1(&mut out, t.as_slice(), k.as_slice(), text_bytes(key));
        },
    }
    assert(out@ =~= command_bytes(c@));
    out
}

/// Reads a command from the whole of `buf`.
pub fn decode_command(buf: &[u8]) -> (r: Option<Command>)
    ensures
        match parse_command(buf@) {
            Some(c) => r matches Some(d) && d@ == c,
            None => r is None,
        },
{
    assert(buf@.skip(0) =~= buf@);
    let k = word_key_bytes();
    let t = word_get_bytes();
    match read_tagged1_at(buf, 0, t.as_slice(), k.as_slice()) {
        Some((kb, end)) => {
            if end != buf.len() {
                return None;
            }
            return match text_from_bytes(kb) {
                Some(key) => Some(Command::Get { key }),
                None => None,
            };
        },
        None => {},
    }
    let t = word_set_bytes();
    let v = word_val_bytes();
    match read_tagged2_at(buf, 0, t.as_slice(), k.as_slice(), v.as_slice()) {
        Some((kb, vb, end)) => {
            if end != buf.len() {
                return None;
            }
            let key = text_from_bytes(kb);
            let val = text_from_bytes(vb);
            return match (key, val) {
                (Some(key), Some(val)) => Some(Command::Put { key, val }),
                _ => None,
            };
        },
        None => {},
    }
    let t = word_remove_bytes();
    match read_tagged1_at(buf, 0, t.as_slice(), k.as_slice()) {
        Some((kb, end)) => {
            if end != buf.len() {
                return None;
            }
            match text_from_bytes(kb) {
                Some(key) => Some(Command::Remove { key }),
                None => None,
            }
        },
        None => None,
    }
}

/// The JSON text of a response.
pub fn encode_response(r: &Response) -> (out: Vec<u8>)
    ensures
        out@ == response_bytes(r.success, r.message@),
{
    let mut out: Vec<u8> = Vec::new();
    let h = response_head_bytes();
    out.extend_from_slice(h.as_slice());
    let w = bool_word_bytes(r.success);
    out.extend_from_slice(w.as_slice());
    let m = message_head_bytes();
    out.extend_from_slice(m.as_slice());
    escape_into(&mut out, text_bytes(&r.message));
    out.push(QUOTE);
    out.push(125);
    assert(out@ =~= response_bytes(r.success, r.message@));
    out
}

/// Reads a response from the whole of `buf`.
pub fn decode_response(buf: &[u8]) -> (r: Option<Response>)
    ensures
        match parse_response(buf@) {
            Some((flag, text)) => r matches Some(d) && d.success == flag && d.message@ == text,
            None => r is None,
        },
{
    let h = response_head_bytes();
    assert(buf@.subrange(0, buf@.len() as int) =~= buf@);
    if !matches_at(buf, 0, h.as_slice()) {
        return None;
    }
    let at_a: usize = 11;
    assert(buf@.subrange(at_a as int, buf@.len() as int) =~= buf@.skip(11));
    let t = bool_word_bytes(true);
    let f = bool_word_bytes(false);
    let (flag, at_b) = if matches_at(buf, at_a, t.as_slice()) {
        (true, at_a + 4)
    } else if matches_at(buf, at_a, f.as_slice()) {
        (false, at_a + 5)
    } else {
        return None;
    };
    assert(buf@.subrange(at_b as int, buf@.len() as int) =~= buf@.skip(at_b as int));
    let m = message_head_bytes();
    if !matches_at(buf, at_b, m.as_slice()) {
        return None;
    }
    let at_c = at_b + 12;
    assert(buf@.subrange(at_c as int, buf@.len() as int) =~= buf@.skip(at_c as int));
    match read_string(buf, at_c) {
        Some((x, q)) => {
            if q < buf.len() && q + 1 == buf.len() && buf[q] == 125 {
                match text_from_bytes(x) {
                    Some(message) => Some(Response { success: flag, message }),
                    None => None,
                }
            } else {
                None
            }
        },
        None => None,
    }
}

/// The eight big-endian bytes of `n`.
pub open spec fn be_bytes(n: u64) -> Seq<u8> {
    seq![
        (n >> 56u64) as u8,
        (n >> 48u64) as u8,
        (n >> 40u64) as u8,
        (n >> 32u64) as u8,
        (n >> 24u64) as u8,
        (n >> 16u64) as u8,
        (n >> 8u64) as u8,
        n as u8,
    ]
}

/// The number that eight big-endian bytes stand for.
pub open spec fn be_value(b: Seq<u8>) -> u64 {
    ((b[0] as u64) << 56u64) | ((b[1] as u64) << 48u64) | ((b[2] as u64) << 40u64) | ((
    b[3] as u64) << 32u64) | ((b[4] as u64) << 24u64) | ((b[5] as u64) << 16u64) | ((
    b[6] as u64) << 8u64) | (b[7] as u64)
}

/// A frame: the length of `body` in eight big-endian bytes, then `body`.
pub open spec fn frame_bytes(body: Seq<u8>) -> Seq<u8> {
    be_bytes(body.len() as u64) + body
}

/// A length read back from its eight bytes is the length written.
pub proof fn lemma_be_round_trip(n: u64)
    ensures
        be_value(be_bytes(n)) == n,
{
    let b = be_bytes(n);
    assert(((((n >> 56u64) as u8) as u64) << 56u64) | ((((n >> 48u64) as u8) as u64) << 48u64)
        | ((((n >> 40u64) as u8) as u64) << 40u64) | ((((n >> 32u64) as u8) as u64) << 32u64)
        | ((((n >> 24u64) as u8) as u64) << 24u64) | ((((n >> 16u64) as u8) as u64) << 16u64)
        | ((((n >> 8u64) as u8) as u64) << 8u64) | ((n as u8) as u64) == n) by (bit_vector);
}

/// The header of a frame whose body is `len` bytes long.
pub fn frame_header(len: u64) -> (r: [u8; 8])
    ensures
        r@ == be_bytes(len),
{
    let r: [u8; 8] = [
        (len >> 56u64) as u8,
        (len >> 48u64) as u8,
        (len >> 40u64) as u8,
        (len >> 32u64) as u8,
        (len >> 24u64) as u8,
        (len >> 16u64) as u8,
        (len >> 8u64) as u8,
        len as u8,
    ];
    assert(r@ =~= be_bytes(len));
    r
}

/// The body length that a frame header announces.
pub fn header_length(h: &[u8; 8]) -> (r: u64)
    ensures
        r == be_value(h@),
{
    ((h[0] as u64) << 56u64) | ((h[1] as u64) << 48u64) | ((h[2] as u64) << 40u64) | ((
    h[3] as u64) << 32u64) | ((h[4] as u64) << 24u64) | ((h[5] as u64) << 16u64) | ((
    h[6] as u64) << 8u64) | (h[7] as u64)
}

/// A whole frame around `body`.
pub fn frame(body: &[u8]) -> (r: Vec<u8>)
    ensures
        r@ == frame_bytes(body@),
{
    let h = frame_header(body.len() as u64);
    let mut out: Vec<u8> = Vec::new();
    out.extend_from_slice(h.as_slice());
    out.extend_from_slice(body);
    assert(out@ =~= frame_bytes(body@));
    out
}

/// Reads the frame at the front of `buf`: its body and the position after it.
pub fn unframe(buf: &[u8]) -> (r: Option<(Vec<u8>, usize)>)
    ensures
        buf@.len() >= 8 && buf@.len() - 8 >= be_value(buf@.subrange(0, 8)) ==> (r matches Some(
            (body, end),
        ) && body@ == buf@.subrange(8, end as int) && end == 8 + be_value(buf@.subrange(0, 8))),
        !(buf@.len() >= 8 && buf@.len() - 8 >= be_value(buf@.subrange(0, 8))) ==> r is None,
{
    if buf.len() < 8 {
        return None;
    }
    let h: [u8; 8] = [buf[0], buf[1], buf[2], buf[3], buf[4], buf[5], buf[6], buf[7]];
    assert(h@ =~= buf@.subrange(0, 8));
    let n = header_length(&h);
    if ((buf.len() - 8) as u64) < n {
        return None;
    }
    let end = 8 + n as usize;
    let mut body: Vec<u8> = Vec::new();
    let mut i: usize = 8;
    while i < end
        invariant
            8 <= i <= end <= buf@.len(),
            body@ == buf@.subrange(8, i as int),
        decreases end - i,
    {
        body.push(buf[i]);
        i = i + 1;
        assert(body@ =~= buf@.subrange(8, i as int));
    }
    Some((body, end))
}

/// A frame reads back as the body it was made from.
pub proof fn lemma_frame_round_trip(body: Seq<u8>)
    requires
        body.len() <= u64::MAX,
    ensures
        frame_bytes(body).subrange(0, 8) == be_bytes(body.len() as u64),
        be_value(frame_bytes(body).subrange(0, 8)) == body.len(),
        frame_bytes(body).subrange(8, 8 + body.len() as int) == body,
{
    let f = frame_bytes(body);
    assert(f.subrange(0, 8) =~= be_bytes(body.len() as u64));
    lemma_be_round_trip(body.len() as u64);
    assert(f.subrange(8, 8 + body.len() as int) =~= body);
}

} // verus!
