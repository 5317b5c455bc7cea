//! Byte-level pieces of the JSON text used on disk and on the wire:
//! escaped string bodies and fixed literals.
use vstd::prelude::*;

verus! {

pub const QUOTE: u8 = 34;

pub const BACKSLASH: u8 = 92;

/// Lower-case hexadecimal digit for a value below 16.
pub open spec fn hex_digit(n: u8) -> u8 {
    if n < 10 {
        (48 + n) as u8
    } else {
        (87 + n) as u8
    }
}

/// Value of a hexadecimal digit of either case.
pub open spec fn hex_value(c: u8) -> Option<u8> {
    if 48 <= c && c <= 57 {
        Some((c - 48) as u8)
    } else if 97 <= c && c <= 102 {
        Some((c - 87) as u8)
    } else if 65 <= c && c <= 70 {
        Some((c - 55) as u8)
    } else {
        None
    }
}

/// The bytes that stand for one byte of string content inside quotes.
pub open spec fn escape_byte(b: u8) -> Seq<u8> {
    if b == QUOTE {
        seq![BACKSLASH, QUOTE]
    } else if b == BACKSLASH {
        seq![BACKSLASH, BACKSLASH]
    } else if b == 8 {
        seq![BACKSLASH, 98u8]
    } else if b == 12 {
        seq![BACKSLASH, 102u8]
    } else if b == 10 {
        seq![BACKSLASH, 110u8]
    } else if b == 13 {
        seq![BACKSLASH, 114u8]
    } else if b == 9 {
        seq![BACKSLASH, 116u8]
    } else if b < 32 {
        seq![BACKSLASH, 117u8, 48u8, 48u8, hex_digit(b / 16), hex_digit(b % 16)]
    } else {
        seq![b]
    }
}

/// Escaped form of a whole string body (without the surrounding quotes).
pub open spec fn escape(s: Seq<u8>) -> Seq<u8>
    decreases s.len(),
{
    if s.len() == 0 {
        Seq::empty()
    } else {
        escape_byte(s[0]) + escape(s.drop_first())
    }
}

/// The byte that a two-byte escape `\c` stands for.
pub open spec fn short_escape(c: u8) -> Option<u8> {
    if c == QUOTE {
        Some(QUOTE)
    } else if c == BACKSLASH {
        Some(BACKSLASH)
    } else if c == 47 {
        Some(47u8)
    } else if c == 98 {
        Some(8u8)
    } else if c == 102 {
        Some(12u8)
    } else if c == 110 {
        Some(10u8)
    } else if c == 114 {
        Some(13u8)
    } else if c == 116 {
        Some(9u8)
    } else {
        None
    }
}

/// The byte that a six-byte escape `\u00XX` stands for; only code points
/// below 0x80 are taken, as they are one byte long.
pub open spec fn unicode_escape(s: Seq<u8>) -> Option<u8> {
    if s.len() >= 6 && s[0] == BACKSLASH && s[1] == 117 && hex_value(s[2]) == Some(0u8)
        && hex_value(s[3]) == Some(0u8) && hex_value(s[4]) is Some && hex_value(
        s[4],
    ).unwrap() < 8 && hex_value(s[5]) is Some {
        Some((hex_value(s[4]).unwrap() * 16 + hex_value(s[5]).unwrap()) as u8)
    } else {
        None
    }
}

/// Reads a string body up to and including its closing quote: the decoded
/// bytes and the number of bytes consumed.
pub open spec fn unescape(s: Seq<u8>) -> Option<(Seq<u8>, int)>
    decreases s.len(),
{
    if s.len() == 0 {
        None
    } else if s[0] == QUOTE {
        Some((Seq::empty(), 1))
    } else if s[0] == BACKSLASH {
        if s.len() >= 2 && short_escape(s[1]) is Some {
            prepend(seq![short_escape(s[1]).unwrap()], 2, unescape(s.skip(2)))
        } else if s.len() >= 6 && unicode_escape(s) is Some {
            prepend(seq![unicode_escape(s).unwrap()], 6, unescape(s.skip(6)))
        } else {
            None
        }
    } else if s[0] < 32 {
        None
    } else {
        prepend(seq![s[0]], 1, unescape(s.drop_first()))
    }
}

/// Puts `p` in front of a partial result that consumed `k` more bytes.
pub open spec fn prepend(p: Seq<u8>, k: int, r: Option<(Seq<u8>, int)>) -> Option<(Seq<u8>, int)> {
    match r {
        Some((t, n)) => Some((p + t, n + k)),
        None => None,
    }
}

/// `s` starts with `p`.
pub open spec fn has_prefix(s: Seq<u8>, p: Seq<u8>) -> bool {
    p.len() <= s.len() && s.subrange(0, p.len() as int) == p
}

proof fn lemma_prepend_assoc(p: Seq<u8>, q: Seq<u8>, k1: int, k2: int, r: Option<(Seq<u8>, int)>)
    ensures
        prepend(p, k1, prepend(q, k2, r)) == prepend(p + q, k1 + k2, r),
{
    match r {
        Some((t, n)) => {
            assert((p + q) + t =~= p + (q + t));
        },
        None => {},
    }
}

/// Reading an escaped body followed by a quote gives back the body, whatever follows.
pub proof fn lemma_unescape_escape(x: Seq<u8>, rest: Seq<u8>)
    ensures
        unescape(escape(x) + seq![QUOTE] + rest) == Some((x, escape(x).len() + 1 as int)),
    decreases x.len(),
{
    let s = escape(x) + seq![QUOTE] + rest;
    if x.len() == 0 {
        assert(s =~= seq![QUOTE] + rest);
        assert(x =~= Seq::<u8>::empty());
    } else {
        let b = x[0];
        let t = x.drop_first();
        lemma_unescape_escape(t, rest);
        let e = escape_byte(b);
        let tail = escape(t) + seq![QUOTE] + rest;
        assert(s =~= e + tail);
        assert((e + tail).skip(e.len() as int) =~= tail);
        assert(x =~= seq![b] + t);
        if b == QUOTE || b == BACKSLASH || b == 8 || b == 12 || b == 10 || b == 13 || b == 9 {
            assert(s[0] == BACKSLASH);
            assert(s[1] == e[1]);
        } else if b < 32 {
            assert(s[0] == BACKSLASH);
            assert(s[1] == 117);
            assert(s.subrange(0, 6) =~= e);
            assert(hex_value(hex_digit(b / 16)) == Some((b / 16) as u8));
            assert(hex_value(hex_digit(b % 16)) == Some((b % 16) as u8));
            assert(unicode_escape(s) == Some(b));
        } else {
            assert(s[0] == b);
            assert(s.drop_first() =~= tail);
        }
    }
}

/// Appends the escaped form of `s` to `out`.
pub fn escape_into(out: &mut Vec<u8>, s: &[u8])
    ensures
        final(out)@ == old(out)@ + escape(s@),
{
    let ghost init = out@;
    let mut i: usize = 0;
    assert(s@.subrange(0, s@.len() as int) =~= s@);
    while i < s.len()
        invariant
            i <= s@.len(),
            out@ + escape(s@.subrange(i as int, s@.len() as int)) == init + escape(s@),
        decreases s@.len() - i,
    {
        let b = s[i];
        let ghost rest = s@.subrange(i as int, s@.len() as int);
        assert(rest.drop_first() =~= s@.subrange(i + 1, s@.len() as int));
        let ghost before = out@;
        if b == QUOTE {
            out.push(BACKSLASH);
            out.push(QUOTE);
        } else if b == BACKSLASH {
            out.push(BACKSLASH);
            out.push(BACKSLASH);
        } else if b == 8 {
            out.push(BACKSLASH);
            out.push(98);
        } else if b == 12 {
            out.push(BACKSLASH);
            out.push(102);
        } else if b == 10 {
            out.push(BACKSLASH);
            out.push(110);
        } else if b == 13 {
            out.push(BACKSLASH);
            out.push(114);
        } else if b == 9 {
            out.push(BACKSLASH);
            out.push(116);
        } else if b < 32 {
            out.push(BACKSLASH);
            out.push(117);
            out.push(48);
            out.push(48);
            out.push(hex_digit_exec(b / 16));
            out.push(hex_digit_exec(b % 16));
        } else {
            out.push(b);
        }
        assert(out@ =~= before + escape_byte(b));
        assert(out@ + escape(s@.subrange(i + 1, s@.len() as int)) =~= before + escape(rest));
        i = i + 1;
    }
    assert(s@.subrange(s@.len() as int, s@.len() as int) =~= Seq::<u8>::empty());
    assert(out@ =~= init + escape(s@));
}

fn hex_digit_exec(n: u8) -> (r: u8)
    requires
        n < 16,
    ensures
        r == hex_digit(n),
{
    if n < 10 {
        48 + n
    } else {
        87 + n
    }
}

fn hex_value_exec(c: u8) -> (r: Option<u8>)
    ensures
        r == hex_value(c),
{
    if 48 <= c && c <= 57 {
        Some(c - 48)
    } else if 97 <= c && c <= 102 {
        Some(c - 87)
    } else if 65 <= c && c <= 70 {
        Some(c - 55)
    } else {
        None
    }
}

fn short_escape_exec(c: u8) -> (r: Option<u8>)
    ensures
        r == short_escape(c),
{
    if c == QUOTE {
        Some(QUOTE)
    } else if c == BACKSLASH {
        Some(BACKSLASH)
    } else if c == 47 {
        Some(47)
    } else if c == 98 {
        Some(8)
    } else if c == 102 {
        Some(12)
    } else if c == 110 {
        Some(10)
    } else if c == 114 {
        Some(13)
    } else if c == 116 {
        Some(9)
    } else {
        None
    }
}

fn unicode_escape_exec(buf: &[u8], i: usize) -> (r: Option<u8>)
    requires
        i < buf@.len(),
    ensures
        r == unicode_escape(buf@.subrange(i as int, buf@.len() as int)),
{
    let ghost s = buf@.subrange(i as int, buf@.len() as int);
    if buf.len() - i >= 6 && buf[i] == BACKSLASH && buf[i + 1] == 117 {
        let h0 = hex_value_exec(buf[i + 2]);
        let h1 = hex_value_exec(buf[i + 3]);
        let h2 = hex_value_exec(buf[i + 4]);
        let h3 = hex_value_exec(buf[i + 5]);
        match (h0, h1, h2, h3) {
            (Some(a), Some(b), Some(c), Some(d)) => {
                if a == 0 && b == 0 && c < 8 {
                    Some(c * 16 + d)
                } else {
                    None
                }
            },
            _ => None,
        }
    } else {
        None
    }
}

/// Reads the string body that starts at `start`, through its closing quote:
/// the decoded bytes and the position just after the quote.
pub fn read_string(buf: &[u8], start: usize) -> (r: Option<(Vec<u8>, usize)>)
    requires
        start <= buf@.len(),
    ensures
        match unescape(buf@.subrange(start as int, buf@.len() as int)) {
            Some((t, n)) => r matches Some((v, end)) && v@ == t && end == start + n,
            None => r is None,
        },
        r matches Some((_, end)) ==> start < end <= buf@.len(),
{
    let mut out: Vec<u8> = Vec::new();
    let mut i: usize = start;
    let ghost whole = buf@.subrange(start as int, buf@.len() as int);
    assert(prepend(out@, 0, unescape(whole)) == unescape(whole)) by {
        match unescape(whole) {
            Some((t, n)) => {
                assert(Seq::<u8>::empty() + t =~= t);
            },
            None => {},
        }
    }
    loop
        invariant
            start <= i <= buf@.len(),
            whole == buf@.subrange(start as int, buf@.len() as int),
            unescape(whole) == prepend(
                out@,
                i - start,
                unescape(buf@.subrange(i as int, buf@.len() as int)),
            ),
        decreases buf@.len() - i,
    {
        let ghost s = buf@.subrange(i as int, buf@.len() as int);
        if i == buf.len() {
            return None;
        }
        let b = buf[i];
        if b == QUOTE {
            assert(out@ + Seq::<u8>::empty() =~= out@);
            return Some((out, i + 1));
        } else if b == BACKSLASH {
            if buf.len() - i >= 2 {
                let e = short_escape_exec(buf[i + 1]);
                if let Some(c) = e {
                    assert(s.skip(2) =~= buf@.subrange(i + 2, buf@.len() as int));
                    proof {
                        lemma_prepend_assoc(
                            out@,
                            seq![c],
                            i - start,
                            2,
                            unescape(s.skip(2)),
                        );
                    }
                    out.push(c);
                    i = i + 2;
                    continue ;
                }
            }
            let u = unicode_escape_exec(buf, i);
            if let Some(c) = u {
                assert(s.skip(6) =~= buf@.subrange(i + 6, buf@.len() as int));
                proof {
                    lemma_prepend_assoc(out@, seq![c], i - start, 6, unescape(s.skip(6)));
                }
                out.push(c);
                i = i + 6;
            } else {
                return None;
            }
        } else if b < 32 {
            return None;
        } else {
            assert(s.drop_first() =~= buf@.subrange(i + 1, buf@.len() as int));
            proof {
                lemma_prepend_assoc(out@, seq![b], i - start, 1, unescape(s.drop_first()));
            }
            out.push(b);
            i = i + 1;
        }
    }
}

/// Whether `lit` stands in `buf` at `pos`.
pub fn matches_at(buf: &[u8], pos: usize, lit: &[u8]) -> (r: bool)
    requires
        pos <= buf@.len(),
    ensures
        r == has_prefix(buf@.subrange(pos as int, buf@.len() as int), lit@),
{
    let ghost s = buf@.subrange(pos as int, buf@.len() as int);
    if buf.len() - pos < lit.len() {
        return false;
    }
    let mut j: usize = 0;
    assert(pos + lit@.len() <= buf@.len());
    while j < lit.len()
        invariant
            j <= lit@.len(),
            pos + lit@.len() <= buf@.len(),
            s == buf@.subrange(pos as int, buf@.len() as int),
            forall|k: int| 0 <= k < j ==> buf@[pos + k] == lit@[k],
        decreases lit@.len() - j,
    {
        assert(j < lit@.len());
        assert(pos + j < buf.len());
        if buf[pos + j] != lit[j] {
            assert(s.subrange(0, lit@.len() as int)[j as int] != lit@[j as int]);
            return false;
        }
        j = j + 1;
    }
    assert(s.subrange(0, lit@.len() as int) =~= lit@);
    true
}

/// `{"<tag>":{"<field>":"`: the opening of a one-entry object whose value is
/// an object, up to the opening quote of its first string.
pub open spec fn object_head(tag: Seq<u8>, field: Seq<u8>) -> Seq<u8> {
    seq![123u8, QUOTE] + tag + seq![QUOTE, 58u8, 123u8, QUOTE] + field + seq![QUOTE, 58u8, QUOTE]
}

/// `,"<field>":"`: the start of a further string member.
pub open spec fn member_head(field: Seq<u8>) -> Seq<u8> {
    seq![44u8, QUOTE] + field + seq![QUOTE, 58u8, QUOTE]
}

/// `}}`: the end of a tagged object.
pub open spec fn object_tail() -> Seq<u8> {
    seq![125u8, 125u8]
}

/// A string body in its escaped form, with its closing quote.
pub open spec fn quoted(x: Seq<u8>) -> Seq<u8> {
    escape(x) + seq![QUOTE]
}

/// `{"<tag>":{"<f1>":"<x1>"}}`
pub open spec fn tagged1(tag: Seq<u8>, f1: Seq<u8>, x1: Seq<u8>) -> Seq<u8> {
    object_head(tag, f1) + quoted(x1) + object_tail()
}

/// `{"<tag>":{"<f1>":"<x1>","<f2>":"<x2>"}}`
pub open spec fn tagged2(tag: Seq<u8>, f1: Seq<u8>, x1: Seq<u8>, f2: Seq<u8>, x2: Seq<u8>) -> Seq<u8> {
    object_head(tag, f1) + quoted(x1) + member_head(f2) + quoted(x2) + object_tail()
}

/// Reads `{"<tag>":{"<f1>":"..."}}` at the front of `b`: the string and the
/// length of the object.
pub open spec fn read_tagged1(b: Seq<u8>, tag: Seq<u8>, f1: Seq<u8>) -> Option<(Seq<u8>, int)> {
    let h = object_head(tag, f1);
    if has_prefix(b, h) {
        match unescape(b.skip(h.len() as int)) {
            Some((x1, n1)) => {
                let p = h.len() + n1;
                if has_prefix(b.skip(p), object_tail()) {
                    Some((x1, p + 2))
                } else {
                    None
                }
            },
            None => None,
        }
    } else {
        None
    }
}

/// Reads `{"<tag>":{"<f1>":"...","<f2>":"..."}}` at the front of `b`: the two
/// strings and the length of the object.
pub open spec fn read_tagged2(b: Seq<u8>, tag: Seq<u8>, f1: Seq<u8>, f2: Seq<u8>) -> Option<
    (Seq<u8>, Seq<u8>, int),
> {
    let h = object_head(tag, f1);
    if has_prefix(b, h) {
        match unescape(b.skip(h.len() as int)) {
            Some((x1, n1)) => {
                let p = h.len() + n1;
                let m = member_head(f2);
                if has_prefix(b.skip(p), m) {
                    match unescape(b.skip(p + m.len())) {
                        Some((x2, n2)) => {
                            let q = p + m.len() + n2;
                            if has_prefix(b.skip(q), object_tail()) {
                                Some((x1, x2, q + 2))
                            } else {
                                None
                            }
                        },
                        None => None,
                    }
                } else {
                    None
                }
            },
            None => None,
        }
    } else {
        None
    }
}

proof fn lemma_prefix_of_concat(a: Seq<u8>, rest: Seq<u8>)
    ensures
        has_prefix(a + rest, a),
        (a + rest).skip(a.len() as int) == rest,
{
    assert((a + rest).subrange(0, a.len() as int) =~= a);
    assert((a + rest).skip(a.len() as int) =~= rest);
}

/// A one-string object reads back as the string it was written from.
pub proof fn lemma_read_tagged1(tag: Seq<u8>, f1: Seq<u8>, x1: Seq<u8>, rest: Seq<u8>)
    ensures
        read_tagged1(tagged1(tag, f1, x1) + rest, tag, f1) == Some(
            (x1, tagged1(tag, f1, x1).len() as int),
        ),
{
    let h = object_head(tag, f1);
    let b = tagged1(tag, f1, x1) + rest;
    let after = quoted(x1) + (object_tail() + rest);
    assert(b =~= h + after);
    lemma_prefix_of_concat(h, after);
    lemma_unescape_escape(x1, object_tail() + rest);
    assert(escape(x1) + seq![QUOTE] + (object_tail() + rest) =~= after);
    let p: int = (h.len() + escape(x1).len() + 1) as int;
    assert(b.skip(p) =~= object_tail() + rest);
    lemma_prefix_of_concat(object_tail(), rest);
}

/// A two-string object reads back as the strings it was written from.
#[verifier::rlimit(50)]
pub proof fn lemma_read_tagged2(
    tag: Seq<u8>,
    f1: Seq<u8>,
    x1: Seq<u8>,
    f2: Seq<u8>,
    x2: Seq<u8>,
    rest: Seq<u8>,
)
    ensures
        read_tagged2(tagged2(tag, f1, x1, f2, x2) + rest, tag, f1, f2) == Some(
            (x1, x2, tagged2(tag, f1, x1, f2, x2).len() as int),
        ),
{
    let h = object_head(tag, f1);
    let m = member_head(f2);
    let b = tagged2(tag, f1, x1, f2, x2) + rest;
    let after2 = quoted(x2) + (object_tail() + rest);
    let after1 = quoted(x1) + (m + after2);
    assert(b =~= h + after1);
    lemma_prefix_of_concat(h, after1);
    lemma_unescape_escape(x1, m + after2);
    assert(escape(x1) + seq![QUOTE] + (m + after2) =~= after1);
    let p: int = (h.len() + escape(x1).len() + 1) as int;
    assert(b.skip(p) =~= m + after2);
    lemma_prefix_of_concat(m, after2);
    assert(b.skip(p + m.len() as int) =~= after2);
    lemma_unescape_escape(x2, object_tail() + rest);
    assert(escape(x2) + seq![QUOTE] + (object_tail() + rest) =~= after2);
    let q: int = p + m.len() + escape(x2).len() + 1 as int;
    assert(b.skip(q) =~= object_tail() + rest);
    lemma_prefix_of_concat(object_tail(), rest);
}

/// Appends the opening of a tagged object.
fn push_object_head(out: &mut Vec<u8>, tag: &[u8], field: &[u8])
    ensures
        final(out)@ == old(out)@ + object_head(tag@, field@),
{
    out.push(123);
    out.push(QUOTE);
    out.extend_from_slice(tag);
    out.push(QUOTE);
    out.push(58);
    out.push(123);
    out.push(QUOTE);
    out.extend_from_slice(field);
    out.push(QUOTE);
    out.push(58);
    out.push(QUOTE);
    assert(final(out)@ =~= old(out)@ + object_head(tag@, field@));
}

/// Appends the start of a further string member.
fn push_member_head(out: &mut Vec<u8>, field: &[u8])
    ensures
        final(out)@ == old(out)@ + member_head(field@),
{
    out.push(44);
    out.push(QUOTE);
    out.extend_from_slice(field);
    out.push(QUOTE);
    out.push(58);
    out.push(QUOTE);
    assert(final(out)@ =~= old(out)@ + member_head(field@));
}

/// Appends `{"<tag>":{"<f1>":"<x1>"}}`.
pub fn write_tagged1(out: &mut Vec<u8>, tag: &[u8], f1: &[u8], x1: &[u8])
    ensures
        final(out)@ == old(out)@ + tagged1(tag@, f1@, x1@),
{
    let ghost init = out@;
    push_object_head(out, tag, f1);
    escape_into(out, x1);
    out.push(QUOTE);
    out.push(125);
    out.push(125);
    assert(out@ =~= init + tagged1(tag@, f1@, x1@));
}

/// Appends `{"<tag>":{"<f1>":"<x1>","<f2>":"<x2>"}}`.
pub fn write_tagged2(out: &mut Vec<u8>, tag: &[u8], f1: &[u8], x1: &[u8], f2: &[u8], x2: &[u8])
    ensures
        final(out)@ == old(out)@ + tagged2(tag@, f1@, x1@, f2@, x2@),
{
    let ghost init = out@;
    push_object_head(out, tag, f1);
    escape_into(out, x1);
    out.push(QUOTE);
    push_member_head(out, f2);
    escape_into(out, x2);
    out.push(QUOTE);
    out.push(125);
    out.push(125);
    assert(out@ =~= init + tagged2(tag@, f1@, x1@, f2@, x2@));
}

fn object_head_bytes(tag: &[u8], field: &[u8]) -> (r: Vec<u8>)
    ensures
        r@ == object_head(tag@, field@),
{
    let mut h: Vec<u8> = Vec::new();
    push_object_head(&mut h, tag, field);
    assert(h@ =~= object_head(tag@, field@));
    h
}

fn member_head_bytes(field: &[u8]) -> (r: Vec<u8>)
    ensures
        r@ == member_head(field@),
{
    let mut h: Vec<u8> = Vec::new();
    push_member_head(&mut h, field);
    assert(h@ =~= member_head(field@));
    h
}

fn matches_tail(buf: &[u8], pos: usize) -> (r: bool)
    requires
        pos <= buf@.len(),
    ensures
        r == has_prefix(buf@.subrange(pos as int, buf@.len() as int), object_tail()),
{
    let t: [u8; 2] = [125, 125];
    assert(t@ =~= object_tail());
    matches_at(buf, pos, t.as_slice())
}

/// Reads `{"<tag>":{"<f1>":"..."}}` at `pos`: the string and the position
/// after the object.
pub fn read_tagged1_at(buf: &[u8], pos: usize, tag: &[u8], f1: &[u8]) -> (r: Option<(Vec<u8>, usize)>)
    requires
        pos <= buf@.len(),
    ensures
        match read_tagged1(buf@.skip(pos as int), tag@, f1@) {
            Some((x1, n)) => r matches Some((v, end)) && v@ == x1 && end == pos + n,
            None => r is None,
        },
{
    let ghost b = buf@.skip(pos as int);
    assert(buf@.subrange(pos as int, buf@.len() as int) =~= b);
    let h = object_head_bytes(tag, f1);
    if !matches_at(buf, pos, h.as_slice()) {
        return None;
    }
    assert(pos + h@.len() <= buf.len());
    let at_a = pos + h.len();
    assert(buf@.subrange(at_a as int, buf@.len() as int) =~= b.skip(h@.len() as int));
    match read_string(buf, at_a) {
        Some((x1, at_b)) => {
            assert(buf@.subrange(at_b as int, buf@.len() as int) =~= b.skip(at_b - pos));
            if matches_tail(buf, at_b) {
                Some((x1, at_b + 2))
            } else {
                None
            }
        },
        None => None,
    }
}

/// Reads `{"<tag>":{"<f1>":"...","<f2>":"..."}}` at `pos`: the two strings
/// and the position after the object.
pub fn read_tagged2_at(buf: &[u8], pos: usize, tag: &[u8], f1: &[u8], f2: &[u8]) -> (r: Option<
    (Vec<u8>, Vec<u8>, usize),
>)
    requires
        pos <= buf@.len(),
    ensures
        match read_tagged2(buf@.skip(pos as int), tag@, f1@, f2@) {
            Some((x1, x2, n)) => r matches Some((v1, v2, end)) && v1@ == x1 && v2@ == x2 && end
                == pos + n,
            None => r is None,
        },
{
    let ghost b = buf@.skip(pos as int);
    assert(buf@.subrange(pos as int, buf@.len() as int) =~= b);
    let h = object_head_bytes(tag, f1);
    if !matches_at(buf, pos, h.as_slice()) {
        return None;
    }
    assert(pos + h@.len() <= buf.len());
    let at_a = pos + h.len();
    assert(buf@.subrange(at_a as int, buf@.len() as int) =~= b.skip(h@.len() as int));
    match read_string(buf, at_a) {
        Some((x1, at_b)) => {
            assert(buf@.subrange(at_b as int, buf@.len() as int) =~= b.skip(at_b - pos));
            let m = member_head_bytes(f2);
            if !matches_at(buf, at_b, m.as_slice()) {
                return None;
            }
            assert(at_b + m@.len() <= buf.len());
            let at_c = at_b + m.len();
            assert(buf@.subrange(at_c as int, buf@.len() as int) =~= b.skip(at_c - pos));
            match read_string(buf, at_c) {
                Some((x2, at_d)) => {
                    assert(buf@.subrange(at_d as int, buf@.len() as int) =~= b.skip(at_d - pos));
                    if matches_tail(buf, at_d) {
                        Some((x1, x2, at_d + 2))
                    } else {
                        None
                    }
                },
                None => None,
            }
        },
        None => None,
    }
}

/// What `unescape` reads depends only on the bytes it consumes.
pub proof fn lemma_unescape_local(s: Seq<u8>, t: Seq<u8>)
    requires
        unescape(s) is Some,
        unescape(s).unwrap().1 <= t.len(),
        t.subrange(0, unescape(s).unwrap().1) == s.subrange(0, unescape(s).unwrap().1),
    ensures
        unescape(t) == unescape(s),
    decreases s.len(),
{
    let n = unescape(s).unwrap().1;
    lemma_unescape_len(s);
    assert(t[0] == t.subrange(0, n)[0]);
    if s[0] == QUOTE {
    } else if s[0] == BACKSLASH {
        if s.len() >= 2 && short_escape(s[1]) is Some {
            lemma_unescape_len(s.skip(2));
            assert(t[1] == t.subrange(0, n)[1]);
            let s2 = s.skip(2);
            let t2 = t.skip(2);
            let n2 = unescape(s2).unwrap().1;
            assert(t2.subrange(0, n2) =~= t.subrange(0, n).subrange(2, n2 + 2));
            assert(s2.subrange(0, n2) =~= s.subrange(0, n).subrange(2, n2 + 2));
            lemma_unescape_local(s2, t2);
        } else {
            lemma_unescape_len(s.skip(6));
            assert(t[1] == t.subrange(0, n)[1]);
            assert forall|i: int| 0 <= i < 6 implies t[i] == s[i] by {
                assert(t[i] == t.subrange(0, n)[i]);
            }
            assert(unicode_escape(t) == unicode_escape(s));
            let s2 = s.skip(6);
            let t2 = t.skip(6);
            let n2 = unescape(s2).unwrap().1;
            assert(t2.subrange(0, n2) =~= t.subrange(0, n).subrange(6, n2 + 6));
            assert(s2.subrange(0, n2) =~= s.subrange(0, n).subrange(6, n2 + 6));
            lemma_unescape_local(s2, t2);
        }
    } else {
        let s2 = s.drop_first();
        let t2 = t.drop_first();
        let n2 = unescape(s2).unwrap().1;
        assert(t2.subrange(0, n2) =~= t.subrange(0, n).subrange(1, n2 + 1));
        assert(s2.subrange(0, n2) =~= s.subrange(0, n).subrange(1, n2 + 1));
        lemma_unescape_local(s2, t2);
    }
}

/// `unescape` consumes at least one byte and no more than it is given.
pub proof fn lemma_unescape_len(s: Seq<u8>)
    requires
        unescape(s) is Some,
    ensures
        1 <= unescape(s).unwrap().1 <= s.len(),
    decreases s.len(),
{
    if s[0] == QUOTE {
    } else if s[0] == BACKSLASH {
        if s.len() >= 2 && short_escape(s[1]) is Some {
            lemma_unescape_len(s.skip(2));
        } else {
            lemma_unescape_len(s.skip(6));
        }
    } else {
        lemma_unescape_len(s.drop_first());
    }
}

proof fn lemma_prefix_local(s: Seq<u8>, t: Seq<u8>, p: Seq<u8>, n: int)
    requires
        has_prefix(s, p),
        p.len() <= n <= t.len(),
        n <= s.len(),
        t.subrange(0, n) == s.subrange(0, n),
    ensures
        has_prefix(t, p),
{
    assert(t.subrange(0, p.len() as int) =~= t.subrange(0, n).subrange(0, p.len() as int));
    assert(s.subrange(0, p.len() as int) =~= s.subrange(0, n).subrange(0, p.len() as int));
}

proof fn lemma_skip_local(s: Seq<u8>, t: Seq<u8>, k: int, n: int)
    requires
        0 <= k <= n <= t.len(),
        n <= s.len(),
        t.subrange(0, n) == s.subrange(0, n),
    ensures
        t.skip(k).subrange(0, n - k) == s.skip(k).subrange(0, n - k),
{
    assert(t.skip(k).subrange(0, n - k) =~= t.subrange(0, n).subrange(k, n));
    assert(s.skip(k).subrange(0, n - k) =~= s.subrange(0, n).subrange(k, n));
}

/// What `read_tagged1` reads depends only on the bytes it consumes.
pub proof fn lemma_read_tagged1_local(b: Seq<u8>, c: Seq<u8>, tag: Seq<u8>, f1: Seq<u8>)
    requires
        read_tagged1(b, tag, f1) is Some,
        read_tagged1(b, tag, f1).unwrap().1 <= c.len(),
        c.subrange(0, read_tagged1(b, tag, f1).unwrap().1) == b.subrange(
            0,
            read_tagged1(b, tag, f1).unwrap().1,
        ),
    ensures
        read_tagged1(c, tag, f1) == read_tagged1(b, tag, f1),
{
    let n = read_tagged1(b, tag, f1).unwrap().1;
    let h = object_head(tag, f1);
    lemma_unescape_len(b.skip(h.len() as int));
    let n1 = unescape(b.skip(h.len() as int)).unwrap().1;
    lemma_prefix_local(b, c, h, n);
    lemma_skip_local(b, c, h.len() as int, n);
    assert(c.skip(h.len() as int).subrange(0, n1) =~= c.skip(h.len() as int).subrange(
        0,
        n - h.len(),
    ).subrange(0, n1));
    assert(b.skip(h.len() as int).subrange(0, n1) =~= b.skip(h.len() as int).subrange(
        0,
        n - h.len(),
    ).subrange(0, n1));
    lemma_unescape_local(b.skip(h.len() as int), c.skip(h.len() as int));
    let p = h.len() + n1;
    lemma_skip_local(b, c, p, n);
    lemma_prefix_local(b.skip(p), c.skip(p), object_tail(), n - p);
}

/// What `read_tagged2` reads depends only on the bytes it consumes.
#[verifier::rlimit(50)]
pub proof fn lemma_read_tagged2_local(
    b: Seq<u8>,
    c: Seq<u8>,
    tag: Seq<u8>,
    f1: Seq<u8>,
    f2: Seq<u8>,
)
    requires
        read_tagged2(b, tag, f1, f2) is Some,
        read_tagged2(b, tag, f1, f2).unwrap().2 <= c.len(),
        c.subrange(0, read_tagged2(b, tag, f1, f2).unwrap().2) == b.subrange(
            0,
            read_tagged2(b, tag, f1, f2).unwrap().2,
        ),
    ensures
        read_tagged2(c, tag, f1, f2) == read_tagged2(b, tag, f1, f2),
{
    let n = read_tagged2(b, tag, f1, f2).unwrap().2;
    let h = object_head(tag, f1);
    let m = member_head(f2);
    lemma_unescape_len(b.skip(h.len() as int));
    let n1 = unescape(b.skip(h.len() as int)).unwrap().1;
    let p = h.len() + n1;
    lemma_unescape_len(b.skip(p + m.len()));
    let n2 = unescape(b.skip(p + m.len())).unwrap().1;
    let q = p + m.len() + n2;
    lemma_prefix_local(b, c, h, n);
    lemma_skip_local(b, c, h.len() as int, n);
    assert(c.skip(h.len() as int).subrange(0, n1) =~= c.skip(h.len() as int).subrange(
        0,
        n - h.len(),
    ).subrange(0, n1));
    assert(b.skip(h.len() as int).subrange(0, n1) =~= b.skip(h.len() as int).subrange(
        0,
        n - h.len(),
    ).subrange(0, n1));
    lemma_unescape_local(b.skip(h.len() as int), c.skip(h.len() as int));
    lemma_skip_local(b, c, p, n);
    lemma_prefix_local(b.skip(p), c.skip(p), m, n - p);
    lemma_skip_local(b, c, p + m.len(), n);
    assert(c.skip(p + m.len()).subrange(0, n2) =~= c.skip(p + m.len()).subrange(
        0,
        n - p - m.len(),
    ).subrange(0, n2));
    assert(b.skip(p + m.len()).subrange(0, n2) =~= b.skip(p + m.len()).subrange(
        0,
        n - p - m.len(),
    ).subrange(0, n2));
    lemma_unescape_local(b.skip(p + m.len()), c.skip(p + m.len()));
    lemma_skip_local(b, c, q, n);
    lemma_prefix_local(b.skip(q), c.skip(q), object_tail(), n - q);
}

/// A one-string object is longer than its opening and fits in what it is read from.
pub proof fn lemma_read_tagged1_len(b: Seq<u8>, tag: Seq<u8>, f1: Seq<u8>)
    requires
        read_tagged1(b, tag, f1) is Some,
    ensures
        object_head(tag, f1).len() < read_tagged1(b, tag, f1).unwrap().1 <= b.len(),
{
    let h = object_head(tag, f1);
    lemma_unescape_len(b.skip(h.len() as int));
}

/// A two-string object is longer than its opening and fits in what it is read from.
pub proof fn lemma_read_tagged2_len(b: Seq<u8>, tag: Seq<u8>, f1: Seq<u8>, f2: Seq<u8>)
    requires
        read_tagged2(b, tag, f1, f2) is Some,
    ensures
        object_head(tag, f1).len() < read_tagged2(b, tag, f1, f2).unwrap().2 <= b.len(),
{
    let h = object_head(tag, f1);
    lemma_unescape_len(b.skip(h.len() as int));
    let p = h.len() + unescape(b.skip(h.len() as int)).unwrap().1;
    lemma_unescape_len(b.skip(p + member_head(f2).len()));
}

} // verus!
