//! The bundle payload format: a decrypted export is a JSON array of
//! `{"key":…,"value":…,"locked":…}` objects, one per entry, in export order.
//!
//! `payload_of` fixes the byte format exactly — string escaping included —
//! and the serializer is proved to produce it.  The parser is strict: it
//! accepts exactly the canonical bytes, and whenever it succeeds the input
//! equals `payload_of` of what it returned, so nothing can be smuggled past
//! the format.

use vstd::prelude::*;
use vstd::utf8::{decode_utf8, decode_utf8_encode_utf8, encode_utf8, valid_utf8};
use crate::text::{bytes_to_string, str_to_bytes};

verus! {

/// A decrypted entry of a bundle payload.
#[derive(Debug, Clone)]
pub struct ExportEntry {
    pub key: String,
    pub value: String,
    pub locked: bool,
}

/// The triple a payload entry denotes.
pub open spec fn entry_view(e: ExportEntry) -> (Seq<char>, Seq<char>, bool) {
    (e.key@, e.value@, e.locked)
}

/// The triples a payload entry list denotes.
pub open spec fn entries_seq_view(v: Seq<ExportEntry>) -> Seq<(Seq<char>, Seq<char>, bool)> {
    v.map(|i: int, e: ExportEntry| entry_view(e))
}

/// The lowercase hex digit for a value below 16.
pub open spec fn hex_digit(n: u8) -> u8 {
    if n < 10 {
        (0x30 + n) as u8
    } else {
        (0x57 + n) as u8
    }
}

/// How one byte of a string is written: quote, backslash and the five named
/// control characters get two-byte escapes, any other control byte a
/// six-byte `\u00..` escape, and everything else stands as itself.
pub open spec fn esc_byte(b: u8) -> Seq<u8> {
    if b == 0x22 {
        seq![0x5Cu8, 0x22u8]
    } else if b == 0x5C {
        seq![0x5Cu8, 0x5Cu8]
    } else if b == 0x08 {
        seq![0x5Cu8, 0x62u8]
    } else if b == 0x09 {
        seq![0x5Cu8, 0x74u8]
    } else if b == 0x0A {
        seq![0x5Cu8, 0x6Eu8]
    } else if b == 0x0C {
        seq![0x5Cu8, 0x66u8]
    } else if b == 0x0D {
        seq![0x5Cu8, 0x72u8]
    } else if b < 0x20 {
        seq![0x5Cu8, 0x75u8, 0x30u8, 0x30u8, hex_digit(b / 16), hex_digit(b % 16)]
    } else {
        seq![b]
    }
}

/// A whole byte string, escaped.
pub open spec fn esc(s: Seq<u8>) -> Seq<u8>
    decreases s.len(),
{
    if s.len() == 0 {
        Seq::empty()
    } else {
        esc_byte(s[0]) + esc(s.drop_first())
    }
}

/// Escaping distributes over appending one byte.
pub proof fn lemma_esc_snoc(s: Seq<u8>, b: u8)
    ensures
        esc(s.push(b)) == esc(s) + esc_byte(b),
    decreases s.len(),
{
    if s.len() == 0 {
        assert(s.push(b)[0] == b);
        assert(s.push(b).drop_first() =~= Seq::<u8>::empty());
        assert(esc(Seq::<u8>::empty()) == Seq::<u8>::empty());
        assert(esc(s.push(b)) =~= esc(s) + esc_byte(b));
    } else {
        assert(s.push(b).drop_first() =~= s.drop_first().push(b));
        lemma_esc_snoc(s.drop_first(), b);
        assert(esc(s.push(b)) =~= esc(s) + esc_byte(b));
    }
}

/// Escaping distributes over concatenation.
pub proof fn lemma_esc_append(a: Seq<u8>, b: Seq<u8>)
    ensures
        esc(a + b) == esc(a) + esc(b),
    decreases a.len(),
{
    if a.len() == 0 {
        assert(a + b =~= b);
        assert(esc(a) + esc(b) =~= esc(b));
    } else {
        assert((a + b)[0] == a[0]);
        assert((a + b).drop_first() =~= a.drop_first() + b);
        lemma_esc_append(a.drop_first(), b);
        assert(esc(a + b) =~= esc(a) + esc(b));
    }
}

/// Escaping a byte string splits around any position.
pub proof fn lemma_esc_split(e: Seq<u8>, m: int)
    requires
        0 <= m < e.len(),
    ensures
        esc(e) == esc(e.take(m)) + esc_byte(e[m]) + esc(e.skip(m + 1)),
        esc(e.take(m)).len() + esc_byte(e[m]).len() <= esc(e).len(),
{
    assert(e =~= e.take(m) + (seq![e[m]] + e.skip(m + 1)));
    lemma_esc_append(e.take(m), seq![e[m]] + e.skip(m + 1));
    lemma_esc_append(seq![e[m]], e.skip(m + 1));
    assert(seq![e[m]].drop_first() =~= Seq::<u8>::empty());
    assert(seq![e[m]][0] == e[m]);
    assert(esc(Seq::<u8>::empty()) == Seq::<u8>::empty());
    assert(esc(seq![e[m]]) =~= esc_byte(e[m]));
    assert(esc(e) =~= esc(e.take(m)) + esc_byte(e[m]) + esc(e.skip(m + 1)));
}

/// A JSON string: the UTF-8 bytes, escaped, between double quotes.
pub open spec fn json_string(s: Seq<char>) -> Seq<u8> {
    seq![0x22u8] + esc(encode_utf8(s)) + seq![0x22u8]
}

/// A JSON boolean.
pub open spec fn json_bool(b: bool) -> Seq<u8> {
    if b {
        seq![0x74u8, 0x72u8, 0x75u8, 0x65u8]
    } else {
        seq![0x66u8, 0x61u8, 0x6Cu8, 0x73u8, 0x65u8]
    }
}

/// The bytes of `{"key":`.
pub open spec fn key_prefix() -> Seq<u8> {
    seq![0x7Bu8, 0x22u8, 0x6Bu8, 0x65u8, 0x79u8, 0x22u8, 0x3Au8]
}

/// The bytes of `,"value":`.
pub open spec fn value_prefix() -> Seq<u8> {
    seq![0x2Cu8, 0x22u8, 0x76u8, 0x61u8, 0x6Cu8, 0x75u8, 0x65u8, 0x22u8, 0x3Au8]
}

/// The bytes of `,"locked":`.
pub open spec fn locked_prefix() -> Seq<u8> {
    seq![0x2Cu8, 0x22u8, 0x6Cu8, 0x6Fu8, 0x63u8, 0x6Bu8, 0x65u8, 0x64u8, 0x22u8, 0x3Au8]
}

/// One entry object.
pub open spec fn json_entry(key: Seq<char>, value: Seq<char>, locked: bool) -> Seq<u8> {
    key_prefix() + json_string(key) + value_prefix() + json_string(value) + locked_prefix()
        + json_bool(locked) + seq![0x7Du8]
}

/// The comma-separated entry objects.
pub open spec fn json_entries(es: Seq<(Seq<char>, Seq<char>, bool)>) -> Seq<u8>
    decreases es.len(),
{
    if es.len() == 0 {
        Seq::empty()
    } else if es.len() == 1 {
        json_entry(es[0].0, es[0].1, es[0].2)
    } else {
        json_entry(es[0].0, es[0].1, es[0].2) + seq![0x2Cu8] + json_entries(es.drop_first())
    }
}

/// The whole payload: the entry objects in brackets.
pub open spec fn payload_of(es: Seq<(Seq<char>, Seq<char>, bool)>) -> Seq<u8> {
    seq![0x5Bu8] + json_entries(es) + seq![0x5Du8]
}

/// Appending an entry appends its object, with a comma when one precedes it.
pub proof fn lemma_json_entries_snoc(es: Seq<(Seq<char>, Seq<char>, bool)>, e: (Seq<char>, Seq<char>, bool))
    ensures
        es.len() == 0 ==> json_entries(es.push(e)) == json_entry(e.0, e.1, e.2),
        es.len() > 0 ==> json_entries(es.push(e)) == json_entries(es) + seq![0x2Cu8]
            + json_entry(e.0, e.1, e.2),
    decreases es.len(),
{
    if es.len() == 0 {
        assert(es.push(e)[0] == e);
        assert(json_entries(es.push(e)) =~= json_entry(e.0, e.1, e.2));
    } else {
        assert(es.push(e).drop_first() =~= es.drop_first().push(e));
        lemma_json_entries_snoc(es.drop_first(), e);
        if es.len() == 1 {
            assert(json_entries(es.push(e)) =~= json_entries(es) + seq![0x2Cu8]
                + json_entry(e.0, e.1, e.2));
        } else {
            assert(json_entries(es.push(e)) =~= json_entries(es) + seq![0x2Cu8]
                + json_entry(e.0, e.1, e.2));
        }
    }
}

fn hex_digit_exec(n: u8) -> (r: u8)
    requires
        n < 16,
    ensures
        r == hex_digit(n),
{
    if n < 10 {
        0x30 + n
    } else {
        0x57 + n
    }
}

/// Append the escaped form of the bytes.
fn write_escaped(out: &mut Vec<u8>, bytes: &Vec<u8>)
    ensures
        final(out)@ == old(out)@ + esc(bytes@),
{
    let ghost base = out@;
    let n = bytes.len();
    let mut i: usize = 0;
    proof {
        assert(bytes@.take(0) =~= Seq::<u8>::empty());
        assert(out@ =~= base + esc(bytes@.take(0)));
    }
    while i < n
        invariant
            n == bytes@.len(),
            i <= n,
            out@ == base + esc(bytes@.take(i as int)),
        decreases n - i,
    {
        let b = bytes[i];
        if b == 0x22 {
            out.push(0x5C);
            out.push(0x22);
        } else if b == 0x5C {
            out.push(0x5C);
            out.push(0x5C);
        } else if b == 0x08 {
            out.push(0x5C);
            out.push(0x62);
        } else if b == 0x09 {
            out.push(0x5C);
            out.push(0x74);
        } else if b == 0x0A {
            out.push(0x5C);
            out.push(0x6E);
        } else if b == 0x0C {
            out.push(0x5C);
            out.push(0x66);
        } else if b == 0x0D {
            out.push(0x5C);
            out.push(0x72);
        } else if b < 0x20 {
            out.push(0x5C);
            out.push(0x75);
            out.push(0x30);
            out.push(0x30);
            out.push(hex_digit_exec(b / 16));
            out.push(hex_digit_exec(b % 16));
        } else {
            out.push(b);
        }
        proof {
            lemma_esc_snoc(bytes@.take(i as int), bytes@[i as int]);
            assert(bytes@.take(i + 1) =~= bytes@.take(i as int).push(bytes@[i as int]));
            assert(out@ =~= base + esc(bytes@.take(i + 1)));
        }
        i = i + 1;
    }
    proof {
        assert(bytes@.take(n as int) =~= bytes@);
    }
}

/// Append a JSON string.
fn write_json_string(out: &mut Vec<u8>, s: &str)
    ensures
        final(out)@ == old(out)@ + json_string(s@),
{
    let bytes = str_to_bytes(s);
    out.push(0x22);
    write_escaped(out, &bytes);
    out.push(0x22);
    proof {
        assert(final(out)@ =~= old(out)@ + json_string(s@));
    }
}

/// Append a JSON boolean.
fn write_json_bool(out: &mut Vec<u8>, b: bool)
    ensures
        final(out)@ == old(out)@ + json_bool(b),
{
    if b {
        out.push(0x74);
        out.push(0x72);
        out.push(0x75);
        out.push(0x65);
    } else {
        out.push(0x66);
        out.push(0x61);
        out.push(0x6C);
        out.push(0x73);
        out.push(0x65);
    }
    proof {
        assert(final(out)@ =~= old(out)@ + json_bool(b));
    }
}

/// Append one entry object.
#[verifier::rlimit(60)]
fn write_json_entry(out: &mut Vec<u8>, e: &ExportEntry)
    ensures
        final(out)@ == old(out)@ + json_entry(e.key@, e.value@, e.locked),
{
    out.push(0x7B);
    out.push(0x22);
    out.push(0x6B);
    out.push(0x65);
    out.push(0x79);
    out.push(0x22);
    out.push(0x3A);
    proof {
        assert(out@ =~= old(out)@ + key_prefix());
    }
    write_json_string(out, &e.key);
    out.push(0x2C);
    out.push(0x22);
    out.push(0x76);
    out.push(0x61);
    out.push(0x6C);
    out.push(0x75);
    out.push(0x65);
    out.push(0x22);
    out.push(0x3A);
    proof {
        assert(out@ =~= old(out)@ + key_prefix() + json_string(e.key@) + value_prefix());
    }
    write_json_string(out, &e.value);
    out.push(0x2C);
    out.push(0x22);
    out.push(0x6C);
    out.push(0x6F);
    out.push(0x63);
    out.push(0x6B);
    out.push(0x65);
    out.push(0x64);
    out.push(0x22);
    out.push(0x3A);
    proof {
        assert(out@ =~= old(out)@ + key_prefix() + json_string(e.key@) + value_prefix()
            + json_string(e.value@) + locked_prefix());
    }
    write_json_bool(out, e.locked);
    out.push(0x7D);
    proof {
        assert(final(out)@ =~= old(out)@ + json_entry(e.key@, e.value@, e.locked));
    }
}

/// Serialize an entry list into payload bytes.
pub fn serialize_entries(entries: &Vec<ExportEntry>) -> (r: Vec<u8>)
    ensures
        r@ == payload_of(entries_seq_view(entries@)),
{
    let mut out: Vec<u8> = Vec::new();
    out.push(0x5B);
    let n = entries.len();
    let mut i: usize = 0;
    proof {
        assert(entries_seq_view(entries@.take(0)) =~= Seq::<(Seq<char>, Seq<char>, bool)>::empty());
        assert(out@ =~= seq![0x5Bu8] + json_entries(entries_seq_view(entries@.take(0))));
    }
    while i < n
        invariant
            n == entries@.len(),
            i <= n,
            out@ == seq![0x5Bu8] + json_entries(entries_seq_view(entries@.take(i as int))),
        decreases n - i,
    {
        if i > 0 {
            out.push(0x2C);
        }
        let ghost before = entries_seq_view(entries@.take(i as int));
        write_json_entry(&mut out, &entries[i]);
        proof {
            let e = entries@[i as int];
            assert(entries_seq_view(entries@.take(i + 1))
                =~= before.push(entry_view(e)));
            lemma_json_entries_snoc(before, entry_view(e));
            assert(before.len() == i);
            assert(out@ =~= seq![0x5Bu8] + json_entries(entries_seq_view(entries@.take(i + 1))));
        }
        i = i + 1;
    }
    out.push(0x5D);
    proof {
        assert(entries@.take(n as int) =~= entries@);
        assert(out@ =~= payload_of(entries_seq_view(entries@)));
    }
    out
}

/// Match a literal byte at a position.
fn eat(bytes: &Vec<u8>, pos: usize, b: u8) -> (r: Option<usize>)
    ensures
        r matches Some(end) ==> end == pos + 1 && end <= bytes@.len()
            && bytes@[pos as int] == b,
        r is None ==> pos >= bytes@.len() || bytes@[pos as int] != b,
        pos < bytes@.len() && bytes@[pos as int] == b ==> r is Some,
{
    if pos < bytes.len() && bytes[pos] == b {
        Some(pos + 1)
    } else {
        None
    }
}

/// Facts a canonical string region forces at the parser's cursor: at the
/// end of the content the closing quote stands, and before it the bytes of
/// the next escape unit.
proof fn string_region_facts(bytes: Seq<u8>, pos: int, s0: Seq<char>, collected: Seq<u8>, i: int)
    requires
        0 <= pos,
        pos + json_string(s0).len() <= bytes.len(),
        bytes.subrange(pos, pos + json_string(s0).len()) == json_string(s0),
        collected == encode_utf8(s0).take(collected.len() as int),
        collected.len() <= encode_utf8(s0).len(),
        i == pos + 1 + esc(collected).len(),
        esc(collected).len() <= esc(encode_utf8(s0)).len(),
    ensures
        collected.len() == encode_utf8(s0).len() ==> i == pos + json_string(s0).len() - 1
            && bytes[i] == 0x22,
        collected.len() < encode_utf8(s0).len() ==> {
            let b0 = encode_utf8(s0)[collected.len() as int];
            &&& esc(collected).len() + esc_byte(b0).len() <= esc(encode_utf8(s0)).len()
            &&& i + esc_byte(b0).len() <= pos + json_string(s0).len() - 1
            &&& forall|t: int| 0 <= t < esc_byte(b0).len() ==> bytes[i + t] == esc_byte(b0)[t]
        },
{
    let e0 = encode_utf8(s0);
    let js = json_string(s0);
    let m = collected.len() as int;
    assert(js.len() == esc(e0).len() + 2);
    assert forall|t: int| 0 <= t < js.len() implies bytes[pos + t] == js[t] by {
        assert(bytes.subrange(pos, pos + js.len())[t] == bytes[pos + t]);
    }
    if m == e0.len() {
        assert(e0.take(m) =~= e0);
        assert(esc(collected) == esc(e0));
        assert(js[esc(e0).len() as int + 1] == 0x22);
        assert(bytes[i] == js[i - pos]);
    } else {
        let b0 = e0[m];
        lemma_esc_split(e0, m);
        assert(esc(collected) == esc(e0.take(m)));
        assert forall|t: int| 0 <= t < esc_byte(b0).len() implies bytes[i + t] == esc_byte(b0)[t] by {
            assert(esc(e0)[esc(collected).len() + t]
                == (esc(e0.take(m)) + esc_byte(b0) + esc(e0.skip(m + 1)))[esc(collected).len() + t]);
            assert((esc(e0.take(m)) + esc_byte(b0) + esc(e0.skip(m + 1)))[esc(collected).len() + t]
                == esc_byte(b0)[t]);
            assert(js[1 + esc(collected).len() + t] == esc(e0)[esc(collected).len() + t]);
            assert(bytes[i + t] == js[i + t - pos]);
        }
    }
}

/// Parse a JSON string at a position.  Strict: only the escapes the
/// serializer writes are accepted, so a success pins the consumed bytes to
/// the canonical form.  When a canonical string is known to stand at the
/// position (the ghost hint), parsing succeeds on exactly it.
fn parse_string_at(bytes: &Vec<u8>, pos: usize, Ghost(expect): Ghost<Option<Seq<char>>>) -> (r:
    Option<(String, usize)>)
    requires
        expect matches Some(s0) ==> pos + json_string(s0).len() <= bytes@.len()
            && bytes@.subrange(pos as int, pos + json_string(s0).len()) == json_string(s0),
    ensures
        r matches Some((s, end)) ==> pos < end && end <= bytes@.len()
            && bytes@.subrange(pos as int, end as int) == json_string(s@),
        expect matches Some(s0) ==> (r matches Some((s, end)) && s@ == s0
            && end == pos + json_string(s0).len()),
{
    let len = bytes.len();
    proof {
        if let Some(s0) = expect {
            assert(bytes@.subrange(pos as int, pos + json_string(s0).len())[0]
                == bytes@[pos as int]);
        }
    }
    if pos >= len || bytes[pos] != 0x22 {
        proof {
            if let Some(s0) = expect {
                assert(json_string(s0)[0] == 0x22);
                assert(false);
            }
        }
        return None;
    }
    let mut collected: Vec<u8> = Vec::new();
    let mut i: usize = pos + 1;
    proof {
        assert(bytes@.subrange(pos + 1, pos + 1) =~= esc(collected@));
        if let Some(s0) = expect {
            assert(collected@ =~= encode_utf8(s0).take(0));
            assert(esc(Seq::<u8>::empty()) == Seq::<u8>::empty());
        }
    }
    while i < len
        invariant
            len == bytes@.len(),
            pos < i <= len,
            bytes@[pos as int] == 0x22,
            bytes@.subrange(pos + 1, i as int) == esc(collected@),
            expect matches Some(s0) ==> {
                &&& pos + json_string(s0).len() <= bytes@.len()
                &&& bytes@.subrange(pos as int, pos + json_string(s0).len()) == json_string(s0)
                &&& collected@ == encode_utf8(s0).take(collected@.len() as int)
                &&& collected@.len() <= encode_utf8(s0).len()
                &&& i == pos + 1 + esc(collected@).len()
                &&& esc(collected@).len() <= esc(encode_utf8(s0)).len()
            },
        decreases len - i,
    {
        let ghost prev = collected@;
        let ghost start = i as int;
        proof {
            if let Some(s0) = expect {
                string_region_facts(bytes@, pos as int, s0, collected@, i as int);
            }
        }
        let b = bytes[i];
        if b == 0x22 {
            proof {
                if let Some(s0) = expect {
                    if collected@.len() < encode_utf8(s0).len() {
                        let b0 = encode_utf8(s0)[collected@.len() as int];
                        assert(bytes@[i as int] == esc_byte(b0)[0]);
                        assert(false);
                    }
                }
            }
            let end = i + 1;
            match bytes_to_string(collected) {
                Ok(s) => {
                    proof {
                        decode_utf8_encode_utf8(prev);
                        assert(encode_utf8(s@) == prev);
                        assert(bytes@.subrange(pos as int, end as int) =~= seq![0x22u8]
                            + bytes@.subrange(pos + 1, i as int) + seq![0x22u8]);
                        assert(bytes@.subrange(pos as int, end as int) == json_string(s@));
                        if let Some(s0) = expect {
                            assert(prev =~= encode_utf8(s0));
                            vstd::utf8::encode_utf8_decode_utf8(s0);
                            assert(s@ == s0);
                        }
                    }
                    return Some((s, end));
                },
                Err(_) => {
                    proof {
                        if let Some(s0) = expect {
                            vstd::utf8::encode_utf8_valid_utf8(s0);
                            assert(prev =~= encode_utf8(s0));
                            assert(false);
                        }
                    }
                    return None;
                },
            }
        } else if b == 0x5C {
            proof {
                if let Some(s0) = expect {
                    assert(collected@.len() < encode_utf8(s0).len());
                }
            }
            let ghost b0: u8 = 0;
            proof {
                if let Some(s0) = expect {
                    b0 = encode_utf8(s0)[collected@.len() as int];
                    if !(b0 == 0x22 || b0 == 0x5C || b0 == 0x08 || b0 == 0x09 || b0 == 0x0A
                        || b0 == 0x0C || b0 == 0x0D || b0 < 0x20) {
                        assert(esc_byte(b0)[0] == b0);
                        assert(false);
                    }
                    assert(esc_byte(b0).len() >= 2);
                }
            }
            if len - i < 2 {
                proof {
                    if let Some(s0) = expect {
                        assert(i + 2 <= pos + json_string(s0).len() - 1);
                        assert(false);
                    }
                }
                return None;
            }
            let e = bytes[i + 1];
            proof {
                if let Some(s0) = expect {
                    assert(bytes@[i + 1] == esc_byte(b0)[1]);
                }
            }
            if e == 0x22 || e == 0x5C {
                proof {
                    if let Some(s0) = expect {
                        assert(b0 == e);
                    }
                }
                collected.push(e);
                proof {
                    lemma_esc_snoc(prev, e);
                    assert(bytes@.subrange(pos + 1, start + 2)
                        =~= bytes@.subrange(pos + 1, start) + seq![0x5Cu8, e]);
                    assert(esc_byte(e) =~= seq![0x5Cu8, e]);
                }
                i = i + 2;
            } else if e == 0x62 {
                proof {
                    if let Some(s0) = expect {
                        assert(b0 == 0x08);
                    }
                }
                collected.push(0x08);
                proof {
                    lemma_esc_snoc(prev, 0x08);
                    assert(bytes@.subrange(pos + 1, start + 2)
                        =~= bytes@.subrange(pos + 1, start) + seq![0x5Cu8, 0x62u8]);
                }
                i = i + 2;
            } else if e == 0x74 {
                proof {
                    if let Some(s0) = expect {
                        assert(b0 == 0x09);
                    }
                }
                collected.push(0x09);
                proof {
                    lemma_esc_snoc(prev, 0x09);
                    assert(bytes@.subrange(pos + 1, start + 2)
                        =~= bytes@.subrange(pos + 1, start) + seq![0x5Cu8, 0x74u8]);
                }
                i = i + 2;
            } else if e == 0x6E {
                proof {
                    if let Some(s0) = expect {
                        assert(b0 == 0x0A);
                    }
                }
                collected.push(0x0A);
                proof {
                    lemma_esc_snoc(prev, 0x0A);
                    assert(bytes@.subrange(pos + 1, start + 2)
                        =~= bytes@.subrange(pos + 1, start) + seq![0x5Cu8, 0x6Eu8]);
                }
                i = i + 2;
            } else if e == 0x66 {
                proof {
                    if let Some(s0) = expect {
                        assert(b0 == 0x0C);
                    }
                }
                collected.push(0x0C);
                proof {
                    lemma_esc_snoc(prev, 0x0C);
                    assert(bytes@.subrange(pos + 1, start + 2)
                        =~= bytes@.subrange(pos + 1, start) + seq![0x5Cu8, 0x66u8]);
                }
                i = i + 2;
            } else if e == 0x72 {
                proof {
                    if let Some(s0) = expect {
                        assert(b0 == 0x0D);
                    }
                }
                collected.push(0x0D);
                proof {
                    lemma_esc_snoc(prev, 0x0D);
                    assert(bytes@.subrange(pos + 1, start + 2)
                        =~= bytes@.subrange(pos + 1, start) + seq![0x5Cu8, 0x72u8]);
                }
                i = i + 2;
            } else if e == 0x75 {
                proof {
                    if let Some(s0) = expect {
                        assert(b0 < 0x20 && b0 != 0x08 && b0 != 0x09 && b0 != 0x0A && b0 != 0x0C
                            && b0 != 0x0D);
                        assert(esc_byte(b0).len() == 6);
                        assert(i + 6 <= pos + json_string(s0).len() - 1);
                    }
                }
                if len - i < 6 {
                    proof {
                        if let Some(s0) = expect {
                            assert(false);
                        }
                    }
                    return None;
                }
                if bytes[i + 2] != 0x30 || bytes[i + 3] != 0x30 {
                    proof {
                        if let Some(s0) = expect {
                            assert(bytes@[i + 2] == esc_byte(b0)[2]);
                            assert(bytes@[i + 3] == esc_byte(b0)[3]);
                            assert(false);
                        }
                    }
                    return None;
                }
                let h1 = bytes[i + 4];
                let h2 = bytes[i + 5];
                proof {
                    if let Some(s0) = expect {
                        assert(bytes@[i + 4] == esc_byte(b0)[4]);
                        assert(bytes@[i + 5] == esc_byte(b0)[5]);
                        assert(h1 == hex_digit(b0 / 16) && h2 == hex_digit(b0 % 16));
                    }
                }
                let d1 = match unhex(h1) {
                    Some(d) => d,
                    None => {
                        proof {
                            if let Some(s0) = expect {
                                assert(b0 / 16 < 16 && h1 == hex_digit(b0 / 16));
                                assert(false);
                            }
                        }
                        return None;
                    },
                };
                let d2 = match unhex(h2) {
                    Some(d) => d,
                    None => {
                        proof {
                            if let Some(s0) = expect {
                                assert(b0 % 16 < 16 && h2 == hex_digit(b0 % 16));
                                assert(false);
                            }
                        }
                        return None;
                    },
                };
                let v = d1 * 16 + d2;
                proof {
                    if let Some(s0) = expect {
                        assert(d1 == b0 / 16 && d2 == b0 % 16) by {
                            assert(hex_digit(d1) == hex_digit(b0 / 16));
                            assert(hex_digit(d2) == hex_digit(b0 % 16));
                        }
                        assert(b0 == (b0 / 16) * 16 + b0 % 16) by (nonlinear_arith);
                        assert(v == b0);
                    }
                }
                if v >= 0x20 || v == 0x08 || v == 0x09 || v == 0x0A || v == 0x0C || v == 0x0D {
                    proof {
                        if let Some(s0) = expect {
                            assert(false);
                        }
                    }
                    return None;
                }
                collected.push(v);
                proof {
                    lemma_esc_snoc(prev, v);
                    assert(v / 16 == d1 && v % 16 == d2) by (nonlinear_arith)
                        requires d1 < 16 && d2 < 16 && v == d1 * 16 + d2,
                    ;
                    assert(esc_byte(v) =~= seq![0x5Cu8, 0x75u8, 0x30u8, 0x30u8, h1, h2]);
                    assert(bytes@.subrange(pos + 1, start + 6)
                        =~= bytes@.subrange(pos + 1, start)
                            + seq![0x5Cu8, 0x75u8, 0x30u8, 0x30u8, h1, h2]);
                }
                i = i + 6;
            } else {
                proof {
                    if let Some(s0) = expect {
                        assert(false);
                    }
                }
                return None;
            }
        } else if b < 0x20 {
            proof {
                if let Some(s0) = expect {
                    if collected@.len() < encode_utf8(s0).len() {
                        let b0 = encode_utf8(s0)[collected@.len() as int];
                        assert(bytes@[i as int] == esc_byte(b0)[0]);
                    }
                    assert(false);
                }
            }
            return None;
        } else {
            proof {
                if let Some(s0) = expect {
                    assert(collected@.len() < encode_utf8(s0).len());
                    let b0 = encode_utf8(s0)[collected@.len() as int];
                    assert(bytes@[i as int] == esc_byte(b0)[0]);
                    assert(b0 == b);
                }
            }
            collected.push(b);
            proof {
                lemma_esc_snoc(prev, b);
                assert(esc_byte(b) =~= seq![b]);
                assert(bytes@.subrange(pos + 1, start + 1)
                    =~= bytes@.subrange(pos + 1, start) + seq![b]);
            }
            i = i + 1;
        }
        proof {
            if let Some(s0) = expect {
                let m = prev.len() as int;
                assert(collected@ =~= encode_utf8(s0).take(m + 1));
            }
        }
    }
    proof {
        if let Some(s0) = expect {
            assert(i <= pos + json_string(s0).len() - 1);
            assert(false);
        }
    }
    None
}

/// The value of a lowercase hex digit byte, if it is one.
fn unhex(b: u8) -> (r: Option<u8>)
    ensures
        r matches Some(d) ==> d < 16 && b == hex_digit(d),
        r is None ==> forall|d: u8| d < 16 ==> b != hex_digit(d),
{
    if 0x30 <= b && b <= 0x39 {
        Some(b - 0x30)
    } else if 0x61 <= b && b <= 0x66 {
        Some(b - 0x57)
    } else {
        proof {
            assert forall|d: u8| d < 16 implies b != hex_digit(d) by {}
        }
        None
    }
}

/// Match a literal byte sequence at a position.
fn expect_bytes(bytes: &Vec<u8>, pos: usize, lit: &Vec<u8>) -> (r: Option<usize>)
    ensures
        r matches Some(end) ==> end == pos + lit@.len() && end <= bytes@.len()
            && bytes@.subrange(pos as int, end as int) == lit@,
        pos + lit@.len() <= bytes@.len() && bytes@.subrange(pos as int, pos + lit@.len()) == lit@
            ==> r is Some,
{
    let ghost matched = pos + lit@.len() <= bytes@.len()
        && bytes@.subrange(pos as int, pos + lit@.len()) == lit@;
    let n = lit.len();
    if pos > bytes.len() {
        return None;
    }
    let rem = bytes.len() - pos;
    if n > rem {
        return None;
    }
    assert(pos + n <= bytes@.len());
    let mut j: usize = 0;
    while j < n
        invariant
            n == lit@.len(),
            pos + n <= bytes@.len(),
            pos + n <= usize::MAX,
            j <= n,
            forall|m: int| 0 <= m < j ==> bytes@[pos + m] == lit@[m],
        decreases n - j,
    {
        if bytes[pos + j] != lit[j] {
            proof {
                if matched {
                    assert(bytes@.subrange(pos as int, pos + lit@.len())[j as int]
                        == bytes@[pos + j]);
                }
            }
            return None;
        }
        j = j + 1;
    }
    proof {
        assert(bytes@.subrange(pos as int, pos + n) =~= lit@);
    }
    Some(pos + n)
}

/// Parse a JSON boolean at a position.
fn parse_bool_at(bytes: &Vec<u8>, pos: usize) -> (r: Option<(bool, usize)>)
    ensures
        r matches Some((b, end)) ==> pos < end && end <= bytes@.len()
            && bytes@.subrange(pos as int, end as int) == json_bool(b),
        forall|b0: bool| pos + json_bool(b0).len() <= bytes@.len()
            && bytes@.subrange(pos as int, pos + json_bool(b0).len()) == json_bool(b0)
            ==> (r matches Some(p) && p.0 == b0 && p.1 == pos + json_bool(b0).len()),
{
    let lit_true: Vec<u8> = vec![0x74, 0x72, 0x75, 0x65];
    let lit_false: Vec<u8> = vec![0x66, 0x61, 0x6C, 0x73, 0x65];
    match expect_bytes(bytes, pos, &lit_true) {
        Some(end) => {
            proof {
                assert(lit_true@ =~= json_bool(true));
            }
            Some((true, end))
        },
        None => match expect_bytes(bytes, pos, &lit_false) {
            Some(end) => {
                proof {
                    assert(lit_false@ =~= json_bool(false));
                    assert forall|b0: bool| pos + json_bool(b0).len() <= bytes@.len()
                        && bytes@.subrange(pos as int, pos + json_bool(b0).len()) == json_bool(b0)
                        implies b0 == false by {
                        if b0 {
                            assert(bytes@.subrange(pos as int, pos + 4)[0] == bytes@[pos as int]);
                            assert(bytes@.subrange(pos as int, pos + 5)[0] == bytes@[pos as int]);
                        }
                    }
                }
                Some((false, end))
            },
            None => {
                proof {
                    assert forall|b0: bool| !(pos + json_bool(b0).len() <= bytes@.len()
                        && bytes@.subrange(pos as int, pos + json_bool(b0).len())
                            == json_bool(b0)) by {
                        if b0 {
                            assert(lit_true@ == json_bool(b0));
                        } else {
                            assert(lit_false@ == json_bool(b0));
                        }
                    }
                }
                None
            },
        },
    }
}

/// Parse one entry object at a position.  When a canonical entry object is
/// known to stand there (the ghost hint), parsing succeeds on exactly it.
#[verifier::rlimit(100)]
fn parse_entry_at(
    bytes: &Vec<u8>,
    pos: usize,
    Ghost(expect): Ghost<Option<(Seq<char>, Seq<char>, bool)>>,
) -> (r: Option<(ExportEntry, usize)>)
    requires
        expect matches Some(t0) ==> pos + json_entry(t0.0, t0.1, t0.2).len() <= bytes@.len()
            && bytes@.subrange(pos as int, pos + json_entry(t0.0, t0.1, t0.2).len())
                == json_entry(t0.0, t0.1, t0.2),
    ensures
        r matches Some((e, end)) ==> pos < end && end <= bytes@.len()
            && bytes@.subrange(pos as int, end as int)
                == json_entry(e.key@, e.value@, e.locked),
        expect matches Some(t0) ==> (r matches Some((e, end)) && e.key@ == t0.0
            && e.value@ == t0.1 && e.locked == t0.2
            && end == pos + json_entry(t0.0, t0.1, t0.2).len()),
{
    let kp: Vec<u8> = vec![0x7B, 0x22, 0x6B, 0x65, 0x79, 0x22, 0x3A];
    let vp: Vec<u8> = vec![0x2C, 0x22, 0x76, 0x61, 0x6C, 0x75, 0x65, 0x22, 0x3A];
    let lp: Vec<u8> = vec![0x2C, 0x22, 0x6C, 0x6F, 0x63, 0x6B, 0x65, 0x64, 0x22, 0x3A];
    proof {
        assert(kp@ =~= key_prefix());
        assert(vp@ =~= value_prefix());
        assert(lp@ =~= locked_prefix());
        if let Some(t0) = expect {
            let je = json_entry(t0.0, t0.1, t0.2);
            assert forall|t: int| 0 <= t < je.len() implies
                bytes@[pos + t] == je[t] by {
                assert(bytes@.subrange(pos as int, pos + je.len())[t] == bytes@[pos + t]);
            }
            assert(bytes@.subrange(pos as int, pos + key_prefix().len()) =~= key_prefix());
        }
    }
    let p1 = match expect_bytes(bytes, pos, &kp) {
        Some(p) => p,
        None => {
            proof {
                if let Some(t0) = expect {
                    assert(false);
                }
            }
            return None;
        },
    };
    let ghost hint_key: Option<Seq<char>> = match expect {
        Some(t0) => Some(t0.0),
        None => None,
    };
    proof {
        if let Some(t0) = expect {
            let je = json_entry(t0.0, t0.1, t0.2);
            let js1 = json_string(t0.0);
            let o1 = key_prefix().len() as int;
            assert forall|t: int| 0 <= t < js1.len() implies
                bytes@[p1 + t] == js1[t] by {
                assert(je[o1 + t] == js1[t]);
                assert(bytes@.subrange(pos as int, pos + je.len())[o1 + t] == bytes@[pos + o1 + t]);
            }
            assert(bytes@.subrange(p1 as int, p1 + js1.len()) =~= js1);
        }
    }
    let (key, p2) = match parse_string_at(bytes, p1, Ghost(hint_key)) {
        Some(r) => r,
        None => {
            proof {
                if let Some(t0) = expect {
                    assert(false);
                }
            }
            return None;
        },
    };
    proof {
        if let Some(t0) = expect {
            let je = json_entry(t0.0, t0.1, t0.2);
            let o2 = key_prefix().len() + json_string(t0.0).len() as int;
            assert(p2 == pos + o2);
            assert forall|t: int| 0 <= t < value_prefix().len() implies
                bytes@[p2 + t] == value_prefix()[t] by {
                assert(je[o2 + t] == value_prefix()[t]);
                assert(bytes@.subrange(pos as int, pos + je.len())[o2 + t] == bytes@[pos + o2 + t]);
            }
            assert(bytes@.subrange(p2 as int, p2 + value_prefix().len()) =~= value_prefix());
        }
    }
    let p3 = match expect_bytes(bytes, p2, &vp) {
        Some(p) => p,
        None => {
            proof {
                if let Some(t0) = expect {
                    assert(false);
                }
            }
            return None;
        },
    };
    let ghost hint_value: Option<Seq<char>> = match expect {
        Some(t0) => Some(t0.1),
        None => None,
    };
    proof {
        if let Some(t0) = expect {
            let je = json_entry(t0.0, t0.1, t0.2);
            let js2 = json_string(t0.1);
            let o3 = key_prefix().len() + json_string(t0.0).len() + value_prefix().len() as int;
            assert(p3 == pos + o3);
            assert forall|t: int| 0 <= t < js2.len() implies
                bytes@[p3 + t] == js2[t] by {
                assert(je[o3 + t] == js2[t]);
                assert(bytes@.subrange(pos as int, pos + je.len())[o3 + t] == bytes@[pos + o3 + t]);
            }
            assert(bytes@.subrange(p3 as int, p3 + js2.len()) =~= js2);
        }
    }
    let (value, p4) = match parse_string_at(bytes, p3, Ghost(hint_value)) {
        Some(r) => r,
        None => {
            proof {
                if let Some(t0) = expect {
                    assert(false);
                }
            }
            return None;
        },
    };
    proof {
        if let Some(t0) = expect {
            let je = json_entry(t0.0, t0.1, t0.2);
            let o4 = key_prefix().len() + json_string(t0.0).len() + value_prefix().len()
                + json_string(t0.1).len() as int;
            assert(p4 == pos + o4);
            assert forall|t: int| 0 <= t < locked_prefix().len() implies
                bytes@[p4 + t] == locked_prefix()[t] by {
                assert(je[o4 + t] == locked_prefix()[t]);
                assert(bytes@.subrange(pos as int, pos + je.len())[o4 + t] == bytes@[pos + o4 + t]);
            }
            assert(bytes@.subrange(p4 as int, p4 + locked_prefix().len()) =~= locked_prefix());
        }
    }
    let p5 = match expect_bytes(bytes, p4, &lp) {
        Some(p) => p,
        None => {
            proof {
                if let Some(t0) = expect {
                    assert(false);
                }
            }
            return None;
        },
    };
    proof {
        if let Some(t0) = expect {
            let je = json_entry(t0.0, t0.1, t0.2);
            let jb = json_bool(t0.2);
            let o5 = key_prefix().len() + json_string(t0.0).len() + value_prefix().len()
                + json_string(t0.1).len() + locked_prefix().len() as int;
            assert(p5 == pos + o5);
            assert forall|t: int| 0 <= t < jb.len() implies
                bytes@[p5 + t] == jb[t] by {
                assert(je[o5 + t] == jb[t]);
                assert(bytes@.subrange(pos as int, pos + je.len())[o5 + t] == bytes@[pos + o5 + t]);
            }
            assert(bytes@.subrange(p5 as int, p5 + jb.len()) =~= jb);
        }
    }
    let (locked, p6) = match parse_bool_at(bytes, p5) {
        Some(r) => r,
        None => {
            proof {
                if let Some(t0) = expect {
                    assert(false);
                }
            }
            return None;
        },
    };
    proof {
        if let Some(t0) = expect {
            let je = json_entry(t0.0, t0.1, t0.2);
            assert(locked == t0.2 && p6 == pos + je.len() - 1);
            assert(je[je.len() - 1] == 0x7D);
            assert(bytes@.subrange(pos as int, pos + je.len())[je.len() - 1]
                == bytes@[pos + je.len() - 1]);
            assert(bytes@[p6 as int] == 0x7D);
        }
    }
    let p7 = match eat(bytes, p6, 0x7D) {
        Some(p) => p,
        None => {
            proof {
                if let Some(t0) = expect {
                    assert(false);
                }
            }
            return None;
        },
    };
    let e = ExportEntry { key, value, locked };
    proof {
        assert(bytes@.subrange(pos as int, p7 as int)
            =~= bytes@.subrange(pos as int, p1 as int)
                + bytes@.subrange(p1 as int, p2 as int)
                + bytes@.subrange(p2 as int, p3 as int)
                + bytes@.subrange(p3 as int, p4 as int)
                + bytes@.subrange(p4 as int, p5 as int)
                + bytes@.subrange(p5 as int, p6 as int)
                + bytes@.subrange(p6 as int, p7 as int));
        assert(bytes@.subrange(p6 as int, p7 as int) =~= seq![0x7Du8]);
        assert(bytes@.subrange(pos as int, p7 as int)
            == json_entry(e.key@, e.value@, e.locked));
    }
    Some((e, p7))
}

/// Parse a whole payload.  On success the input bytes are exactly
/// `payload_of` of the returned entries; and whenever the input is the
/// payload of some entry list, parsing succeeds.
#[verifier::rlimit(100)]
pub fn parse_entries(bytes: &Vec<u8>) -> (r: Option<Vec<ExportEntry>>)
    ensures
        r matches Some(es) ==> bytes@ == payload_of(entries_seq_view(es@)),
        (exists|es0: Seq<(Seq<char>, Seq<char>, bool)>| bytes@ == payload_of(es0)) ==> r is Some,
{
    let ghost hint: Option<Seq<(Seq<char>, Seq<char>, bool)>> = if exists|es0: Seq<
        (Seq<char>, Seq<char>, bool),
    >| bytes@ == payload_of(es0) {
        Some(choose|es0: Seq<(Seq<char>, Seq<char>, bool)>| bytes@ == payload_of(es0))
    } else {
        None
    };
    let len = bytes.len();
    proof {
        if let Some(es0) = hint {
            assert(bytes@[0] == 0x5B);
            assert(bytes@[len - 1] == 0x5D);
        }
    }
    if len < 2 || bytes[0] != 0x5B {
        proof {
            if let Some(es0) = hint {
                assert(false);
            }
        }
        return None;
    }
    if len == 2 && bytes[1] == 0x5D {
        let es: Vec<ExportEntry> = Vec::new();
        proof {
            assert(entries_seq_view(es@) =~= Seq::<(Seq<char>, Seq<char>, bool)>::empty());
            assert(bytes@ =~= payload_of(entries_seq_view(es@)));
        }
        return Some(es);
    }
    proof {
        if let Some(es0) = hint {
            if es0.len() == 0 {
                assert(bytes@ =~= seq![0x5Bu8, 0x5Du8]);
                assert(false);
            }
            assert forall|t: int| 0 <= t < json_entries(es0).len() implies
                bytes@[1 + t] == json_entries(es0)[t] by {}
            assert(es0.skip(0) =~= es0);
            assert(bytes@.subrange(1, len - 1) =~= json_entries(es0));
        }
    }
    let mut acc: Vec<ExportEntry> = Vec::new();
    let mut p: usize = 1;
    loop
        invariant
            len == bytes@.len(),
            len >= 2,
            bytes@[0] == 0x5B,
            1 <= p <= len,
            acc@.len() == 0 ==> p == 1,
            acc@.len() > 0 ==> bytes@.subrange(1, p as int)
                == json_entries(entries_seq_view(acc@)) + seq![0x2Cu8],
            (exists|es0: Seq<(Seq<char>, Seq<char>, bool)>| bytes@ == payload_of(es0))
                ==> hint is Some,
            hint matches Some(es0) ==> {
                &&& bytes@ == payload_of(es0)
                &&& acc@.len() < es0.len()
                &&& bytes@[len - 1] == 0x5D
                &&& p <= len - 1
                &&& bytes@.subrange(p as int, len - 1)
                    == json_entries(es0.skip(acc@.len() as int))
            },
        decreases len - p,
    {
        let ghost entries_before = entries_seq_view(acc@);
        let ghost k = acc@.len() as int;
        let ghost entry_hint: Option<(Seq<char>, Seq<char>, bool)> = match hint {
            Some(es0) => Some(es0[k]),
            None => None,
        };
        proof {
            if let Some(es0) = hint {
                let rest = es0.skip(k);
                assert(rest[0] == es0[k]);
                assert(rest.drop_first() =~= es0.skip(k + 1));
                let je = json_entry(es0[k].0, es0[k].1, es0[k].2);
                assert(json_entries(rest).len() == len - 1 - p);
                if rest.len() == 1 {
                    assert(json_entries(rest) == je);
                } else {
                    assert(json_entries(rest) == je + seq![0x2Cu8]
                        + json_entries(es0.skip(k + 1)));
                }
                assert forall|t: int| 0 <= t < je.len() implies
                    bytes@[p + t] == je[t] by {
                    assert(bytes@.subrange(p as int, len - 1)[t] == bytes@[p + t]);
                    assert(json_entries(rest)[t] == je[t]);
                }
                assert(p + je.len() <= len - 1);
                assert(bytes@.subrange(p as int, p + je.len()) =~= je);
            }
        }
        let (e, p2) = match parse_entry_at(bytes, p, Ghost(entry_hint)) {
            Some(r) => r,
            None => {
                proof {
                    if let Some(es0) = hint {
                        assert(false);
                    }
                }
                return None;
            },
        };
        acc.push(e);
        proof {
            assert(entries_seq_view(acc@) =~= entries_before.push(entry_view(e)));
            lemma_json_entries_snoc(entries_before, entry_view(e));
            if entries_before.len() == 0 {
                assert(bytes@.subrange(1, p2 as int)
                    =~= bytes@.subrange(p as int, p2 as int));
                assert(bytes@.subrange(1, p2 as int) == json_entries(entries_seq_view(acc@)));
            } else {
                assert(bytes@.subrange(1, p2 as int)
                    =~= bytes@.subrange(1, p as int) + bytes@.subrange(p as int, p2 as int));
                assert(bytes@.subrange(1, p2 as int) == json_entries(entries_seq_view(acc@)));
            }
        }
        if p2 >= len {
            proof {
                if let Some(es0) = hint {
                    assert(false);
                }
            }
            return None;
        }
        let b = bytes[p2];
        proof {
            if let Some(es0) = hint {
                let rest = es0.skip(k);
                if rest.len() == 1 {
                    assert(p2 == len - 1);
                    assert(b == 0x5D);
                } else {
                    assert(bytes@.subrange(p as int, len - 1)[p2 - p] == bytes@[p2 as int]);
                    assert(b == 0x2C);
                }
            }
        }
        if b == 0x5D {
            if p2 + 1 != len {
                proof {
                    if let Some(es0) = hint {
                        assert(false);
                    }
                }
                return None;
            }
            proof {
                assert(bytes@ =~= seq![0x5Bu8] + bytes@.subrange(1, p2 as int)
                    + seq![0x5Du8]);
                assert(bytes@ == payload_of(entries_seq_view(acc@)));
            }
            return Some(acc);
        } else if b == 0x2C {
            proof {
                assert(bytes@.subrange(1, p2 + 1)
                    =~= bytes@.subrange(1, p2 as int) + seq![0x2Cu8]);
                if let Some(es0) = hint {
                    let rest = es0.skip(k);
                    assert(rest.len() >= 2);
                    assert(acc@.len() < es0.len());
                    assert forall|t: int| 0 <= t < json_entries(es0.skip(k + 1)).len() implies
                        bytes@[p2 + 1 + t] == #[trigger] json_entries(es0.skip(k + 1))[t] by {
                        let je = json_entry(es0[k].0, es0[k].1, es0[k].2);
                        assert(bytes@.subrange(p as int, len - 1)[p2 + 1 + t - p]
                            == bytes@[p2 + 1 + t]);
                        assert(json_entries(rest)[je.len() as int + 1 + t]
                            == json_entries(es0.skip(k + 1))[t]);
                    }
                    assert(bytes@.subrange(p2 + 1, len - 1)
                        =~= json_entries(es0.skip(k + 1)));
                }
            }
            p = p2 + 1;
        } else {
            proof {
                if let Some(es0) = hint {
                    assert(false);
                }
            }
            return None;
        }
    }
}

/// One escape unit followed by a remainder determines the byte and the
/// remainder.
proof fn lemma_esc_byte_unambiguous(b1: u8, b2: u8, r1: Seq<u8>, r2: Seq<u8>)
    requires
        esc_byte(b1) + r1 == esc_byte(b2) + r2,
    ensures
        b1 == b2,
        r1 == r2,
{
    let l = esc_byte(b1) + r1;
    assert(l[0] == esc_byte(b1)[0]);
    assert(l[0] == esc_byte(b2)[0]);
    if esc_byte(b1).len() == 1 && esc_byte(b2).len() == 1 {
        assert(b1 == b2);
    } else if esc_byte(b1).len() == 1 {
        assert(esc_byte(b1)[0] == b1 && b1 != 0x5C);
        assert(esc_byte(b2)[0] == 0x5C);
        assert(false);
    } else if esc_byte(b2).len() == 1 {
        assert(esc_byte(b2)[0] == b2 && b2 != 0x5C);
        assert(esc_byte(b1)[0] == 0x5C);
        assert(false);
    } else {
        assert(l[1] == esc_byte(b1)[1]);
        assert(l[1] == esc_byte(b2)[1]);
        if esc_byte(b1).len() == 2 && esc_byte(b2).len() == 2 {
            assert(b1 == b2);
        } else if esc_byte(b1).len() == 2 {
            assert(esc_byte(b2)[1] == 0x75);
            assert(false);
        } else if esc_byte(b2).len() == 2 {
            assert(esc_byte(b1)[1] == 0x75);
            assert(false);
        } else {
            assert(l[4] == esc_byte(b1)[4] && l[5] == esc_byte(b1)[5]);
            assert(l[4] == esc_byte(b2)[4] && l[5] == esc_byte(b2)[5]);
            assert(hex_digit(b1 / 16) == hex_digit(b2 / 16));
            assert(hex_digit(b1 % 16) == hex_digit(b2 % 16));
            assert(b1 / 16 == b2 / 16 && b1 % 16 == b2 % 16);
            assert(b1 == (b1 / 16) * 16 + b1 % 16) by (nonlinear_arith);
            assert(b2 == (b2 / 16) * 16 + b2 % 16) by (nonlinear_arith);
        }
    }
    lemma_strip_prefix(esc_byte(b1), r1, r2);
}

/// An escaped byte string closed by a quote determines the bytes and what
/// follows the quote.
proof fn lemma_esc_unambiguous(e1: Seq<u8>, e2: Seq<u8>, r1: Seq<u8>, r2: Seq<u8>)
    requires
        esc(e1) + seq![0x22u8] + r1 == esc(e2) + seq![0x22u8] + r2,
    ensures
        e1 == e2,
        r1 == r2,
    decreases e1.len(),
{
    let l = esc(e1) + seq![0x22u8] + r1;
    if e1.len() == 0 && e2.len() == 0 {
        assert(e1 =~= e2);
        assert(esc(e1) =~= Seq::<u8>::empty());
        assert(esc(e2) =~= Seq::<u8>::empty());
        assert(seq![0x22u8] + r1 =~= esc(e1) + seq![0x22u8] + r1);
        assert(seq![0x22u8] + r2 =~= esc(e2) + seq![0x22u8] + r2);
        lemma_strip_prefix(seq![0x22u8], r1, r2);
    } else if e1.len() == 0 {
        assert(esc(e1) =~= Seq::<u8>::empty());
        assert(seq![0x22u8] + r1 =~= l);
        assert(l[0] == 0x22);
        assert(esc(e2)[0] == esc_byte(e2[0])[0]) by {
            lemma_esc_split(e2, 0);
            assert(e2.take(0) =~= Seq::<u8>::empty());
            assert(esc(Seq::<u8>::empty()) == Seq::<u8>::empty());
        }
        assert(l[0] == esc(e2)[0]);
        assert(esc_byte(e2[0])[0] != 0x22);
        assert(false);
    } else if e2.len() == 0 {
        assert(esc(e2) =~= Seq::<u8>::empty());
        assert(seq![0x22u8] + r2 =~= esc(e2) + seq![0x22u8] + r2);
        assert(l[0] == 0x22);
        assert(esc(e1)[0] == esc_byte(e1[0])[0]) by {
            lemma_esc_split(e1, 0);
            assert(e1.take(0) =~= Seq::<u8>::empty());
            assert(esc(Seq::<u8>::empty()) == Seq::<u8>::empty());
        }
        assert(l[0] == esc(e1)[0]);
        assert(esc_byte(e1[0])[0] != 0x22);
        assert(false);
    } else {
        assert(esc(e1) == esc_byte(e1[0]) + esc(e1.drop_first()));
        assert(esc(e2) == esc_byte(e2[0]) + esc(e2.drop_first()));
        assert(esc_byte(e1[0]) + (esc(e1.drop_first()) + seq![0x22u8] + r1)
            =~= esc(e1) + seq![0x22u8] + r1);
        assert(esc_byte(e2[0]) + (esc(e2.drop_first()) + seq![0x22u8] + r2)
            =~= esc(e2) + seq![0x22u8] + r2);
        lemma_esc_byte_unambiguous(
            e1[0],
            e2[0],
            esc(e1.drop_first()) + seq![0x22u8] + r1,
            esc(e2.drop_first()) + seq![0x22u8] + r2,
        );
        lemma_esc_unambiguous(e1.drop_first(), e2.drop_first(), r1, r2);
        assert(e1 =~= e2) by {
            assert forall|t: int| 0 <= t < e1.len() implies e1[t] == e2[t] by {
                if t > 0 {
                    assert(e1.drop_first()[t - 1] == e1[t]);
                    assert(e2.drop_first()[t - 1] == e2[t]);
                }
            }
        }
    }
}

/// A JSON string followed by a remainder determines the characters and the
/// remainder.
proof fn lemma_json_string_unambiguous(s1: Seq<char>, s2: Seq<char>, r1: Seq<u8>, r2: Seq<u8>)
    requires
        json_string(s1) + r1 == json_string(s2) + r2,
    ensures
        s1 == s2,
        r1 == r2,
{
    assert(seq![0x22u8] + (esc(encode_utf8(s1)) + seq![0x22u8] + r1)
        =~= json_string(s1) + r1);
    assert(seq![0x22u8] + (esc(encode_utf8(s2)) + seq![0x22u8] + r2)
        =~= json_string(s2) + r2);
    assert(esc(encode_utf8(s1)) + seq![0x22u8] + r1
        =~= esc(encode_utf8(s2)) + seq![0x22u8] + r2) by {
        let a = esc(encode_utf8(s1)) + seq![0x22u8] + r1;
        let b = esc(encode_utf8(s2)) + seq![0x22u8] + r2;
        let l1 = seq![0x22u8] + a;
        let l2 = seq![0x22u8] + b;
        assert forall|t: int| 0 <= t < a.len() implies a[t] == b[t] by {
            assert(l1[1 + t] == a[t]);
            assert(l2[1 + t] == b[t]);
        }
    }
    lemma_esc_unambiguous(encode_utf8(s1), encode_utf8(s2), r1, r2);
    vstd::utf8::encode_utf8_decode_utf8(s1);
    vstd::utf8::encode_utf8_decode_utf8(s2);
    assert(s1 == decode_utf8(encode_utf8(s1)));
    assert(s2 == decode_utf8(encode_utf8(s2)));
}

/// Strip an equal prefix from both sides of a byte equation.
proof fn lemma_strip_prefix(p: Seq<u8>, a: Seq<u8>, b: Seq<u8>)
    requires
        p + a == p + b,
    ensures
        a == b,
{
    assert((p + a).len() == (p + b).len());
    assert((p + a).len() == p.len() + a.len());
    assert((p + b).len() == p.len() + b.len());
    assert(a.len() == b.len());
    assert(a =~= b) by {
        assert forall|t: int| 0 <= t < a.len() implies a[t] == b[t] by {
            assert((p + a)[p.len() + t] == a[t]);
            assert((p + b)[p.len() + t] == b[t]);
        }
    }
}

/// One entry object followed by a remainder determines the entry and the
/// remainder.
proof fn lemma_json_entry_unambiguous(
    t1: (Seq<char>, Seq<char>, bool),
    t2: (Seq<char>, Seq<char>, bool),
    r1: Seq<u8>,
    r2: Seq<u8>,
)
    requires
        json_entry(t1.0, t1.1, t1.2) + r1 == json_entry(t2.0, t2.1, t2.2) + r2,
    ensures
        t1 == t2,
        r1 == r2,
{
    let a1 = json_string(t1.0) + (value_prefix() + (json_string(t1.1)
        + (locked_prefix() + (json_bool(t1.2) + (seq![0x7Du8] + r1)))));
    let a2 = json_string(t2.0) + (value_prefix() + (json_string(t2.1)
        + (locked_prefix() + (json_bool(t2.2) + (seq![0x7Du8] + r2)))));
    assert(key_prefix() + a1 =~= json_entry(t1.0, t1.1, t1.2) + r1);
    assert(key_prefix() + a2 =~= json_entry(t2.0, t2.1, t2.2) + r2);
    lemma_strip_prefix(key_prefix(), a1, a2);
    lemma_json_string_unambiguous(
        t1.0,
        t2.0,
        value_prefix() + (json_string(t1.1) + (locked_prefix() + (json_bool(t1.2)
            + (seq![0x7Du8] + r1)))),
        value_prefix() + (json_string(t2.1) + (locked_prefix() + (json_bool(t2.2)
            + (seq![0x7Du8] + r2)))),
    );
    lemma_strip_prefix(
        value_prefix(),
        json_string(t1.1) + (locked_prefix() + (json_bool(t1.2) + (seq![0x7Du8] + r1))),
        json_string(t2.1) + (locked_prefix() + (json_bool(t2.2) + (seq![0x7Du8] + r2))),
    );
    lemma_json_string_unambiguous(
        t1.1,
        t2.1,
        locked_prefix() + (json_bool(t1.2) + (seq![0x7Du8] + r1)),
        locked_prefix() + (json_bool(t2.2) + (seq![0x7Du8] + r2)),
    );
    lemma_strip_prefix(
        locked_prefix(),
        json_bool(t1.2) + (seq![0x7Du8] + r1),
        json_bool(t2.2) + (seq![0x7Du8] + r2),
    );
    let b1 = json_bool(t1.2) + (seq![0x7Du8] + r1);
    let b2 = json_bool(t2.2) + (seq![0x7Du8] + r2);
    if t1.2 != t2.2 {
        assert(b1[0] == json_bool(t1.2)[0]);
        assert(b2[0] == json_bool(t2.2)[0]);
        assert(false);
    }
    lemma_strip_prefix(json_bool(t1.2), seq![0x7Du8] + r1, seq![0x7Du8] + r2);
    lemma_strip_prefix(seq![0x7Du8], r1, r2);
}

/// A bracketed, comma-separated entry list determines its entries.
proof fn lemma_json_entries_unambiguous(
    es1: Seq<(Seq<char>, Seq<char>, bool)>,
    es2: Seq<(Seq<char>, Seq<char>, bool)>,
)
    requires
        json_entries(es1) + seq![0x5Du8] == json_entries(es2) + seq![0x5Du8],
    ensures
        es1 == es2,
    decreases es1.len(),
{
    let l = json_entries(es1) + seq![0x5Du8];
    if es1.len() == 0 && es2.len() == 0 {
        assert(es1 =~= es2);
    } else if es1.len() == 0 {
        assert(l[0] == 0x5D);
        assert(json_entries(es2)[0] == json_entry(es2[0].0, es2[0].1, es2[0].2)[0]);
        assert(json_entry(es2[0].0, es2[0].1, es2[0].2)[0] == 0x7B);
        assert(false);
    } else if es2.len() == 0 {
        assert(l[0] == 0x5D);
        assert(json_entries(es1)[0] == json_entry(es1[0].0, es1[0].1, es1[0].2)[0]);
        assert(json_entry(es1[0].0, es1[0].1, es1[0].2)[0] == 0x7B);
        assert(false);
    } else {
        let tail1: Seq<u8> = if es1.len() == 1 {
            seq![0x5Du8]
        } else {
            seq![0x2Cu8] + json_entries(es1.drop_first()) + seq![0x5Du8]
        };
        let tail2: Seq<u8> = if es2.len() == 1 {
            seq![0x5Du8]
        } else {
            seq![0x2Cu8] + json_entries(es2.drop_first()) + seq![0x5Du8]
        };
        assert(json_entry(es1[0].0, es1[0].1, es1[0].2) + tail1 =~= l);
        assert(json_entry(es2[0].0, es2[0].1, es2[0].2) + tail2
            =~= json_entries(es2) + seq![0x5Du8]);
        lemma_json_entry_unambiguous(es1[0], es2[0], tail1, tail2);
        if es1.len() == 1 && es2.len() == 1 {
            assert(es1 =~= es2);
        } else if es1.len() == 1 {
            assert(tail1[0] == 0x5D && tail2[0] == 0x2C);
            assert(false);
        } else if es2.len() == 1 {
            assert(tail1[0] == 0x2C && tail2[0] == 0x5D);
            assert(false);
        } else {
            assert(seq![0x2Cu8] + (json_entries(es1.drop_first()) + seq![0x5Du8])
                =~= tail1);
            assert(seq![0x2Cu8] + (json_entries(es2.drop_first()) + seq![0x5Du8])
                =~= tail2);
            lemma_strip_prefix(
                seq![0x2Cu8],
                json_entries(es1.drop_first()) + seq![0x5Du8],
                json_entries(es2.drop_first()) + seq![0x5Du8],
            );
            lemma_json_entries_unambiguous(es1.drop_first(), es2.drop_first());
            assert(es1 =~= es2) by {
                assert forall|t: int| 0 <= t < es1.len() implies es1[t] == es2[t] by {
                    if t > 0 {
                        assert(es1.drop_first()[t - 1] == es1[t]);
                        assert(es2.drop_first()[t - 1] == es2[t]);
                    }
                }
            }
        }
    }
}

/// Law: the payload format is unambiguous — equal payload bytes mean equal
/// entry lists, so nothing else decrypts and parses to what an export wrote.
pub proof fn lemma_payload_unambiguous(
    es1: Seq<(Seq<char>, Seq<char>, bool)>,
    es2: Seq<(Seq<char>, Seq<char>, bool)>,
)
    requires
        payload_of(es1) == payload_of(es2),
    ensures
        es1 == es2,
{
    assert(seq![0x5Bu8] + (json_entries(es1) + seq![0x5Du8]) =~= payload_of(es1));
    assert(seq![0x5Bu8] + (json_entries(es2) + seq![0x5Du8]) =~= payload_of(es2));
    lemma_strip_prefix(
        seq![0x5Bu8],
        json_entries(es1) + seq![0x5Du8],
        json_entries(es2) + seq![0x5Du8],
    );
    lemma_json_entries_unambiguous(es1, es2);
}

} // verus!
