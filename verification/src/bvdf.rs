//! Encoding and decoding the binary VDF format.
//!
//! A document is a run of entries. Each entry starts with a tag byte
//! that tells the kind of its value, followed by the key with a NUL
//! terminator, followed by the value: the entries of a nested map up to
//! their end marker, a text with a NUL terminator, or four bytes of a
//! little-endian integer. An end marker closes every map.

use crate::value::{put, Entries, Node, Text, Val, VdfMap};
use crate::wire::{
    copy_range, find_nul, le_bytes, lemma_find_nul, push_range, push_u32, read_u32, scan_nul,
    u32_at, TYPE_END, TYPE_INT, TYPE_MAP, TYPE_STR,
};
use vstd::prelude::*;

verus! {

/// How many maps may nest inside the document before decoding gives up.
pub const MAX_DEPTH: usize = 64;

/// Why a buffer could not be decoded.
#[derive(Debug, Clone, Copy, PartialEq, Eq, Structural)]
pub enum DecodeError {
    /// The buffer ended inside a key, a text or an integer, or before
    /// the end marker of a nested map.
    UnexpectedEndOfInput,
    /// The byte at `position`, where a tag was due, is no known tag.
    InvalidMapItemPrefix { position: usize },
    /// A map nests deeper than `MAX_DEPTH` levels.
    NestingTooDeep,
}

/// The tag byte that announces a value of this kind.
pub open spec fn tag_of(v: Node) -> u8 {
    match v {
        Node::Nested(_) => TYPE_MAP,
        Node::Str(_) => TYPE_STR,
        Node::Int(_) => TYPE_INT,
    }
}

/// The bytes of one entry: tag, key, terminator, value.
pub open spec fn encode_entry(k: Seq<u8>, v: Node) -> Seq<u8>
    decreases v, 0nat,
{
    seq![tag_of(v)] + k + seq![0u8] + match v {
        Node::Nested(c) => encode_spec(c),
        Node::Str(t) => t + seq![0u8],
        Node::Int(x) => le_bytes(x),
    }
}

/// The bytes of the first `n` entries of `es`, one after the other.
pub open spec fn encode_items(es: Entries, n: nat) -> Seq<u8>
    decreases es, n,
{
    if n == 0 || n > es.len() {
        Seq::empty()
    } else {
        encode_items(es, (n - 1) as nat) + encode_entry(es[n - 1].0, es[n - 1].1)
    }
}

/// The bytes of a map: its entries in order, then the end marker.
pub open spec fn encode_spec(es: Entries) -> Seq<u8>
    decreases es, es.len() + 1,
{
    encode_items(es, es.len()) + seq![TYPE_END]
}

/// What reading a map from `pos` on gives, with `acc` holding the
/// entries read so far and `budget` the levels that may still nest:
/// the entries and the position after the map, or the first failure.
///
/// The top level may end with the buffer; a nested map must be closed
/// by its end marker.
pub open spec fn parse_items(b: Seq<u8>, pos: int, acc: Entries, budget: nat, top: bool) -> Result<
    (Entries, int),
    DecodeError,
>
    decreases b.len() - pos,
    via parse_items_decreases
{
    if pos < 0 || pos >= b.len() {
        if top {
            Ok((acc, pos))
        } else {
            Err(DecodeError::UnexpectedEndOfInput)
        }
    } else if b[pos] == TYPE_END {
        Ok((acc, pos + 1))
    } else if b[pos] != TYPE_MAP && b[pos] != TYPE_STR && b[pos] != TYPE_INT {
        Err(DecodeError::InvalidMapItemPrefix { position: #[verifier::truncate] (pos as usize) })
    } else if b[pos] == TYPE_MAP && budget == 0 {
        Err(DecodeError::NestingTooDeep)
    } else {
        match find_nul(b, pos + 1) {
            None => Err(DecodeError::UnexpectedEndOfInput),
            Some(e) => {
                let key = b.subrange(pos + 1, e);
                if b[pos] == TYPE_MAP {
                    match parse_items(b, e + 1, Seq::empty(), (budget - 1) as nat, false) {
                        Err(x) => Err(x),
                        Ok((children, next)) => if next <= pos || next > b.len() {
                            // A nested map always ends after its tag and inside the
                            // buffer; the test keeps the definition well founded.
                            Err(DecodeError::UnexpectedEndOfInput)
                        } else {
                            parse_items(b, next, put(acc, key, Node::Nested(children)), budget, top)
                        },
                    }
                } else if b[pos] == TYPE_STR {
                    match find_nul(b, e + 1) {
                        None => Err(DecodeError::UnexpectedEndOfInput),
                        Some(e2) => parse_items(
                            b,
                            e2 + 1,
                            put(acc, key, Node::Str(b.subrange(e + 1, e2))),
                            budget,
                            top,
                        ),
                    }
                } else if e + 5 <= b.len() {
                    parse_items(b, e + 5, put(acc, key, Node::Int(u32_at(b, e + 1))), budget, top)
                } else {
                    Err(DecodeError::UnexpectedEndOfInput)
                }
            },
        }
    }
}

#[via_fn]
proof fn parse_items_decreases(b: Seq<u8>, pos: int, acc: Entries, budget: nat, top: bool) {
    if 0 <= pos < b.len() {
        lemma_find_nul(b, pos + 1);
        if let Some(e) = find_nul(b, pos + 1) {
            lemma_find_nul(b, e + 1);
        }
    }
}

/// What decoding a whole buffer gives: the document, or the first failure.
pub open spec fn decode_spec(b: Seq<u8>) -> Result<Entries, DecodeError> {
    match parse_items(b, 0, Seq::empty(), MAX_DEPTH as nat, true) {
        Ok((es, _)) => Ok(es),
        Err(e) => Err(e),
    }
}

/// A map that was read ends after the position where it began, and
/// inside the buffer.
pub proof fn lemma_parse_advances(b: Seq<u8>, pos: int, acc: Entries, budget: nat, top: bool)
    requires
        0 <= pos <= b.len(),
    ensures
        match parse_items(b, pos, acc, budget, top) {
            Ok((_, next)) => pos <= next <= b.len() && (!top ==> pos < next),
            Err(_) => true,
        },
    decreases b.len() - pos,
{
    if pos < b.len() && (b[pos] == TYPE_MAP || b[pos] == TYPE_STR || b[pos] == TYPE_INT) && !(
    b[pos] == TYPE_MAP && budget == 0) {
        lemma_find_nul(b, pos + 1);
        if let Some(e) = find_nul(b, pos + 1) {
            if b[pos] == TYPE_MAP {
                lemma_parse_advances(b, e + 1, Seq::empty(), (budget - 1) as nat, false);
                if let Ok((children, next)) = parse_items(
                    b,
                    e + 1,
                    Seq::empty(),
                    (budget - 1) as nat,
                    false,
                ) {
                    lemma_parse_advances(
                        b,
                        next,
                        put(acc, b.subrange(pos + 1, e), Node::Nested(children)),
                        budget,
                        top,
                    );
                }
            } else if b[pos] == TYPE_STR {
                lemma_find_nul(b, e + 1);
                if let Some(e2) = find_nul(b, e + 1) {
                    lemma_parse_advances(
                        b,
                        e2 + 1,
                        put(acc, b.subrange(pos + 1, e), Node::Str(b.subrange(e + 1, e2))),
                        budget,
                        top,
                    );
                }
            } else if e + 5 <= b.len() {
                lemma_parse_advances(
                    b,
                    e + 5,
                    put(acc, b.subrange(pos + 1, e), Node::Int(u32_at(b, e + 1))),
                    budget,
                    top,
                );
            }
        }
    }
}

/// Reads the NUL-terminated run that starts at `pos`: the run without
/// its terminator, and the position after the terminator.
pub fn decode_str(bytes: &[u8], pos: usize) -> (r: Result<(Text, usize), DecodeError>)
    ensures
        match r {
            Ok((t, next)) => find_nul(bytes@, pos as int) == Some(next - 1) && t@
                == bytes@.subrange(pos as int, next - 1) && t.wf(),
            Err(e) => e == DecodeError::UnexpectedEndOfInput && find_nul(bytes@, pos as int)
                is None,
        },
{
    match scan_nul(bytes, pos) {
        None => Err(DecodeError::UnexpectedEndOfInput),
        Some(end) => {
            proof {
                lemma_find_nul(bytes@, pos as int);
            }
            let run = copy_range(bytes, pos, end);
            let total = bytes.len();
            assert(end < total);
            Ok((Text::from_nul_free(run), end + 1))
        },
    }
}

/// Reads the little-endian integer in the four bytes that start at
/// `pos`: its value, and the position after it.
pub fn decode_int(bytes: &[u8], pos: usize) -> (r: Result<(u32, usize), DecodeError>)
    ensures
        match r {
            Ok((x, next)) => pos + 4 <= bytes@.len() && next == pos + 4 && x == u32_at(
                bytes@,
                pos as int,
            ),
            Err(e) => e == DecodeError::UnexpectedEndOfInput && pos + 4 > bytes@.len(),
        },
{
    match read_u32(bytes, pos) {
        Some(x) => {
            let total = bytes.len();
            assert(pos + 4 <= total);
            Ok((x, pos + 4))
        },
        None => Err(DecodeError::UnexpectedEndOfInput),
    }
}

/// Reads a map from `start` on: the map and the position after it. At
/// the top level the map may end with the buffer; a nested map has to
/// be closed by an end marker. At most `budget` further levels may nest
/// inside it.
pub fn decode_map(bytes: &[u8], start: usize, budget: usize, top: bool) -> (r: Result<
    (VdfMap, usize),
    DecodeError,
>)
    ensures
        match parse_items(bytes@, start as int, Seq::empty(), budget as nat, top) {
            Ok((es, next)) => match r {
                Ok((m, n)) => m@ == es && m.wf() && n == next && start <= n && (start
                    <= bytes@.len() ==> n <= bytes@.len()),
                Err(_) => false,
            },
            Err(e) => r is Err && r->Err_0 == e,
        },
    decreases bytes@.len() - start,
{
    let mut map = VdfMap::new();
    if start > bytes.len() {
        if top {
            return Ok((map, start));
        } else {
            return Err(DecodeError::UnexpectedEndOfInput);
        }
    }
    let mut pos: usize = start;
    loop
        invariant
            start <= pos <= bytes@.len(),
            map.wf(),
            parse_items(bytes@, start as int, Seq::empty(), budget as nat, top) == parse_items(
                bytes@,
                pos as int,
                map@,
                budget as nat,
                top,
            ),
        decreases bytes@.len() - pos,
    {
        if pos >= bytes.len() {
            if top {
                return Ok((map, pos));
            } else {
                return Err(DecodeError::UnexpectedEndOfInput);
            }
        }
        let tag: u8 = bytes[pos];
        if tag == TYPE_END {
            return Ok((map, pos + 1));
        }
        if tag != TYPE_MAP && tag != TYPE_STR && tag != TYPE_INT {
            return Err(DecodeError::InvalidMapItemPrefix { position: pos });
        }
        if tag == TYPE_MAP && budget == 0 {
            return Err(DecodeError::NestingTooDeep);
        }
        let (key, after_key) = match decode_str(bytes, pos + 1) {
            Ok(found) => found,
            Err(e) => {
                return Err(e);
            },
        };
        proof {
            lemma_find_nul(bytes@, pos + 1);
        }
        if tag == TYPE_MAP {
            let (child, next) = match decode_map(bytes, after_key, budget - 1, false) {
                Ok(found) => found,
                Err(e) => {
                    return Err(e);
                },
            };
            proof {
                lemma_parse_advances(
                    bytes@,
                    after_key as int,
                    Seq::empty(),
                    (budget - 1) as nat,
                    false,
                );
            }
            map.insert(key, Val::Nested(child));
            pos = next;
        } else if tag == TYPE_STR {
            let (text, next) = match decode_str(bytes, after_key) {
                Ok(found) => found,
                Err(e) => {
                    return Err(e);
                },
            };
            proof {
                lemma_find_nul(bytes@, after_key as int);
            }
            map.insert(key, Val::Str(text));
            pos = next;
        } else {
            let (x, next) = match decode_int(bytes, after_key) {
                Ok(found) => found,
                Err(e) => {
                    return Err(e);
                },
            };
            map.insert(key, Val::Int(x));
            pos = next;
        }
    }
}

/// Decodes a document.
///
/// The result is the map that reading the buffer from its start gives;
/// a key that occurs twice in one map keeps its first place and its
/// last value. The buffer may end with or without the end marker of the
/// top level, and what follows that marker is not read.
pub fn decode(bytes: &[u8]) -> (r: Result<VdfMap, DecodeError>)
    ensures
        match decode_spec(bytes@) {
            Ok(es) => r is Ok && r->Ok_0@ == es && r->Ok_0.wf(),
            Err(e) => r is Err && r->Err_0 == e,
        },
{
    match decode_map(bytes, 0, MAX_DEPTH, true) {
        Ok((map, _)) => Ok(map),
        Err(e) => Err(e),
    }
}

/// Appends the encoding of `map` to `out`.
pub fn encode_into(map: &VdfMap, out: &mut Vec<u8>)
    requires
        map.wf(),
    ensures
        final(out)@ == old(out)@ + encode_spec(map@),
    decreases map@,
{
    let n = map.len();
    let mut i: usize = 0;
    while i < n
        invariant
            map.wf(),
            n == map@.len(),
            i <= n,
            out@ == old(out)@ + encode_items(map@, i as nat),
        decreases n - i,
    {
        let ghost before = out@;
        let ghost k = map@[i as int].0;
        let ghost v = map@[i as int].1;
        match map.get_index(i) {
            Some((key, value)) => {
                match value {
                    Val::Nested(child) => {
                        out.push(TYPE_MAP);
                        push_range(out, key, 0, key.len());
                        out.push(0u8);
                        encode_into(child, out);
                    },
                    Val::Str(text) => {
                        out.push(TYPE_STR);
                        push_range(out, key, 0, key.len());
                        out.push(0u8);
                        let run = text.as_bytes();
                        push_range(out, run, 0, run.len());
                        out.push(0u8);
                    },
                    Val::Int(x) => {
                        out.push(TYPE_INT);
                        push_range(out, key, 0, key.len());
                        out.push(0u8);
                        push_u32(out, *x);
                    },
                }
                proof {
                    assert(key@.subrange(0, key@.len() as int) =~= k);
                    assert(out@ =~= before + encode_entry(k, v));
                    assert(out@ =~= old(out)@ + encode_items(map@, (i + 1) as nat));
                }
            },
            None => {},
        }
        i += 1;
    }
    out.push(TYPE_END);
    assert(out@ =~= old(out)@ + encode_spec(map@));
}

/// Encodes a document: every entry in order, each map closed by its
/// end marker, the top level too.
pub fn encode(map: &VdfMap) -> (r: Vec<u8>)
    requires
        map.wf(),
    ensures
        r@ == encode_spec(map@),
{
    let mut out: Vec<u8> = Vec::new();
    encode_into(map, &mut out);
    assert(out@ =~= encode_spec(map@));
    out
}

} // verus!
