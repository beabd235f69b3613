//! Laws that tie the decoder and the encoder together.
//!
//! Decoding what the encoder wrote gives the tree back, so a canonical
//! buffer survives decoding and encoding byte for byte, and encoding a
//! decoded document a second time changes nothing.

use crate::bvdf::{
    decode_spec, encode_entry, encode_items, encode_spec, lemma_parse_advances, parse_items,
    tag_of, DecodeError, MAX_DEPTH,
};
use crate::value::{
    has_key, lemma_put_nests_within, lemma_put_well_formed, nests_within, put,
    well_formed, Entries, Node,
};
use crate::wire::{
    find_nul, le_bytes, lemma_find_nul, lemma_find_nul_is, lemma_le_round_trip, nul_free, u32_at,
    TYPE_END, TYPE_INT, TYPE_MAP, TYPE_STR,
};
use vstd::prelude::*;

verus! {

/// The bytes `x` lie in `b` from position `p` on.
pub open spec fn has_at(b: Seq<u8>, p: int, x: Seq<u8>) -> bool {
    0 <= p && p + x.len() <= b.len() && b.subrange(p, p + x.len()) == x
}

/// The bytes of the entries from the `n`-th on, then the end marker.
pub open spec fn encode_from(es: Entries, n: nat) -> Seq<u8>
    decreases es.len() - n,
{
    if n >= es.len() {
        seq![TYPE_END]
    } else {
        encode_entry(es[n as int].0, es[n as int].1) + encode_from(es, n + 1)
    }
}

proof fn lemma_has_at_split(b: Seq<u8>, p: int, x: Seq<u8>, y: Seq<u8>)
    requires
        has_at(b, p, x + y),
    ensures
        has_at(b, p, x),
        has_at(b, p + x.len(), y),
{
    let whole = b.subrange(p, p + (x + y).len());
    assert(b.subrange(p, p + x.len()) =~= whole.subrange(0, x.len() as int));
    assert(whole.subrange(0, x.len() as int) =~= x);
    assert(b.subrange(p + x.len(), p + x.len() + y.len()) =~= whole.subrange(
        x.len() as int,
        (x + y).len() as int,
    ));
    assert(whole.subrange(x.len() as int, (x + y).len() as int) =~= y);
}

proof fn lemma_has_at_index(b: Seq<u8>, p: int, x: Seq<u8>, i: int)
    requires
        has_at(b, p, x),
        0 <= i < x.len(),
    ensures
        b[p + i] == x[i],
{
    assert(b.subrange(p, p + x.len())[i] == b[p + i]);
}

/// A NUL-free run followed by a zero byte is read back as that run.
proof fn lemma_read_run(b: Seq<u8>, p: int, run: Seq<u8>)
    requires
        has_at(b, p, run + seq![0u8]),
        nul_free(run),
    ensures
        find_nul(b, p) == Some(p + run.len()),
        b.subrange(p, p + run.len()) == run,
{
    lemma_has_at_split(b, p, run, seq![0u8]);
    lemma_has_at_index(b, p + run.len(), seq![0u8], 0);
    assert forall|j: int| p <= j < p + run.len() implies b[j] != 0 by {
        lemma_has_at_index(b, p, run, j - p);
    }
    lemma_find_nul_is(b, p, p + run.len());
}

/// The entries before the `n`-th and those from it on make up the whole.
proof fn lemma_items_then_rest(es: Entries, n: nat)
    requires
        n <= es.len(),
    ensures
        encode_items(es, n) + encode_from(es, n) == encode_spec(es),
    decreases es.len() - n,
{
    if n < es.len() {
        lemma_items_then_rest(es, n + 1);
        let entry = encode_entry(es[n as int].0, es[n as int].1);
        assert(encode_items(es, n + 1) == encode_items(es, n) + entry);
        assert((encode_items(es, n) + entry) + encode_from(es, n + 1) =~= encode_items(es, n) + (
        entry + encode_from(es, n + 1)));
    }
}

/// Inserting the next entry of a map with distinct keys extends the
/// entries taken so far by one.
proof fn lemma_put_next(es: Entries, n: int)
    requires
        well_formed(es),
        0 <= n < es.len(),
    ensures
        put(es.take(n), es[n].0, es[n].1) == es.take(n + 1),
{
    let head = es.take(n);
    if has_key(head, es[n].0) {
        let i = choose|i: int| 0 <= i < head.len() && (#[trigger] head[i]).0 == es[n].0;
        assert(head[i] == es[i]);
        assert(es[i].0 != es[n].0);
    }
    assert(head.push(es[n]) =~= es.take(n + 1));
}

/// Reading the encoding of the entries from the `n`-th on, with the
/// entries before them at hand, gives the whole map.
proof fn lemma_parse_encoded(b: Seq<u8>, p: int, es: Entries, n: nat, budget: nat, top: bool)
    requires
        well_formed(es),
        nests_within(es, budget),
        n <= es.len(),
        has_at(b, p, encode_from(es, n)),
    ensures
        parse_items(b, p, es.take(n as int), budget, top) == Ok::<(Entries, int), DecodeError>(
            (es, p + encode_from(es, n).len()),
        ),
    decreases es, es.len() - n,
{
    if n >= es.len() {
        lemma_has_at_index(b, p, encode_from(es, n), 0);
        assert(es.take(n as int) =~= es);
    } else {
        let k = es[n as int].0;
        let v = es[n as int].1;
        let acc = es.take(n as int);
        let payload = match v {
            Node::Nested(c) => encode_spec(c),
            Node::Str(t) => t + seq![0u8],
            Node::Int(x) => le_bytes(x),
        };
        let entry = encode_entry(k, v);
        let rest = encode_from(es, n + 1);
        assert(entry == seq![tag_of(v)] + k + seq![0u8] + payload);
        lemma_has_at_split(b, p, entry, rest);
        lemma_has_at_split(b, p, seq![tag_of(v)] + k + seq![0u8], payload);
        assert(seq![tag_of(v)] + k + seq![0u8] =~= seq![tag_of(v)] + (k + seq![0u8]));
        lemma_has_at_split(b, p, seq![tag_of(v)], k + seq![0u8]);
        lemma_has_at_index(b, p, seq![tag_of(v)], 0);
        assert(b[p] == tag_of(v));
        lemma_read_run(b, p + 1, k);
        let e = p + 1 + k.len();
        assert(find_nul(b, p + 1) == Some(e));
        assert(b.subrange(p + 1, e) == k);
        lemma_put_next(es, n as int);
        assert(put(acc, k, v) == es.take(n as int + 1));
        lemma_has_at_index(b, p + entry.len(), rest, 0);
        match v {
            Node::Nested(c) => {
                lemma_items_then_rest(c, 0);
                assert(encode_from(c, 0) =~= encode_spec(c));
                assert(c.take(0) =~= Seq::<(Seq<u8>, Node)>::empty());
                lemma_parse_encoded(b, e + 1, c, 0, (budget - 1) as nat, false);
                lemma_parse_encoded(b, p + entry.len(), es, n + 1, budget, top);
            },
            Node::Str(t) => {
                lemma_read_run(b, e + 1, t);
                lemma_parse_encoded(b, p + entry.len(), es, n + 1, budget, top);
            },
            Node::Int(x) => {
                lemma_le_round_trip(x);
                lemma_has_at_index(b, e + 1, payload, 0);
                lemma_has_at_index(b, e + 1, payload, 1);
                lemma_has_at_index(b, e + 1, payload, 2);
                lemma_has_at_index(b, e + 1, payload, 3);
                assert(u32_at(b, e + 1) == u32_at(le_bytes(x), 0));
                lemma_parse_encoded(b, p + entry.len(), es, n + 1, budget, top);
            },
        }
    }
}

/// What the decoder reads is well formed, and nests no deeper than the
/// decoder was allowed to go.
pub proof fn lemma_parse_well_formed(b: Seq<u8>, pos: int, acc: Entries, budget: nat, top: bool)
    requires
        0 <= pos <= b.len(),
        well_formed(acc),
        nests_within(acc, budget),
    ensures
        match parse_items(b, pos, acc, budget, top) {
            Ok((es, _)) => well_formed(es) && nests_within(es, budget),
            Err(_) => true,
        },
    decreases b.len() - pos,
{
    if pos < b.len() && (b[pos] == TYPE_MAP || b[pos] == TYPE_STR || b[pos] == TYPE_INT) && !(
    b[pos] == TYPE_MAP && budget == 0) {
        lemma_find_nul(b, pos + 1);
        if let Some(e) = find_nul(b, pos + 1) {
            let key = b.subrange(pos + 1, e);
            if b[pos] == TYPE_MAP {
                let empty = Seq::<(Seq<u8>, Node)>::empty();
                lemma_parse_advances(b, e + 1, empty, (budget - 1) as nat, false);
                lemma_parse_well_formed(b, e + 1, empty, (budget - 1) as nat, false);
                if let Ok((children, next)) = parse_items(
                    b,
                    e + 1,
                    empty,
                    (budget - 1) as nat,
                    false,
                ) {
                    lemma_put_well_formed(acc, key, Node::Nested(children));
                    lemma_put_nests_within(acc, key, Node::Nested(children), budget);
                    lemma_parse_well_formed(
                        b,
                        next,
                        put(acc, key, Node::Nested(children)),
                        budget,
                        top,
                    );
                }
            } else if b[pos] == TYPE_STR {
                lemma_find_nul(b, e + 1);
                if let Some(e2) = find_nul(b, e + 1) {
                    let value = Node::Str(b.subrange(e + 1, e2));
                    lemma_put_well_formed(acc, key, value);
                    lemma_put_nests_within(acc, key, value, budget);
                    lemma_parse_well_formed(b, e2 + 1, put(acc, key, value), budget, top);
                }
            } else if e + 5 <= b.len() {
                let value = Node::Int(u32_at(b, e + 1));
                lemma_put_well_formed(acc, key, value);
                lemma_put_nests_within(acc, key, value, budget);
                lemma_parse_well_formed(b, e + 5, put(acc, key, value), budget, top);
            }
        }
    }
}

/// A decoded document is well formed: keys are distinct in every map,
/// no key or text holds a zero byte, and maps nest at most `MAX_DEPTH`
/// levels deep.
pub proof fn lemma_decoded_is_well_formed(b: Seq<u8>)
    ensures
        match decode_spec(b) {
            Ok(es) => well_formed(es) && nests_within(es, MAX_DEPTH as nat),
            Err(_) => true,
        },
{
    lemma_parse_well_formed(b, 0, Seq::empty(), MAX_DEPTH as nat, true);
}

/// Decoding is a left inverse of encoding: the encoding of a
/// well-formed document that nests at most `MAX_DEPTH` levels deep
/// decodes to that document.
pub proof fn lemma_decode_encode(es: Entries)
    requires
        well_formed(es),
        nests_within(es, MAX_DEPTH as nat),
    ensures
        decode_spec(encode_spec(es)) == Ok::<Entries, DecodeError>(es),
{
    let b = encode_spec(es);
    lemma_items_then_rest(es, 0);
    assert(encode_from(es, 0) =~= b);
    assert(b.subrange(0, b.len() as int) =~= b);
    assert(es.take(0) =~= Seq::<(Seq<u8>, Node)>::empty());
    lemma_parse_encoded(b, 0, es, 0, MAX_DEPTH as nat, true);
}

/// Round trip: a canonical buffer, that is the encoding of a
/// well-formed document within the depth limit, decodes, and encoding
/// what it decodes to gives the buffer back byte for byte.
pub proof fn lemma_round_trip(b: Seq<u8>, es: Entries)
    requires
        well_formed(es),
        nests_within(es, MAX_DEPTH as nat),
        b == encode_spec(es),
    ensures
        decode_spec(b) is Ok,
        encode_spec(decode_spec(b)->Ok_0) == b,
{
    lemma_decode_encode(es);
}

/// Encoding a decoded document is idempotent: whatever buffer decodes,
/// the encoding of its document decodes to the same document, and so
/// encodes to the same bytes again.
pub proof fn lemma_reencode_idempotent(b: Seq<u8>)
    requires
        decode_spec(b) is Ok,
    ensures
        decode_spec(encode_spec(decode_spec(b)->Ok_0)) == decode_spec(b),
        encode_spec(decode_spec(encode_spec(decode_spec(b)->Ok_0))->Ok_0) == encode_spec(
            decode_spec(b)->Ok_0,
        ),
{
    lemma_decoded_is_well_formed(b);
    lemma_decode_encode(decode_spec(b)->Ok_0);
}

} // verus!
