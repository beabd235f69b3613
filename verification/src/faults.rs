//! Laws on how the decoder fails: a buffer cut inside a field ends
//! unexpectedly, and a byte that is no tag is rejected where it stands.

use crate::bvdf::{decode_spec, lemma_parse_advances, parse_items, DecodeError, MAX_DEPTH};
use crate::value::{put, Entries, Node};
use crate::wire::{
    find_nul, lemma_find_nul, lemma_find_nul_is, u32_at, TYPE_END, TYPE_INT, TYPE_MAP, TYPE_STR,
};
use vstd::prelude::*;

verus! {

/// The byte `x` is one of the four tags.
pub open spec fn is_tag(x: u8) -> bool {
    x == TYPE_MAP || x == TYPE_STR || x == TYPE_INT || x == TYPE_END
}

/// Reading a map from `pos` on, with `budget` levels left, comes to
/// read the byte at `p` as a tag: that of an entry of this map or of a
/// map nested in it, or an end marker.
pub open spec fn tag_at(b: Seq<u8>, pos: int, budget: nat, p: int) -> bool
    decreases b.len() - pos,
    via tag_at_decreases
{
    if pos < 0 || pos >= b.len() {
        false
    } else if p == pos {
        true
    } else if b[pos] != TYPE_MAP && b[pos] != TYPE_STR && b[pos] != TYPE_INT {
        false
    } else if b[pos] == TYPE_MAP && budget == 0 {
        false
    } else {
        match find_nul(b, pos + 1) {
            None => false,
            Some(e) => if b[pos] == TYPE_MAP {
                tag_at(b, e + 1, (budget - 1) as nat, p) || match parse_items(
                    b,
                    e + 1,
                    Seq::empty(),
                    (budget - 1) as nat,
                    false,
                ) {
                    Ok((_, next)) => pos < next <= b.len() && tag_at(b, next, budget, p),
                    Err(_) => false,
                }
            } else if b[pos] == TYPE_STR {
                match find_nul(b, e + 1) {
                    Some(e2) => tag_at(b, e2 + 1, budget, p),
                    None => false,
                }
            } else {
                e + 5 <= b.len() && tag_at(b, e + 5, budget, p)
            },
        }
    }
}

#[via_fn]
proof fn tag_at_decreases(b: Seq<u8>, pos: int, budget: nat, p: int) {
    if 0 <= pos < b.len() {
        lemma_find_nul(b, pos + 1);
        if let Some(e) = find_nul(b, pos + 1) {
            lemma_find_nul(b, e + 1);
        }
    }
}

/// Reading a map from `pos` on, with `budget` levels left, comes to
/// read the byte at `p` as part of a key or a text, their terminators
/// included, or as one of the four bytes of an integer.
pub open spec fn field_at(b: Seq<u8>, pos: int, budget: nat, p: int) -> bool
    decreases b.len() - pos,
    via field_at_decreases
{
    if pos < 0 || pos >= b.len() {
        false
    } else if b[pos] != TYPE_MAP && b[pos] != TYPE_STR && b[pos] != TYPE_INT {
        false
    } else if b[pos] == TYPE_MAP && budget == 0 {
        false
    } else {
        match find_nul(b, pos + 1) {
            None => false,
            Some(e) => pos < p <= e || if b[pos] == TYPE_MAP {
                field_at(b, e + 1, (budget - 1) as nat, p) || match parse_items(
                    b,
                    e + 1,
                    Seq::empty(),
                    (budget - 1) as nat,
                    false,
                ) {
                    Ok((_, next)) => pos < next <= b.len() && field_at(b, next, budget, p),
                    Err(_) => false,
                }
            } else if b[pos] == TYPE_STR {
                match find_nul(b, e + 1) {
                    Some(e2) => e < p <= e2 || field_at(b, e2 + 1, budget, p),
                    None => false,
                }
            } else {
                e + 5 <= b.len() && (e < p < e + 5 || field_at(b, e + 5, budget, p))
            },
        }
    }
}

#[via_fn]
proof fn field_at_decreases(b: Seq<u8>, pos: int, budget: nat, p: int) {
    if 0 <= pos < b.len() {
        lemma_find_nul(b, pos + 1);
        if let Some(e) = find_nul(b, pos + 1) {
            lemma_find_nul(b, e + 1);
        }
    }
}

/// Both buffers reach up to `end` and hold the same bytes below it.
pub open spec fn agrees_below(b: Seq<u8>, c: Seq<u8>, end: int) -> bool {
    &&& end <= b.len()
    &&& end <= c.len()
    &&& forall|j: int| 0 <= j < end ==> c[j] == b[j]
}

proof fn lemma_find_nul_agrees(b: Seq<u8>, c: Seq<u8>, s: int, end: int)
    requires
        0 <= s,
        agrees_below(b, c, end),
        find_nul(b, s) is Some,
        find_nul(b, s)->0 < end,
    ensures
        find_nul(c, s) == find_nul(b, s),
        c.subrange(s, find_nul(b, s)->0) == b.subrange(s, find_nul(b, s)->0),
{
    let e = find_nul(b, s)->0;
    lemma_find_nul(b, s);
    assert forall|j: int| s <= j < e implies c[j] != 0 by {
        assert(b.subrange(s, e)[j - s] == b[j]);
    }
    lemma_find_nul_is(c, s, e);
    assert(c.subrange(s, e) =~= b.subrange(s, e));
}

proof fn lemma_find_nul_cut(b: Seq<u8>, i: int, s: int)
    requires
        0 <= s,
        0 <= i <= b.len(),
        find_nul(b, s) is Some ==> i <= find_nul(b, s)->0,
    ensures
        find_nul(b.take(i), s) is None,
{
    let c = b.take(i);
    lemma_find_nul(c, s);
    lemma_find_nul(b, s);
    if let Some(f) = find_nul(c, s) {
        assert(c[f] == b[f]);
        if let Some(e) = find_nul(b, s) {
            assert(b.subrange(s, e)[f - s] == b[f]);
        }
    }
}

/// What was read from a buffer is read from every buffer that holds
/// the same bytes up to where the reading ended: the decoder looks at
/// no byte behind the map it reads. At the top level, where the end of
/// the buffer may end the map, the other buffer must not be longer.
pub proof fn lemma_parse_stable(
    b: Seq<u8>,
    c: Seq<u8>,
    pos: int,
    acc: Entries,
    budget: nat,
    top: bool,
)
    requires
        0 <= pos <= b.len(),
        parse_items(b, pos, acc, budget, top) is Ok,
        agrees_below(b, c, parse_items(b, pos, acc, budget, top)->Ok_0.1),
        top ==> c.len() <= b.len(),
    ensures
        parse_items(c, pos, acc, budget, top) == parse_items(b, pos, acc, budget, top),
    decreases b.len() - pos,
{
    let end = parse_items(b, pos, acc, budget, top)->Ok_0.1;
    lemma_parse_advances(b, pos, acc, budget, top);
    if pos < b.len() && b[pos] != TYPE_END {
        lemma_find_nul(b, pos + 1);
        let e = find_nul(b, pos + 1)->0;
        let key = b.subrange(pos + 1, e);
        if b[pos] == TYPE_MAP {
            let empty = Seq::<(Seq<u8>, Node)>::empty();
            lemma_parse_advances(b, e + 1, empty, (budget - 1) as nat, false);
            let inner = parse_items(b, e + 1, empty, (budget - 1) as nat, false);
            let children = inner->Ok_0.0;
            let next = inner->Ok_0.1;
            let grown = put(acc, key, Node::Nested(children));
            lemma_parse_advances(b, next, grown, budget, top);
            lemma_find_nul_agrees(b, c, pos + 1, end);
            lemma_parse_stable(b, c, e + 1, empty, (budget - 1) as nat, false);
            lemma_parse_stable(b, c, next, grown, budget, top);
        } else if b[pos] == TYPE_STR {
            lemma_find_nul(b, e + 1);
            let e2 = find_nul(b, e + 1)->0;
            let grown = put(acc, key, Node::Str(b.subrange(e + 1, e2)));
            lemma_parse_advances(b, e2 + 1, grown, budget, top);
            lemma_find_nul_agrees(b, c, pos + 1, end);
            lemma_find_nul_agrees(b, c, e + 1, end);
            lemma_parse_stable(b, c, e2 + 1, grown, budget, top);
        } else {
            let grown = put(acc, key, Node::Int(u32_at(b, e + 1)));
            lemma_parse_advances(b, e + 5, grown, budget, top);
            lemma_find_nul_agrees(b, c, pos + 1, end);
            lemma_parse_stable(b, c, e + 5, grown, budget, top);
        }
    }
}

proof fn lemma_tag_at_from(b: Seq<u8>, pos: int, budget: nat, p: int)
    requires
        tag_at(b, pos, budget, p),
    ensures
        0 <= pos <= p < b.len(),
    decreases b.len() - pos,
{
    if p != pos {
        lemma_find_nul(b, pos + 1);
        let e = find_nul(b, pos + 1)->0;
        if b[pos] == TYPE_MAP {
            if tag_at(b, e + 1, (budget - 1) as nat, p) {
                lemma_tag_at_from(b, e + 1, (budget - 1) as nat, p);
            } else {
                let next = parse_items(b, e + 1, Seq::empty(), (budget - 1) as nat, false)->Ok_0.1;
                lemma_tag_at_from(b, next, budget, p);
            }
        } else if b[pos] == TYPE_STR {
            lemma_find_nul(b, e + 1);
            lemma_tag_at_from(b, find_nul(b, e + 1)->0 + 1, budget, p);
        } else {
            lemma_tag_at_from(b, e + 5, budget, p);
        }
    }
}

proof fn lemma_field_at_from(b: Seq<u8>, pos: int, budget: nat, p: int)
    requires
        field_at(b, pos, budget, p),
    ensures
        0 <= pos < p < b.len(),
    decreases b.len() - pos,
{
    lemma_find_nul(b, pos + 1);
    let e = find_nul(b, pos + 1)->0;
    if !(pos < p <= e) {
        if b[pos] == TYPE_MAP {
            if field_at(b, e + 1, (budget - 1) as nat, p) {
                lemma_field_at_from(b, e + 1, (budget - 1) as nat, p);
            } else {
                let next = parse_items(b, e + 1, Seq::empty(), (budget - 1) as nat, false)->Ok_0.1;
                lemma_field_at_from(b, next, budget, p);
            }
        } else if b[pos] == TYPE_STR {
            lemma_find_nul(b, e + 1);
            let e2 = find_nul(b, e + 1)->0;
            if !(e < p <= e2) {
                lemma_field_at_from(b, e2 + 1, budget, p);
            }
        } else if !(e < p < e + 5) {
            lemma_field_at_from(b, e + 5, budget, p);
        }
    }
}

proof fn lemma_take_agrees(b: Seq<u8>, i: int, end: int)
    requires
        0 <= end <= i <= b.len(),
    ensures
        agrees_below(b, b.take(i), end),
{
}

proof fn lemma_cut_in_field(b: Seq<u8>, i: int, pos: int, acc: Entries, budget: nat, top: bool)
    requires
        field_at(b, pos, budget, i),
    ensures
        parse_items(b.take(i), pos, acc, budget, top) == Err::<(Entries, int), DecodeError>(
            DecodeError::UnexpectedEndOfInput,
        ),
    decreases b.len() - pos,
{
    let c = b.take(i);
    lemma_field_at_from(b, pos, budget, i);
    lemma_find_nul(b, pos + 1);
    let e = find_nul(b, pos + 1)->0;
    let key = b.subrange(pos + 1, e);
    assert(c[pos] == b[pos]);
    if i <= e {
        lemma_find_nul_cut(b, i, pos + 1);
    } else {
        lemma_take_agrees(b, i, e + 1);
        lemma_find_nul_agrees(b, c, pos + 1, e + 1);
        if b[pos] == TYPE_MAP {
            let empty = Seq::<(Seq<u8>, Node)>::empty();
            if field_at(b, e + 1, (budget - 1) as nat, i) {
                lemma_cut_in_field(b, i, e + 1, empty, (budget - 1) as nat, false);
            } else {
                let inner = parse_items(b, e + 1, empty, (budget - 1) as nat, false);
                let children = inner->Ok_0.0;
                let next = inner->Ok_0.1;
                lemma_field_at_from(b, next, budget, i);
                lemma_take_agrees(b, i, next);
                lemma_parse_stable(b, c, e + 1, empty, (budget - 1) as nat, false);
                lemma_cut_in_field(b, i, next, put(acc, key, Node::Nested(children)), budget, top);
            }
        } else if b[pos] == TYPE_STR {
            lemma_find_nul(b, e + 1);
            let e2 = find_nul(b, e + 1)->0;
            if i <= e2 {
                lemma_find_nul_cut(b, i, e + 1);
            } else {
                lemma_take_agrees(b, i, e2 + 1);
                lemma_find_nul_agrees(b, c, e + 1, e2 + 1);
                lemma_cut_in_field(
                    b,
                    i,
                    e2 + 1,
                    put(acc, key, Node::Str(b.subrange(e + 1, e2))),
                    budget,
                    top,
                );
            }
        } else if i >= e + 5 {
            lemma_cut_in_field(
                b,
                i,
                e + 5,
                put(acc, key, Node::Int(u32_at(b, e + 1))),
                budget,
                top,
            );
        }
    }
}

proof fn lemma_bad_tag(
    b: Seq<u8>,
    c: Seq<u8>,
    p: int,
    pos: int,
    acc: Entries,
    budget: nat,
    top: bool,
)
    requires
        tag_at(b, pos, budget, p),
        c.len() == b.len(),
        forall|j: int| 0 <= j < p ==> c[j] == b[j],
        p < c.len() ==> !is_tag(c[p]),
    ensures
        parse_items(c, pos, acc, budget, top) == Err::<(Entries, int), DecodeError>(
            DecodeError::InvalidMapItemPrefix { position: #[verifier::truncate] (p as usize) },
        ),
    decreases b.len() - pos,
{
    lemma_tag_at_from(b, pos, budget, p);
    if p != pos {
        assert(c[pos] == b[pos]);
        lemma_find_nul(b, pos + 1);
        let e = find_nul(b, pos + 1)->0;
        let key = b.subrange(pos + 1, e);
        if b[pos] == TYPE_MAP {
            let empty = Seq::<(Seq<u8>, Node)>::empty();
            if tag_at(b, e + 1, (budget - 1) as nat, p) {
                lemma_tag_at_from(b, e + 1, (budget - 1) as nat, p);
                assert(agrees_below(b, c, e + 1));
                lemma_find_nul_agrees(b, c, pos + 1, e + 1);
                lemma_bad_tag(b, c, p, e + 1, empty, (budget - 1) as nat, false);
            } else {
                let inner = parse_items(b, e + 1, empty, (budget - 1) as nat, false);
                let children = inner->Ok_0.0;
                let next = inner->Ok_0.1;
                lemma_parse_advances(b, e + 1, empty, (budget - 1) as nat, false);
                lemma_tag_at_from(b, next, budget, p);
                assert(agrees_below(b, c, next));
                lemma_find_nul_agrees(b, c, pos + 1, next);
                lemma_parse_stable(b, c, e + 1, empty, (budget - 1) as nat, false);
                lemma_bad_tag(b, c, p, next, put(acc, key, Node::Nested(children)), budget, top);
            }
        } else if b[pos] == TYPE_STR {
            lemma_find_nul(b, e + 1);
            let e2 = find_nul(b, e + 1)->0;
            lemma_tag_at_from(b, e2 + 1, budget, p);
            assert(agrees_below(b, c, e2 + 1));
            lemma_find_nul_agrees(b, c, pos + 1, e2 + 1);
            lemma_find_nul_agrees(b, c, e + 1, e2 + 1);
            lemma_bad_tag(
                b,
                c,
                p,
                e2 + 1,
                put(acc, key, Node::Str(b.subrange(e + 1, e2))),
                budget,
                top,
            );
        } else {
            lemma_tag_at_from(b, e + 5, budget, p);
            assert(agrees_below(b, c, e + 5));
            lemma_find_nul_agrees(b, c, pos + 1, e + 5);
            lemma_bad_tag(b, c, p, e + 5, put(acc, key, Node::Int(u32_at(b, e + 1))), budget, top);
        }
    }
}

/// Truncation safety: a buffer cut at a position that the decoder
/// reads as part of a key, a text, one of their terminators or an
/// integer does not decode; the decoder reports that the input ended
/// unexpectedly. This holds of every buffer in which the decoder comes
/// to read that position, of every valid one in particular.
pub proof fn lemma_truncation(b: Seq<u8>, i: int)
    requires
        field_at(b, 0, MAX_DEPTH as nat, i),
    ensures
        decode_spec(b.take(i)) == Err::<Entries, DecodeError>(DecodeError::UnexpectedEndOfInput),
{
    lemma_cut_in_field(b, i, 0, Seq::empty(), MAX_DEPTH as nat, true);
}

/// A prefix of a buffer that decodes either decodes too, or ends
/// unexpectedly: cutting a valid buffer never yields another failure.
pub proof fn lemma_prefix_fails_only_by_ending(b: Seq<u8>, i: int)
    requires
        decode_spec(b) is Ok,
        0 <= i <= b.len(),
    ensures
        decode_spec(b.take(i)) is Ok || decode_spec(b.take(i)) == Err::<Entries, DecodeError>(
            DecodeError::UnexpectedEndOfInput,
        ),
{
    lemma_cut_anywhere(b, i, 0, Seq::empty(), MAX_DEPTH as nat, true);
}

proof fn lemma_cut_anywhere(b: Seq<u8>, i: int, pos: int, acc: Entries, budget: nat, top: bool)
    requires
        0 <= pos <= i <= b.len(),
        parse_items(b, pos, acc, budget, top) is Ok,
    ensures
        parse_items(b.take(i), pos, acc, budget, top) is Ok || parse_items(
            b.take(i),
            pos,
            acc,
            budget,
            top,
        ) == Err::<(Entries, int), DecodeError>(DecodeError::UnexpectedEndOfInput),
    decreases b.len() - pos,
{
    let c = b.take(i);
    if pos < i {
        assert(c[pos] == b[pos]);
    }
    if pos < i && b[pos] != TYPE_END {
        lemma_find_nul(b, pos + 1);
        let e = find_nul(b, pos + 1)->0;
        let key = b.subrange(pos + 1, e);
        if i <= e {
            lemma_find_nul_cut(b, i, pos + 1);
        } else {
            lemma_take_agrees(b, i, e + 1);
            lemma_find_nul_agrees(b, c, pos + 1, e + 1);
            if b[pos] == TYPE_MAP {
                let empty = Seq::<(Seq<u8>, Node)>::empty();
                let inner = parse_items(b, e + 1, empty, (budget - 1) as nat, false);
                let children = inner->Ok_0.0;
                let next = inner->Ok_0.1;
                lemma_parse_advances(b, e + 1, empty, (budget - 1) as nat, false);
                if next <= i {
                    lemma_take_agrees(b, i, next);
                    lemma_parse_stable(b, c, e + 1, empty, (budget - 1) as nat, false);
                    lemma_cut_anywhere(
                        b,
                        i,
                        next,
                        put(acc, key, Node::Nested(children)),
                        budget,
                        top,
                    );
                } else {
                    lemma_cut_anywhere(b, i, e + 1, empty, (budget - 1) as nat, false);
                    if parse_items(c, e + 1, empty, (budget - 1) as nat, false) is Ok {
                        // A nested map that the prefix closes is closed in the
                        // whole buffer at the same place.
                        lemma_parse_advances(c, e + 1, empty, (budget - 1) as nat, false);
                        lemma_parse_stable(c, b, e + 1, empty, (budget - 1) as nat, false);
                    }
                }
            } else if b[pos] == TYPE_STR {
                lemma_find_nul(b, e + 1);
                let e2 = find_nul(b, e + 1)->0;
                if i <= e2 {
                    lemma_find_nul_cut(b, i, e + 1);
                } else {
                    lemma_take_agrees(b, i, e2 + 1);
                    lemma_find_nul_agrees(b, c, e + 1, e2 + 1);
                    lemma_cut_anywhere(
                        b,
                        i,
                        e2 + 1,
                        put(acc, key, Node::Str(b.subrange(e + 1, e2))),
                        budget,
                        top,
                    );
                }
            } else if i >= e + 5 {
                lemma_cut_anywhere(
                    b,
                    i,
                    e + 5,
                    put(acc, key, Node::Int(u32_at(b, e + 1))),
                    budget,
                    top,
                );
            }
        }
    }
}

/// Unknown tag rejection: where the decoder reads a tag, a byte that
/// is none of the four tags makes decoding fail with
/// `InvalidMapItemPrefix` at the position of that byte.
pub proof fn lemma_unknown_tag(b: Seq<u8>, p: int, x: u8)
    requires
        tag_at(b, 0, MAX_DEPTH as nat, p),
        !is_tag(x),
    ensures
        decode_spec(b.update(p, x)) == Err::<Entries, DecodeError>(
            DecodeError::InvalidMapItemPrefix { position: #[verifier::truncate] (p as usize) },
        ),
{
    lemma_tag_at_from(b, 0, MAX_DEPTH as nat, p);
    lemma_bad_tag(b, b.update(p, x), p, 0, Seq::empty(), MAX_DEPTH as nat, true);
}

} // verus!
