//! Byte-level primitives shared by the strict codec and the tolerant
//! shortcut scanner: NUL-terminated runs and little-endian integers.

use vstd::prelude::*;

verus! {

/// Tag byte of an entry whose value is a nested map.
pub const TYPE_MAP: u8 = 0x00;

/// Tag byte of an entry whose value is text.
pub const TYPE_STR: u8 = 0x01;

/// Tag byte of an entry whose value is a 32-bit integer.
pub const TYPE_INT: u8 = 0x02;

/// Sentinel byte that closes a map.
pub const TYPE_END: u8 = 0x08;

/// No byte of `s` is zero.
pub open spec fn nul_free(s: Seq<u8>) -> bool {
    forall|i: int| 0 <= i < s.len() ==> s[i] != 0
}

/// Position of the first zero byte at or after `pos`, if there is one.
pub open spec fn find_nul(b: Seq<u8>, pos: int) -> Option<int>
    decreases b.len() - pos,
{
    if pos < 0 || pos >= b.len() {
        None
    } else if b[pos] == 0 {
        Some(pos)
    } else {
        find_nul(b, pos + 1)
    }
}

/// The value of four bytes read as a little-endian integer.
pub open spec fn le_u32(b0: u8, b1: u8, b2: u8, b3: u8) -> u32 {
    (b0 as u32) | ((b1 as u32) << 8) | ((b2 as u32) << 16) | ((b3 as u32) << 24)
}

/// The little-endian integer held in the four bytes that start at `pos`.
pub open spec fn u32_at(b: Seq<u8>, pos: int) -> u32 {
    le_u32(b[pos], b[pos + 1], b[pos + 2], b[pos + 3])
}

/// The four bytes of `x`, least significant first.
pub open spec fn le_bytes(x: u32) -> Seq<u8> {
    seq![
        (x & 0xff) as u8,
        ((x >> 8) & 0xff) as u8,
        ((x >> 16) & 0xff) as u8,
        ((x >> 24) & 0xff) as u8,
    ]
}

/// `find_nul` returns the least position of a zero byte, and nothing
/// when the rest of the buffer holds none.
pub proof fn lemma_find_nul(b: Seq<u8>, pos: int)
    requires
        0 <= pos,
    ensures
        match find_nul(b, pos) {
            Some(e) => pos <= e < b.len() && b[e] == 0 && nul_free(b.subrange(pos, e)),
            None => forall|j: int| pos <= j < b.len() ==> b[j] != 0,
        },
    decreases b.len() - pos,
{
    if pos < b.len() && b[pos] != 0 {
        lemma_find_nul(b, pos + 1);
        if let Some(e) = find_nul(b, pos) {
            let head = b.subrange(pos, e);
            let tail = b.subrange(pos + 1, e);
            assert forall|i: int| 0 <= i < head.len() implies head[i] != 0 by {
                if i > 0 {
                    assert(head[i] == tail[i - 1]);
                }
            }
        }
    }
}

/// A zero byte at `e` with none before it is what `find_nul` finds.
pub proof fn lemma_find_nul_is(b: Seq<u8>, pos: int, e: int)
    requires
        0 <= pos <= e < b.len(),
        b[e] == 0,
        forall|j: int| pos <= j < e ==> b[j] != 0,
    ensures
        find_nul(b, pos) == Some(e),
    decreases e - pos,
{
    if pos < e {
        lemma_find_nul_is(b, pos + 1, e);
    }
}

/// Reading and writing an integer are inverse to each other.
pub proof fn lemma_le_round_trip(x: u32)
    ensures
        le_bytes(x).len() == 4,
        u32_at(le_bytes(x), 0) == x,
{
    let s = le_bytes(x);
    assert(le_u32(
        (x & 0xff) as u8,
        ((x >> 8) & 0xff) as u8,
        ((x >> 16) & 0xff) as u8,
        ((x >> 24) & 0xff) as u8,
    ) == x) by (bit_vector);
}

/// Finds the terminator of the NUL-terminated run that starts at `pos`.
pub fn scan_nul(bytes: &[u8], pos: usize) -> (r: Option<usize>)
    ensures
        match r {
            Some(e) => find_nul(bytes@, pos as int) == Some(e as int) && pos <= e < bytes@.len(),
            None => find_nul(bytes@, pos as int) is None,
        },
{
    let mut i: usize = pos;
    while i < bytes.len()
        invariant
            pos <= i,
            find_nul(bytes@, pos as int) == find_nul(bytes@, i as int),
        decreases bytes.len() - i,
    {
        if bytes[i] == 0 {
            return Some(i);
        }
        i += 1;
    }
    None
}

/// Copies the bytes from `from` up to, not including, `to`.
pub fn copy_range(bytes: &[u8], from: usize, to: usize) -> (r: Vec<u8>)
    requires
        from <= to <= bytes@.len(),
    ensures
        r@ == bytes@.subrange(from as int, to as int),
{
    let mut out: Vec<u8> = Vec::new();
    let mut i: usize = from;
    while i < to
        invariant
            from <= i <= to <= bytes@.len(),
            out@ == bytes@.subrange(from as int, i as int),
        decreases to - i,
    {
        out.push(bytes[i]);
        i += 1;
        assert(out@ =~= bytes@.subrange(from as int, i as int));
    }
    assert(out@ =~= bytes@.subrange(from as int, to as int));
    out
}

/// Reads the little-endian integer at `pos`, if four bytes are left there.
pub fn read_u32(bytes: &[u8], pos: usize) -> (r: Option<u32>)
    ensures
        r == (if pos + 4 <= bytes@.len() {
            Some(u32_at(bytes@, pos as int))
        } else {
            None
        }),
{
    if bytes.len() < 4 || pos > bytes.len() - 4 {
        return None;
    }
    let b0: u8 = bytes[pos];
    let b1: u8 = bytes[pos + 1];
    let b2: u8 = bytes[pos + 2];
    let b3: u8 = bytes[pos + 3];
    Some((b0 as u32) | ((b1 as u32) << 8) | ((b2 as u32) << 16) | ((b3 as u32) << 24))
}

/// Appends the four little-endian bytes of `x` to `out`.
pub fn push_u32(out: &mut Vec<u8>, x: u32)
    ensures
        final(out)@ == old(out)@ + le_bytes(x),
{
    out.push((x & 0xff) as u8);
    out.push(((x >> 8) & 0xff) as u8);
    out.push(((x >> 16) & 0xff) as u8);
    out.push(((x >> 24) & 0xff) as u8);
    assert(out@ =~= old(out)@ + le_bytes(x));
}

/// Appends the bytes from `from` up to, not including, `to`.
pub fn push_range(out: &mut Vec<u8>, bytes: &[u8], from: usize, to: usize)
    requires
        from <= to <= bytes@.len(),
    ensures
        final(out)@ == old(out)@ + bytes@.subrange(from as int, to as int),
{
    let mut i: usize = from;
    while i < to
        invariant
            from <= i <= to <= bytes@.len(),
            out@ == old(out)@ + bytes@.subrange(from as int, i as int),
        decreases to - i,
    {
        out.push(bytes[i]);
        i += 1;
        assert(out@ =~= old(out)@ + bytes@.subrange(from as int, i as int));
    }
    assert(out@ =~= old(out)@ + bytes@.subrange(from as int, to as int));
}

} // verus!
