//! The law that the scanner finds keys in any letter case: changing
//! the case of letters outside the values changes no record.

use crate::shortcut::{
    appid_marker, dir_marker, exe_marker, first_match, lemma_first_match,
    lemma_read_record_advances, lemma_text_field_advances, matches_at, name_marker, read_record,
    same_letter, scan_records, text_field,
};
use crate::wire::{find_nul, lemma_find_nul, u32_at};
use vstd::prelude::*;

verus! {

/// The byte is an ASCII letter.
pub open spec fn is_letter(x: u8) -> bool {
    0x41 <= x <= 0x5a || 0x61 <= x <= 0x7a
}

/// The two buffers are equally long and agree byte by byte up to
/// ASCII letter case.
pub open spec fn same_up_to_case(b: Seq<u8>, c: Seq<u8>) -> bool {
    &&& b.len() == c.len()
    &&& forall|j: int| 0 <= j < b.len() ==> same_letter(#[trigger] b[j], c[j])
}

/// The byte at `j` belongs to the text that follows the first
/// `marker` at or after `pos`.
pub open spec fn text_value_at(b: Seq<u8>, pos: int, marker: Seq<u8>, j: int) -> bool {
    match first_match(b, pos, marker) {
        None => false,
        Some(s) => match find_nul(b, s + marker.len()) {
            None => false,
            Some(e) => s + marker.len() <= j < e,
        },
    }
}

/// The byte at `j` belongs to a value of the record whose id starts at
/// `pos`: to the four bytes of the id, or to the name, the executable
/// or the start directory.
pub open spec fn record_value_at(b: Seq<u8>, pos: int, j: int) -> bool {
    pos + 4 <= b.len() && (pos <= j < pos + 4 || text_value_at(b, pos + 4, name_marker(), j)
        || match text_field(b, pos + 4, name_marker()) {
        None => false,
        Some((_, after_name)) => text_value_at(b, after_name, exe_marker(), j) || match text_field(
            b,
            after_name,
            exe_marker(),
        ) {
            None => false,
            Some((_, after_exe)) => text_value_at(b, after_exe, dir_marker(), j),
        },
    })
}

/// The scan from `pos` on reads the byte at `j` as part of a value.
pub open spec fn value_at(b: Seq<u8>, pos: int, j: int) -> bool
    decreases b.len() - pos,
    via value_at_decreases
{
    match first_match(b, pos, appid_marker()) {
        None => false,
        Some(s) => record_value_at(b, s + appid_marker().len(), j) || match read_record(
            b,
            s + appid_marker().len(),
        ) {
            None => false,
            Some((_, next)) => value_at(b, next, j),
        },
    }
}

#[via_fn]
proof fn value_at_decreases(b: Seq<u8>, pos: int, j: int) {
    if pos >= 0 {
        lemma_first_match(b, pos, appid_marker());
        if let Some(s) = first_match(b, pos, appid_marker()) {
            lemma_read_record_advances(b, s + appid_marker().len());
        }
    }
}

/// A marker whose tag byte is no letter lies at the same places in two
/// buffers that agree up to letter case.
pub proof fn lemma_match_ignores_case(b: Seq<u8>, c: Seq<u8>, s: int, needle: Seq<u8>)
    requires
        same_up_to_case(b, c),
        needle.len() > 0 ==> !is_letter(needle[0]),
    ensures
        matches_at(b, s, needle) == matches_at(c, s, needle),
{
    if 0 <= s && needle.len() > 0 && s + needle.len() <= b.len() {
        assert(same_letter(b[s], c[s]));
        if matches_at(b, s, needle) {
            assert forall|k: int| 1 <= k < needle.len() implies same_letter(
                #[trigger] c[s + k],
                needle[k],
            ) by {
                assert(same_letter(b[s + k], needle[k]));
                assert(same_letter(b[s + k], c[s + k]));
            }
        }
        if matches_at(c, s, needle) {
            assert forall|k: int| 1 <= k < needle.len() implies same_letter(
                #[trigger] b[s + k],
                needle[k],
            ) by {
                assert(same_letter(c[s + k], needle[k]));
                assert(same_letter(b[s + k], c[s + k]));
            }
        }
    }
}

proof fn lemma_first_match_ignores_case(b: Seq<u8>, c: Seq<u8>, pos: int, needle: Seq<u8>)
    requires
        same_up_to_case(b, c),
        needle.len() > 0 ==> !is_letter(needle[0]),
    ensures
        first_match(b, pos, needle) == first_match(c, pos, needle),
    decreases b.len() - pos,
{
    if 0 <= pos < b.len() && pos + needle.len() <= b.len() {
        lemma_match_ignores_case(b, c, pos, needle);
        if !matches_at(b, pos, needle) {
            lemma_first_match_ignores_case(b, c, pos + 1, needle);
        }
    }
}

proof fn lemma_find_nul_ignores_case(b: Seq<u8>, c: Seq<u8>, pos: int)
    requires
        same_up_to_case(b, c),
    ensures
        find_nul(b, pos) == find_nul(c, pos),
    decreases b.len() - pos,
{
    if 0 <= pos < b.len() {
        assert(same_letter(b[pos], c[pos]));
        if b[pos] != 0 {
            lemma_find_nul_ignores_case(b, c, pos + 1);
        }
    }
}

proof fn lemma_text_field_ignores_case(b: Seq<u8>, c: Seq<u8>, pos: int, marker: Seq<u8>)
    requires
        0 <= pos,
        same_up_to_case(b, c),
        marker.len() > 0 ==> !is_letter(marker[0]),
        forall|j: int| text_value_at(b, pos, marker, j) ==> b[j] == c[j],
    ensures
        text_field(b, pos, marker) == text_field(c, pos, marker),
{
    lemma_first_match_ignores_case(b, c, pos, marker);
    lemma_first_match(b, pos, marker);
    if let Some(s) = first_match(b, pos, marker) {
        let p = s + marker.len();
        lemma_find_nul_ignores_case(b, c, p);
        lemma_find_nul(b, p);
        if let Some(e) = find_nul(b, p) {
            assert forall|i: int| 0 <= i < e - p implies b.subrange(p, e)[i] == c.subrange(
                p,
                e,
            )[i] by {
                assert(text_value_at(b, pos, marker, p + i));
            }
            assert(b.subrange(p, e) =~= c.subrange(p, e));
        }
    }
}

proof fn lemma_read_record_ignores_case(b: Seq<u8>, c: Seq<u8>, pos: int)
    requires
        0 <= pos,
        same_up_to_case(b, c),
        forall|j: int| record_value_at(b, pos, j) ==> b[j] == c[j],
    ensures
        read_record(b, pos) == read_record(c, pos),
{
    if pos + 4 <= b.len() {
        assert(record_value_at(b, pos, pos));
        assert(record_value_at(b, pos, pos + 1));
        assert(record_value_at(b, pos, pos + 2));
        assert(record_value_at(b, pos, pos + 3));
        assert(u32_at(b, pos) == u32_at(c, pos));
        assert forall|j: int| text_value_at(b, pos + 4, name_marker(), j) implies b[j]
            == c[j] by {
            assert(record_value_at(b, pos, j));
        }
        lemma_text_field_ignores_case(b, c, pos + 4, name_marker());
        lemma_text_field_advances(b, pos + 4, name_marker());
        if let Some((_, after_name)) = text_field(b, pos + 4, name_marker()) {
            assert forall|j: int| text_value_at(b, after_name, exe_marker(), j) implies b[j]
                == c[j] by {
                assert(record_value_at(b, pos, j));
            }
            lemma_text_field_ignores_case(b, c, after_name, exe_marker());
            lemma_text_field_advances(b, after_name, exe_marker());
            if let Some((_, after_exe)) = text_field(b, after_name, exe_marker()) {
                assert forall|j: int| text_value_at(b, after_exe, dir_marker(), j) implies b[j]
                    == c[j] by {
                    assert(record_value_at(b, pos, j));
                }
                lemma_text_field_ignores_case(b, c, after_exe, dir_marker());
            }
        }
    }
}

proof fn lemma_scan_ignores_case_from(b: Seq<u8>, c: Seq<u8>, pos: int)
    requires
        0 <= pos,
        same_up_to_case(b, c),
        forall|j: int| value_at(b, pos, j) ==> b[j] == c[j],
    ensures
        scan_records(b, pos) == scan_records(c, pos),
    decreases b.len() - pos,
{
    lemma_first_match_ignores_case(b, c, pos, appid_marker());
    lemma_first_match(b, pos, appid_marker());
    if let Some(s) = first_match(b, pos, appid_marker()) {
        let p = s + appid_marker().len();
        assert forall|j: int| record_value_at(b, p, j) implies b[j] == c[j] by {
            assert(value_at(b, pos, j));
        }
        lemma_read_record_ignores_case(b, c, p);
        lemma_read_record_advances(b, p);
        if let Some((_, next)) = read_record(b, p) {
            assert forall|j: int| value_at(b, next, j) implies b[j] == c[j] by {
                assert(value_at(b, pos, j));
            }
            lemma_scan_ignores_case_from(b, c, next);
        }
    }
}

/// Case-insensitive keys: two buffers that agree up to letter case,
/// and exactly in every byte that the scan reads as part of a value,
/// hold the same records. The keys, and whatever else the scan passes
/// over, may be written in any letter case.
pub proof fn lemma_scan_ignores_key_case(b: Seq<u8>, c: Seq<u8>)
    requires
        same_up_to_case(b, c),
        forall|j: int| value_at(b, 0, j) ==> b[j] == c[j],
    ensures
        scan_records(b, 0) == scan_records(c, 0),
{
    lemma_scan_ignores_case_from(b, c, 0);
}

} // verus!
