//! Shortcut records: harvesting them from the raw bytes of a shortcuts
//! file, and deriving the ids under which Steam knows a shortcut.
//!
//! The scanner does not decode the document. It looks for four keys
//! per record, `appid`, `AppName`, `Exe` and `StartDir`, each together
//! with the tag byte in front of it and the terminator behind it, in any
//! letter case, and reads the value that follows each. Everything else
//! in the buffer is passed over. This rests on one fact about those
//! markers: the tag byte that starts a marker matches none of the bytes
//! that follow it in the marker, so a failed comparison never has to
//! step back.

use crate::wire::{copy_range, find_nul, lemma_find_nul, read_u32, scan_nul, u32_at};
use vstd::prelude::*;
use vstd::utf8::{
    decode_utf8, encode_utf8, encode_utf8_decode_utf8, encode_utf8_valid_utf8, valid_utf8,
};

verus! {

/// The text that `String::from_utf8_lossy` makes of `bytes`.
pub uninterp spec fn utf8_lossy(bytes: Seq<u8>) -> Seq<char>;

/// The text that a run of bytes is read as: the text it encodes where
/// it is valid UTF-8, and otherwise what `String::from_utf8_lossy`
/// makes of it, with each ill-formed part replaced by U+FFFD.
pub open spec fn text_of(run: Seq<u8>) -> Seq<char> {
    if valid_utf8(run) {
        decode_utf8(run)
    } else {
        utf8_lossy(run)
    }
}

/// A run that is the UTF-8 encoding of a text is read as that text.
pub proof fn lemma_text_of_encoded(chars: Seq<char>)
    ensures
        text_of(encode_utf8(chars)) == chars,
{
    encode_utf8_valid_utf8(chars);
    encode_utf8_decode_utf8(chars);
}

/// The CRC-32/ISO-HDLC checksum of `data`.
pub uninterp spec fn crc32_iso_hdlc(data: Seq<u8>) -> u32;

/// `String::from_utf8_lossy`: the text that the bytes spell, with each
/// ill-formed run replaced by U+FFFD. Bytes that are valid UTF-8 give
/// the text they encode.
#[verifier::external_body]
fn lossy_string(bytes: &[u8]) -> (r: String)
    ensures
        r@ == utf8_lossy(bytes@),
        valid_utf8(bytes@) ==> r@ == decode_utf8(bytes@),
{
    String::from_utf8_lossy(bytes).into_owned()
}

/// `crc::Digest::update` and `finalize` on a `crc::Crc<u32>` made for
/// `CRC_32_ISO_HDLC`: feeding two slices one after the other gives the
/// checksum of their concatenation.
#[verifier::external_body]
fn crc32_of_pair(first: &[u8], second: &[u8]) -> (r: u32)
    ensures
        r == crc32_iso_hdlc(first@ + second@),
{
    let algorithm = crc::Crc::<u32>::new(&crc::CRC_32_ISO_HDLC);
    let mut digest = algorithm.digest();
    digest.update(first);
    digest.update(second);
    digest.finalize()
}

/// `std::path::Path::parent`: the path without its final component, or
/// nothing when the path ends in a root or is empty. A parent is what
/// is left of the path when its final component is taken off the end,
/// so it is a proper prefix of the path. Where the final component
/// begins depends on the platform's separators, and is not stated.
#[verifier::external_body]
fn parent_of(path: &str) -> (r: Option<String>)
    ensures
        r is Some ==> r->0@.len() < path@.len() && is_prefix(r->0@, path@),
{
    std::path::Path::new(path).parent().and_then(|p| p.to_str()).map(|s| s.to_string())
}

/// `head` is what `whole` begins with.
pub open spec fn is_prefix(head: Seq<char>, whole: Seq<char>) -> bool {
    head.len() <= whole.len() && whole.subrange(0, head.len() as int) == head
}

/// The mathematical value of a shortcut record.
pub struct ShortcutView {
    pub appid: u32,
    pub app_name: Seq<char>,
    pub executable: Seq<char>,
    pub start_dir: Seq<char>,
}

/// A non-Steam game that was added to the library.
#[derive(Clone, Debug, PartialEq, Eq)]
pub struct Shortcut {
    /// Steam's short (32-bit) app id of this shortcut.
    pub appid: u32,
    /// The name of the application.
    pub app_name: String,
    /// The program that is launched: its name or its full path.
    pub executable: String,
    /// The directory in which the application is run.
    pub start_dir: String,
}

impl View for Shortcut {
    type V = ShortcutView;

    open spec fn view(&self) -> ShortcutView {
        ShortcutView {
            appid: self.appid,
            app_name: self.app_name@,
            executable: self.executable@,
            start_dir: self.start_dir@,
        }
    }
}

/// The values of a run of shortcuts.
pub open spec fn views(v: Seq<Shortcut>) -> Seq<ShortcutView> {
    v.map_values(|s: Shortcut| s@)
}

/// A checksum with the high bit set, which marks an id as that of a
/// shortcut and not of a catalog title.
pub open spec fn shortcut_id_of(checksum: u32) -> u32 {
    checksum | 0x8000_0000u32
}

/// The app id that Steam gives a shortcut with this executable and name.
pub open spec fn app_id_spec(executable: Seq<char>, app_name: Seq<char>) -> u32 {
    shortcut_id_of(crc32_iso_hdlc(encode_utf8(executable) + encode_utf8(app_name)))
}

/// The long (64-bit) id that belongs to a short app id.
pub open spec fn long_id_spec(app_id: u32) -> u64 {
    ((app_id as u64) << 32) | 0x0200_0000u64
}

/// Marks a checksum as the id of a shortcut by setting its high bit.
pub fn shortcut_app_id(checksum: u32) -> (r: u32)
    ensures
        r == shortcut_id_of(checksum),
        r & 0x8000_0000u32 != 0,
{
    let r = checksum | 0x8000_0000u32;
    assert((checksum | 0x8000_0000u32) & 0x8000_0000u32 != 0) by (bit_vector);
    r
}

/// Derives the app id of a shortcut as Steam does when a shortcut is
/// added by hand: the checksum of the executable followed by the name,
/// with the high bit set.
pub fn derive_app_id(executable: &str, app_name: &str) -> (r: u32)
    ensures
        r == app_id_spec(executable@, app_name@),
        r & 0x8000_0000u32 != 0,
{
    shortcut_app_id(crc32_of_pair(executable.as_bytes(), app_name.as_bytes()))
}

/// The long id of `app_id`, as used in `steam://rungameid/...`.
pub fn steam_long_id(app_id: u32) -> (r: u64)
    ensures
        r == long_id_spec(app_id),
{
    ((app_id as u64) << 32) | 0x0200_0000u64
}

impl Shortcut {
    /// Assembles a new shortcut whose id is derived from executable
    /// and name. It starts in `parent` where one is given, and in the
    /// executable's own path where none is.
    pub fn with_parent(app_name: String, executable: String, parent: Option<String>) -> (r:
        Shortcut)
        ensures
            r.appid == app_id_spec(executable@, app_name@),
            r.appid & 0x8000_0000u32 != 0,
            r.app_name@ == app_name@,
            r.executable@ == executable@,
            r.start_dir@ == (match parent {
                Some(p) => p@,
                None => executable@,
            }),
    {
        let appid = derive_app_id(executable.as_str(), app_name.as_str());
        let start_dir = match parent {
            Some(p) => p,
            None => executable.clone(),
        };
        Shortcut { appid, app_name, executable, start_dir }
    }

    /// Creates a shortcut with the given name and executable, with the
    /// app id that Steam would give it. It starts in the directory that
    /// holds the executable: the executable's path without its final
    /// component, as the platform's path rules find it, or the path
    /// itself where it has no parent.
    pub fn new(app_name: String, executable: String) -> (r: Shortcut)
        ensures
            r.appid == app_id_spec(executable@, app_name@),
            r.appid & 0x8000_0000u32 != 0,
            r.app_name@ == app_name@,
            r.executable@ == executable@,
            is_prefix(r.start_dir@, executable@),
    {
        let parent = parent_of(executable.as_str());
        assert(executable@.subrange(0, executable@.len() as int) =~= executable@);
        Shortcut::with_parent(app_name, executable, parent)
    }

    /// The shortcut's long (64-bit) id.
    pub fn steam_id(&self) -> (r: u64)
        ensures
            r == long_id_spec(self.appid),
    {
        steam_long_id(self.appid)
    }
}

/// The lower-case form of an ASCII capital; any other byte unchanged.
pub open spec fn fold(b: u8) -> u8 {
    if 0x41 <= b <= 0x5a {
        (b + 0x20) as u8
    } else {
        b
    }
}

/// The two bytes are equal up to ASCII letter case.
pub open spec fn same_letter(a: u8, b: u8) -> bool {
    fold(a) == fold(b)
}

/// `needle` lies in `b` at `s`: its first byte exactly, the others up
/// to letter case.
pub open spec fn matches_at(b: Seq<u8>, s: int, needle: Seq<u8>) -> bool {
    &&& 0 <= s
    &&& needle.len() > 0
    &&& s + needle.len() <= b.len()
    &&& b[s] == needle[0]
    &&& forall|k: int| 1 <= k < needle.len() ==> same_letter(#[trigger] b[s + k], needle[k])
}

/// The least position at or after `pos` where `needle` lies in `b`.
pub open spec fn first_match(b: Seq<u8>, pos: int, needle: Seq<u8>) -> Option<int>
    decreases b.len() - pos,
{
    if pos < 0 || pos >= b.len() || pos + needle.len() > b.len() {
        None
    } else if matches_at(b, pos, needle) {
        Some(pos)
    } else {
        first_match(b, pos + 1, needle)
    }
}

/// The first byte of `needle` matches none of its other bytes, not
/// even up to letter case.
pub open spec fn leading_byte_unique(needle: Seq<u8>) -> bool {
    forall|k: int| 1 <= k < needle.len() ==> !same_letter(needle[0], #[trigger] needle[k])
}

/// `first_match` finds a match, and no match lies before it.
pub proof fn lemma_first_match(b: Seq<u8>, pos: int, needle: Seq<u8>)
    requires
        0 <= pos,
    ensures
        match first_match(b, pos, needle) {
            Some(s) => pos <= s && s + needle.len() <= b.len() && matches_at(b, s, needle)
                && forall|t: int| pos <= t < s ==> !matches_at(b, t, needle),
            None => forall|t: int| pos <= t ==> !matches_at(b, t, needle),
        },
    decreases b.len() - pos,
{
    if pos < b.len() && pos + needle.len() <= b.len() && !matches_at(b, pos, needle) {
        lemma_first_match(b, pos + 1, needle);
    }
}

/// Positions where the needle does not lie can be passed over.
pub proof fn lemma_skip_no_match(b: Seq<u8>, from: int, to: int, needle: Seq<u8>)
    requires
        0 <= from <= to,
        forall|t: int| from <= t < to ==> !matches_at(b, t, needle),
    ensures
        first_match(b, from, needle) == first_match(b, to, needle),
    decreases to - from,
{
    if from < to && from < b.len() && from + needle.len() <= b.len() {
        lemma_skip_no_match(b, from + 1, to, needle);
    }
}

/// Identity determinism: the same executable and name give the same
/// app id.
pub proof fn lemma_app_id_deterministic(
    executable1: Seq<char>,
    app_name1: Seq<char>,
    executable2: Seq<char>,
    app_name2: Seq<char>,
)
    requires
        executable1 == executable2,
        app_name1 == app_name2,
    ensures
        app_id_spec(executable1, app_name1) == app_id_spec(executable2, app_name2),
{
}

/// Every derived app id has its high bit set.
pub proof fn lemma_app_id_high_bit(executable: Seq<char>, app_name: Seq<char>)
    ensures
        app_id_spec(executable, app_name) & 0x8000_0000u32 != 0,
{
    let checksum = crc32_iso_hdlc(encode_utf8(executable) + encode_utf8(app_name));
    assert((checksum | 0x8000_0000u32) & 0x8000_0000u32 != 0) by (bit_vector);
}

fn fold_byte(b: u8) -> (r: u8)
    ensures
        r == fold(b),
{
    if b >= 0x41 && b <= 0x5a {
        b + 0x20
    } else {
        b
    }
}

/// Whether both bytes are there and equal up to ASCII letter case.
pub fn maybe_u8_eq_ignore_ascii_case(maybe_b1: Option<u8>, maybe_b2: Option<u8>) -> (r: bool)
    ensures
        r == (maybe_b1 is Some && maybe_b2 is Some && same_letter(maybe_b1->0, maybe_b2->0)),
{
    match (maybe_b1, maybe_b2) {
        (Some(b1), Some(b2)) => fold_byte(b1) == fold_byte(b2),
        _ => false,
    }
}

/// Whether the first byte of `needle` matches none of its other bytes,
/// which is what `after_many_case_insensitive` asks of a needle.
pub fn has_unique_leading_byte(needle: &[u8]) -> (r: bool)
    ensures
        r == leading_byte_unique(needle@),
{
    let n = needle.len();
    let mut k: usize = 1;
    while k < n
        invariant
            n == needle@.len(),
            1 <= k,
            forall|t: int| 1 <= t < k && t < n ==> !same_letter(needle@[0], #[trigger] needle@[t]),
        decreases n - k,
    {
        if maybe_u8_eq_ignore_ascii_case(Some(needle[0]), Some(needle[k])) {
            return false;
        }
        k += 1;
    }
    true
}

/// Finds the first place at or after `pos` where `needle` lies in
/// `bytes`, its first byte exactly and the others in any letter case,
/// and returns the position right after it.
///
/// The scan never steps back after a failed comparison. That finds the
/// first match because the first byte of the needle matches none of its
/// other bytes, which the caller has to see to.
pub fn after_many_case_insensitive(bytes: &[u8], pos: usize, needle: &[u8]) -> (r: Option<usize>)
    requires
        leading_byte_unique(needle@),
    ensures
        r == (match first_match(bytes@, pos as int, needle@) {
            Some(s) => Some((s + needle@.len()) as usize),
            None => None,
        }),
        r is Some ==> pos < r->0 <= bytes@.len(),
{
    let n = needle.len();
    let len = bytes.len();
    if n == 0 {
        proof {
            lemma_first_match(bytes@, pos as int, needle@);
        }
        return None;
    }
    let mut i: usize = pos;
    while i < len
        invariant
            pos <= i,
            n == needle@.len(),
            len == bytes@.len(),
            n > 0,
            leading_byte_unique(needle@),
            first_match(bytes@, pos as int, needle@) == first_match(bytes@, i as int, needle@),
        decreases len - i,
    {
        if bytes[i] == needle[0] {
            let s = i;
            let mut j: usize = 1;
            let mut live = true;
            while live && j < n
                invariant
                    n == needle@.len(),
                    len == bytes@.len(),
                    1 <= j <= n,
                    s < len,
                    s + j <= len,
                    forall|k: int| 1 <= k < j ==> same_letter(#[trigger] bytes@[s + k], needle@[k]),
                    !live ==> j < n && (s + j >= len || !same_letter(
                        bytes@[s + j],
                        needle@[j as int],
                    )),
                decreases (n - j) + (if live { 1int } else { 0int }),
            {
                if s + j < len && maybe_u8_eq_ignore_ascii_case(
                    Some(bytes[s + j]),
                    Some(needle[j]),
                ) {
                    j += 1;
                } else {
                    live = false;
                }
            }
            if live {
                proof {
                    assert(matches_at(bytes@, s as int, needle@));
                }
                return Some(s + n);
            }
            proof {
                assert forall|t: int| s <= t < s + j implies !matches_at(bytes@, t, needle@) by {
                    if t == s {
                        if s + n <= len {
                            assert(!same_letter(bytes@[s + j], needle@[j as int]));
                        }
                    } else {
                        let k = t - s;
                        assert(same_letter(bytes@[s + k], needle@[k]));
                        assert(!same_letter(needle@[0], needle@[k]));
                    }
                }
                lemma_skip_no_match(bytes@, s as int, s + j, needle@);
            }
            i = s + j;
        } else {
            proof {
                lemma_skip_no_match(bytes@, i as int, i + 1, needle@);
            }
            i += 1;
        }
    }
    None
}

/// Reads the NUL-terminated text at `pos`: the text that the bytes
/// before the terminator encode, with what is not UTF-8 replaced, and
/// the position after the terminator.
pub fn parse_value_str(bytes: &[u8], pos: usize) -> (r: Option<(String, usize)>)
    ensures
        match find_nul(bytes@, pos as int) {
            Some(e) => match r {
                Some((s, next)) => s@ == text_of(bytes@.subrange(pos as int, e)) && next == e
                    + 1 && pos < next <= bytes@.len(),
                None => false,
            },
            None => r is None,
        },
{
    match scan_nul(bytes, pos) {
        None => None,
        Some(end) => {
            let buff = copy_range(bytes, pos, end);
            let total = bytes.len();
            assert(end < total);
            Some((lossy_string(buff.as_slice()), end + 1))
        },
    }
}

/// Reads the little-endian integer at `pos`: its value and the
/// position after it.
pub fn parse_value_u32(bytes: &[u8], pos: usize) -> (r: Option<(u32, usize)>)
    ensures
        r == (if pos + 4 <= bytes@.len() {
            Some((u32_at(bytes@, pos as int), (pos + 4) as usize))
        } else {
            None
        }),
{
    match read_u32(bytes, pos) {
        Some(x) => {
            let total = bytes.len();
            assert(pos + 4 <= total);
            Some((x, pos + 4))
        },
        None => None,
    }
}

/// The marker of the id: tag of an integer, `appid`, terminator.
pub open spec fn appid_marker() -> Seq<u8> {
    seq![0x02u8, 0x61u8, 0x70u8, 0x70u8, 0x69u8, 0x64u8, 0x00u8]
}

/// The marker of the name: tag of a text, `AppName`, terminator.
pub open spec fn name_marker() -> Seq<u8> {
    seq![0x01u8, 0x41u8, 0x70u8, 0x70u8, 0x4eu8, 0x61u8, 0x6du8, 0x65u8, 0x00u8]
}

/// The marker of the executable: tag of a text, `Exe`, terminator.
pub open spec fn exe_marker() -> Seq<u8> {
    seq![0x01u8, 0x45u8, 0x78u8, 0x65u8, 0x00u8]
}

/// The marker of the start directory: tag of a text, `StartDir`, terminator.
pub open spec fn dir_marker() -> Seq<u8> {
    seq![0x01u8, 0x53u8, 0x74u8, 0x61u8, 0x72u8, 0x74u8, 0x44u8, 0x69u8, 0x72u8, 0x00u8]
}

/// In each of the four markers the tag byte matches no later byte, so
/// the scan for them finds the first match.
pub proof fn lemma_markers_leading_byte_unique()
    ensures
        leading_byte_unique(appid_marker()),
        leading_byte_unique(name_marker()),
        leading_byte_unique(exe_marker()),
        leading_byte_unique(dir_marker()),
{
}

/// The text that follows the first `marker` at or after `pos`, and the
/// position after its terminator.
pub open spec fn text_field(b: Seq<u8>, pos: int, marker: Seq<u8>) -> Option<(Seq<char>, int)> {
    match first_match(b, pos, marker) {
        None => None,
        Some(s) => match find_nul(b, s + marker.len()) {
            None => None,
            Some(e) => Some((text_of(b.subrange(s + marker.len(), e)), e + 1)),
        },
    }
}

/// The record whose id starts at `pos`, right after the id's marker,
/// and the position after the record's last field.
pub open spec fn read_record(b: Seq<u8>, pos: int) -> Option<(ShortcutView, int)> {
    if pos + 4 > b.len() {
        None
    } else {
        match text_field(b, pos + 4, name_marker()) {
            None => None,
            Some((app_name, after_name)) => match text_field(b, after_name, exe_marker()) {
                None => None,
                Some((executable, after_exe)) => match text_field(b, after_exe, dir_marker()) {
                    None => None,
                    Some((start_dir, next)) => Some(
                        (
                            ShortcutView { appid: u32_at(b, pos), app_name, executable, start_dir },
                            next,
                        ),
                    ),
                },
            },
        }
    }
}

/// The complete records found from `pos` on, in the order in which
/// they lie in the buffer, up to the end of the buffer or to the first
/// record that the buffer cuts short.
pub open spec fn scan_records(b: Seq<u8>, pos: int) -> Seq<ShortcutView>
    decreases b.len() - pos,
    via scan_records_decreases
{
    match first_match(b, pos, appid_marker()) {
        None => Seq::empty(),
        Some(s) => match read_record(b, s + appid_marker().len()) {
            None => Seq::empty(),
            Some((record, next)) => seq![record] + scan_records(b, next),
        },
    }
}

/// A text field ends after the position where the search for it began.
pub proof fn lemma_text_field_advances(b: Seq<u8>, pos: int, marker: Seq<u8>)
    requires
        0 <= pos,
    ensures
        match text_field(b, pos, marker) {
            Some((_, next)) => pos < next <= b.len(),
            None => true,
        },
{
    lemma_first_match(b, pos, marker);
    if let Some(s) = first_match(b, pos, marker) {
        lemma_find_nul(b, s + marker.len());
    }
}

/// A record ends after the position where its id began.
pub proof fn lemma_read_record_advances(b: Seq<u8>, pos: int)
    requires
        0 <= pos,
    ensures
        match read_record(b, pos) {
            Some((_, next)) => pos + 4 < next <= b.len(),
            None => true,
        },
{
    if pos + 4 <= b.len() {
        lemma_text_field_advances(b, pos + 4, name_marker());
        if let Some((_, after_name)) = text_field(b, pos + 4, name_marker()) {
            lemma_text_field_advances(b, after_name, exe_marker());
            if let Some((_, after_exe)) = text_field(b, after_name, exe_marker()) {
                lemma_text_field_advances(b, after_exe, dir_marker());
            }
        }
    }
}

#[via_fn]
proof fn scan_records_decreases(b: Seq<u8>, pos: int) {
    if pos >= 0 {
        lemma_first_match(b, pos, appid_marker());
        if let Some(s) = first_match(b, pos, appid_marker()) {
            lemma_read_record_advances(b, s + appid_marker().len());
        }
    }
}

/// The marker of the id, as bytes.
pub fn appid_marker_bytes() -> (r: Vec<u8>)
    ensures
        r@ == appid_marker(),
{
    let r = vec![0x02u8, 0x61u8, 0x70u8, 0x70u8, 0x69u8, 0x64u8, 0x00u8];
    assert(r@ =~= appid_marker());
    r
}

/// The marker of the name, as bytes.
pub fn name_marker_bytes() -> (r: Vec<u8>)
    ensures
        r@ == name_marker(),
{
    let r = vec![0x01u8, 0x41u8, 0x70u8, 0x70u8, 0x4eu8, 0x61u8, 0x6du8, 0x65u8, 0x00u8];
    assert(r@ =~= name_marker());
    r
}

/// The marker of the executable, as bytes.
pub fn exe_marker_bytes() -> (r: Vec<u8>)
    ensures
        r@ == exe_marker(),
{
    let r = vec![0x01u8, 0x45u8, 0x78u8, 0x65u8, 0x00u8];
    assert(r@ =~= exe_marker());
    r
}

/// The marker of the start directory, as bytes.
pub fn dir_marker_bytes() -> (r: Vec<u8>)
    ensures
        r@ == dir_marker(),
{
    let r = vec![0x01u8, 0x53u8, 0x74u8, 0x61u8, 0x72u8, 0x74u8, 0x44u8, 0x69u8, 0x72u8, 0x00u8];
    assert(r@ =~= dir_marker());
    r
}

/// Reads the text behind the first `marker` at or after `pos`.
fn read_text_field(bytes: &[u8], pos: usize, marker: &[u8]) -> (r: Option<(String, usize)>)
    requires
        leading_byte_unique(marker@),
    ensures
        match text_field(bytes@, pos as int, marker@) {
            Some((text, next)) => match r {
                Some((s, n)) => s@ == text && n == next && pos < n <= bytes@.len(),
                None => false,
            },
            None => r is None,
        },
{
    let total = bytes.len();
    match after_many_case_insensitive(bytes, pos, marker) {
        None => None,
        Some(start) => {
            proof {
                lemma_first_match(bytes@, pos as int, marker@);
                let s = first_match(bytes@, pos as int, marker@)->0;
                assert(start as int == s + marker@.len());
                lemma_find_nul(bytes@, start as int);
            }
            parse_value_str(bytes, start)
        },
    }
}

/// The number of places at or after `pos` where `needle` lies in `b`.
pub open spec fn count_matches(b: Seq<u8>, pos: int, needle: Seq<u8>) -> nat
    decreases b.len() - pos,
{
    if pos < 0 || pos >= b.len() {
        0
    } else if matches_at(b, pos, needle) {
        1 + count_matches(b, pos + 1, needle)
    } else {
        count_matches(b, pos + 1, needle)
    }
}

proof fn lemma_count_matches_monotone(b: Seq<u8>, from: int, to: int, needle: Seq<u8>)
    requires
        0 <= from <= to,
    ensures
        count_matches(b, to, needle) <= count_matches(b, from, needle),
    decreases to - from,
{
    if from < to {
        lemma_count_matches_monotone(b, from + 1, to, needle);
    }
}

/// The scan finds at most one record for each place where the marker
/// of the id lies in the buffer.
pub proof fn lemma_record_count(b: Seq<u8>, pos: int)
    requires
        0 <= pos,
    ensures
        scan_records(b, pos).len() <= count_matches(b, pos, appid_marker()),
    decreases b.len() - pos,
{
    lemma_first_match(b, pos, appid_marker());
    if let Some(s) = first_match(b, pos, appid_marker()) {
        lemma_read_record_advances(b, s + appid_marker().len());
        if let Some((_, next)) = read_record(b, s + appid_marker().len()) {
            lemma_record_count(b, next);
            lemma_count_matches_monotone(b, pos, s, appid_marker());
            lemma_count_matches_monotone(b, s + 1, next, appid_marker());
        }
    }
}

/// Harvests the shortcut records of a shortcuts file and never fails:
/// the complete records in the order in which they lie in the buffer,
/// up to the first one that the buffer cuts short. A record that is
/// cut short is left out, and so is whatever follows it.
pub fn extract_shortcuts(contents: &[u8]) -> (r: Vec<Shortcut>)
    ensures
        views(r@) == scan_records(contents@, 0),
{
    let appid_key = appid_marker_bytes();
    let name_key = name_marker_bytes();
    let exe_key = exe_marker_bytes();
    let dir_key = dir_marker_bytes();
    proof {
        lemma_markers_leading_byte_unique();
    }
    let total = contents.len();
    let mut shortcuts: Vec<Shortcut> = Vec::new();
    let mut pos: usize = 0;
    assert(views(shortcuts@) =~= Seq::<ShortcutView>::empty());
    loop
        invariant
            pos <= contents@.len(),
            total == contents@.len(),
            appid_key@ == appid_marker(),
            name_key@ == name_marker(),
            exe_key@ == exe_marker(),
            dir_key@ == dir_marker(),
            leading_byte_unique(appid_marker()),
            leading_byte_unique(name_marker()),
            leading_byte_unique(exe_marker()),
            leading_byte_unique(dir_marker()),
            scan_records(contents@, 0) == views(shortcuts@) + scan_records(contents@, pos as int),
        decreases contents@.len() - pos,
    {
        let ghost here = pos as int;
        let after_key = match after_many_case_insensitive(contents, pos, appid_key.as_slice()) {
            Some(p) => p,
            None => {
                assert(views(shortcuts@) + Seq::<ShortcutView>::empty() =~= views(shortcuts@));
                return shortcuts;
            },
        };
        proof {
            lemma_first_match(contents@, here, appid_marker());
            let s = first_match(contents@, here, appid_marker())->0;
            assert(after_key as int == s + appid_marker().len());
            lemma_read_record_advances(contents@, after_key as int);
        }
        let (appid, after_id) = match parse_value_u32(contents, after_key) {
            Some(found) => found,
            None => {
                assert(views(shortcuts@) + Seq::<ShortcutView>::empty() =~= views(shortcuts@));
                return shortcuts;
            },
        };
        let (app_name, after_name) = match read_text_field(contents, after_id, name_key.as_slice()) {
            Some(found) => found,
            None => {
                assert(views(shortcuts@) + Seq::<ShortcutView>::empty() =~= views(shortcuts@));
                return shortcuts;
            },
        };
        let (executable, after_exe) = match read_text_field(
            contents,
            after_name,
            exe_key.as_slice(),
        ) {
            Some(found) => found,
            None => {
                assert(views(shortcuts@) + Seq::<ShortcutView>::empty() =~= views(shortcuts@));
                return shortcuts;
            },
        };
        let (start_dir, next) = match read_text_field(contents, after_exe, dir_key.as_slice()) {
            Some(found) => found,
            None => {
                assert(views(shortcuts@) + Seq::<ShortcutView>::empty() =~= views(shortcuts@));
                return shortcuts;
            },
        };
        let shortcut = Shortcut { appid, app_name, executable, start_dir };
        let ghost before = shortcuts@;
        let ghost rest = scan_records(contents@, next as int);
        shortcuts.push(shortcut);
        proof {
            assert(views(shortcuts@) =~= views(before) + seq![shortcut@]);
            assert(views(shortcuts@) + rest =~= views(before) + (seq![shortcut@] + rest));
        }
        pos = next;
    }
}

/// Harvests the shortcut records of a shortcuts file: always the
/// records that `extract_shortcuts` finds, the complete ones up to the
/// first that the buffer cuts short.
pub fn parse_shortcuts(contents: &[u8]) -> (r: Option<Vec<Shortcut>>)
    ensures
        r is Some,
        views(r->0@) == scan_records(contents@, 0),
{
    Some(extract_shortcuts(contents))
}

} // verus!
