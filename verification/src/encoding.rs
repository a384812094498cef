//! Byte → text sanitization.
//!
//! Forensic inputs are messy: mixed UTF-8 / Windows-1252, stray NUL bytes,
//! physical corruption. These helpers always produce valid text and never
//! panic.

use vstd::prelude::*;
use vstd::utf8::{decode_utf8, valid_utf8};
use crate::scan::find_byte;

verus! {

/// The text `encoding_rs::WINDOWS_1252.decode` produces for `bytes` (with the
/// crate's byte-order-mark sniffing).
pub uninterp spec fn windows_1252_decode(bytes: Seq<u8>) -> Seq<char>;

/// `encoding_rs::WINDOWS_1252.decode`: decodes `bytes` as Windows-1252 (after
/// byte-order-mark sniffing), returning an owned string.
#[verifier::external_body]
fn decode_windows_1252(bytes: &[u8]) -> (res: String)
    ensures
        res@ == windows_1252_decode(bytes@),
{
    encoding_rs::WINDOWS_1252.decode(bytes).0.into_owned()
}

/// `std::str::from_utf8`: the text `bytes` encode when they are valid UTF-8.
#[verifier::external_body]
fn utf8_text(bytes: &[u8]) -> (res: Option<&str>)
    ensures
        res is Some <==> valid_utf8(bytes@),
        res matches Some(s) ==> s@ == decode_utf8(bytes@),
{
    std::str::from_utf8(bytes).ok()
}

/// `b` with ASCII upper-case letters mapped to lower case.
pub open spec fn ascii_lower(b: u8) -> u8 {
    if 65 <= b <= 90 {
        (b + 32) as u8
    } else {
        b
    }
}

/// `needle` occurs in `haystack` at `i` when the haystack bytes there,
/// ASCII-lower-cased, equal the needle bytes.
pub open spec fn folded_match_at(haystack: Seq<u8>, needle: Seq<u8>, i: int) -> bool {
    &&& 0 <= i
    &&& i + needle.len() <= haystack.len()
    &&& forall|k: int| 0 <= k < needle.len() ==> ascii_lower(#[trigger] haystack[i + k]) == needle[k]
}

/// `needle` occurs somewhere in `haystack`, ASCII case folded on the haystack
/// side.
pub open spec fn folded_contains(haystack: Seq<u8>, needle: Seq<u8>) -> bool {
    exists|i: int| folded_match_at(haystack, needle, i)
}

/// `bytes` with every NUL byte removed.
pub open spec fn without_nuls(bytes: Seq<u8>) -> Seq<u8>
    decreases bytes.len(),
{
    if bytes.len() == 0 {
        seq![]
    } else if bytes.last() == 0u8 {
        without_nuls(bytes.drop_last())
    } else {
        without_nuls(bytes.drop_last()).push(bytes.last())
    }
}

/// The text shown for `bytes`: NULs are dropped, then valid UTF-8 is decoded
/// as such and anything else as Windows-1252.
pub open spec fn sanitized(bytes: Seq<u8>) -> Seq<char> {
    let cleaned = without_nuls(bytes);
    if valid_utf8(cleaned) {
        decode_utf8(cleaned)
    } else {
        windows_1252_decode(cleaned)
    }
}

/// ASCII lower case of one byte.
pub fn to_ascii_lower(b: u8) -> (res: u8)
    ensures
        res == ascii_lower(b),
{
    if 65 <= b && b <= 90 {
        b + 32
    } else {
        b
    }
}

/// Decode an arbitrary byte slice into a sanitized owned `String`: NUL bytes
/// are stripped; valid UTF-8 is decoded as UTF-8, anything else as
/// Windows-1252, which maps every byte to a defined code point.
pub fn sanitize(bytes: &[u8]) -> (res: String)
    ensures
        res@ == sanitized(bytes@),
{
    match strip_nuls(bytes) {
        Some(cleaned) => decode_text(cleaned.as_slice()),
        None => {
            proof {
                lemma_without_nuls_identity(bytes@);
            }
            decode_text(bytes)
        },
    }
}

/// Decode NUL-free bytes.
fn decode_text(cleaned: &[u8]) -> (res: String)
    ensures
        res@ == if valid_utf8(cleaned@) {
            decode_utf8(cleaned@)
        } else {
            windows_1252_decode(cleaned@)
        },
{
    match utf8_text(cleaned) {
        Some(s) => s.to_owned(),
        None => decode_windows_1252(cleaned),
    }
}

/// `None` when `bytes` holds no NUL byte (so it can be used as is); otherwise
/// a copy with the NULs removed.
fn strip_nuls(bytes: &[u8]) -> (res: Option<Vec<u8>>)
    ensures
        res is None ==> forall|j: int| 0 <= j < bytes@.len() ==> bytes@[j] != 0u8,
        res matches Some(v) ==> v@ == without_nuls(bytes@),
{
    if find_byte(0, bytes).is_none() {
        return None;
    }
    let mut out: Vec<u8> = Vec::new();
    let mut i: usize = 0;
    while i < bytes.len()
        invariant
            i <= bytes@.len(),
            out@ == without_nuls(bytes@.subrange(0, i as int)),
        decreases bytes@.len() - i,
    {
        proof {
            assert(bytes@.subrange(0, i + 1).drop_last() =~= bytes@.subrange(0, i as int));
        }
        if bytes[i] != 0 {
            out.push(bytes[i]);
        }
        i += 1;
    }
    proof {
        assert(bytes@.subrange(0, bytes@.len() as int) =~= bytes@);
    }
    Some(out)
}

/// Clean text passes through: NUL-free valid UTF-8 is shown exactly as it
/// decodes.
pub proof fn law_clean_utf8_passes_through(bytes: Seq<u8>)
    requires
        valid_utf8(bytes),
        forall|j: int| 0 <= j < bytes.len() ==> bytes[j] != 0u8,
    ensures
        sanitized(bytes) == decode_utf8(bytes),
{
    lemma_without_nuls_identity(bytes);
}

proof fn lemma_without_nuls_identity(s: Seq<u8>)
    requires
        forall|j: int| 0 <= j < s.len() ==> s[j] != 0u8,
    ensures
        without_nuls(s) == s,
    decreases s.len(),
{
    if s.len() > 0 {
        lemma_without_nuls_identity(s.drop_last());
        assert(s.drop_last().push(s.last()) =~= s);
    }
}

/// ASCII-case-insensitive substring search over raw bytes.
///
/// `needle` is expected pre-lowercased; the haystack is folded on the fly.
/// Non-ASCII bytes are compared verbatim. An empty needle always matches.
pub fn ascii_icontains(haystack: &[u8], needle: &[u8]) -> (res: bool)
    ensures
        res == folded_contains(haystack@, needle@),
{
    if needle.len() == 0 {
        assert(folded_match_at(haystack@, needle@, 0));
        return true;
    }
    if needle.len() > haystack.len() {
        return false;
    }
    let first = needle[0];
    let last_start = haystack.len() - needle.len();
    let mut i: usize = 0;
    while i <= last_start
        invariant
            needle@.len() >= 1,
            last_start == haystack@.len() - needle@.len(),
            first == needle@[0],
            i <= last_start + 1,
            forall|j: int| 0 <= j < i ==> !folded_match_at(haystack@, needle@, j),
        decreases last_start + 1 - i,
    {
        if to_ascii_lower(haystack[i]) == first {
            let mut k: usize = 1;
            let mut all = true;
            while k < needle.len()
                invariant
                    1 <= k <= needle@.len(),
                    i + needle@.len() <= haystack@.len(),
                    haystack@.len() == haystack.len(),
                    all ==> forall|m: int| 0 <= m < k ==> ascii_lower(#[trigger] haystack@[i + m]) == needle@[m],
                    !all ==> !folded_match_at(haystack@, needle@, i as int),
                    ascii_lower(haystack@[i as int]) == needle@[0],
                decreases needle@.len() - k,
            {
                if all && to_ascii_lower(haystack[i + k]) != needle[k] {
                    all = false;
                }
                k += 1;
            }
            if all {
                assert(folded_match_at(haystack@, needle@, i as int));
                return true;
            }
        } else {
            assert(!folded_match_at(haystack@, needle@, i as int)) by {
                assert(ascii_lower(haystack@[i + 0]) != needle@[0]);
            }
        }
        i += 1;
    }
    proof {
        assert forall|j: int| !folded_match_at(haystack@, needle@, j) by {
            if 0 <= j && j + needle@.len() <= haystack@.len() {
                assert(j < i);
            }
        }
    }
    false
}

} // verus!
