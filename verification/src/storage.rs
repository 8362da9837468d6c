//! The storage-access safety layer: filename normalization and the file
//! extension allow-list.
//!
//! Every name a client supplies is reduced to its final path segment and
//! trimmed, so the result can never name anything outside the flat storage
//! directory; it is then held against a fixed set of permitted extensions
//! before any file is touched.  The file reads and writes themselves are
//! plain I/O and live outside the library; they are given only names that
//! passed [`validate_filename`].

use crate::text::{
    ends_with, ends_with_bytes, is_ws, last_index_of, lemma_last_index_of, tail_after_last, trim,
    trim_bytes, trim_end, trim_start, SLASH,
};
use vstd::prelude::*;
use vstd::utf8::encode_utf8;

verus! {

/// Why a storage operation was refused: a filename outside the allow-list,
/// or a failure of the disk itself.
#[derive(Clone, Copy, Debug, PartialEq, Eq, Structural)]
pub enum StorageError {
    InvalidName,
    Io,
}

/// The final `/`-separated segment of a raw path.
pub open spec fn spec_last_segment(s: Seq<u8>) -> Seq<u8> {
    match last_index_of(s, SLASH) {
        Option::Some(i) => s.skip(i + 1),
        Option::None => s,
    }
}

/// A raw path reduced to its final segment, trimmed of surrounding ASCII
/// whitespace: the only form of name under which a file is ever stored or
/// served.
pub open spec fn spec_normalize(s: Seq<u8>) -> Seq<u8> {
    trim_bytes(spec_last_segment(s))
}

/// Whether a normalized name ends in one of the permitted extensions.
pub open spec fn spec_allowed(s: Seq<u8>) -> bool {
    ||| ends_with_bytes(s, encode_utf8("jpg"@))
    ||| ends_with_bytes(s, encode_utf8("jpeg"@))
    ||| ends_with_bytes(s, encode_utf8("png"@))
    ||| ends_with_bytes(s, encode_utf8("svg"@))
    ||| ends_with_bytes(s, encode_utf8("html"@))
    ||| ends_with_bytes(s, encode_utf8("js"@))
    ||| ends_with_bytes(s, encode_utf8("css"@))
}

proof fn lemma_trim_start_keeps_absent(s: Seq<u8>, b: u8)
    requires
        forall|i: int| 0 <= i < s.len() ==> s[i] != b,
    ensures
        forall|i: int| 0 <= i < trim_start(s).len() ==> trim_start(s)[i] != b,
    decreases s.len(),
{
    if s.len() > 0 && is_ws(s[0]) {
        let t = s.skip(1);
        assert forall|i: int| 0 <= i < t.len() implies t[i] != b by {
            assert(t[i] == s[i + 1]);
        }
        lemma_trim_start_keeps_absent(t, b);
        assert(trim_start(s) == trim_start(t));
    }
}

proof fn lemma_trim_end_keeps_absent(s: Seq<u8>, b: u8)
    requires
        forall|i: int| 0 <= i < s.len() ==> s[i] != b,
    ensures
        forall|i: int| 0 <= i < trim_end(s).len() ==> trim_end(s)[i] != b,
    decreases s.len(),
{
    if s.len() > 0 && is_ws(s.last()) {
        let t = s.drop_last();
        assert forall|i: int| 0 <= i < t.len() implies t[i] != b by {
            assert(t[i] == s[i]);
        }
        lemma_trim_end_keeps_absent(t, b);
        assert(trim_end(s) == trim_end(t));
    }
}

/// Normalization never leaves a path separator in the name: the derived
/// storage path can only point directly into the storage directory.
pub proof fn lemma_normalize_no_separator(s: Seq<u8>)
    ensures
        forall|i: int| 0 <= i < spec_normalize(s).len() ==> spec_normalize(s)[i] != SLASH,
{
    lemma_last_index_of(s, SLASH);
    assert(forall|i: int|
        0 <= i < spec_last_segment(s).len() ==> spec_last_segment(s)[i] != SLASH);
    lemma_trim_start_keeps_absent(spec_last_segment(s), SLASH);
    lemma_trim_end_keeps_absent(trim_start(spec_last_segment(s)), SLASH);
}

/// Reduces a raw request path to the bare filename it may refer to: the
/// final path segment, trimmed of surrounding whitespace.
pub fn normalize_filename(filename: &[u8]) -> (r: Vec<u8>)
    ensures
        r@ == spec_normalize(filename@),
        forall|i: int| 0 <= i < r@.len() ==> r@[i] != SLASH,
{
    let segment = tail_after_last(filename, SLASH);
    let r = trim(segment.as_slice());
    proof {
        assert(segment@ == spec_last_segment(filename@));
        assert(r@ == spec_normalize(filename@));
        lemma_normalize_no_separator(filename@);
        assert forall|i: int| 0 <= i < r@.len() implies r@[i] != SLASH by {
            assert(r@[i] == spec_normalize(filename@)[i]);
        }
    }
    r
}

/// Whether the name ends with one of the fixed, case-sensitive set of
/// permitted extensions: `jpg`, `jpeg`, `png`, `svg`, `html`, `js`, `css`.
pub fn is_allowed_extension(filename: &[u8]) -> (r: bool)
    ensures
        r == spec_allowed(filename@),
{
    ends_with(filename, "jpg".as_bytes()) || ends_with(filename, "jpeg".as_bytes()) || ends_with(
        filename,
        "png".as_bytes(),
    ) || ends_with(filename, "svg".as_bytes()) || ends_with(filename, "html".as_bytes())
        || ends_with(filename, "js".as_bytes()) || ends_with(filename, "css".as_bytes())
}

/// Normalizes a raw name and holds it against the extension allow-list:
/// the storage gateway's whole defence, applied identically before a read
/// and before a write.  `Err(InvalidName)` comes exactly when the
/// normalized name carries no permitted extension, and no file may then be
/// touched on its account.
pub fn validate_filename(filename: &[u8]) -> (r: Result<Vec<u8>, StorageError>)
    ensures
        match r {
            Ok(name) => spec_allowed(spec_normalize(filename@)) && name@ == spec_normalize(
                filename@,
            ),
            Err(e) => e == StorageError::InvalidName && !spec_allowed(spec_normalize(filename@)),
        },
{
    let normalized = normalize_filename(filename);
    if is_allowed_extension(normalized.as_slice()) {
        Ok(normalized)
    } else {
        Err(StorageError::InvalidName)
    }
}

} // verus!
