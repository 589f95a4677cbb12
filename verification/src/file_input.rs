//! Bounded artifact and program files: the size rule, header detection and
//! the text check. Reading the files themselves is the caller's.
use vstd::prelude::*;
use vstd::utf8::{valid_utf8, decode_utf8};
use crate::text::{text, utf8_string};

verus! {

/// Largest raw formula or bundle file.
pub const MAX_PROGRAM_BYTES: usize = 67108864;

/// A file of `len` bytes is admitted under `limit`.
pub fn check_size(len: u64, limit: usize) -> (r: Result<(), String>)
    ensures
        len <= limit ==> r is Ok,
        len > limit ==> (r matches Err(e) && e@ == "artifact file size limit"@),
{
    if len > limit as u64 {
        return Err(text("artifact file size limit"));
    }
    Ok(())
}

/// Whether the first eight bytes of a file are the header `magic`.
pub fn header_matches(header: &[u8], magic: &[u8; 8]) -> (r: bool)
    ensures
        r == (header@.len() >= 8 && header@.take(8) == magic@),
{
    if header.len() < 8 {
        return false;
    }
    let mut i: usize = 0;
    while i < 8
        invariant
            i <= 8,
            header@.len() >= 8,
            forall|k: int| 0 <= k < i ==> header@[k] == magic@[k],
        decreases 8 - i,
    {
        if header[i] != magic[i] {
            assert(header@.take(8)[i as int] != magic@[i as int]);
            return false;
        }
        i = i + 1;
    }
    assert(header@.take(8) =~= magic@);
    true
}

/// The text of a raw formula or JSON bundle file, which must be UTF-8.
pub fn read_program_text(bytes: Vec<u8>) -> (r: Result<String, String>)
    ensures
        valid_utf8(bytes@) ==> (r matches Ok(s) && s@ == decode_utf8(bytes@)),
        !valid_utf8(bytes@) ==> (r matches Err(e) && e@ == "program file is not UTF-8"@),
{
    match utf8_string(bytes) {
        Ok(s) => Ok(s),
        Err(_) => Err(text("program file is not UTF-8")),
    }
}

} // verus!
