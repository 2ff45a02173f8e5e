use vstd::prelude::*;

verus! {

/// The most bytes that are taken from a compressed file's entry, so that a small archive
/// cannot expand without bound.
pub const MAX_DECOMPRESSED_SIZE: u64 = 10 * 1024 * 1024;

/// Data that begins with the ZIP signature "PK".
pub open spec fn spec_is_zip(data: Seq<u8>) -> bool {
    data.len() >= 2 && data[0] == 0x50 && data[1] == 0x4B
}

/// Whether the contents of a file are a ZIP archive, by its first two bytes ("PK").
pub fn is_zip(data: &[u8]) -> (b: bool)
    ensures
        b == spec_is_zip(data@),
{
    data.len() >= 2 && data[0] == 0x50 && data[1] == 0x4B
}

/// The contents of the first entry of the ZIP archive `data`, at most `limit` bytes of it, or
/// `None` where the archive cannot be read or that entry cannot be decompressed.
pub uninterp spec fn zip_first_entry(data: Seq<u8>, limit: u64) -> Option<Seq<u8>>;

/// The first entry of the ZIP archive held in `data`, decompressed and cut off after `limit`
/// bytes: `zip::ZipArchive::new` over the bytes in memory, `by_index(0)`, and `take(limit)`
/// read to the end. The contract claims only that the result is a function of the two
/// arguments, named `zip_first_entry`, and `None` exactly where the crate reports an error.
#[verifier::external_body]
pub(crate) fn decompress_zip(data: &[u8], limit: u64) -> (r: Option<Vec<u8>>)
    ensures
        match r {
            Some(v) => zip_first_entry(data@, limit) == Some(v@),
            None => zip_first_entry(data@, limit) is None,
        },
{
    let mut archive = match ::zip::ZipArchive::new(std::io::Cursor::new(data)) {
        Ok(a) => a,
        Err(_) => return None,
    };
    let entry = match archive.by_index(0) {
        Ok(e) => e,
        Err(_) => return None,
    };
    let mut reader = std::io::Read::take(entry, limit);
    let mut buf: Vec<u8> = Vec::new();
    let read = std::io::Read::read_to_end(&mut reader, &mut buf);
    match read {
        Ok(_) => Some(buf),
        Err(_) => None,
    }
}

} // verus!
