//! Reading a compressed text container: a zip archive whose entries form,
//! in stored order, one logical text stream.

use vstd::prelude::*;

verus! {

/// What the archive bytes decompress to: the text of each entry in stored
/// order, or nothing when the bytes are not a well-formed readable archive.
/// Decompression is a function of the bytes alone.
pub uninterp spec fn zip_extract(data: Seq<u8>) -> Option<Seq<Seq<char>>>;

/// Relies on zip's `ZipArchive::new` / `len` / `by_index` and std's
/// `Read::read_to_string`: yields the decompressed text of every entry of
/// the archive in stored order, and fails exactly on archives that do not
/// decode to text.
#[verifier::external_body]
pub fn zip_entry_texts(data: &Vec<u8>) -> (r: Result<Vec<String>, ()>)
    ensures
        match r {
            Result::Ok(texts) => zip_extract(data@) == Option::Some(texts.deep_view()),
            Result::Err(()) => zip_extract(data@) == Option::None::<Seq<Seq<char>>>,
        },
{
    let cursor = std::io::Cursor::new(data.as_slice());
    let mut archive = zip::ZipArchive::new(cursor).map_err(|_| ())?;
    let mut texts: Vec<String> = Vec::new();
    for i in 0..archive.len() {
        let mut text = String::new();
        let mut entry = archive.by_index(i).map_err(|_| ())?;
        std::io::Read::read_to_string(&mut entry, &mut text).map_err(|_| ())?;
        texts.push(text);
    }
    Ok(texts)
}

} // verus!
