//! Word lists as rkyv archives.

use vstd::prelude::*;

verus! {

/// The archive of a word list.
pub uninterp spec fn archived_words(words: Seq<u64>) -> Seq<u8>;

/// The word list that an archive holds, if the bytes are one.
pub uninterp spec fn unarchived_words(bytes: Seq<u8>) -> Option<Seq<u64>>;

/// Archive a word list with `rkyv::to_bytes`.
///
/// Trusted: the archive is a function of the words; it holds eight bytes per
/// word and eight for the list itself (a 32-bit relative pointer and a 32-bit
/// length); and reading it back gives the words.
#[verifier::external_body]
pub(crate) fn archive_words(words: &Vec<u64>) -> (bytes: Vec<u8>)
    requires
        words@.len() <= 0x100_0000,
    ensures
        bytes@ == archived_words(words@),
        bytes@.len() == 8 * words@.len() + 8,
        unarchived_words(bytes@) == Some(words@),
{
    rkyv::to_bytes::<rkyv::rancor::Error>(words).expect("archiving a word list failed").to_vec()
}

/// Read a word list with `rkyv::from_bytes`, from an aligned copy of `bytes`.
///
/// Trusted: whether the bytes are an archive, and of which words, is a function
/// of the bytes.
#[verifier::external_body]
pub(crate) fn unarchive_words(bytes: &[u8]) -> (words: Option<Vec<u64>>)
    ensures
        match words {
            Some(w) => unarchived_words(bytes@) == Some(w@),
            None => unarchived_words(bytes@) is None,
        },
{
    let mut aligned: rkyv::util::AlignedVec = rkyv::util::AlignedVec::new();
    aligned.extend_from_slice(bytes);
    rkyv::from_bytes::<Vec<u64>, rkyv::rancor::Error>(&aligned).ok()
}

} // verus!
