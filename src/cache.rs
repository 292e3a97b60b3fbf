use vstd::prelude::*;

use crate::codec::{decode, encode, encoding, fits};
use crate::deflate::{compress, decompress, deflate_of, inflate_of};
use crate::{EntryView, TaggedFile};

verus! {

/// An ordered collection of tagged files: the unit that is saved and loaded.
#[derive(Debug)]
pub struct TagCache {
    pub(crate) tagged_files: Vec<TaggedFile>,
}

impl View for TagCache {
    type V = Seq<EntryView>;

    open(crate) spec fn view(&self) -> Seq<EntryView> {
        self.tagged_files@.map_values(|f: TaggedFile| f@)
    }
}

impl TagCache {
    /// A cache with no entries.
    pub fn empty() -> (r: TagCache)
        ensures
            r@ == Seq::<EntryView>::empty(),
    {
        let r = TagCache { tagged_files: Vec::new() };
        assert(r@ =~= Seq::<EntryView>::empty());
        r
    }

    /// Appends an entry after the existing ones; entries with equal paths are kept apart.
    pub fn add_file(&mut self, file: TaggedFile)
        ensures
            final(self)@ == old(self)@.push(file@),
    {
        self.tagged_files.push(file);
        assert(self@ =~= old(self)@.push(file@));
    }

    pub fn len(&self) -> (r: usize)
        ensures
            r == self@.len(),
    {
        self.tagged_files.len()
    }

    pub fn file(&self, i: usize) -> (r: &TaggedFile)
        requires
            i < self@.len(),
        ensures
            r@ == self@[i as int],
    {
        &self.tagged_files[i]
    }
}

/// Why saving or loading a cache failed.
#[derive(Debug)]
pub enum CacheError {
    /// The file at `path` could not be opened, read or written; `reason` is
    /// what the system said.
    Io { path: String, reason: String },
    /// The cache could not be turned into bytes.
    SerializationError { reason: String },
    /// The stored bytes are no valid cache: not a complete compressed stream,
    /// or not an encoded cache once decompressed.
    DeserializationError { reason: String },
}

/// `stored` is what a cache file holding `c` contains: the compressed
/// encoding of `c`.
pub open spec fn stores(stored: Seq<u8>, c: Seq<EntryView>) -> bool {
    fits(c) && inflate_of(stored) == Some(encoding(c))
}

/// The bytes to write to a file to save `cache`: its encoding, compressed.
/// Any cache can be saved, and the bytes depend on its entries alone. A file
/// holding those bytes cut short by one byte or more holds no cache at all.
pub fn stored_bytes(cache: &TagCache) -> (r: Vec<u8>)
    ensures
        fits(cache@),
        r@ == deflate_of(encoding(cache@)),
        stores(r@, cache@),
        forall|k: int, c: Seq<EntryView>|
            0 <= k < r@.len() ==> !#[trigger] stores(r@.subrange(0, k), c),
{
    let encoded = encode(cache);
    match compress(encoded.as_slice()) {
        Ok(v) => v,
        // Compressing into memory does not fail: this arm is never taken.
        Err(_) => Vec::new(),
    }
}

/// The outcome of saving to `path`, given the outcome of writing the bytes
/// there.
pub fn save_result(path: &str, written: Result<(), String>) -> (r: Result<(), CacheError>)
    ensures
        written is Ok ==> r is Ok,
        written matches Err(reason) ==> (r matches Err(CacheError::Io { path: p, reason: q })
            && p@ == path@ && q@ == reason@),
{
    match written {
        Ok(()) => Ok(()),
        Err(reason) => Err(CacheError::Io { path: path.to_owned(), reason }),
    }
}

/// The cache that the bytes of a cache file hold. Bytes that hold none (not
/// a complete compressed stream, or no encoded cache inside it) are a
/// deserialization error; otherwise the one cache that they hold is returned.
pub fn decode_stored(bytes: &[u8]) -> (r: Result<TagCache, CacheError>)
    ensures
        r matches Ok(c) ==> stores(bytes@, c@),
        r is Err ==> (r matches Err(CacheError::DeserializationError { .. })),
        r is Err ==> forall|c: Seq<EntryView>| !#[trigger] stores(bytes@, c),
{
    let plain = match decompress(bytes) {
        Ok(plain) => plain,
        Err(reason) => {
            return Err(CacheError::DeserializationError { reason });
        },
    };
    match decode(plain.as_slice()) {
        Some(c) => Ok(c),
        None => {
            assert forall|c: Seq<EntryView>| !#[trigger] stores(bytes@, c) by {
                if stores(bytes@, c) {
                    assert(encoding(c) != plain@);
                }
            }
            Err(
                CacheError::DeserializationError {
                    reason: "the decompressed bytes are not an encoded tag cache".to_owned(),
                },
            )
        },
    }
}

/// The cache held in `path`, given the outcome of reading that file whole.
/// A read that failed is an I/O error against `path`; read bytes go through
/// `decode_stored`.
pub fn load_from(path: &str, read: Result<Vec<u8>, String>) -> (r: Result<TagCache, CacheError>)
    ensures
        read matches Err(reason) ==> (r matches Err(CacheError::Io { path: p, reason: q }) && p@
            == path@ && q@ == reason@),
        read matches Ok(bytes) ==> (r matches Ok(c) ==> stores(bytes@, c@)),
        read matches Ok(bytes) ==> (r is Err ==> (r matches Err(
            CacheError::DeserializationError { .. },
        ))),
        read matches Ok(bytes) ==> (r is Err ==> forall|c: Seq<EntryView>|
            #[trigger] fits(c) ==> !stores(bytes@, c)),
{
    match read {
        Ok(bytes) => decode_stored(bytes.as_slice()),
        Err(reason) => Err(CacheError::Io { path: path.to_owned(), reason }),
    }
}

/// Round trip: bytes saved for a cache hold that cache and no other, so
/// `load_from` on them returns a cache with the same entries, in the same
/// order, with the same paths and the same tags in the same order.
pub proof fn lemma_round_trip(stored: Seq<u8>, saved: Seq<EntryView>, loaded: Seq<EntryView>)
    requires
        stores(stored, saved),
        stores(stored, loaded),
    ensures
        loaded == saved,
{
    crate::codec::lemma_encoding_injective(saved, loaded);
}

/// Saving is deterministic: caches with the same entries have the same
/// encoding, and the same bytes to store.
pub proof fn lemma_save_deterministic(c: Seq<EntryView>, d: Seq<EntryView>)
    requires
        c == d,
    ensures
        encoding(c) == encoding(d),
        deflate_of(encoding(c)) == deflate_of(encoding(d)),
{
}

} // verus!
