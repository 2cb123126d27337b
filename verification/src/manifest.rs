//! The freshness manifest: what incremental updates go by.
//!
//! Keyed by the path relative to the repository root, each entry records the
//! file's content hash and the ids of the chunks it produced. A file whose hash
//! is the recorded one is skipped; a new or changed file is cut into chunks
//! again; the chunks of a file that is gone are dropped.

use vstd::prelude::*;

use crate::ordered::StringMap;
use crate::text;

verus! {

/// What the manifest records of a file.
#[derive(Debug, Clone, PartialEq, Eq)]
pub struct FileEntry {
    /// Content hash, in hexadecimal.
    pub hash: String,
    /// Ids of the chunks produced from this file.
    pub chunk_ids: Vec<String>,
}

/// What a [`FileEntry`] holds.
#[verifier::ext_equal]
pub struct FileEntryView {
    pub hash: Seq<char>,
    pub chunk_ids: Seq<Seq<char>>,
}

impl View for FileEntry {
    type V = FileEntryView;

    open spec fn view(&self) -> FileEntryView {
        FileEntryView { hash: self.hash@, chunk_ids: text::texts(self.chunk_ids@) }
    }
}

/// The manifest: relative path to entry.
pub struct Manifest {
    pub files: StringMap<FileEntry>,
}

impl View for Manifest {
    type V = Map<Seq<char>, FileEntryView>;

    open spec fn view(&self) -> Map<Seq<char>, FileEntryView> {
        self.files@
    }
}

/// Whether a manifest records `relpath` with exactly this hash.
pub open spec fn unchanged(
    m: Map<Seq<char>, FileEntryView>,
    relpath: Seq<char>,
    hash: Seq<char>,
) -> bool {
    m.contains_key(relpath) && m[relpath].hash == hash
}

impl Default for Manifest {
    /// The empty manifest.
    fn default() -> (r: Manifest)
        ensures
            r@ == Map::<Seq<char>, FileEntryView>::empty(),
    {
        Manifest { files: StringMap::new() }
    }
}

impl Manifest {
    /// The recorded hash of `relpath`, if any.
    pub fn hash_of(&self, relpath: &str) -> (r: Option<&str>)
        ensures
            r is Some <==> self@.contains_key(relpath@),
            r matches Some(h) ==> h@ == self@[relpath@].hash,
    {
        match self.files.get(relpath) {
            Some(entry) => Some(entry.hash.as_str()),
            None => None,
        }
    }

    /// True when `relpath` is recorded with exactly this hash.
    pub fn is_unchanged(&self, relpath: &str, hash: &str) -> (r: bool)
        ensures
            r == unchanged(self@, relpath@, hash@),
    {
        match self.hash_of(relpath) {
            Some(recorded) => text::text_eq(recorded, hash),
            None => false,
        }
    }

    /// Records a file's hash and chunk ids, in place of any earlier entry.
    pub fn upsert(&mut self, relpath: &str, hash: String, chunk_ids: Vec<String>)
        ensures
            final(self)@ == old(self)@.insert(
                relpath@,
                FileEntryView { hash: hash@, chunk_ids: text::texts(chunk_ids@) },
            ),
    {
        self.files.insert(relpath.to_owned(), FileEntry { hash, chunk_ids });
    }

    /// Removes a file and returns its chunk ids.
    pub fn remove(&mut self, relpath: &str) -> (r: Option<Vec<String>>)
        ensures
            final(self)@ == old(self)@.remove(relpath@),
            r is Some <==> old(self)@.contains_key(relpath@),
            r matches Some(ids) ==> text::texts(ids@) == old(self)@[relpath@].chunk_ids,
    {
        match self.files.remove(relpath) {
            Some(entry) => Some(entry.chunk_ids),
            None => None,
        }
    }
}

/// The BLAKE3 hash of a byte sequence, in lower case hexadecimal.
pub uninterp spec fn blake3_hex(bytes: Seq<u8>) -> Seq<char>;

/// `blake3::hash` followed by `Hash::to_hex`: 32 bytes as 64 lower case
/// hexadecimal digits. The hash function itself is named.
#[verifier::external_body]
fn hash_hex(bytes: &[u8]) -> (r: String)
    ensures
        r@ == blake3_hex(bytes@),
        r@.len() == 64,
        forall|i: int|
            0 <= i < r@.len() ==> ('0' <= #[trigger] r@[i] <= '9' || 'a' <= r@[i] <= 'f'),
{
    blake3::hash(bytes).to_hex().to_string()
}

/// The content hash of a file, in hexadecimal. This is the freshness key:
/// unchanged bytes give an unchanged hash, hence a skipped file.
pub fn content_hash(bytes: &[u8]) -> (r: String)
    ensures
        r@ == blake3_hex(bytes@),
        r@.len() == 64,
        forall|i: int|
            0 <= i < r@.len() ==> ('0' <= #[trigger] r@[i] <= '9' || 'a' <= r@[i] <= 'f'),
{
    hash_hex(bytes)
}

/// A file that was just recorded is unchanged, and no other file's standing is
/// affected.
pub proof fn law_recorded_is_unchanged(
    m: Map<Seq<char>, FileEntryView>,
    relpath: Seq<char>,
    entry: FileEntryView,
    other: Seq<char>,
    hash: Seq<char>,
)
    ensures
        unchanged(m.insert(relpath, entry), relpath, hash) <==> hash == entry.hash,
        other != relpath ==> unchanged(m.insert(relpath, entry), other, hash) == unchanged(
            m,
            other,
            hash,
        ),
{
}

/// A file that was removed is not unchanged under any hash: it will be indexed
/// again.
pub proof fn law_removed_is_changed(
    m: Map<Seq<char>, FileEntryView>,
    relpath: Seq<char>,
    hash: Seq<char>,
)
    ensures
        !unchanged(m.remove(relpath), relpath, hash),
{
}

/// A file is unchanged exactly where it is recorded with the same hash.
pub proof fn law_unchanged(
    m: Map<Seq<char>, FileEntryView>,
    relpath: Seq<char>,
    hash: Seq<char>,
)
    ensures
        !m.contains_key(relpath) ==> !unchanged(m, relpath, hash),
        m.contains_key(relpath) ==> (unchanged(m, relpath, hash) <==> m[relpath].hash == hash),
{
}

/// A manifest holds what its map holds, and an entry its hash and all its ids.
pub proof fn law_manifest_views(m: Manifest, entry: FileEntry)
    ensures
        m@ == m.files@,
        entry@.hash == entry.hash@,
        entry@.chunk_ids.len() == entry.chunk_ids@.len(),
        forall|i: int|
            0 <= i < entry.chunk_ids@.len() ==> #[trigger] entry@.chunk_ids[i]
                == entry.chunk_ids@[i]@,
{
}

} // verus!
