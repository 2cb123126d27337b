//! The engine: incremental indexing and hybrid search.
//!
//! An [`IndexRun`] brings the manifest, the chunk store and the vector store up
//! to date with the files of a repository, one file at a time. It says what is
//! to be done to the lexical index and which texts are to be embedded; what
//! came of that is handed back to it.

use vstd::prelude::*;

use crate::chunk::{Chunk, ChunkView};
use crate::config::{CorpusConfig, CorpusConfigView};
use crate::discovery::WalkEntry;
use crate::embed::{Provider, RigEmbedder, UnsupportedProvider};
use crate::manifest::{FileEntryView, Manifest};
use crate::ordered::StringMap;
use crate::search::{FusionCandidate, Scored, SearchMode, SearchResult, SearchResultView};
use crate::store::{ChunkStore, VectorStore, VectorStoreView};
use crate::{chunk, discovery, embed, manifest, ordered, search, store, text};

verus! {

// ── reports ─────────────────────────────────────────────────────────────────
/// Outcome of an index run.
#[derive(Debug, Clone, Copy, PartialEq, Eq)]
pub struct IndexReport {
    /// Files indexed because they were new or changed.
    pub indexed: usize,
    /// Files skipped because their content hash was unchanged.
    pub skipped_unchanged: usize,
    /// Files dropped because they vanished from the repository.
    pub removed: usize,
    /// Chunks in the index after the run.
    pub chunks: usize,
    /// Chunks embedded during the run; 0 when embeddings are off.
    pub embedded: usize,
}

impl Default for IndexReport {
    /// Nothing was done.
    fn default() -> (r: IndexReport)
        ensures
            r == no_report(),
    {
        IndexReport { indexed: 0, skipped_unchanged: 0, removed: 0, chunks: 0, embedded: 0 }
    }
}

// ── the state of a run ──────────────────────────────────────────────────────
/// What an [`IndexRun`] holds.
#[verifier::ext_equal]
pub struct RunView {
    pub manifest: Map<Seq<char>, FileEntryView>,
    pub chunks: Map<Seq<char>, ChunkView>,
    pub vectors: VectorStoreView,
    pub report: IndexReport,
}

/// An index run: the stores as far as they are brought up to date, and the
/// report so far.
pub struct IndexRun {
    pub manifest: Manifest,
    pub chunks: ChunkStore,
    pub vectors: VectorStore,
    pub report: IndexReport,
}

impl View for IndexRun {
    type V = RunView;

    open spec fn view(&self) -> RunView {
        RunView {
            manifest: self.manifest@,
            chunks: self.chunks@,
            vectors: self.vectors@,
            report: self.report,
        }
    }
}

/// A new or changed file that is being indexed.
#[derive(Debug, PartialEq, Eq)]
pub struct PendingFile {
    pub relpath: String,
    pub hash: String,
    pub chunks: Vec<Chunk>,
}

/// What a [`PendingFile`] holds.
#[verifier::ext_equal]
pub struct PendingFileView {
    pub relpath: Seq<char>,
    pub hash: Seq<char>,
    pub chunks: Seq<ChunkView>,
}

impl View for PendingFile {
    type V = PendingFileView;

    open spec fn view(&self) -> PendingFileView {
        PendingFileView {
            relpath: self.relpath@,
            hash: self.hash@,
            chunks: chunk::chunk_views(self.chunks@),
        }
    }
}

/// What is to be done about a file.
#[derive(Debug, PartialEq, Eq)]
pub enum FileStep {
    /// Nothing: it is indexed as it is.
    Unchanged,
    /// Its documents are to be deleted from the lexical index, those of its
    /// chunks are to be added, and its chunks are to be embedded where
    /// embeddings are on. Then the file is handed to
    /// [`finish_file`](IndexRun::finish_file).
    Reindex(PendingFile),
}

// ── from bytes to chunks ────────────────────────────────────────────────────
/// The text that `String::from_utf8_lossy` makes of a byte sequence.
pub uninterp spec fn utf8_lossy(bytes: Seq<u8>) -> Seq<char>;

/// `String::from_utf8_lossy`: bytes that are UTF-8 are decoded; other bytes are
/// decoded with replacement characters, of which the result is named.
#[verifier::external_body]
fn decode_lossy(bytes: &[u8]) -> (r: String)
    ensures
        r@ == utf8_lossy(bytes@),
        vstd::utf8::valid_utf8(bytes@) ==> r@ == vstd::utf8::decode_utf8(bytes@),
{
    String::from_utf8_lossy(bytes).into_owned()
}

/// A file as it is indexed.
pub open spec fn pending(relpath: Seq<char>, bytes: Seq<u8>) -> PendingFileView {
    PendingFileView {
        relpath,
        hash: manifest::blake3_hex(bytes),
        chunks: chunk::file_chunks(relpath, utf8_lossy(bytes)),
    }
}

// ── steps ───────────────────────────────────────────────────────────────────
/// A report of nothing done.
pub open spec fn no_report() -> IndexReport {
    IndexReport { indexed: 0, skipped_unchanged: 0, removed: 0, chunks: 0, embedded: 0 }
}

/// The empty vector store: it has no model.
pub open spec fn no_vectors() -> VectorStoreView {
    VectorStoreView { model: None, dims: 0, vectors: Map::empty() }
}

/// A vector store for the vectors of an embedder, given by its model and its
/// number of dimensions. Vectors of another model are not taken over: they
/// cannot be compared with those to come.
pub open spec fn opened_for(
    vectors: VectorStoreView,
    embedder: Option<(Seq<char>, nat)>,
) -> VectorStoreView {
    match embedder {
        Some(e) => if vectors.model == Some(e.0) && vectors.dims == e.1 {
            vectors
        } else {
            VectorStoreView { model: Some(e.0), dims: e.1, vectors: Map::empty() }
        },
        None => vectors,
    }
}

/// A run at its start. The manifest decides what is indexed: where it records
/// nothing, nothing is taken over from the other stores.
pub open spec fn started(
    manifest: Map<Seq<char>, FileEntryView>,
    chunks: Map<Seq<char>, ChunkView>,
    vectors: VectorStoreView,
    embedder: Option<(Seq<char>, nat)>,
) -> RunView {
    if manifest == Map::<Seq<char>, FileEntryView>::empty() {
        RunView {
            manifest,
            chunks: Map::empty(),
            vectors: opened_for(no_vectors(), embedder),
            report: no_report(),
        }
    } else {
        RunView { manifest, chunks, vectors: opened_for(vectors, embedder), report: no_report() }
    }
}

/// The view of an embedder, given by its model and its number of dimensions.
pub open spec fn embedder_view(embedder: Option<(String, usize)>) -> Option<(Seq<char>, nat)> {
    match embedder {
        Some(e) => Some((e.0@, e.1 as nat)),
        None => None,
    }
}

/// The chunk ids that a manifest records of a file.
pub open spec fn recorded_ids(m: Map<Seq<char>, FileEntryView>, relpath: Seq<char>) -> Seq<
    Seq<char>,
> {
    if m.contains_key(relpath) {
        m[relpath].chunk_ids
    } else {
        Seq::empty()
    }
}

/// A run after a file is dropped: its entry, its chunks and their vectors are
/// gone.
pub open spec fn dropped(s: RunView, relpath: Seq<char>) -> RunView {
    let ids = recorded_ids(s.manifest, relpath).to_set();
    RunView {
        manifest: s.manifest.remove(relpath),
        chunks: s.chunks.remove_keys(ids),
        vectors: VectorStoreView { vectors: s.vectors.vectors.remove_keys(ids), ..s.vectors },
        report: s.report,
    }
}

/// A store after these chunks are put in.
pub open spec fn with_chunks(
    store: Map<Seq<char>, ChunkView>,
    chunks: Seq<ChunkView>,
) -> Map<Seq<char>, ChunkView>
    decreases chunks.len(),
{
    if chunks.len() == 0 {
        store
    } else {
        with_chunks(store, chunks.drop_last()).insert(chunks.last().id, chunks.last())
    }
}

/// The vectors after those of these chunks are put in.
pub open spec fn with_vectors(
    store: Map<Seq<char>, Seq<u32>>,
    chunks: Seq<ChunkView>,
    vectors: Seq<Seq<u32>>,
) -> Map<Seq<char>, Seq<u32>>
    decreases chunks.len(),
{
    if chunks.len() == 0 {
        store
    } else {
        with_vectors(store, chunks.drop_last(), vectors).insert(
            chunks.last().id,
            vectors[chunks.len() - 1],
        )
    }
}

/// The ids of these chunks.
pub open spec fn ids_of(chunks: Seq<ChunkView>) -> Seq<Seq<char>> {
    chunks.map_values(|c: ChunkView| c.id)
}

/// A run after a file is indexed: its chunks, their vectors where they were
/// embedded, and its entry are recorded.
pub open spec fn recorded(
    s: RunView,
    file: PendingFileView,
    vectors: Option<Seq<Seq<u32>>>,
) -> RunView {
    RunView {
        manifest: s.manifest.insert(
            file.relpath,
            FileEntryView { hash: file.hash, chunk_ids: ids_of(file.chunks) },
        ),
        chunks: with_chunks(s.chunks, file.chunks),
        vectors: match vectors {
            Some(v) => VectorStoreView {
                vectors: with_vectors(s.vectors.vectors, file.chunks, v),
                ..s.vectors
            },
            None => s.vectors,
        },
        report: IndexReport {
            indexed: (s.report.indexed + 1) as usize,
            embedded: match vectors {
                Some(v) => (s.report.embedded + file.chunks.len()) as usize,
                None => s.report.embedded,
            },
            ..s.report
        },
    }
}

/// The views of a sequence of vectors.
pub open spec fn vector_views(v: Seq<Vec<u32>>) -> Seq<Seq<u32>> {
    v.map_values(|x: Vec<u32>| x@)
}

/// The view of the vectors that a file's chunks were embedded into.
pub open spec fn opt_vectors(v: Option<Vec<Vec<u32>>>) -> Option<Seq<Seq<u32>>> {
    match v {
        Some(v) => Some(vector_views(v@)),
        None => None,
    }
}

proof fn lemma_remove_keys_push<V>(m: Map<Seq<char>, V>, ids: Seq<Seq<char>>, id: Seq<char>)
    ensures
        m.remove_keys(ids.push(id).to_set()) == m.remove_keys(ids.to_set()).remove(id),
{
    ids.lemma_push_to_set_commute(id);
    assert(m.remove_keys(ids.push(id).to_set()) =~= m.remove_keys(ids.to_set()).remove(id));
}

/// A run after these files are dropped one by one, each counted as removed.
pub open spec fn cleared(s: RunView, relpaths: Seq<Seq<char>>) -> RunView
    decreases relpaths.len(),
{
    if relpaths.len() == 0 {
        s
    } else {
        let front = cleared(s, relpaths.drop_last());
        RunView {
            report: IndexReport { removed: (front.report.removed + 1) as usize, ..front.report },
            ..dropped(front, relpaths.last())
        }
    }
}

/// Which files of a manifest are not among those seen.
pub open spec fn unseen(seen: Seq<Seq<char>>) -> spec_fn(Seq<char>) -> bool {
    |relpath: Seq<char>| !seen.contains(relpath)
}

/// A run after its end: the chunks are counted, and a vector store without a
/// vector has no model.
pub open spec fn finished(s: RunView) -> RunView {
    RunView {
        vectors: if s.vectors.vectors == Map::<Seq<char>, Seq<u32>>::empty() {
            no_vectors()
        } else {
            s.vectors
        },
        report: IndexReport { chunks: s.chunks.len() as usize, ..s.report },
        ..s
    }
}

proof fn lemma_cleared_report(s: RunView, relpaths: Seq<Seq<char>>)
    requires
        s.report.removed + relpaths.len() <= usize::MAX,
    ensures
        cleared(s, relpaths).report == (IndexReport {
            removed: (s.report.removed + relpaths.len()) as usize,
            ..s.report
        }),
    decreases relpaths.len(),
{
    if relpaths.len() > 0 {
        lemma_cleared_report(s, relpaths.drop_last());
    }
}

/// Whether a list holds a string.
fn list_contains(list: &Vec<String>, s: &str) -> (r: bool)
    ensures
        r == text::texts(list@).contains(s@),
{
    let ghost all = text::texts(list@);
    let mut i: usize = 0;
    while i < list.len()
        invariant
            i <= list@.len(),
            all == text::texts(list@),
            forall|j: int| 0 <= j < i ==> all[j] != s@,
        decreases list@.len() - i,
    {
        if text::text_eq(list[i].as_str(), s) {
            assert(all[i as int] == s@);
            return true;
        }
        i = i + 1;
    }
    false
}

impl IndexRun {
    /// Starts a run on the stores of the last one, with the model and the
    /// number of dimensions of the embedder where embeddings are on. Where no
    /// file is recorded, be it that the manifest was lost, everything is built
    /// anew: the run starts with empty stores, and the lexical index is to be
    /// emptied, which the second part of the result says. Where the vectors
    /// are of another model, they are dropped.
    pub fn start(
        manifest: Manifest,
        chunks: ChunkStore,
        vectors: VectorStore,
        embedder: Option<(String, usize)>,
    ) -> (r: (IndexRun, bool))
        ensures
            r.0@ == started(manifest@, chunks@, vectors@, embedder_view(embedder)),
            r.1 <==> manifest@ == Map::<Seq<char>, FileEntryView>::empty(),
    {
        let rebuild = manifest.files.len() == 0;
        let mut run = if rebuild {
            assert(manifest@.dom() =~= Set::empty());
            assert(manifest@ =~= Map::empty());
            IndexRun {
                manifest,
                chunks: ChunkStore::default(),
                vectors: VectorStore::default(),
                report: IndexReport::default(),
            }
        } else {
            IndexRun { manifest, chunks, vectors, report: IndexReport::default() }
        };
        if let Some((model, dims)) = embedder {
            let same = match &run.vectors.model {
                Some(m) => text::text_eq(m.as_str(), model.as_str()) && run.vectors.dims == dims,
                None => false,
            };
            if !same {
                run.vectors = VectorStore { model: Some(model), dims, vectors: StringMap::new() };
            }
        }
        (run, rebuild)
    }

    /// Drops a file with its chunks and their vectors.
    fn drop_file(&mut self, relpath: &str)
        ensures
            final(self)@ == dropped(old(self)@, relpath@),
    {
        let ghost s = self@;
        if let Some(ids) = self.manifest.remove(relpath) {
            let ghost all = text::texts(ids@);
            let mut i: usize = 0;
            assert(all.take(0).to_set() =~= Set::empty());
            assert(s.chunks.remove_keys(Set::empty()) =~= s.chunks);
            assert(s.vectors.vectors.remove_keys(Set::empty()) =~= s.vectors.vectors);
            while i < ids.len()
                invariant
                    i <= ids@.len(),
                    all == text::texts(ids@),
                    self@.manifest == s.manifest.remove(relpath@),
                    self@.report == s.report,
                    self@.chunks == s.chunks.remove_keys(all.take(i as int).to_set()),
                    self@.vectors == (VectorStoreView {
                        vectors: s.vectors.vectors.remove_keys(all.take(i as int).to_set()),
                        ..s.vectors
                    }),
                decreases ids@.len() - i,
            {
                self.chunks.remove(ids[i].as_str());
                self.vectors.remove(ids[i].as_str());
                proof {
                    assert(all.take(i + 1) =~= all.take(i as int).push(all[i as int]));
                    lemma_remove_keys_push(s.chunks, all.take(i as int), all[i as int]);
                    lemma_remove_keys_push(s.vectors.vectors, all.take(i as int), all[i as int]);
                }
                i = i + 1;
            }
            assert(all.take(i as int) =~= all);
        } else {
            assert(Seq::<Seq<char>>::empty().to_set() =~= Set::empty());
            assert(s.chunks.remove_keys(Set::empty()) =~= s.chunks);
            assert(s.vectors.vectors.remove_keys(Set::empty()) =~= s.vectors.vectors);
        }
        assert(self@ =~= dropped(s, relpath@));
    }

    /// Takes in a file with these contents. A file whose hash is recorded is
    /// skipped; of any other, what was recorded before is dropped and the new
    /// chunks are handed out.
    pub fn file(&mut self, relpath: &str, bytes: &[u8]) -> (r: FileStep)
        requires
            old(self)@.report.skipped_unchanged < usize::MAX,
        ensures
            manifest::unchanged(old(self)@.manifest, relpath@, manifest::blake3_hex(bytes@))
                ==> r is Unchanged && final(self)@ == (RunView {
                report: IndexReport {
                    skipped_unchanged: (old(self)@.report.skipped_unchanged + 1) as usize,
                    ..old(self)@.report
                },
                ..old(self)@
            }),
            !manifest::unchanged(old(self)@.manifest, relpath@, manifest::blake3_hex(bytes@)) ==> (
            r matches FileStep::Reindex(file) && file@ == pending(relpath@, bytes@) && final(self)@
                == dropped(old(self)@, relpath@)),
    {
        let hash = manifest::content_hash(bytes);
        if self.manifest.is_unchanged(relpath, hash.as_str()) {
            self.report.skipped_unchanged = self.report.skipped_unchanged + 1;
            return FileStep::Unchanged;
        }
        self.drop_file(relpath);
        let source = decode_lossy(bytes);
        let chunks = chunk::chunk_file(relpath, source.as_str());
        FileStep::Reindex(PendingFile { relpath: relpath.to_owned(), hash, chunks })
    }

    /// Records a file that was indexed, with the vectors of its chunks where
    /// embeddings are on: one for each chunk, of the dimensions of the
    /// embedder.
    pub fn finish_file(&mut self, file: PendingFile, vectors: Option<Vec<Vec<u32>>>)
        requires
            old(self)@.report.indexed < usize::MAX,
            vectors is Some ==> vectors->0@.len() == file.chunks@.len(),
            vectors is Some ==> old(self)@.vectors.model is Some,
            vectors is Some ==> forall|i: int|
                0 <= i < vectors->0@.len() ==> (#[trigger] vectors->0@[i])@.len()
                    == old(self)@.vectors.dims,
            vectors is Some ==> old(self)@.report.embedded + file.chunks@.len() <= usize::MAX,
        ensures
            final(self)@ == recorded(old(self)@, file@, opt_vectors(vectors)),
    {
        let ghost s = self@;
        let ghost all = file@.chunks;
        let ghost given = opt_vectors(vectors);
        let mut ids: Vec<String> = Vec::new();
        let mut i: usize = 0;
        assert(text::texts(ids@) =~= ids_of(all.take(0)));
        while i < file.chunks.len()
            invariant
                i <= file.chunks@.len(),
                all == chunk::chunk_views(file.chunks@),
                given == opt_vectors(vectors),
                vectors is Some ==> vectors->0@.len() == file.chunks@.len(),
                text::texts(ids@) == ids_of(all.take(i as int)),
                self@.manifest == s.manifest,
                self@.report == s.report,
                self@.chunks == with_chunks(s.chunks, all.take(i as int)),
                self@.vectors == match given {
                    Some(v) => VectorStoreView {
                        vectors: with_vectors(s.vectors.vectors, all.take(i as int), v),
                        ..s.vectors
                    },
                    None => s.vectors,
                },
            decreases file.chunks@.len() - i,
        {
            let ghost before = text::texts(ids@);
            let c = &file.chunks[i];
            assert(all.take(i + 1).drop_last() =~= all.take(i as int));
            assert(all.take(i + 1).last() == c@);
            if let Some(v) = &vectors {
                assert(vector_views(v@)[i as int] == v@[i as int]@);
                self.vectors.insert(c.id.as_str(), copy_vector(&v[i]));
            }
            ids.push(c.id.clone());
            self.chunks.insert(c.copy());
            assert(text::texts(ids@) =~= before.push(c@.id));
            assert(ids_of(all.take(i + 1)) =~= ids_of(all.take(i as int)).push(c@.id));
            i = i + 1;
        }
        assert(all.take(i as int) =~= all);
        if vectors.is_some() {
            self.report.embedded = self.report.embedded + file.chunks.len();
        }
        self.manifest.upsert(file.relpath.as_str(), file.hash, ids);
        self.report.indexed = self.report.indexed + 1;
        assert(self@ =~= recorded(s, file@, opt_vectors(vectors)));
    }

    /// The recorded files that were not seen, in ascending order.
    fn stale_files(&self, seen: &Vec<String>) -> (r: Vec<String>)
        ensures
            ordered::ascending(text::texts(r@)),
            forall|k: Seq<char>|
                text::texts(r@).contains(k) <==> self@.manifest.contains_key(k) && !text::texts(
                    seen@,
                ).contains(k),
            text::texts(r@).len() <= self@.manifest.len(),
    {
        let n = self.manifest.files.len();
        let ghost keys = self.manifest.files.keys();
        let ghost pred = unseen(text::texts(seen@));
        let mut r: Vec<String> = Vec::new();
        let mut i: usize = 0;
        assert(text::texts(r@) =~= keys.take(0).filter(pred)) by {
            reveal(Seq::filter);
        }
        while i < n
            invariant
                i <= n,
                n == keys.len(),
                keys == self.manifest.files.keys(),
                pred == unseen(text::texts(seen@)),
                text::texts(r@) == keys.take(i as int).filter(pred),
            decreases n - i,
        {
            let (relpath, _) = self.manifest.files.entry(i);
            let ghost before = text::texts(r@);
            proof {
                assert(keys.take(i + 1) =~= keys.take(i as int).push(keys[i as int]));
                keys.take(i as int).lemma_filter_push(keys[i as int], pred);
            }
            if !list_contains(seen, relpath.as_str()) {
                r.push(relpath.clone());
                assert(text::texts(r@) =~= before.push(relpath@));
            }
            i = i + 1;
        }
        proof {
            assert(keys.take(i as int) =~= keys);
            let f = keys.filter(pred);
            keys.lemma_filter_len(pred);
            assert forall|k: Seq<char>| f.contains(k) <==> self@.manifest.contains_key(k)
                && !text::texts(seen@).contains(k) by {
                assert(keys.to_set().contains(k) == keys.contains(k));
                if f.contains(k) {
                    let j = f.index_of(k);
                    keys.lemma_filter_contains_rev(pred, k);
                    keys.lemma_filter_pred(pred, j);
                }
                if keys.contains(k) && pred(k) {
                    let j = keys.index_of(k);
                    keys.lemma_filter_contains(pred, j);
                }
            }
            lemma_ascending_filter(keys, pred);
        }
        r
    }

    /// Drops the files that are recorded but were not seen, with their chunks
    /// and their vectors. Returns their paths in ascending order; their
    /// documents are to be deleted from the lexical index.
    pub fn drop_stale(&mut self, seen: &Vec<String>) -> (r: Vec<String>)
        requires
            old(self)@.report.removed + old(self)@.manifest.len() <= usize::MAX,
        ensures
            ordered::ascending(text::texts(r@)),
            forall|k: Seq<char>|
                text::texts(r@).contains(k) <==> old(self)@.manifest.contains_key(k)
                    && !text::texts(seen@).contains(k),
            final(self)@ == cleared(old(self)@, text::texts(r@)),
            final(self)@.report.removed == old(self)@.report.removed + r@.len(),
    {
        let stale = self.stale_files(seen);
        let ghost s = self@;
        let ghost all = text::texts(stale@);
        let mut i: usize = 0;
        while i < stale.len()
            invariant
                i <= stale@.len(),
                all == text::texts(stale@),
                s.report.removed + all.len() <= usize::MAX,
                self@ == cleared(s, all.take(i as int)),
            decreases stale@.len() - i,
        {
            proof {
                lemma_cleared_report(s, all.take(i as int));
                assert(all.take(i + 1).drop_last() =~= all.take(i as int));
                assert(all.take(i + 1).last() == all[i as int]);
            }
            self.drop_file(stale[i].as_str());
            self.report.removed = self.report.removed + 1;
            i = i + 1;
        }
        assert(all.take(i as int) =~= all);
        proof {
            lemma_cleared_report(s, all);
        }
        stale
    }

    /// Drops the files that vanished from the repository: those that are
    /// recorded but that a walk over it did not find. A file that is still
    /// there stays, also where the globs of this run do not match it. Returns
    /// the paths as [`drop_stale`](Self::drop_stale) does.
    pub fn drop_vanished(&mut self, entries: &Vec<WalkEntry>) -> (r: Vec<String>)
        requires
            old(self)@.report.removed + old(self)@.manifest.len() <= usize::MAX,
        ensures
            ordered::ascending(text::texts(r@)),
            forall|k: Seq<char>|
                text::texts(r@).contains(k) <==> old(self)@.manifest.contains_key(k)
                    && !discovery::present(discovery::entry_views(entries@)).contains(k),
            final(self)@ == cleared(old(self)@, text::texts(r@)),
            final(self)@.report.removed == old(self)@.report.removed + r@.len(),
    {
        self.drop_stale(&discovery::present_files(entries))
    }

    /// Ends the run: counts the chunks, and leaves a vector store without a
    /// vector without a model.
    pub fn finish(&mut self) -> (r: IndexReport)
        ensures
            final(self)@ == finished(old(self)@),
            r == final(self)@.report,
            r.chunks == old(self)@.chunks.len(),
    {
        if self.vectors.is_empty() {
            self.vectors = VectorStore::default();
        }
        self.report.chunks = self.chunks.len();
        self.report
    }
}

proof fn lemma_ascending_filter(s: Seq<Seq<char>>, pred: spec_fn(Seq<char>) -> bool)
    requires
        ordered::ascending(s),
    ensures
        ordered::ascending(s.filter(pred)),
    decreases s.len(),
{
    reveal(Seq::filter);
    if s.len() > 0 {
        let t = s.drop_last();
        lemma_ascending_filter(t, pred);
        let f = t.filter(pred);
        if pred(s.last()) {
            let r = f.push(s.last());
            assert forall|i: int, j: int| 0 <= i < j < r.len() implies ordered::text_lt(
                #[trigger] r[i],
                #[trigger] r[j],
            ) by {
                if j == f.len() {
                    assert(f.contains(f[i]));
                    t.lemma_filter_contains_rev(pred, f[i]);
                    let k = t.index_of(f[i]);
                    assert(s[k] == r[i]);
                }
            }
        }
    }
}

// ── embedding ───────────────────────────────────────────────────────────────
/// The text that is embedded for a chunk: its headings and its body, so that
/// the vector reflects where the chunk stands and not its prose alone.
pub open spec fn embed_text(c: ChunkView) -> Seq<char> {
    if c.heading_path.len() == 0 {
        c.text
    } else {
        text::joined(c.heading_path, " > "@) + "\n\n"@ + c.text
    }
}

/// The text that is embedded for a chunk.
pub fn embed_input(c: &Chunk) -> (r: String)
    ensures
        r@ == embed_text(c@),
{
    if c.heading_path.len() == 0 {
        return c.text.clone();
    }
    let mut r = text::join(&c.heading_path, " > ");
    r.append("\n\n");
    r.append(c.text.as_str());
    r
}

/// A chunk that could not be embedded. It ends the run: a corpus embedded by
/// half would silently lose recall.
#[derive(Debug, Clone, PartialEq, Eq)]
pub struct EmbeddingFailed {
    pub chunk_id: String,
    pub cause: String,
}

impl EmbeddingFailed {
    /// The message for the caller.
    pub fn message(&self) -> (r: String)
        ensures
            r@ == "embedding failed for "@ + self.chunk_id@ + ": "@ + self.cause@,
    {
        let mut m = "embedding failed for ".to_owned();
        m.append(self.chunk_id.as_str());
        m.append(": ");
        m.append(self.cause.as_str());
        m
    }
}

// ── the configured corpus ───────────────────────────────────────────────────
/// The corpus of one repository: its configuration, and the embedder where
/// embeddings are on.
#[derive(Debug, Clone, PartialEq, Eq)]
pub struct Corpus {
    pub config: CorpusConfig,
    pub embedder: Option<RigEmbedder>,
}

/// Why a corpus cannot be built.
#[derive(Debug, Clone, PartialEq, Eq)]
pub enum BuildError {
    NoProvider,
    NoModel,
    NoDims,
    Unsupported(UnsupportedProvider),
}

impl BuildError {
    /// The message for the caller.
    pub fn message(&self) -> (r: String)
        ensures
            r@ == match self {
                BuildError::NoProvider => "embeddings enabled but embed_provider is not set"@,
                BuildError::NoModel => "embeddings enabled but embed_model is not set"@,
                BuildError::NoDims => "embeddings enabled but embed_dims is not set"@,
                BuildError::Unsupported(e) => e.text(),
            },
    {
        match self {
            BuildError::NoProvider => {
                "embeddings enabled but embed_provider is not set".to_owned()
            },
            BuildError::NoModel => "embeddings enabled but embed_model is not set".to_owned(),
            BuildError::NoDims => "embeddings enabled but embed_dims is not set".to_owned(),
            BuildError::Unsupported(e) => e.message(),
        }
    }
}

/// A configuration with the embeddings switched as a call asks for.
pub open spec fn overridden(config: CorpusConfigView, embeddings: Option<bool>) -> CorpusConfigView {
    match embeddings {
        Some(on) => CorpusConfigView { embeddings: on, ..config },
        None => config,
    }
}

/// Whether a configuration has all that embeddings need.
pub open spec fn embeddable(config: CorpusConfigView) -> bool {
    &&& config.embed_provider is Some
    &&& config.embed_model is Some
    &&& config.embed_dims is Some
    &&& exists|p: Provider| #[trigger] embed::slug(p) == config.embed_provider->0
}

/// What building a corpus with this configuration gives: the embedder is there
/// exactly where embeddings are on, and they need a provider that is known, a
/// model and a number of dimensions.
pub open spec fn built(c: CorpusConfigView, r: Result<Corpus, BuildError>) -> bool {
    &&& r is Ok <==> !c.embeddings || embeddable(c)
    &&& r matches Ok(corpus) ==> corpus.config@ == c && (corpus.embedder is Some <==> c.embeddings)
    &&& r matches Ok(corpus) ==> (corpus.embedder matches Some(e) ==> embed::slug(e.provider)
        == c.embed_provider->0 && e.model@ == c.embed_model->0 && e.dims == c.embed_dims->0)
    &&& r matches Err(e) ==> match e {
        BuildError::NoProvider => c.embed_provider is None,
        BuildError::NoModel => c.embed_provider is Some && c.embed_model is None,
        BuildError::NoDims => c.embed_provider is Some && c.embed_model is Some
            && c.embed_dims is None,
        BuildError::Unsupported(u) => c.embed_provider is Some && c.embed_model is Some
            && c.embed_dims is Some && u.provider@ == c.embed_provider->0,
    }
}

/// Builds the corpus of a repository from its configuration. Embeddings are on
/// by the configuration or by `embeddings_override`, which goes first.
pub fn build(config: CorpusConfig, embeddings_override: Option<bool>) -> (r: Result<
    Corpus,
    BuildError,
>)
    ensures
        built(overridden(config@, embeddings_override), r),
{
    let mut config = config;
    if let Some(on) = embeddings_override {
        config.embeddings = on;
    }
    if !config.embeddings {
        return Ok(Corpus { config, embedder: None });
    }
    let provider = match &config.embed_provider {
        Some(p) => p,
        None => { return Err(BuildError::NoProvider); },
    };
    let model = match &config.embed_model {
        Some(m) => m,
        None => { return Err(BuildError::NoModel); },
    };
    let dims = match config.embed_dims {
        Some(d) => d,
        None => { return Err(BuildError::NoDims); },
    };
    match RigEmbedder::from_config(provider.as_str(), model.as_str(), dims) {
        Ok(e) => Ok(Corpus { config, embedder: Some(e) }),
        Err(e) => Err(BuildError::Unsupported(e)),
    }
}

fn is_embeddable(config: &CorpusConfig) -> (r: bool)
    ensures
        r == embeddable(config@),
{
    match &config.embed_provider {
        Some(provider) => config.embed_model.is_some() && config.embed_dims.is_some()
            && Provider::parse(provider.as_str()).is_ok(),
        None => false,
    }
}

/// What a search asks for in place of the configured embeddings. A text search
/// needs no embedder. The other modes need one where vectors are stored, be they
/// of an index run that alone had embeddings on; else the configuration stands.
pub open spec fn search_override(
    mode: SearchMode,
    config: CorpusConfigView,
    vectors: Map<Seq<char>, Seq<u32>>,
) -> Option<bool> {
    if mode == SearchMode::Text {
        Some(false)
    } else if vectors != Map::<Seq<char>, Seq<u32>>::empty() && embeddable(config) {
        Some(true)
    } else {
        None
    }
}

/// Builds the corpus of a repository for a search.
pub fn build_for_search(config: CorpusConfig, mode: SearchMode, vectors: &VectorStore) -> (r:
    Result<Corpus, BuildError>)
    ensures
        built(overridden(config@, search_override(mode, config@, vectors@.vectors)), r),
{
    let asked = if mode == SearchMode::Text {
        Some(false)
    } else if !vectors.is_empty() && is_embeddable(&config) {
        Some(true)
    } else {
        None
    };
    build(config, asked)
}

/// To have indexed once with embeddings on is enough for a search with the
/// semantic lane: where vectors are stored and the configuration names an
/// embedder, a hybrid or semantic search has it, whether or not the
/// configuration has embeddings on.
pub proof fn law_indexing_once_is_enough(
    mode: SearchMode,
    config: CorpusConfigView,
    vectors: Map<Seq<char>, Seq<u32>>,
    r: Result<Corpus, BuildError>,
)
    requires
        mode != SearchMode::Text,
        vectors != Map::<Seq<char>, Seq<u32>>::empty(),
        embeddable(config),
        built(overridden(config, search_override(mode, config, vectors)), r),
    ensures
        r matches Ok(corpus) && corpus.embedder is Some,
{
    assert(embeddable(overridden(config, Some(true))));
}

impl Corpus {
    /// The globs of an index run: those that the call gives, else those of the
    /// configuration.
    pub fn globs(&self, given: Option<Vec<String>>) -> (r: Vec<String>)
        ensures
            text::texts(r@) == match given {
                Some(globs) => text::texts(globs@),
                None => self.config@.include_globs,
            },
    {
        match given {
            Some(globs) => globs,
            None => text::copy_strings(&self.config.include_globs),
        }
    }
}

// ── search ──────────────────────────────────────────────────────────────────
/// The longest snippet of a result, in characters.
pub const SNIPPET_CHARS: usize = 240;

/// What a search has to do.
#[derive(Debug, Clone, Copy, PartialEq, Eq)]
pub struct SearchPlan {
    /// How many hits each lane is asked for.
    pub fetch: usize,
    /// Whether the lexical lane is searched.
    pub text: bool,
    /// Whether the semantic lane is searched.
    pub semantic: bool,
}

/// How many hits each lane is asked for, so that a fusion has depth to work
/// with: four times the results wanted, modulo the machine word, but never
/// fewer than the results wanted.
pub open spec fn fetch_depth(k: int) -> int {
    let four = (k * 4) % (usize::MAX + 1);
    if four < k {
        k
    } else {
        four
    }
}

/// Plans a search for `k` results. There is nothing to do, and nothing to find,
/// where no chunk is stored.
pub fn plan_search(chunks: &ChunkStore, k: usize, mode: SearchMode) -> (r: Option<SearchPlan>)
    ensures
        r is None <==> chunks@ == Map::<Seq<char>, ChunkView>::empty(),
        r matches Some(plan) ==> plan.fetch == fetch_depth(k as int) && plan.text == (mode
            != SearchMode::Semantic) && plan.semantic == (mode != SearchMode::Text),
{
    if chunks.is_empty() {
        return None;
    }
    let four = k.wrapping_mul(4);
    let fetch = if four < k {
        k
    } else {
        four
    };
    Some(
        SearchPlan {
            fetch,
            text: mode != SearchMode::Semantic,
            semantic: mode != SearchMode::Text,
        },
    )
}

/// Whether the query is embedded: there has to be an embedder, and a vector to
/// compare with. Else the semantic lane is empty.
pub fn semantic_ready(embedder: bool, vectors: &VectorStore) -> (r: bool)
    ensures
        r <==> embedder && vectors@.vectors != Map::<Seq<char>, Seq<u32>>::empty(),
{
    embedder && !vectors.is_empty()
}

/// The ids of scored ids.
pub open spec fn scored_ids(s: Seq<(Seq<char>, u32)>) -> Seq<Seq<char>> {
    s.map_values(|e: (Seq<char>, u32)| e.0)
}

/// Drops the scores.
fn without_scores(scored: &Vec<Scored>) -> (r: Vec<String>)
    ensures
        text::texts(r@) == scored_ids(search::scored_views(scored@)),
{
    let ghost all = scored_ids(search::scored_views(scored@));
    let mut r: Vec<String> = Vec::new();
    let mut i: usize = 0;
    while i < scored.len()
        invariant
            i <= scored@.len(),
            all == scored_ids(search::scored_views(scored@)),
            text::texts(r@) == all.take(i as int),
        decreases scored@.len() - i,
    {
        let ghost before = text::texts(r@);
        r.push(scored[i].id.clone());
        assert(text::texts(r@) =~= before.push(all[i as int]));
        assert(all.take(i + 1) =~= all.take(i as int).push(all[i as int]));
        i = i + 1;
    }
    assert(all.take(i as int) =~= all);
    r
}

/// The semantic lane: the ids of the `k` vectors most similar to the query, the
/// most similar first. `similarities` is as for [`VectorStore::knn`].
pub fn semantic_ids(vectors: &VectorStore, similarities: &Vec<u32>, k: usize) -> (r: Vec<String>)
    requires
        similarities@.len() == vectors.vectors.keys().len(),
    ensures
        text::texts(r@) == scored_ids(
            store::nearest(vectors.vectors.keys(), similarities@, k as nat),
        ),
{
    without_scores(&vectors.knn(similarities, k))
}

/// Semantic search was asked for where there is no embedder.
#[derive(Debug, Clone, Copy, PartialEq, Eq)]
pub struct SemanticUnavailable {}

impl SemanticUnavailable {
    /// The message for the caller.
    pub fn message(&self) -> (r: String)
        ensures
            r@
                == "semantic search requires embeddings to be enabled and an index built with embeddings (run corpus_index with embeddings: true)"@,
    {
        "semantic search requires embeddings to be enabled and an index built with embeddings (run corpus_index with embeddings: true)".to_owned()
    }
}

/// The ranking that the lanes of a search give.
#[derive(Debug, PartialEq, Eq)]
pub enum Ranking {
    /// The ids in order.
    Ids(Vec<String>),
    /// The candidates of a fusion. Scored, they are ranked by
    /// [`fused_ids`].
    Fuse(Vec<FusionCandidate>),
}

/// Ranks the hits of the lanes. A hybrid search without semantic hits falls
/// back to the lexical lane.
pub fn rank_lanes(
    mode: SearchMode,
    text_ids: Vec<String>,
    semantic_ids: Vec<String>,
    embedder: bool,
) -> (r: Result<Ranking, SemanticUnavailable>)
    ensures
        r is Err <==> mode == SearchMode::Semantic && semantic_ids@.len() == 0 && !embedder,
        r matches Ok(ranking) ==> match mode {
            SearchMode::Text => ranking == Ranking::Ids(text_ids),
            SearchMode::Semantic => ranking == Ranking::Ids(semantic_ids),
            SearchMode::Hybrid => if semantic_ids@.len() == 0 {
                ranking == Ranking::Ids(text_ids)
            } else {
                ranking matches Ranking::Fuse(candidates) && search::candidate_views(candidates@)
                    == search::fusion(seq![text::texts(text_ids@), text::texts(semantic_ids@)])
            },
        },
{
    if mode == SearchMode::Semantic && semantic_ids.len() == 0 && !embedder {
        return Err(SemanticUnavailable {  });
    }
    match mode {
        SearchMode::Text => Ok(Ranking::Ids(text_ids)),
        SearchMode::Semantic => Ok(Ranking::Ids(semantic_ids)),
        SearchMode::Hybrid => {
            if semantic_ids.len() == 0 {
                Ok(Ranking::Ids(text_ids))
            } else {
                let ghost views = seq![text::texts(text_ids@), text::texts(semantic_ids@)];
                let mut lists: Vec<Vec<String>> = Vec::new();
                lists.push(text_ids);
                lists.push(semantic_ids);
                assert(search::list_views(lists@) =~= views);
                Ok(Ranking::Fuse(search::fusion_candidates(&lists)))
            }
        },
    }
}

/// The ids of fused candidates by descending score; equal scores keep their
/// order.
pub fn fused_ids(scored: Vec<Scored>) -> (r: Vec<String>)
    ensures
        text::texts(r@) == scored_ids(search::ranked(search::scored_views(scored@))),
{
    without_scores(&search::rank_by_score(scored))
}

/// The result for a chunk at a place of the ranking.
pub open spec fn result_of(c: ChunkView, rank: nat) -> SearchResultView {
    SearchResultView {
        path: c.path,
        heading_path: c.heading_path,
        snippet: search::snippet_of(c.text, SNIPPET_CHARS as nat),
        rank,
    }
}

/// The results for ranked ids. An id without a chunk gives none, but keeps its
/// place.
pub open spec fn results_for(
    ids: Seq<Seq<char>>,
    chunks: Map<Seq<char>, ChunkView>,
) -> Seq<SearchResultView>
    decreases ids.len(),
{
    if ids.len() == 0 {
        Seq::empty()
    } else {
        let front = results_for(ids.drop_last(), chunks);
        if chunks.contains_key(ids.last()) {
            front.push(result_of(chunks[ids.last()], (ids.len() - 1) as nat))
        } else {
            front
        }
    }
}

/// The first `k` of `ids`; all where there are fewer.
pub open spec fn first_k(ids: Seq<Seq<char>>, k: nat) -> Seq<Seq<char>> {
    if k < ids.len() {
        ids.take(k as int)
    } else {
        ids
    }
}

/// The results of a search: those for the first `k` ranked ids.
pub fn results(ranked: &Vec<String>, k: usize, chunks: &ChunkStore) -> (r: Vec<SearchResult>)
    ensures
        search::result_views(r@) == results_for(
            first_k(text::texts(ranked@), k as nat),
            chunks@,
        ),
{
    let ghost top = first_k(text::texts(ranked@), k as nat);
    let n: usize = if k < ranked.len() {
        k
    } else {
        ranked.len()
    };
    let mut r: Vec<SearchResult> = Vec::new();
    let mut i: usize = 0;
    assert(search::result_views(r@) =~= results_for(top.take(0), chunks@));
    while i < n
        invariant
            i <= n,
            n <= ranked@.len(),
            n == top.len(),
            forall|j: int| 0 <= j < n ==> #[trigger] top[j] == ranked@[j]@,
            search::result_views(r@) == results_for(top.take(i as int), chunks@),
        decreases n - i,
    {
        let ghost before = search::result_views(r@);
        assert(top.take(i + 1).drop_last() =~= top.take(i as int));
        assert(top.take(i + 1).last() == top[i as int]);
        if let Some(c) = chunks.get(ranked[i].as_str()) {
            let result = SearchResult {
                path: c.path.clone(),
                heading_path: text::copy_strings(&c.heading_path),
                snippet: search::snippet(c.text.as_str(), SNIPPET_CHARS),
                rank: i,
            };
            r.push(result);
            assert(search::result_views(r@) =~= before.push(result@));
            assert(result@ =~= result_of(c@, i as nat));
        }
        i = i + 1;
    }
    assert(top.take(i as int) =~= top);
    r
}

fn copy_vector(v: &Vec<u32>) -> (r: Vec<u32>)
    ensures
        r@ == v@,
{
    let r = v.clone();
    assert(r@ =~= v@);
    r
}

// ── what the steps do ───────────────────────────────────────────────────────
/// A file that is indexed has its path, the hash of its bytes and the chunks of
/// its decoded text.
pub proof fn law_pending(relpath: Seq<char>, bytes: Seq<u8>)
    ensures
        pending(relpath, bytes).relpath == relpath,
        pending(relpath, bytes).hash == manifest::blake3_hex(bytes),
        pending(relpath, bytes).chunks == chunk::file_chunks(relpath, utf8_lossy(bytes)),
{
}

/// A run starts with nothing counted and with the stores as they are, except
/// where it cannot go on from them: vectors of another model or of another
/// number of dimensions are dropped, and where no file is recorded so are all
/// chunks and vectors.
pub proof fn law_started(
    m: Map<Seq<char>, FileEntryView>,
    chunks: Map<Seq<char>, ChunkView>,
    vectors: VectorStoreView,
    model: Seq<char>,
    dims: nat,
)
    ensures
        ({
            let none = Map::<Seq<char>, FileEntryView>::empty();
            let off = started(m, chunks, vectors, None);
            let on = started(m, chunks, vectors, Some((model, dims)));
            &&& off.manifest == m
            &&& on.manifest == m
            &&& m != none ==> off.chunks == chunks && on.chunks == chunks && off.vectors == vectors
            &&& m == none ==> off.chunks == Map::<Seq<char>, ChunkView>::empty() && on.chunks
                == Map::<Seq<char>, ChunkView>::empty()
            &&& m == none ==> off.vectors.vectors == Map::<Seq<char>, Seq<u32>>::empty()
                && off.vectors.model is None && off.vectors.dims == 0
            &&& m == none ==> on.vectors.vectors == Map::<Seq<char>, Seq<u32>>::empty()
            &&& on.vectors.model == Some(model)
            &&& on.vectors.dims == dims
            &&& m != none && vectors.model == Some(model) && vectors.dims == dims ==> on.vectors
                == vectors
            &&& vectors.model != Some(model) || vectors.dims != dims ==> on.vectors.vectors == Map::<
                Seq<char>,
                Seq<u32>,
            >::empty()
            &&& off.report.indexed == 0 && off.report.skipped_unchanged == 0 && off.report.removed
                == 0 && off.report.chunks == 0 && off.report.embedded == 0
            &&& on.report == off.report
        }),
{
}

/// Dropping a file takes its entry away, and the chunks and vectors of the ids
/// recorded for it; every other file, chunk and vector stays.
pub proof fn law_dropped(s: RunView, relpath: Seq<char>)
    ensures
        ({
            let r = dropped(s, relpath);
            let ids = if s.manifest.contains_key(relpath) {
                s.manifest[relpath].chunk_ids
            } else {
                Seq::empty()
            };
            &&& forall|p: Seq<char>| #[trigger]
                r.manifest.contains_key(p) <==> p != relpath && s.manifest.contains_key(p)
            &&& forall|p: Seq<char>| #[trigger]
                r.manifest.contains_key(p) ==> r.manifest[p] == s.manifest[p]
            &&& forall|id: Seq<char>| #[trigger]
                r.chunks.contains_key(id) <==> !ids.contains(id) && s.chunks.contains_key(id)
            &&& forall|id: Seq<char>| #[trigger]
                r.chunks.contains_key(id) ==> r.chunks[id] == s.chunks[id]
            &&& forall|id: Seq<char>| #[trigger]
                r.vectors.vectors.contains_key(id) <==> !ids.contains(id)
                    && s.vectors.vectors.contains_key(id)
            &&& forall|id: Seq<char>| #[trigger]
                r.vectors.vectors.contains_key(id) ==> r.vectors.vectors[id]
                    == s.vectors.vectors[id]
            &&& r.vectors.model == s.vectors.model
            &&& r.vectors.dims == s.vectors.dims
            &&& r.report == s.report
        }),
{
}

/// Chunks and vectors are put in one after another, each under its own id; the
/// last one under an id stays.
pub proof fn law_put_in(
    store: Map<Seq<char>, ChunkView>,
    vector_store: Map<Seq<char>, Seq<u32>>,
    chunks: Seq<ChunkView>,
    vectors: Seq<Seq<u32>>,
    chunk: ChunkView,
    vector: Seq<u32>,
)
    requires
        chunks.len() == vectors.len(),
    ensures
        with_chunks(store, Seq::empty()) == store,
        with_chunks(store, chunks.push(chunk)) == with_chunks(store, chunks).insert(
            chunk.id,
            chunk,
        ),
        with_vectors(vector_store, Seq::empty(), Seq::empty()) == vector_store,
        with_vectors(vector_store, chunks.push(chunk), vectors.push(vector)) == with_vectors(
            vector_store,
            chunks,
            vectors,
        ).insert(chunk.id, vector),
{
    assert(chunks.push(chunk).drop_last() =~= chunks);
    lemma_vectors_prefix(vector_store, chunks, vectors, vectors.push(vector));
}

proof fn lemma_vectors_prefix(
    store: Map<Seq<char>, Seq<u32>>,
    chunks: Seq<ChunkView>,
    a: Seq<Seq<u32>>,
    b: Seq<Seq<u32>>,
)
    requires
        a.len() >= chunks.len(),
        b.len() >= chunks.len(),
        forall|i: int| 0 <= i < chunks.len() ==> #[trigger] a[i] == b[i],
    ensures
        with_vectors(store, chunks, a) == with_vectors(store, chunks, b),
    decreases chunks.len(),
{
    if chunks.len() > 0 {
        lemma_vectors_prefix(store, chunks.drop_last(), a, b);
        assert(a[chunks.len() - 1] == b[chunks.len() - 1]);
    }
}

/// After chunks with distinct ids are put in, each is found under its id, with
/// its own vector, and everything under another id is as before.
pub proof fn law_found_again(
    store: Map<Seq<char>, ChunkView>,
    vector_store: Map<Seq<char>, Seq<u32>>,
    chunks: Seq<ChunkView>,
    vectors: Seq<Seq<u32>>,
)
    requires
        chunks.len() == vectors.len(),
        forall|i: int, j: int|
            0 <= i < j < chunks.len() ==> (#[trigger] chunks[i]).id != (#[trigger] chunks[j]).id,
    ensures
        forall|i: int|
            0 <= i < chunks.len() ==> with_chunks(store, chunks).contains_key(
                (#[trigger] chunks[i]).id,
            ) && with_chunks(store, chunks)[chunks[i].id] == chunks[i],
        forall|i: int|
            0 <= i < chunks.len() ==> with_vectors(vector_store, chunks, vectors).contains_key(
                (#[trigger] chunks[i]).id,
            ) && with_vectors(vector_store, chunks, vectors)[chunks[i].id] == vectors[i],
        forall|id: Seq<char>|
            (forall|i: int| 0 <= i < chunks.len() ==> (#[trigger] chunks[i]).id != id) ==> (
            #[trigger] with_chunks(store, chunks).contains_key(id) <==> store.contains_key(id))
                && with_chunks(store, chunks)[id] == store[id],
        forall|id: Seq<char>|
            (forall|i: int| 0 <= i < chunks.len() ==> (#[trigger] chunks[i]).id != id) ==> (
            #[trigger] with_vectors(vector_store, chunks, vectors).contains_key(id)
                <==> vector_store.contains_key(id)) && with_vectors(
                vector_store,
                chunks,
                vectors,
            )[id] == vector_store[id],
    decreases chunks.len(),
{
    if chunks.len() > 0 {
        let front = chunks.drop_last();
        let last = chunks.last();
        let rest = vectors.drop_last();
        assert forall|i: int, j: int| 0 <= i < j < front.len() implies (#[trigger] front[i]).id != (
        #[trigger] front[j]).id by {
            assert(chunks[i].id != chunks[j].id);
        }
        law_found_again(store, vector_store, front, rest);
        lemma_vectors_prefix(vector_store, front, rest, vectors);
        let put = with_chunks(store, chunks);
        let put_vectors = with_vectors(vector_store, chunks, vectors);
        assert forall|i: int| 0 <= i < chunks.len() implies put.contains_key(
            (#[trigger] chunks[i]).id,
        ) && put[chunks[i].id] == chunks[i] && put_vectors.contains_key(chunks[i].id)
            && put_vectors[chunks[i].id] == vectors[i] by {
            if i < front.len() {
                assert(front[i] == chunks[i]);
                assert(chunks[i].id != chunks[chunks.len() - 1].id);
            }
        }
        assert forall|id: Seq<char>|
            (forall|i: int| 0 <= i < chunks.len() ==> (#[trigger] chunks[i]).id != id) implies (
        #[trigger] put.contains_key(id) <==> store.contains_key(id)) && put[id] == store[id] by {
            assert(chunks[chunks.len() - 1].id != id);
            assert forall|i: int| 0 <= i < front.len() implies (#[trigger] front[i]).id != id by {
                assert(chunks[i].id != id);
            }
            assert(with_chunks(store, front).contains_key(id) <==> store.contains_key(id));
        }
        assert forall|id: Seq<char>|
            (forall|i: int| 0 <= i < chunks.len() ==> (#[trigger] chunks[i]).id != id) implies (
        #[trigger] put_vectors.contains_key(id) <==> vector_store.contains_key(id))
            && put_vectors[id] == vector_store[id] by {
            assert(chunks[chunks.len() - 1].id != id);
            assert forall|i: int| 0 <= i < front.len() implies (#[trigger] front[i]).id != id by {
                assert(chunks[i].id != id);
            }
            assert(with_vectors(vector_store, front, rest).contains_key(id)
                <==> vector_store.contains_key(id));
        }
    }
}

/// Recording a file gives it an entry with its hash and the ids of all its
/// chunks, in order, and leaves every other entry; the chunks are put in, and
/// the vectors where there are any. The file is counted once, and its chunks
/// where they were embedded.
pub proof fn law_recorded(s: RunView, file: PendingFileView, vectors: Option<Seq<Seq<u32>>>)
    requires
        s.report.indexed < usize::MAX,
        s.report.embedded + file.chunks.len() <= usize::MAX,
    ensures
        ({
            let r = recorded(s, file, vectors);
            &&& r.manifest.contains_key(file.relpath)
            &&& r.manifest[file.relpath].hash == file.hash
            &&& r.manifest[file.relpath].chunk_ids.len() == file.chunks.len()
            &&& forall|i: int|
                0 <= i < file.chunks.len() ==> #[trigger] r.manifest[file.relpath].chunk_ids[i]
                    == file.chunks[i].id
            &&& forall|p: Seq<char>|
                p != file.relpath ==> (#[trigger] r.manifest.contains_key(p)
                    <==> s.manifest.contains_key(p)) && r.manifest[p] == s.manifest[p]
            &&& r.chunks == with_chunks(s.chunks, file.chunks)
            &&& r.vectors.model == s.vectors.model
            &&& r.vectors.dims == s.vectors.dims
            &&& vectors is None ==> r.vectors.vectors == s.vectors.vectors
            &&& vectors matches Some(v) ==> r.vectors.vectors == with_vectors(
                s.vectors.vectors,
                file.chunks,
                v,
            )
            &&& r.report.indexed == s.report.indexed + 1
            &&& vectors is None ==> r.report.embedded == s.report.embedded
            &&& vectors is Some ==> r.report.embedded == s.report.embedded + file.chunks.len()
            &&& r.report.skipped_unchanged == s.report.skipped_unchanged
            &&& r.report.removed == s.report.removed
            &&& r.report.chunks == s.report.chunks
        }),
{
}

/// The ids of chunks are theirs, one for one.
pub proof fn law_ids_of(chunks: Seq<ChunkView>)
    ensures
        ids_of(chunks).len() == chunks.len(),
        forall|i: int| 0 <= i < chunks.len() ==> #[trigger] ids_of(chunks)[i] == chunks[i].id,
{
}

/// Whether one of these files is recorded with this chunk id.
pub open spec fn records(
    m: Map<Seq<char>, FileEntryView>,
    relpaths: Seq<Seq<char>>,
    id: Seq<char>,
) -> bool {
    exists|i: int|
        0 <= i < relpaths.len() && m.contains_key(#[trigger] relpaths[i])
            && m[relpaths[i]].chunk_ids.contains(id)
}

/// Dropping files one by one takes away exactly their entries, and the chunks
/// and vectors of the ids recorded for one of them; each is counted once.
pub proof fn law_cleared(s: RunView, relpaths: Seq<Seq<char>>)
    requires
        s.report.removed + relpaths.len() <= usize::MAX,
    ensures
        ({
            let r = cleared(s, relpaths);
            &&& forall|p: Seq<char>| #[trigger]
                r.manifest.contains_key(p) <==> !relpaths.contains(p) && s.manifest.contains_key(p)
            &&& forall|p: Seq<char>| #[trigger]
                r.manifest.contains_key(p) ==> r.manifest[p] == s.manifest[p]
            &&& forall|id: Seq<char>| #[trigger]
                r.chunks.contains_key(id) <==> !records(s.manifest, relpaths, id)
                    && s.chunks.contains_key(id)
            &&& forall|id: Seq<char>| #[trigger]
                r.chunks.contains_key(id) ==> r.chunks[id] == s.chunks[id]
            &&& forall|id: Seq<char>| #[trigger]
                r.vectors.vectors.contains_key(id) <==> !records(s.manifest, relpaths, id)
                    && s.vectors.vectors.contains_key(id)
            &&& forall|id: Seq<char>| #[trigger]
                r.vectors.vectors.contains_key(id) ==> r.vectors.vectors[id]
                    == s.vectors.vectors[id]
            &&& r.vectors.model == s.vectors.model
            &&& r.vectors.dims == s.vectors.dims
            &&& r.report.removed == s.report.removed + relpaths.len()
            &&& r.report.indexed == s.report.indexed
            &&& r.report.skipped_unchanged == s.report.skipped_unchanged
            &&& r.report.chunks == s.report.chunks
            &&& r.report.embedded == s.report.embedded
        }),
    decreases relpaths.len(),
{
    let r = cleared(s, relpaths);
    if relpaths.len() > 0 {
        let front = relpaths.drop_last();
        let last = relpaths.last();
        let before = cleared(s, front);
        law_cleared(s, front);
        law_dropped(before, last);
        assert(relpaths[relpaths.len() - 1] == last);
        assert forall|p: Seq<char>| #[trigger] relpaths.contains(p) <==> front.contains(p) || p
            == last by {
            if front.contains(p) {
                let i = front.index_of(p);
                assert(relpaths[i] == p);
            }
            if relpaths.contains(p) && p != last {
                let i = relpaths.index_of(p);
                assert(front[i] == p);
            }
        }
        assert forall|id: Seq<char>| #[trigger] records(s.manifest, relpaths, id) <==> records(
            s.manifest,
            front,
            id,
        ) || (before.manifest.contains_key(last) && before.manifest[last].chunk_ids.contains(
            id,
        )) by {
            if records(s.manifest, front, id) {
                let i = choose|i: int|
                    0 <= i < front.len() && s.manifest.contains_key(#[trigger] front[i])
                        && s.manifest[front[i]].chunk_ids.contains(id);
                assert(relpaths[i] == front[i]);
            }
            if records(s.manifest, relpaths, id) {
                let i = choose|i: int|
                    0 <= i < relpaths.len() && s.manifest.contains_key(#[trigger] relpaths[i])
                        && s.manifest[relpaths[i]].chunk_ids.contains(id);
                if i < front.len() {
                    assert(front[i] == relpaths[i]);
                } else if front.contains(last) {
                    let k = front.index_of(last);
                    assert(s.manifest.contains_key(front[k]));
                }
            }
        }
    }
}

/// A run ends with its chunks counted; a vector store with a vector in it stays
/// as it is, and one without has no model. Nothing else changes.
pub proof fn law_finished(s: RunView)
    requires
        s.chunks.len() <= usize::MAX,
    ensures
        ({
            let r = finished(s);
            &&& r.manifest == s.manifest
            &&& r.chunks == s.chunks
            &&& s.vectors.vectors.dom() != Set::<Seq<char>>::empty() ==> r.vectors == s.vectors
            &&& s.vectors.vectors.dom() == Set::<Seq<char>>::empty() ==> r.vectors.vectors.dom()
                == Set::<Seq<char>>::empty() && r.vectors.model is None && r.vectors.dims == 0
            &&& r.report.chunks == s.chunks.len()
            &&& r.report.indexed == s.report.indexed
            &&& r.report.skipped_unchanged == s.report.skipped_unchanged
            &&& r.report.removed == s.report.removed
            &&& r.report.embedded == s.report.embedded
        }),
{
    let none = Map::<Seq<char>, Seq<u32>>::empty();
    if s.vectors.vectors.dom() == Set::<Seq<char>>::empty() {
        assert(s.vectors.vectors =~= none);
    } else {
        assert(none.dom() =~= Set::<Seq<char>>::empty());
    }
}

/// The text that is embedded for a chunk is its body, all of it; under headings
/// these stand before it, outermost first, with a sign between neighbours and a
/// blank line behind them.
pub proof fn law_embed_text(c: ChunkView, heading: Seq<char>)
    ensures
        c.heading_path.len() == 0 ==> embed_text(c) == c.text,
        c.heading_path.len() == 0 ==> embed_text(
            ChunkView { heading_path: seq![heading], ..c },
        ) == heading + seq!['\n', '\n'] + c.text,
        c.heading_path.len() > 0 ==> ({
            let more = ChunkView { heading_path: c.heading_path.push(heading), ..c };
            let path = embed_text(c).take(embed_text(c).len() - c.text.len() - 2);
            &&& embed_text(c) == path + seq!['\n', '\n'] + c.text
            &&& embed_text(more) == path + seq![' ', '>', ' '] + heading + seq!['\n', '\n'] + c.text
        }),
{
    reveal_strlit(" > ");
    reveal_strlit("\n\n");
    assert(" > "@ =~= seq![' ', '>', ' ']);
    assert("\n\n"@ =~= seq!['\n', '\n']);
    if c.heading_path.len() > 0 {
        let more = c.heading_path.push(heading);
        assert(more.drop_last() =~= c.heading_path);
        let path = embed_text(c).take(embed_text(c).len() - c.text.len() - 2);
        assert(path =~= text::joined(c.heading_path, " > "@));
    }
}

/// A call that asks for embeddings or against them decides that, and nothing
/// else; one that does not leaves the configuration as it is.
pub proof fn law_overridden(config: CorpusConfigView, on: bool)
    ensures
        overridden(config, None) == config,
        overridden(config, Some(on)).embeddings == on,
        overridden(config, Some(on)).include_globs == config.include_globs,
        overridden(config, Some(on)).embed_provider == config.embed_provider,
        overridden(config, Some(on)).embed_model == config.embed_model,
        overridden(config, Some(on)).embed_dims == config.embed_dims,
{
}

/// Without embeddings a corpus is built whatever else is configured, and has no
/// embedder. With embeddings it needs one of the four providers, a model and a
/// number of dimensions, and has the embedder of these; what is missing first
/// is the error.
pub proof fn law_built(c: CorpusConfigView, r: Result<Corpus, BuildError>)
    requires
        built(c, r),
    ensures
        r matches Ok(corpus) ==> corpus.config@ == c,
        !c.embeddings ==> (r matches Ok(corpus) && corpus.embedder is None),
        c.embeddings && c.embed_provider is None ==> r == Err::<Corpus, _>(BuildError::NoProvider),
        c.embeddings && c.embed_provider is Some && c.embed_model is None ==> r == Err::<Corpus, _>(
            BuildError::NoModel,
        ),
        c.embeddings && c.embed_provider is Some && c.embed_model is Some && c.embed_dims is None
            ==> r == Err::<Corpus, _>(BuildError::NoDims),
        c.embeddings && c.embed_provider is Some && c.embed_model is Some && c.embed_dims is Some
            ==> {
            let name = c.embed_provider->0;
            if name == "openai"@ || name == "gemini"@ || name == "ollama"@ || name == "openrouter"@ {
                &&& r is Ok
                &&& r->Ok_0.embedder is Some
                &&& embed::slug(r->Ok_0.embedder->0.provider) == name
                &&& r->Ok_0.embedder->0.model@ == c.embed_model->0
                &&& r->Ok_0.embedder->0.dims == c.embed_dims->0
            } else {
                r matches Err(BuildError::Unsupported(e)) && e.provider@ == name
            }
        },
{
    assert(embed::slug(Provider::OpenAi) == "openai"@);
    assert(embed::slug(Provider::Gemini) == "gemini"@);
    assert(embed::slug(Provider::Ollama) == "ollama"@);
    assert(embed::slug(Provider::OpenRouter) == "openrouter"@);
    if c.embeddings && embeddable(c) {
        let p = choose|p: Provider| #[trigger] embed::slug(p) == c.embed_provider->0;
        assert(p == Provider::OpenAi || p == Provider::Gemini || p == Provider::Ollama || p
            == Provider::OpenRouter);
    }
}

/// A text search asks for no embedder. Any other asks for one where a vector is
/// stored and the configuration names one, and leaves it to the configuration
/// otherwise.
pub proof fn law_search_override(
    mode: SearchMode,
    config: CorpusConfigView,
    vectors: Map<Seq<char>, Seq<u32>>,
)
    ensures
        search_override(SearchMode::Text, config, vectors) == Some(false),
        mode != SearchMode::Text && vectors.dom() == Set::<Seq<char>>::empty() ==> search_override(
            mode,
            config,
            vectors,
        ) is None,
        mode != SearchMode::Text && vectors.dom() != Set::<Seq<char>>::empty() ==> search_override(
            mode,
            config,
            vectors,
        ) == if embeddable(config) {
            Some(true)
        } else {
            None
        },
        embeddable(config) <==> config.embed_model is Some && config.embed_dims is Some && (
        config.embed_provider == Some("openai"@) || config.embed_provider == Some("gemini"@)
            || config.embed_provider == Some("ollama"@) || config.embed_provider == Some(
            "openrouter"@,
        )),
{
    let none = Map::<Seq<char>, Seq<u32>>::empty();
    if vectors.dom() == Set::<Seq<char>>::empty() {
        assert(vectors =~= none);
    } else {
        assert(none.dom() =~= Set::<Seq<char>>::empty());
    }
    assert(embed::slug(Provider::OpenAi) == "openai"@);
    assert(embed::slug(Provider::Gemini) == "gemini"@);
    assert(embed::slug(Provider::Ollama) == "ollama"@);
    assert(embed::slug(Provider::OpenRouter) == "openrouter"@);
    if embeddable(config) {
        let p = choose|p: Provider| #[trigger] embed::slug(p) == config.embed_provider->0;
        assert(p == Provider::OpenAi || p == Provider::Gemini || p == Provider::Ollama || p
            == Provider::OpenRouter);
    }
}

/// Each lane is asked for four times the results wanted where that number
/// exists, and for no fewer than are wanted in any case.
pub proof fn law_fetch_depth(k: int)
    requires
        0 <= k <= usize::MAX,
    ensures
        k <= fetch_depth(k) <= usize::MAX,
        k * 4 <= usize::MAX ==> fetch_depth(k) == k * 4,
        fetch_depth(k) == k || fetch_depth(k) == (k * 4) % (usize::MAX + 1),
{
    if k * 4 <= usize::MAX {
        vstd::arithmetic::div_mod::lemma_small_mod((k * 4) as nat, (usize::MAX + 1) as nat);
    }
}

/// One ranked id more gives one result more where it has a chunk: that of the
/// chunk, with the place of the id as its rank, its path and all its headings,
/// and a snippet of its text within 240 characters. The results before it stay.
pub proof fn law_one_more_result(
    ids: Seq<Seq<char>>,
    id: Seq<char>,
    chunks: Map<Seq<char>, ChunkView>,
)
    ensures
        results_for(Seq::empty(), chunks) == Seq::<SearchResultView>::empty(),
        !chunks.contains_key(id) ==> results_for(ids.push(id), chunks) == results_for(ids, chunks),
        chunks.contains_key(id) ==> results_for(ids.push(id), chunks) == results_for(
            ids,
            chunks,
        ).push(
            SearchResultView {
                path: chunks[id].path,
                heading_path: chunks[id].heading_path,
                snippet: search::snippet_of(chunks[id].text, 240),
                rank: ids.len(),
            },
        ),
{
    assert(ids.push(id).drop_last() =~= ids);
}

/// The first of some ids are as many as are asked for, or all where there are
/// fewer, and they stand at the start.
pub proof fn law_first_k(ids: Seq<Seq<char>>, k: nat)
    ensures
        first_k(ids, k).is_prefix_of(ids),
        ids.len() <= k ==> first_k(ids, k) == ids,
        ids.len() > k ==> first_k(ids, k).len() == k,
{
}

/// The ids of scored ids are theirs, one for one.
pub proof fn law_scored_ids(s: Seq<(Seq<char>, u32)>)
    ensures
        scored_ids(s).len() == s.len(),
        forall|i: int| 0 <= i < s.len() ==> #[trigger] scored_ids(s)[i] == s[i].0,
{
}

/// The views of a run and of what it takes in and hands out hold these whole.
pub proof fn law_run_views(
    run: IndexRun,
    file: PendingFile,
    embedder: Option<(String, usize)>,
    vectors: Seq<Vec<u32>>,
    given: Option<Vec<Vec<u32>>>,
)
    ensures
        run@.manifest == run.manifest@,
        run@.chunks == run.chunks@,
        run@.vectors == run.vectors@,
        run@.report == run.report,
        file@.relpath == file.relpath@,
        file@.hash == file.hash@,
        file@.chunks == chunk::chunk_views(file.chunks@),
        embedder_view(embedder) is Some <==> embedder is Some,
        embedder matches Some(e) ==> embedder_view(embedder) == Some((e.0@, e.1 as nat)),
        vector_views(vectors).len() == vectors.len(),
        forall|i: int| 0 <= i < vectors.len() ==> #[trigger] vector_views(vectors)[i] == vectors[i]@,
        opt_vectors(given) is Some <==> given is Some,
        given matches Some(v) ==> opt_vectors(given)->0 == vector_views(v@),
{
}

} // verus!
