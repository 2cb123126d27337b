//! What index runs keep true of the stores.
//!
//! Between runs the manifest, the chunk store, the vector store and the lexical
//! index agree with each other; every step of a run keeps them so. A file that
//! is not changed is left alone, one that is gone leaves nothing behind.

use vstd::prelude::*;

use crate::chunk::ChunkView;
use crate::corpus::{IndexReport, RunView};
use crate::index::IndexDocumentView;
use crate::manifest::FileEntryView;
use crate::store::VectorStoreView;
use crate::{chunk, corpus, index, manifest, ordered, search, store};

verus! {

// ── agreement of the stores ─────────────────────────────────────────────────
/// Whether the manifest has an `i`-th chunk for this file.
pub open spec fn listed(m: Map<Seq<char>, FileEntryView>, relpath: Seq<char>, i: int) -> bool {
    m.contains_key(relpath) && 0 <= i < m[relpath].chunk_ids.len()
}

/// Whether the stores agree: the chunks that the manifest lists carry the ids
/// `<relpath>#<ordinal>` and are in the chunk store under them, with the path of
/// their file; the chunk store holds no others; and every vector is that of a
/// chunk.
pub open spec fn reconciled(s: RunView) -> bool {
    &&& forall|relpath: Seq<char>, i: int| #[trigger]
        listed(s.manifest, relpath, i) ==> s.manifest[relpath].chunk_ids[i] == chunk::chunk_id(
            relpath,
            i as nat,
        ) && s.chunks.contains_key(chunk::chunk_id(relpath, i as nat)) && s.chunks[chunk::chunk_id(
            relpath,
            i as nat,
        )].id == chunk::chunk_id(relpath, i as nat) && s.chunks[chunk::chunk_id(
            relpath,
            i as nat,
        )].path == relpath
    &&& forall|id: Seq<char>| #[trigger]
        s.chunks.contains_key(id) ==> exists|relpath: Seq<char>, i: int| #[trigger]
            listed(s.manifest, relpath, i) && id == chunk::chunk_id(relpath, i as nat)
    &&& forall|id: Seq<char>| #[trigger]
        s.vectors.vectors.contains_key(id) ==> s.chunks.contains_key(id)
}

/// A run starts with stores that agree, where those of the last run did. Where
/// no file is recorded, it does whatever the other stores held, and an emptied
/// lexical index mirrors them.
pub proof fn law_start_reconciled(s: RunView, embedder: Option<(Seq<char>, nat)>)
    requires
        reconciled(s) || s.manifest == Map::<Seq<char>, FileEntryView>::empty(),
    ensures
        reconciled(corpus::started(s.manifest, s.chunks, s.vectors, embedder)),
        s.manifest == Map::<Seq<char>, FileEntryView>::empty() ==> index::mirrors(
            Seq::empty(),
            corpus::started(s.manifest, s.chunks, s.vectors, embedder).chunks,
        ),
{
    let t = corpus::started(s.manifest, s.chunks, s.vectors, embedder);
    if s.manifest != Map::<Seq<char>, FileEntryView>::empty() {
        assert(t.manifest == s.manifest && t.chunks == s.chunks);
        assert forall|id: Seq<char>| #[trigger]
            t.vectors.vectors.contains_key(id) implies t.chunks.contains_key(id) by {
            assert(s.vectors.vectors.contains_key(id));
        }
    }
}

proof fn lemma_recorded_ids(s: RunView, relpath: Seq<char>, id: Seq<char>)
    requires
        reconciled(s),
    ensures
        corpus::recorded_ids(s.manifest, relpath).to_set().contains(id) <==> exists|i: int|
            #[trigger] listed(s.manifest, relpath, i) && id == chunk::chunk_id(relpath, i as nat),
{
    let ids = corpus::recorded_ids(s.manifest, relpath);
    if ids.to_set().contains(id) {
        let i = ids.index_of(id);
        assert(listed(s.manifest, relpath, i));
    }
    if exists|i: int| #[trigger]
        listed(s.manifest, relpath, i) && id == chunk::chunk_id(relpath, i as nat) {
        let i = choose|i: int| #[trigger]
            listed(s.manifest, relpath, i) && id == chunk::chunk_id(relpath, i as nat);
        assert(ids[i] == id);
    }
}

/// Dropping a file keeps the stores in agreement, leaves no chunk of the file,
/// and touches no other file's chunks.
pub proof fn law_dropped(s: RunView, relpath: Seq<char>)
    requires
        reconciled(s),
    ensures
        reconciled(corpus::dropped(s, relpath)),
        !corpus::dropped(s, relpath).manifest.contains_key(relpath),
        forall|id: Seq<char>| #[trigger]
            corpus::dropped(s, relpath).chunks.contains_key(id) <==> s.chunks.contains_key(id)
                && s.chunks[id].path != relpath,
        forall|id: Seq<char>| #[trigger]
            corpus::dropped(s, relpath).chunks.contains_key(id) ==> corpus::dropped(
                s,
                relpath,
            ).chunks[id] == s.chunks[id],
{
    let t = corpus::dropped(s, relpath);
    let gone = corpus::recorded_ids(s.manifest, relpath).to_set();
    assert forall|other: Seq<char>, i: int| #[trigger] listed(t.manifest, other, i) implies !gone.contains(
        chunk::chunk_id(other, i as nat),
    ) && listed(s.manifest, other, i) by {
        let id = chunk::chunk_id(other, i as nat);
        assert(listed(s.manifest, other, i));
        lemma_recorded_ids(s, relpath, id);
        if gone.contains(id) {
            let j = choose|j: int| #[trigger]
                listed(s.manifest, relpath, j) && id == chunk::chunk_id(relpath, j as nat);
            chunk::law_chunk_ids_distinct(other, i as nat, relpath, j as nat);
        }
    }
    assert forall|id: Seq<char>| #[trigger] t.chunks.contains_key(id) <==> s.chunks.contains_key(id)
        && s.chunks[id].path != relpath by {
        lemma_recorded_ids(s, relpath, id);
        if s.chunks.contains_key(id) {
            let (other, i) = choose|other: Seq<char>, i: int| #[trigger]
                listed(s.manifest, other, i) && id == chunk::chunk_id(other, i as nat);
            assert(s.chunks[id].path == other);
            if gone.contains(id) {
                let j = choose|j: int| #[trigger]
                    listed(s.manifest, relpath, j) && id == chunk::chunk_id(relpath, j as nat);
                chunk::law_chunk_ids_distinct(other, i as nat, relpath, j as nat);
            }
        }
    }
    assert forall|id: Seq<char>| #[trigger] t.chunks.contains_key(id) implies exists|
        other: Seq<char>,
        i: int,
    | #[trigger] listed(t.manifest, other, i) && id == chunk::chunk_id(other, i as nat) by {
        let (other, i) = choose|other: Seq<char>, i: int| #[trigger]
            listed(s.manifest, other, i) && id == chunk::chunk_id(other, i as nat);
        assert(s.chunks[id].path == other);
        assert(listed(t.manifest, other, i));
    }
}

/// Whether these are chunks of a file, numbered from 0.
pub open spec fn numbered(chunks: Seq<ChunkView>, relpath: Seq<char>) -> bool {
    forall|i: int|
        0 <= i < chunks.len() ==> (#[trigger] chunks[i]).id == chunk::chunk_id(relpath, i as nat)
            && chunks[i].path == relpath
}

proof fn lemma_pending_numbered(relpath: Seq<char>, bytes: Seq<u8>)
    ensures
        numbered(corpus::pending(relpath, bytes).chunks, relpath),
{
    let source = corpus::utf8_lossy(bytes);
    let chunks = corpus::pending(relpath, bytes).chunks;
    assert forall|i: int| 0 <= i < chunks.len() implies (#[trigger] chunks[i]).id
        == chunk::chunk_id(relpath, i as nat) && chunks[i].path == relpath by {
        chunk::law_file_chunks(relpath, source, i);
    }
}

proof fn lemma_with_chunks(
    store: Map<Seq<char>, ChunkView>,
    chunks: Seq<ChunkView>,
    relpath: Seq<char>,
)
    requires
        numbered(chunks, relpath),
    ensures
        forall|i: int|
            0 <= i < chunks.len() ==> corpus::with_chunks(store, chunks).contains_key(
                (#[trigger] chunks[i]).id,
            ) && corpus::with_chunks(store, chunks)[chunks[i].id] == chunks[i],
        forall|id: Seq<char>|
            (forall|i: int| 0 <= i < chunks.len() ==> (#[trigger] chunks[i]).id != id) ==> (
            #[trigger] corpus::with_chunks(store, chunks).contains_key(id) == store.contains_key(id)
                && corpus::with_chunks(store, chunks)[id] == store[id]),
    decreases chunks.len(),
{
    if chunks.len() > 0 {
        let front = chunks.drop_last();
        let last = chunks.last();
        lemma_with_chunks(store, front, relpath);
        let before = corpus::with_chunks(store, front);
        let after = corpus::with_chunks(store, chunks);
        assert(chunks[chunks.len() - 1] == last);
        assert forall|i: int| 0 <= i < chunks.len() implies after.contains_key(
            (#[trigger] chunks[i]).id,
        ) && after[chunks[i].id] == chunks[i] by {
            if i < front.len() {
                assert(front[i] == chunks[i]);
                if chunks[i].id == last.id {
                    chunk::law_chunk_ids_distinct(
                        relpath,
                        i as nat,
                        relpath,
                        (chunks.len() - 1) as nat,
                    );
                }
            }
        }
        assert forall|id: Seq<char>|
            (forall|i: int| 0 <= i < chunks.len() ==> (#[trigger] chunks[i]).id != id) implies
            #[trigger] after.contains_key(id) == store.contains_key(id) && after[id] == store[id] by {
            assert forall|i: int| 0 <= i < front.len() implies (#[trigger] front[i]).id != id by {
                assert(front[i] == chunks[i]);
            }
            assert(before.contains_key(id) == store.contains_key(id));
            assert(chunks[chunks.len() - 1].id != id);
        }
    }
}

proof fn lemma_with_vectors(
    store: Map<Seq<char>, Seq<u32>>,
    chunks: Seq<ChunkView>,
    vectors: Seq<Seq<u32>>,
)
    ensures
        forall|id: Seq<char>| #[trigger]
            corpus::with_vectors(store, chunks, vectors).contains_key(id) <==> store.contains_key(id)
                || exists|i: int| 0 <= i < chunks.len() && (#[trigger] chunks[i]).id == id,
    decreases chunks.len(),
{
    if chunks.len() > 0 {
        let front = chunks.drop_last();
        lemma_with_vectors(store, front, vectors);
        let before = corpus::with_vectors(store, front, vectors);
        let after = corpus::with_vectors(store, chunks, vectors);
        assert forall|id: Seq<char>| #[trigger]
            after.contains_key(id) <==> store.contains_key(id) || exists|i: int|
                0 <= i < chunks.len() && (#[trigger] chunks[i]).id == id by {
            assert(after.contains_key(id) <==> before.contains_key(id) || chunks.last().id == id);
            if exists|i: int| 0 <= i < front.len() && (#[trigger] front[i]).id == id {
                let i = choose|i: int| 0 <= i < front.len() && (#[trigger] front[i]).id == id;
                assert(chunks[i].id == id);
            }
            if exists|i: int| 0 <= i < chunks.len() && (#[trigger] chunks[i]).id == id {
                let i = choose|i: int| 0 <= i < chunks.len() && (#[trigger] chunks[i]).id == id;
                if i < front.len() {
                    assert(front[i].id == id);
                }
            }
            if chunks.last().id == id {
                assert(chunks[chunks.len() - 1].id == id);
            }
        }
    }
}

proof fn lemma_vector_values(
    store: Map<Seq<char>, Seq<u32>>,
    chunks: Seq<ChunkView>,
    vectors: Seq<Seq<u32>>,
    relpath: Seq<char>,
)
    requires
        numbered(chunks, relpath),
    ensures
        forall|i: int|
            0 <= i < chunks.len() ==> corpus::with_vectors(store, chunks, vectors)[(
            #[trigger] chunks[i]).id] == vectors[i],
        forall|id: Seq<char>|
            (forall|i: int| 0 <= i < chunks.len() ==> (#[trigger] chunks[i]).id != id)
                ==> #[trigger] corpus::with_vectors(store, chunks, vectors)[id] == store[id],
    decreases chunks.len(),
{
    if chunks.len() > 0 {
        let front = chunks.drop_last();
        let last = chunks.last();
        lemma_vector_values(store, front, vectors, relpath);
        let before = corpus::with_vectors(store, front, vectors);
        let after = corpus::with_vectors(store, chunks, vectors);
        assert(chunks[chunks.len() - 1] == last);
        assert forall|i: int| 0 <= i < chunks.len() implies after[(#[trigger] chunks[i]).id]
            == vectors[i] by {
            if i < front.len() {
                assert(front[i] == chunks[i]);
                if chunks[i].id == last.id {
                    chunk::law_chunk_ids_distinct(
                        relpath,
                        i as nat,
                        relpath,
                        (chunks.len() - 1) as nat,
                    );
                }
            }
        }
        assert forall|id: Seq<char>|
            (forall|i: int| 0 <= i < chunks.len() ==> (#[trigger] chunks[i]).id != id) implies
            #[trigger] after[id] == store[id] by {
            assert forall|i: int| 0 <= i < front.len() implies (#[trigger] front[i]).id != id by {
                assert(front[i] == chunks[i]);
            }
            assert(before[id] == store[id]);
            assert(chunks[chunks.len() - 1].id != id);
        }
    }
}

proof fn lemma_recorded(
    s: RunView,
    file: corpus::PendingFileView,
    vectors: Option<Seq<Seq<u32>>>,
)
    requires
        reconciled(s),
        !s.manifest.contains_key(file.relpath),
        numbered(file.chunks, file.relpath),
    ensures
        reconciled(corpus::recorded(s, file, vectors)),
{
    let t = corpus::recorded(s, file, vectors);
    let relpath = file.relpath;
    lemma_with_chunks(s.chunks, file.chunks, relpath);
    if vectors is Some {
        lemma_with_vectors(s.vectors.vectors, file.chunks, vectors->0);
    }
    assert forall|other: Seq<char>, i: int| #[trigger] listed(t.manifest, other, i) implies
        t.manifest[other].chunk_ids[i] == chunk::chunk_id(other, i as nat)
        && t.chunks.contains_key(chunk::chunk_id(other, i as nat)) && t.chunks[chunk::chunk_id(
        other,
        i as nat,
    )].id == chunk::chunk_id(other, i as nat) && t.chunks[chunk::chunk_id(other, i as nat)].path
        == other by {
        let id = chunk::chunk_id(other, i as nat);
        if other == relpath {
            assert(file.chunks[i].id == id);
        } else {
            assert(listed(s.manifest, other, i));
            assert forall|j: int| 0 <= j < file.chunks.len() implies (#[trigger] file.chunks[j]).id
                != id by {
                if file.chunks[j].id == id {
                    chunk::law_chunk_ids_distinct(other, i as nat, relpath, j as nat);
                }
            }
            assert(t.chunks.contains_key(id) == s.chunks.contains_key(id));
        }
    }
    assert forall|id: Seq<char>| #[trigger] t.chunks.contains_key(id) implies exists|
        other: Seq<char>,
        i: int,
    | #[trigger] listed(t.manifest, other, i) && id == chunk::chunk_id(other, i as nat) by {
        if exists|j: int| 0 <= j < file.chunks.len() && (#[trigger] file.chunks[j]).id == id {
            let j = choose|j: int| 0 <= j < file.chunks.len() && (#[trigger] file.chunks[j]).id == id;
            assert(listed(t.manifest, relpath, j));
        } else {
            assert(s.chunks.contains_key(id));
            let (other, i) = choose|other: Seq<char>, i: int| #[trigger]
                listed(s.manifest, other, i) && id == chunk::chunk_id(other, i as nat);
            assert(listed(t.manifest, other, i));
        }
    }
    assert forall|id: Seq<char>| #[trigger] t.vectors.vectors.contains_key(id) implies t.chunks.contains_key(
        id,
    ) by {
        if exists|j: int| 0 <= j < file.chunks.len() && (#[trigger] file.chunks[j]).id == id {
            let j = choose|j: int| 0 <= j < file.chunks.len() && (#[trigger] file.chunks[j]).id == id;
        } else {
            assert(s.vectors.vectors.contains_key(id));
            assert(s.chunks.contains_key(id));
        }
    }
}

// ── whole runs ──────────────────────────────────────────────────────────────
/// A discovered file as a run meets it.
pub struct FileInput {
    pub relpath: Seq<char>,
    /// What the file holds; none where it cannot be read.
    pub bytes: Option<Seq<u8>>,
    /// The vectors of its chunks, where embeddings are on.
    pub vectors: Option<Seq<Seq<u32>>>,
}

/// Whether a run indexes this file: it can be read and is not recorded with its
/// hash.
pub open spec fn is_indexed(m: Map<Seq<char>, FileEntryView>, f: FileInput) -> bool {
    f.bytes is Some && !manifest::unchanged(m, f.relpath, manifest::blake3_hex(f.bytes->0))
}

/// A run after this file.
pub open spec fn after_file(s: RunView, f: FileInput) -> RunView {
    if is_indexed(s.manifest, f) {
        corpus::recorded(
            corpus::dropped(s, f.relpath),
            corpus::pending(f.relpath, f.bytes->0),
            f.vectors,
        )
    } else if f.bytes is Some {
        RunView {
            report: IndexReport {
                skipped_unchanged: (s.report.skipped_unchanged + 1) as usize,
                ..s.report
            },
            ..s
        }
    } else {
        s
    }
}

/// A run after these files.
pub open spec fn after_files(s: RunView, files: Seq<FileInput>) -> RunView
    decreases files.len(),
{
    if files.len() == 0 {
        s
    } else {
        after_file(after_files(s, files.drop_last()), files.last())
    }
}

/// The documents of the lexical index after this file.
pub open spec fn docs_after_file(
    docs: Seq<IndexDocumentView>,
    s: RunView,
    f: FileInput,
) -> Seq<IndexDocumentView> {
    if is_indexed(s.manifest, f) {
        index::with_chunks(
            index::without_path(docs, f.relpath),
            corpus::pending(f.relpath, f.bytes->0).chunks,
        )
    } else {
        docs
    }
}

/// The documents of the lexical index after these files.
pub open spec fn docs_after_files(
    docs: Seq<IndexDocumentView>,
    s: RunView,
    files: Seq<FileInput>,
) -> Seq<IndexDocumentView>
    decreases files.len(),
{
    if files.len() == 0 {
        docs
    } else {
        docs_after_file(
            docs_after_files(docs, s, files.drop_last()),
            after_files(s, files.drop_last()),
            files.last(),
        )
    }
}

/// The documents of the lexical index after these files are dropped.
pub open spec fn docs_cleared(
    docs: Seq<IndexDocumentView>,
    relpaths: Seq<Seq<char>>,
) -> Seq<IndexDocumentView>
    decreases relpaths.len(),
{
    if relpaths.len() == 0 {
        docs
    } else {
        index::without_path(docs_cleared(docs, relpaths.drop_last()), relpaths.last())
    }
}

/// Taking in a file keeps the stores in agreement.
pub proof fn law_file_reconciled(s: RunView, f: FileInput)
    requires
        reconciled(s),
    ensures
        reconciled(after_file(s, f)),
{
    if is_indexed(s.manifest, f) {
        law_dropped(s, f.relpath);
        lemma_pending_numbered(f.relpath, f.bytes->0);
        lemma_recorded(
            corpus::dropped(s, f.relpath),
            corpus::pending(f.relpath, f.bytes->0),
            f.vectors,
        );
    }
}

proof fn lemma_files_reconciled(s: RunView, files: Seq<FileInput>)
    requires
        reconciled(s),
    ensures
        reconciled(after_files(s, files)),
    decreases files.len(),
{
    if files.len() > 0 {
        lemma_files_reconciled(s, files.drop_last());
        law_file_reconciled(after_files(s, files.drop_last()), files.last());
    }
}

proof fn lemma_cleared_reconciled(s: RunView, relpaths: Seq<Seq<char>>)
    requires
        reconciled(s),
    ensures
        reconciled(corpus::cleared(s, relpaths)),
    decreases relpaths.len(),
{
    if relpaths.len() > 0 {
        lemma_cleared_reconciled(s, relpaths.drop_last());
        law_dropped(corpus::cleared(s, relpaths.drop_last()), relpaths.last());
    }
}

/// What a whole run makes of the stores of the last one: it starts, takes in
/// the files it meets, drops the stale ones and ends.
pub open spec fn whole_run(
    s: RunView,
    embedder: Option<(Seq<char>, nat)>,
    files: Seq<FileInput>,
    stale: Seq<Seq<char>>,
) -> RunView {
    corpus::finished(corpus::cleared(files_taken_in(s, embedder, files), stale))
}

/// A run when all the files are taken in.
pub open spec fn files_taken_in(
    s: RunView,
    embedder: Option<(Seq<char>, nat)>,
    files: Seq<FileInput>,
) -> RunView {
    after_files(corpus::started(s.manifest, s.chunks, s.vectors, embedder), files)
}

/// Whether these are the recorded files that were not seen, each once.
pub open spec fn is_stale(r: RunView, seen: Seq<Seq<char>>, stale: Seq<Seq<char>>) -> bool {
    &&& ordered::ascending(stale)
    &&& forall|k: Seq<char>|
        stale.contains(k) <==> r.manifest.contains_key(k) && !seen.contains(k)
}

/// A whole run leaves the stores in agreement, whatever files it meets and
/// whatever files it drops, where they were or where no file was recorded.
pub proof fn law_run_reconciled(
    s: RunView,
    embedder: Option<(Seq<char>, nat)>,
    files: Seq<FileInput>,
    stale: Seq<Seq<char>>,
)
    requires
        reconciled(s) || s.manifest == Map::<Seq<char>, FileEntryView>::empty(),
    ensures
        reconciled(whole_run(s, embedder, files, stale)),
{
    law_start_reconciled(s, embedder);
    let a = corpus::started(s.manifest, s.chunks, s.vectors, embedder);
    lemma_files_reconciled(a, files);
    lemma_cleared_reconciled(after_files(a, files), stale);
    lemma_finished_reconciled(corpus::cleared(after_files(a, files), stale));
}

proof fn lemma_finished_reconciled(s: RunView)
    requires
        reconciled(s),
    ensures
        reconciled(corpus::finished(s)),
{
    let t = corpus::finished(s);
    assert(t.manifest == s.manifest && t.chunks == s.chunks);
    assert forall|id: Seq<char>| #[trigger] t.vectors.vectors.contains_key(id) implies t.chunks.contains_key(
        id,
    ) by {
        assert(s.vectors.vectors.contains_key(id));
    }
}

// ── the lexical index ───────────────────────────────────────────────────────
/// Which documents are not of this path.
spec fn other_path(path: Seq<char>) -> spec_fn(IndexDocumentView) -> bool {
    |d: IndexDocumentView| d.path != path
}

/// Whether no two documents have the same chunk id.
spec fn distinct_docs(docs: Seq<IndexDocumentView>) -> bool {
    forall|i: int, j: int|
        0 <= i < j < docs.len() ==> (#[trigger] docs[i]).chunk_id != (#[trigger] docs[j]).chunk_id
}

proof fn lemma_distinct_filter(
    docs: Seq<IndexDocumentView>,
    pred: spec_fn(IndexDocumentView) -> bool,
)
    requires
        distinct_docs(docs),
    ensures
        distinct_docs(docs.filter(pred)),
    decreases docs.len(),
{
    reveal(Seq::filter);
    if docs.len() > 0 {
        let front = docs.drop_last();
        lemma_distinct_filter(front, pred);
        let f = front.filter(pred);
        let r = docs.filter(pred);
        assert forall|i: int, j: int| 0 <= i < j < r.len() implies (#[trigger] r[i]).chunk_id != (
        #[trigger] r[j]).chunk_id by {
            if j == f.len() {
                assert(f.contains(f[i]));
                front.lemma_filter_contains_rev(pred, f[i]);
                let k = front.index_of(f[i]);
                assert(docs[k].chunk_id != docs[docs.len() - 1].chunk_id);
            }
        }
    }
}

proof fn lemma_docs_dropped(docs: Seq<IndexDocumentView>, s: RunView, relpath: Seq<char>)
    requires
        reconciled(s),
        index::mirrors(docs, s.chunks),
    ensures
        index::mirrors(index::without_path(docs, relpath), corpus::dropped(s, relpath).chunks),
        forall|i: int|
            0 <= i < index::without_path(docs, relpath).len() ==> (#[trigger] index::without_path(
                docs,
                relpath,
            )[i]).path != relpath,
{
    let pred = other_path(relpath);
    let left = docs.filter(pred);
    assert(index::without_path(docs, relpath) =~= left);
    let chunks = corpus::dropped(s, relpath).chunks;
    law_dropped(s, relpath);
    lemma_distinct_filter(docs, pred);
    assert forall|i: int| 0 <= i < left.len() implies chunks.contains_key(
        (#[trigger] left[i]).chunk_id,
    ) && left[i] == index::document(chunks[left[i].chunk_id]) && left[i].path != relpath by {
        docs.lemma_filter_pred(pred, i);
        assert(left.contains(left[i]));
        docs.lemma_filter_contains_rev(pred, left[i]);
        let k = docs.index_of(left[i]);
        assert(docs[k] == left[i]);
        assert(s.chunks.contains_key(docs[k].chunk_id));
    }
    assert forall|id: Seq<char>| #[trigger] chunks.contains_key(id) implies exists|i: int|
        0 <= i < left.len() && (#[trigger] left[i]).chunk_id == id by {
        assert(s.chunks.contains_key(id));
        let k = choose|k: int| 0 <= k < docs.len() && (#[trigger] docs[k]).chunk_id == id;
        assert(docs[k] == index::document(s.chunks[id]));
        docs.lemma_filter_contains(pred, k);
        let i = left.index_of(docs[k]);
        assert(left[i].chunk_id == id);
    }
}

proof fn lemma_docs_recorded(
    docs: Seq<IndexDocumentView>,
    s: RunView,
    file: corpus::PendingFileView,
    vectors: Option<Seq<Seq<u32>>>,
)
    requires
        index::mirrors(docs, s.chunks),
        forall|i: int| 0 <= i < docs.len() ==> (#[trigger] docs[i]).path != file.relpath,
        forall|id: Seq<char>| #[trigger] s.chunks.contains_key(id) ==> s.chunks[id].path
            != file.relpath,
        reconciled(s),
        numbered(file.chunks, file.relpath),
    ensures
        index::mirrors(
            index::with_chunks(docs, file.chunks),
            corpus::recorded(s, file, vectors).chunks,
        ),
{
    let t = corpus::recorded(s, file, vectors);
    let all = index::with_chunks(docs, file.chunks);
    let n = docs.len() as int;
    lemma_with_chunks(s.chunks, file.chunks, file.relpath);
    assert forall|id: Seq<char>| #[trigger] s.chunks.contains_key(id) implies forall|j: int|
        0 <= j < file.chunks.len() ==> (#[trigger] file.chunks[j]).id != id by {
        let (other, i) = choose|other: Seq<char>, i: int| #[trigger]
            listed(s.manifest, other, i) && id == chunk::chunk_id(other, i as nat);
        assert(s.chunks[id].path == other);
        assert forall|j: int| 0 <= j < file.chunks.len() implies (#[trigger] file.chunks[j]).id
            != id by {
            if file.chunks[j].id == id {
                chunk::law_chunk_ids_distinct(other, i as nat, file.relpath, j as nat);
            }
        }
    }
    assert forall|i: int| 0 <= i < all.len() implies t.chunks.contains_key(
        (#[trigger] all[i]).chunk_id,
    ) && all[i] == index::document(t.chunks[all[i].chunk_id]) by {
        if i < n {
            assert(all[i] == docs[i]);
            assert(s.chunks.contains_key(docs[i].chunk_id));
            assert(t.chunks.contains_key(docs[i].chunk_id));
        } else {
            assert(all[i] == index::document(file.chunks[i - n]));
            assert(t.chunks[file.chunks[i - n].id] == file.chunks[i - n]);
        }
    }
    assert forall|id: Seq<char>| #[trigger] t.chunks.contains_key(id) implies exists|i: int|
        0 <= i < all.len() && (#[trigger] all[i]).chunk_id == id by {
        if exists|j: int| 0 <= j < file.chunks.len() && (#[trigger] file.chunks[j]).id == id {
            let j = choose|j: int| 0 <= j < file.chunks.len() && (#[trigger] file.chunks[j]).id == id;
            assert(all[n + j] == index::document(file.chunks[j]));
        } else {
            assert(s.chunks.contains_key(id));
            let i = choose|i: int| 0 <= i < docs.len() && (#[trigger] docs[i]).chunk_id == id;
            assert(all[i] == docs[i]);
        }
    }
    assert forall|i: int, j: int| 0 <= i < j < all.len() implies (#[trigger] all[i]).chunk_id != (
    #[trigger] all[j]).chunk_id by {
        if j < n {
            assert(all[i] == docs[i]);
            assert(all[j] == docs[j]);
        } else {
            assert(all[j] == index::document(file.chunks[j - n]));
            if i < n {
                assert(all[i] == docs[i]);
                assert(s.chunks.contains_key(docs[i].chunk_id));
            } else {
                assert(all[i] == index::document(file.chunks[i - n]));
                if all[i].chunk_id == all[j].chunk_id {
                    chunk::law_chunk_ids_distinct(
                        file.relpath,
                        (i - n) as nat,
                        file.relpath,
                        (j - n) as nat,
                    );
                }
            }
        }
    }
}

/// Taking in a file keeps exactly one document in the lexical index for each
/// stored chunk.
pub proof fn law_file_mirrored(docs: Seq<IndexDocumentView>, s: RunView, f: FileInput)
    requires
        reconciled(s),
        index::mirrors(docs, s.chunks),
    ensures
        index::mirrors(docs_after_file(docs, s, f), after_file(s, f).chunks),
{
    if is_indexed(s.manifest, f) {
        law_dropped(s, f.relpath);
        lemma_docs_dropped(docs, s, f.relpath);
        lemma_pending_numbered(f.relpath, f.bytes->0);
        let t = corpus::dropped(s, f.relpath);
        assert forall|id: Seq<char>| #[trigger] t.chunks.contains_key(id) implies t.chunks[id].path
            != f.relpath by {
            assert(t.chunks[id] == s.chunks[id]);
        }
        lemma_docs_recorded(
            index::without_path(docs, f.relpath),
            t,
            corpus::pending(f.relpath, f.bytes->0),
            f.vectors,
        );
    }
}

proof fn lemma_files_mirrored(docs: Seq<IndexDocumentView>, s: RunView, files: Seq<FileInput>)
    requires
        reconciled(s),
        index::mirrors(docs, s.chunks),
    ensures
        index::mirrors(docs_after_files(docs, s, files), after_files(s, files).chunks),
    decreases files.len(),
{
    if files.len() > 0 {
        let front = files.drop_last();
        lemma_files_mirrored(docs, s, front);
        lemma_files_reconciled(s, front);
        law_file_mirrored(docs_after_files(docs, s, front), after_files(s, front), files.last());
    }
}

proof fn lemma_cleared_mirrored(docs: Seq<IndexDocumentView>, s: RunView, relpaths: Seq<Seq<char>>)
    requires
        reconciled(s),
        index::mirrors(docs, s.chunks),
    ensures
        index::mirrors(docs_cleared(docs, relpaths), corpus::cleared(s, relpaths).chunks),
    decreases relpaths.len(),
{
    if relpaths.len() > 0 {
        let front = relpaths.drop_last();
        lemma_cleared_mirrored(docs, s, front);
        lemma_cleared_reconciled(s, front);
        lemma_docs_dropped(docs_cleared(docs, front), corpus::cleared(s, front), relpaths.last());
    }
}

/// After a whole run the lexical index holds exactly one document for each
/// stored chunk, where it did before, or where no file was recorded and it was
/// emptied.
pub proof fn law_run_mirrored(
    docs: Seq<IndexDocumentView>,
    s: RunView,
    embedder: Option<(Seq<char>, nat)>,
    files: Seq<FileInput>,
    stale: Seq<Seq<char>>,
)
    requires
        if s.manifest == Map::<Seq<char>, FileEntryView>::empty() {
            docs.len() == 0
        } else {
            reconciled(s) && index::mirrors(docs, s.chunks)
        },
    ensures
        index::mirrors(
            docs_cleared(
                docs_after_files(
                    docs,
                    corpus::started(s.manifest, s.chunks, s.vectors, embedder),
                    files,
                ),
                stale,
            ),
            whole_run(s, embedder, files, stale).chunks,
        ),
{
    let a = corpus::started(s.manifest, s.chunks, s.vectors, embedder);
    law_start_reconciled(s, embedder);
    lemma_files_mirrored(docs, a, files);
    lemma_files_reconciled(a, files);
    lemma_cleared_mirrored(docs_after_files(docs, a, files), after_files(a, files), stale);
}

// ── what a run does to each file ────────────────────────────────────────────
/// Whether no two files have the same path.
pub open spec fn distinct_paths(files: Seq<FileInput>) -> bool {
    forall|i: int, j: int|
        0 <= i < j < files.len() ==> (#[trigger] files[i]).relpath != (#[trigger] files[j]).relpath
}

/// How many of the files can be read.
pub open spec fn readable(files: Seq<FileInput>) -> nat
    decreases files.len(),
{
    if files.len() == 0 {
        0
    } else {
        readable(files.drop_last()) + if files.last().bytes is Some {
            1nat
        } else {
            0
        }
    }
}

proof fn lemma_other_entry(s: RunView, files: Seq<FileInput>, relpath: Seq<char>)
    requires
        forall|i: int| 0 <= i < files.len() ==> (#[trigger] files[i]).relpath != relpath,
    ensures
        after_files(s, files).manifest.contains_key(relpath) == s.manifest.contains_key(relpath),
        after_files(s, files).manifest[relpath] == s.manifest[relpath],
    decreases files.len(),
{
    if files.len() > 0 {
        let front = files.drop_last();
        assert forall|i: int| 0 <= i < front.len() implies (#[trigger] front[i]).relpath
            != relpath by {
            assert(front[i] == files[i]);
        }
        lemma_other_entry(s, front, relpath);
        assert(files[files.len() - 1].relpath != relpath);
    }
}

proof fn lemma_distinct_front(files: Seq<FileInput>)
    requires
        distinct_paths(files),
        files.len() > 0,
    ensures
        distinct_paths(files.drop_last()),
        forall|i: int|
            0 <= i < files.len() - 1 ==> (#[trigger] files.drop_last()[i]).relpath
                != files.last().relpath,
{
    let front = files.drop_last();
    assert forall|i: int, j: int| 0 <= i < j < front.len() implies (#[trigger] front[i]).relpath
        != (#[trigger] front[j]).relpath by {
        assert(files[i].relpath != files[j].relpath);
    }
    assert forall|i: int| 0 <= i < front.len() implies (#[trigger] front[i]).relpath
        != files.last().relpath by {
        assert(files[i].relpath != files[files.len() - 1].relpath);
    }
}

/// After a run every file that can be read is recorded with the hash of what it
/// holds.
pub proof fn law_run_fresh(s: RunView, files: Seq<FileInput>, i: int)
    requires
        distinct_paths(files),
        0 <= i < files.len(),
        files[i].bytes is Some,
    ensures
        manifest::unchanged(
            after_files(s, files).manifest,
            files[i].relpath,
            manifest::blake3_hex(files[i].bytes->0),
        ),
    decreases files.len(),
{
    lemma_distinct_front(files);
    if i < files.len() - 1 {
        law_run_fresh(s, files.drop_last(), i);
        assert(files[i].relpath != files[files.len() - 1].relpath);
    }
}

proof fn lemma_all_unchanged(s: RunView, files: Seq<FileInput>)
    requires
        forall|i: int|
            0 <= i < files.len() && (#[trigger] files[i]).bytes is Some ==> manifest::unchanged(
                s.manifest,
                files[i].relpath,
                manifest::blake3_hex(files[i].bytes->0),
            ),
        s.report.skipped_unchanged + readable(files) <= usize::MAX,
    ensures
        after_files(s, files) == (RunView {
            report: IndexReport {
                skipped_unchanged: (s.report.skipped_unchanged + readable(files)) as usize,
                ..s.report
            },
            ..s
        }),
    decreases files.len(),
{
    if files.len() > 0 {
        let front = files.drop_last();
        assert forall|i: int|
            0 <= i < front.len() && (#[trigger] front[i]).bytes is Some implies manifest::unchanged(
            s.manifest,
            front[i].relpath,
            manifest::blake3_hex(front[i].bytes->0),
        ) by {
            assert(front[i] == files[i]);
        }
        lemma_all_unchanged(s, front);
        assert(files.last() == files[files.len() - 1]);
    }
}

/// How many of the files a run on these stores indexes.
pub open spec fn indexed_count(s: RunView, files: Seq<FileInput>) -> nat
    decreases files.len(),
{
    if files.len() == 0 {
        0
    } else {
        indexed_count(s, files.drop_last()) + if is_indexed(
            after_files(s, files.drop_last()).manifest,
            files.last(),
        ) {
            1nat
        } else {
            0
        }
    }
}

/// Every file that can be read is counted once: as indexed, where it is new or
/// changed, or as skipped.
pub proof fn law_run_counts(s: RunView, files: Seq<FileInput>)
    requires
        s.report.indexed + readable(files) <= usize::MAX,
        s.report.skipped_unchanged + readable(files) <= usize::MAX,
    ensures
        indexed_count(s, files) <= readable(files),
        after_files(s, files).report.indexed == s.report.indexed + indexed_count(s, files),
        after_files(s, files).report.skipped_unchanged == s.report.skipped_unchanged + readable(
            files,
        ) - indexed_count(s, files),
        after_files(s, files).report.removed == s.report.removed,
    decreases files.len(),
{
    if files.len() > 0 {
        law_run_counts(s, files.drop_last());
    }
}

proof fn lemma_other_chunk(s: RunView, f: FileInput, id: Seq<char>)
    requires
        reconciled(s),
        s.chunks.contains_key(id),
        s.chunks[id].path != f.relpath,
    ensures
        after_file(s, f).chunks.contains_key(id),
        after_file(s, f).chunks[id] == s.chunks[id],
{
    if is_indexed(s.manifest, f) {
        let t = corpus::dropped(s, f.relpath);
        let chunks = corpus::pending(f.relpath, f.bytes->0).chunks;
        law_dropped(s, f.relpath);
        lemma_pending_numbered(f.relpath, f.bytes->0);
        lemma_with_chunks(t.chunks, chunks, f.relpath);
        assert(t.chunks.contains_key(id));
        let (other, i) = choose|other: Seq<char>, i: int| #[trigger]
            listed(s.manifest, other, i) && id == chunk::chunk_id(other, i as nat);
        assert(s.chunks[id].path == other);
        assert forall|j: int| 0 <= j < chunks.len() implies (#[trigger] chunks[j]).id != id by {
            if chunks[j].id == id {
                chunk::law_chunk_ids_distinct(other, i as nat, f.relpath, j as nat);
            }
        }
        assert(after_file(s, f).chunks.contains_key(id) == t.chunks.contains_key(id));
    }
}

/// A new or changed file is indexed as it is now: its entry holds the hash of
/// its bytes and the ids of its chunks, and the chunk store holds those chunks.
pub proof fn law_changed_is_reindexed(s: RunView, files: Seq<FileInput>, i: int)
    requires
        reconciled(s),
        distinct_paths(files),
        0 <= i < files.len(),
        is_indexed(s.manifest, files[i]),
    ensures
        ({
            let t = after_files(s, files);
            let file = corpus::pending(files[i].relpath, files[i].bytes->0);
            &&& t.manifest.contains_key(file.relpath)
            &&& t.manifest[file.relpath] == (FileEntryView {
                hash: file.hash,
                chunk_ids: corpus::ids_of(file.chunks),
            })
            &&& forall|j: int|
                0 <= j < file.chunks.len() ==> t.chunks.contains_key(
                    (#[trigger] file.chunks[j]).id,
                ) && t.chunks[file.chunks[j].id] == file.chunks[j]
        }),
    decreases files.len(),
{
    let front = files.drop_last();
    let before = after_files(s, front);
    let t = after_files(s, files);
    let file = corpus::pending(files[i].relpath, files[i].bytes->0);
    lemma_distinct_front(files);
    lemma_files_reconciled(s, front);
    lemma_pending_numbered(files[i].relpath, files[i].bytes->0);
    if i < files.len() - 1 {
        law_changed_is_reindexed(s, front, i);
        assert(front[i].relpath != files.last().relpath);
        assert forall|j: int| 0 <= j < file.chunks.len() implies t.chunks.contains_key(
            (#[trigger] file.chunks[j]).id,
        ) && t.chunks[file.chunks[j].id] == file.chunks[j] by {
            assert(file.chunks[j].path == file.relpath);
            lemma_other_chunk(before, files.last(), file.chunks[j].id);
        }
    } else {
        lemma_other_entry(s, front, files[i].relpath);
        lemma_with_chunks(
            corpus::dropped(before, file.relpath).chunks,
            file.chunks,
            file.relpath,
        );
    }
}

proof fn lemma_cleared(s: RunView, relpaths: Seq<Seq<char>>)
    requires
        reconciled(s),
    ensures
        forall|k: Seq<char>| #[trigger]
            corpus::cleared(s, relpaths).manifest.contains_key(k) <==> s.manifest.contains_key(k)
                && !relpaths.contains(k),
        forall|k: Seq<char>| #[trigger]
            corpus::cleared(s, relpaths).manifest.contains_key(k) ==> corpus::cleared(
                s,
                relpaths,
            ).manifest[k] == s.manifest[k],
        forall|id: Seq<char>| #[trigger]
            corpus::cleared(s, relpaths).chunks.contains_key(id) <==> s.chunks.contains_key(id)
                && !relpaths.contains(s.chunks[id].path),
        forall|id: Seq<char>| #[trigger]
            corpus::cleared(s, relpaths).chunks.contains_key(id) ==> corpus::cleared(
                s,
                relpaths,
            ).chunks[id] == s.chunks[id],
    decreases relpaths.len(),
{
    if relpaths.len() > 0 {
        let front = relpaths.drop_last();
        let before = corpus::cleared(s, front);
        let after = corpus::cleared(s, relpaths);
        lemma_cleared(s, front);
        lemma_cleared_reconciled(s, front);
        law_dropped(before, relpaths.last());
        assert forall|k: Seq<char>|
            relpaths.contains(k) <==> front.contains(k) || k == relpaths.last() by {
            if front.contains(k) {
                let i = front.index_of(k);
                assert(relpaths[i] == k);
            }
            if relpaths.contains(k) {
                let i = relpaths.index_of(k);
                if i < front.len() {
                    assert(front[i] == k);
                }
            }
            if k == relpaths.last() {
                assert(relpaths[relpaths.len() - 1] == k);
            }
        }
        assert forall|id: Seq<char>| #[trigger]
            after.chunks.contains_key(id) <==> s.chunks.contains_key(id) && !relpaths.contains(
                s.chunks[id].path,
            ) by {
            assert(after.chunks.contains_key(id) <==> before.chunks.contains_key(id)
                && before.chunks[id].path != relpaths.last());
        }
        assert forall|id: Seq<char>| #[trigger] after.chunks.contains_key(id) implies after.chunks[id]
            == s.chunks[id] by {
            assert(before.chunks.contains_key(id));
        }
    }
}

/// The files that were not seen leave nothing behind, and nothing else is lost:
/// the manifest keeps exactly the entries of the files that were seen, and the
/// chunk store exactly their chunks.
pub proof fn law_stale_is_gone(s: RunView, seen: Seq<Seq<char>>, stale: Seq<Seq<char>>)
    requires
        reconciled(s),
        forall|k: Seq<char>|
            stale.contains(k) <==> s.manifest.contains_key(k) && !seen.contains(k),
    ensures
        ({
            let t = corpus::cleared(s, stale);
            &&& forall|k: Seq<char>| #[trigger]
                t.manifest.contains_key(k) <==> s.manifest.contains_key(k) && seen.contains(k)
            &&& forall|k: Seq<char>| #[trigger]
                t.manifest.contains_key(k) ==> t.manifest[k] == s.manifest[k]
            &&& forall|id: Seq<char>| #[trigger]
                t.chunks.contains_key(id) <==> s.chunks.contains_key(id) && seen.contains(
                    s.chunks[id].path,
                )
            &&& forall|id: Seq<char>| #[trigger]
                t.chunks.contains_key(id) ==> t.chunks[id] == s.chunks[id]
        }),
{
    lemma_cleared(s, stale);
    let t = corpus::cleared(s, stale);
    assert forall|id: Seq<char>| #[trigger]
        t.chunks.contains_key(id) <==> s.chunks.contains_key(id) && seen.contains(
            s.chunks[id].path,
        ) by {
        if s.chunks.contains_key(id) {
            let (other, i) = choose|other: Seq<char>, i: int| #[trigger]
                listed(s.manifest, other, i) && id == chunk::chunk_id(other, i as nat);
            assert(s.chunks[id].path == other);
            assert(s.manifest.contains_key(other));
        }
    }
}

proof fn lemma_model_kept(s: RunView, files: Seq<FileInput>, stale: Seq<Seq<char>>)
    ensures
        after_files(s, files).vectors.model == s.vectors.model,
        after_files(s, files).vectors.dims == s.vectors.dims,
        corpus::cleared(after_files(s, files), stale).vectors.model == s.vectors.model,
        corpus::cleared(after_files(s, files), stale).vectors.dims == s.vectors.dims,
    decreases files.len() + stale.len(),
{
    if stale.len() > 0 {
        lemma_model_kept(s, files, stale.drop_last());
    } else if files.len() > 0 {
        lemma_model_kept(s, files.drop_last(), stale);
    }
}

proof fn lemma_cleared_counts(s: RunView, stale: Seq<Seq<char>>)
    ensures
        corpus::cleared(s, stale).report.indexed == s.report.indexed,
        corpus::cleared(s, stale).report.skipped_unchanged == s.report.skipped_unchanged,
    decreases stale.len(),
{
    if stale.len() > 0 {
        lemma_cleared_counts(s, stale.drop_last());
    }
}

/// A second run on a repository that did not change, with the same embedder,
/// skips every file that the first run indexed or skipped, embeds none, finds no
/// file to drop, and leaves every store as it is.
pub proof fn law_second_run_skips(
    s: RunView,
    embedder: Option<(Seq<char>, nat)>,
    files: Seq<FileInput>,
    seen: Seq<Seq<char>>,
    stale: Seq<Seq<char>>,
    stale_again: Seq<Seq<char>>,
)
    requires
        reconciled(s) || s.manifest == Map::<Seq<char>, FileEntryView>::empty(),
        distinct_paths(files),
        readable(files) <= usize::MAX,
        forall|i: int| 0 <= i < files.len() ==> seen.contains((#[trigger] files[i]).relpath),
        is_stale(files_taken_in(s, embedder, files), seen, stale),
        is_stale(
            files_taken_in(whole_run(s, embedder, files, stale), embedder, files),
            seen,
            stale_again,
        ),
    ensures
        ({
            let once = whole_run(s, embedder, files, stale);
            let twice = whole_run(once, embedder, files, stale_again);
            &&& twice.manifest == once.manifest
            &&& twice.chunks == once.chunks
            &&& twice.vectors == once.vectors
            &&& stale_again.len() == 0
            &&& twice.report.indexed == 0
            &&& twice.report.removed == 0
            &&& twice.report.embedded == 0
            &&& twice.report.skipped_unchanged == once.report.indexed
                + once.report.skipped_unchanged
            &&& twice.report.chunks == once.report.chunks
        }),
{
    let a = corpus::started(s.manifest, s.chunks, s.vectors, embedder);
    let r = after_files(a, files);
    let c = corpus::cleared(r, stale);
    let once = whole_run(s, embedder, files, stale);
    law_start_reconciled(s, embedder);
    lemma_files_reconciled(a, files);
    lemma_cleared(r, stale);
    law_run_reconciled(s, embedder, files, stale);
    lemma_model_kept(a, files, stale);
    lemma_cleared_counts(r, stale);
    law_run_counts(a, files);
    assert forall|i: int|
        0 <= i < files.len() && (#[trigger] files[i]).bytes is Some implies manifest::unchanged(
        once.manifest,
        files[i].relpath,
        manifest::blake3_hex(files[i].bytes->0),
    ) by {
        law_run_fresh(a, files, i);
        assert(seen.contains(files[i].relpath));
        assert(c.manifest.contains_key(files[i].relpath));
    }
    let b = corpus::started(once.manifest, once.chunks, once.vectors, embedder);
    lemma_all_unchanged(b, files);
    if stale_again.len() > 0 {
        assert(stale_again.contains(stale_again[0]));
        assert(c.manifest.contains_key(stale_again[0]));
    }
    let twice = whole_run(once, embedder, files, stale_again);
    if once.manifest == Map::<Seq<char>, FileEntryView>::empty() {
        lemma_nothing_recorded(once);
    }
    assert(twice.vectors =~= once.vectors);
}

proof fn lemma_nothing_recorded(s: RunView)
    requires
        reconciled(s),
        s.manifest == Map::<Seq<char>, FileEntryView>::empty(),
    ensures
        s.chunks == Map::<Seq<char>, ChunkView>::empty(),
        s.vectors.vectors == Map::<Seq<char>, Seq<u32>>::empty(),
{
    assert forall|id: Seq<char>| !s.chunks.contains_key(id) by {
        if s.chunks.contains_key(id) {
            let (relpath, i) = choose|relpath: Seq<char>, i: int| #[trigger]
                listed(s.manifest, relpath, i) && id == chunk::chunk_id(relpath, i as nat);
            assert(s.manifest.contains_key(relpath));
        }
    }
    assert(s.chunks =~= Map::empty());
    assert forall|id: Seq<char>| !s.vectors.vectors.contains_key(id) by {
        if s.vectors.vectors.contains_key(id) {
            assert(s.chunks.contains_key(id));
        }
    }
    assert(s.vectors.vectors =~= Map::empty());
}

// ── embeddings ──────────────────────────────────────────────────────────────
/// Whether every chunk has a vector, and nothing else has.
pub open spec fn fully_embedded(s: RunView) -> bool {
    s.vectors.vectors.dom() == s.chunks.dom()
}

proof fn lemma_file_embedded(s: RunView, f: FileInput)
    requires
        fully_embedded(s),
        f.vectors is Some,
    ensures
        fully_embedded(after_file(s, f)),
{
    if is_indexed(s.manifest, f) {
        let t = corpus::dropped(s, f.relpath);
        let chunks = corpus::pending(f.relpath, f.bytes->0).chunks;
        lemma_pending_numbered(f.relpath, f.bytes->0);
        lemma_with_chunks(t.chunks, chunks, f.relpath);
        lemma_with_vectors(t.vectors.vectors, chunks, f.vectors->0);
        let r = after_file(s, f);
        assert(t.vectors.vectors.dom() =~= t.chunks.dom());
        assert forall|id: Seq<char>|
            r.vectors.vectors.dom().contains(id) == r.chunks.dom().contains(id) by {
            assert(r.vectors.vectors.contains_key(id) <==> t.chunks.dom().contains(id) || exists|
                i: int,
            | 0 <= i < chunks.len() && (#[trigger] chunks[i]).id == id);
            if !(exists|i: int| 0 <= i < chunks.len() && (#[trigger] chunks[i]).id == id) {
                assert(r.chunks.contains_key(id) == t.chunks.contains_key(id));
            }
        }
        assert(r.vectors.vectors.dom() =~= r.chunks.dom());
    }
}

/// With embeddings on, a run keeps a vector for every chunk.
pub proof fn law_run_embedded(s: RunView, files: Seq<FileInput>, stale: Seq<Seq<char>>)
    requires
        fully_embedded(s),
        forall|i: int| 0 <= i < files.len() ==> (#[trigger] files[i]).vectors is Some,
    ensures
        fully_embedded(corpus::cleared(after_files(s, files), stale)),
    decreases files.len() + stale.len(),
{
    if stale.len() > 0 {
        let front = stale.drop_last();
        law_run_embedded(s, files, front);
        let before = corpus::cleared(after_files(s, files), front);
        let after = corpus::dropped(before, stale.last());
        assert(after.vectors.vectors.dom() =~= after.chunks.dom());
    } else if files.len() > 0 {
        let front = files.drop_last();
        assert forall|i: int| 0 <= i < front.len() implies (#[trigger] front[i]).vectors is Some by {
            assert(front[i] == files[i]);
        }
        law_run_embedded(s, front, stale);
        assert(files.last() == files[files.len() - 1]);
        lemma_file_embedded(after_files(s, front), files.last());
    }
}

proof fn lemma_with_chunks_len(
    store: Map<Seq<char>, ChunkView>,
    chunks: Seq<ChunkView>,
    relpath: Seq<char>,
)
    requires
        numbered(chunks, relpath),
        store.dom().finite(),
        forall|i: nat| !store.contains_key(#[trigger] chunk::chunk_id(relpath, i)),
    ensures
        corpus::with_chunks(store, chunks).dom().finite(),
        corpus::with_chunks(store, chunks).len() == store.len() + chunks.len(),
    decreases chunks.len(),
{
    if chunks.len() > 0 {
        let front = chunks.drop_last();
        let last = chunks.last();
        lemma_with_chunks_len(store, front, relpath);
        lemma_with_chunks(store, front, relpath);
        assert(last == chunks[chunks.len() - 1]);
        assert forall|i: int| 0 <= i < front.len() implies (#[trigger] front[i]).id != last.id by {
            assert(front[i] == chunks[i]);
            if front[i].id == last.id {
                chunk::law_chunk_ids_distinct(
                    relpath,
                    i as nat,
                    relpath,
                    (chunks.len() - 1) as nat,
                );
            }
        }
        assert(!store.contains_key(chunk::chunk_id(relpath, (chunks.len() - 1) as nat)));
        assert(!corpus::with_chunks(store, front).contains_key(last.id));
    }
}

/// In the first run of a repository with embeddings on, every chunk is embedded
/// exactly once.
pub proof fn law_first_run_embeds_all(s: RunView, files: Seq<FileInput>)
    requires
        s.manifest == Map::<Seq<char>, FileEntryView>::empty(),
        s.chunks == Map::<Seq<char>, ChunkView>::empty(),
        s.vectors.vectors == Map::<Seq<char>, Seq<u32>>::empty(),
        s.report.embedded == 0,
        distinct_paths(files),
        forall|i: int| 0 <= i < files.len() ==> (#[trigger] files[i]).vectors is Some,
        after_files(s, files).chunks.len() <= usize::MAX,
    ensures
        after_files(s, files).chunks.dom().finite(),
        after_files(s, files).report.embedded == after_files(s, files).chunks.len(),
    decreases files.len(),
{
    if files.len() > 0 {
        let front = files.drop_last();
        let f = files.last();
        let before = after_files(s, front);
        assert forall|i: int| 0 <= i < front.len() implies (#[trigger] front[i]).vectors is Some by {
            assert(front[i] == files[i]);
        }
        assert(f == files[files.len() - 1]);
        lemma_distinct_front(files);
        lemma_files_reconciled(s, front);
        lemma_other_entry(s, front, f.relpath);
        lemma_first_chunks(s, front);
        if is_indexed(before.manifest, f) {
            let t = corpus::dropped(before, f.relpath);
            let chunks = corpus::pending(f.relpath, f.bytes->0).chunks;
            assert(Seq::<Seq<char>>::empty().to_set() =~= Set::empty());
            assert(t.chunks =~= before.chunks);
            assert forall|i: nat| !t.chunks.contains_key(#[trigger] chunk::chunk_id(f.relpath, i)) by {
                let id = chunk::chunk_id(f.relpath, i);
                if t.chunks.contains_key(id) {
                    let (other, j) = choose|other: Seq<char>, j: int| #[trigger]
                        listed(before.manifest, other, j) && id == chunk::chunk_id(other, j as nat);
                    chunk::law_chunk_ids_distinct(other, j as nat, f.relpath, i);
                }
            }
            lemma_pending_numbered(f.relpath, f.bytes->0);
            lemma_with_chunks_len(t.chunks, chunks, f.relpath);
        }
        law_first_run_embeds_all(s, front);
    }
}

proof fn lemma_first_chunks(s: RunView, files: Seq<FileInput>)
    requires
        s.manifest == Map::<Seq<char>, FileEntryView>::empty(),
        s.chunks == Map::<Seq<char>, ChunkView>::empty(),
        s.vectors.vectors == Map::<Seq<char>, Seq<u32>>::empty(),
        distinct_paths(files),
    ensures
        after_files(s, files).chunks.dom().finite(),
    decreases files.len(),
{
    if files.len() > 0 {
        let front = files.drop_last();
        let f = files.last();
        lemma_distinct_front(files);
        lemma_first_chunks(s, front);
        let before = after_files(s, front);
        if is_indexed(before.manifest, f) {
            let t = corpus::dropped(before, f.relpath);
            assert(t.chunks.dom().subset_of(before.chunks.dom()));
            vstd::set_lib::lemma_set_subset_finite(before.chunks.dom(), t.chunks.dom());
            lemma_with_chunks_finite(
                t.chunks,
                corpus::pending(f.relpath, f.bytes->0).chunks,
            );
        }
    }
}

proof fn lemma_with_chunks_finite(store: Map<Seq<char>, ChunkView>, chunks: Seq<ChunkView>)
    requires
        store.dom().finite(),
    ensures
        corpus::with_chunks(store, chunks).dom().finite(),
    decreases chunks.len(),
{
    if chunks.len() > 0 {
        lemma_with_chunks_finite(store, chunks.drop_last());
    }
}

// ── the model of the vectors ────────────────────────────────────────────────
/// Whether every vector was made by the recorded model, of the recorded number
/// of dimensions, for the text of its chunk. `made` says which vectors a model
/// makes for a text.
pub open spec fn of_their_model(
    s: RunView,
    made: spec_fn(Seq<char>, nat, Seq<char>, Seq<u32>) -> bool,
) -> bool {
    forall|id: Seq<char>| #[trigger]
        s.vectors.vectors.contains_key(id) ==> s.vectors.model is Some && made(
            s.vectors.model->0,
            s.vectors.dims,
            corpus::embed_text(s.chunks[id]),
            s.vectors.vectors[id],
        )
}

/// Whether the vectors of a file were made by this embedder: one for each of its
/// chunks.
pub open spec fn made_by(
    f: FileInput,
    embedder: Option<(Seq<char>, nat)>,
    made: spec_fn(Seq<char>, nat, Seq<char>, Seq<u32>) -> bool,
) -> bool {
    f.bytes is Some && f.vectors is Some ==> {
        let chunks = corpus::pending(f.relpath, f.bytes->0).chunks;
        &&& embedder is Some
        &&& f.vectors->0.len() == chunks.len()
        &&& forall|j: int|
            0 <= j < chunks.len() ==> made(
                (embedder->0).0,
                (embedder->0).1,
                corpus::embed_text(#[trigger] chunks[j]),
                f.vectors->0[j],
            )
    }
}

proof fn lemma_file_of_model(
    s: RunView,
    f: FileInput,
    embedder: Option<(Seq<char>, nat)>,
    made: spec_fn(Seq<char>, nat, Seq<char>, Seq<u32>) -> bool,
)
    requires
        reconciled(s),
        of_their_model(s, made),
        made_by(f, embedder, made),
        embedder matches Some(e) ==> s.vectors.model == Some(e.0) && s.vectors.dims == e.1,
    ensures
        of_their_model(after_file(s, f), made),
{
    if is_indexed(s.manifest, f) {
        let t = corpus::dropped(s, f.relpath);
        let r = after_file(s, f);
        let chunks = corpus::pending(f.relpath, f.bytes->0).chunks;
        law_dropped(s, f.relpath);
        lemma_pending_numbered(f.relpath, f.bytes->0);
        lemma_with_chunks(t.chunks, chunks, f.relpath);
        if f.vectors is Some {
            lemma_with_vectors(t.vectors.vectors, chunks, f.vectors->0);
            lemma_vector_values(t.vectors.vectors, chunks, f.vectors->0, f.relpath);
        }
        assert forall|id: Seq<char>| #[trigger]
            r.vectors.vectors.contains_key(id) implies r.vectors.model is Some && made(
            r.vectors.model->0,
            r.vectors.dims,
            corpus::embed_text(r.chunks[id]),
            r.vectors.vectors[id],
        ) by {
            if exists|j: int| 0 <= j < chunks.len() && (#[trigger] chunks[j]).id == id {
                let j = choose|j: int| 0 <= j < chunks.len() && (#[trigger] chunks[j]).id == id;
                if f.vectors is None {
                    assert(t.vectors.vectors.contains_key(id));
                    assert(t.chunks.contains_key(id));
                    lemma_not_dropped_path(s, f.relpath, j);
                }
                assert(r.chunks[id] == chunks[j]);
                assert(r.vectors.vectors[id] == f.vectors->0[j]);
            } else {
                assert(t.vectors.vectors.contains_key(id));
                assert(t.chunks.contains_key(id));
                assert(s.vectors.vectors.contains_key(id));
                assert(r.chunks.contains_key(id) == t.chunks.contains_key(id));
                assert(r.chunks[id] == s.chunks[id]);
                assert(r.vectors.vectors[id] == s.vectors.vectors[id]);
            }
        }
    }
}

proof fn lemma_not_dropped_path(s: RunView, relpath: Seq<char>, j: int)
    requires
        reconciled(s),
        j >= 0,
    ensures
        !corpus::dropped(s, relpath).chunks.contains_key(chunk::chunk_id(relpath, j as nat)),
{
    let t = corpus::dropped(s, relpath);
    let id = chunk::chunk_id(relpath, j as nat);
    law_dropped(s, relpath);
    if t.chunks.contains_key(id) {
        let (other, i) = choose|other: Seq<char>, i: int| #[trigger]
            listed(t.manifest, other, i) && id == chunk::chunk_id(other, i as nat);
        chunk::law_chunk_ids_distinct(other, i as nat, relpath, j as nat);
    }
}

proof fn lemma_files_of_model(
    s: RunView,
    files: Seq<FileInput>,
    embedder: Option<(Seq<char>, nat)>,
    made: spec_fn(Seq<char>, nat, Seq<char>, Seq<u32>) -> bool,
)
    requires
        reconciled(s),
        of_their_model(s, made),
        forall|i: int| 0 <= i < files.len() ==> made_by(#[trigger] files[i], embedder, made),
        embedder matches Some(e) ==> s.vectors.model == Some(e.0) && s.vectors.dims == e.1,
    ensures
        of_their_model(after_files(s, files), made),
    decreases files.len(),
{
    if files.len() > 0 {
        let front = files.drop_last();
        assert forall|i: int| 0 <= i < front.len() implies made_by(
            #[trigger] front[i],
            embedder,
            made,
        ) by {
            assert(front[i] == files[i]);
        }
        lemma_files_of_model(s, front, embedder, made);
        lemma_files_reconciled(s, front);
        lemma_model_kept(s, front, Seq::empty());
        assert(files.last() == files[files.len() - 1]);
        lemma_file_of_model(after_files(s, front), files.last(), embedder, made);
    }
}

proof fn lemma_cleared_of_model(
    s: RunView,
    stale: Seq<Seq<char>>,
    made: spec_fn(Seq<char>, nat, Seq<char>, Seq<u32>) -> bool,
)
    requires
        reconciled(s),
        of_their_model(s, made),
    ensures
        of_their_model(corpus::cleared(s, stale), made),
    decreases stale.len(),
{
    if stale.len() > 0 {
        let front = stale.drop_last();
        let before = corpus::cleared(s, front);
        let after = corpus::cleared(s, stale);
        lemma_cleared_of_model(s, front, made);
        lemma_cleared_reconciled(s, front);
        law_dropped(before, stale.last());
        lemma_cleared_reconciled(s, stale);
        assert forall|id: Seq<char>| #[trigger]
            after.vectors.vectors.contains_key(id) implies after.vectors.model is Some && made(
            after.vectors.model->0,
            after.vectors.dims,
            corpus::embed_text(after.chunks[id]),
            after.vectors.vectors[id],
        ) by {
            assert(before.vectors.vectors.contains_key(id));
            assert(after.chunks.contains_key(id));
            assert(corpus::dropped(before, stale.last()).chunks.contains_key(id));
        }
    }
}

/// A run leaves only vectors that the recorded model made, for the texts of
/// their chunks, where the last run did and the embedder makes those it is
/// asked for. So a change of model shows: vectors of two models never stand side
/// by side.
pub proof fn law_vectors_are_of_their_model(
    s: RunView,
    embedder: Option<(Seq<char>, nat)>,
    files: Seq<FileInput>,
    stale: Seq<Seq<char>>,
    made: spec_fn(Seq<char>, nat, Seq<char>, Seq<u32>) -> bool,
)
    requires
        s.manifest == Map::<Seq<char>, FileEntryView>::empty() || (reconciled(s) && of_their_model(
            s,
            made,
        )),
        forall|i: int| 0 <= i < files.len() ==> made_by(#[trigger] files[i], embedder, made),
    ensures
        of_their_model(whole_run(s, embedder, files, stale), made),
{
    let a = corpus::started(s.manifest, s.chunks, s.vectors, embedder);
    law_start_reconciled(s, embedder);
    assert forall|id: Seq<char>| #[trigger] a.vectors.vectors.contains_key(id) implies a.vectors.model is Some
        && made(
        a.vectors.model->0,
        a.vectors.dims,
        corpus::embed_text(a.chunks[id]),
        a.vectors.vectors[id],
    ) by {
        assert(s.vectors.vectors.contains_key(id));
    }
    lemma_files_of_model(a, files, embedder, made);
    lemma_files_reconciled(a, files);
    lemma_cleared_of_model(after_files(a, files), stale, made);
    let c = corpus::cleared(after_files(a, files), stale);
    let t = corpus::finished(c);
    assert forall|id: Seq<char>| #[trigger] t.vectors.vectors.contains_key(id) implies t.vectors.model is Some
        && made(
        t.vectors.model->0,
        t.vectors.dims,
        corpus::embed_text(t.chunks[id]),
        t.vectors.vectors[id],
    ) by {
        assert(c.vectors.vectors.contains_key(id));
    }
}

/// A vector has a length.
spec fn long_as_said() -> spec_fn(Seq<char>, nat, Seq<char>, Seq<u32>) -> bool {
    |model: Seq<char>, dims: nat, body: Seq<char>, vector: Seq<u32>| vector.len() == dims
}

/// After a run the vector store describes its vectors: every one has the
/// recorded number of dimensions, and there is no model exactly where there is no
/// vector.
pub proof fn law_run_described(
    s: RunView,
    embedder: Option<(Seq<char>, nat)>,
    files: Seq<FileInput>,
    stale: Seq<Seq<char>>,
)
    requires
        s.manifest == Map::<Seq<char>, FileEntryView>::empty() || (reconciled(s)
            && store::described(s.vectors)),
        forall|i: int|
            0 <= i < files.len() && (#[trigger] files[i]).bytes is Some && files[i].vectors is Some
                ==> embedder is Some && files[i].vectors->0.len() == corpus::pending(
                files[i].relpath,
                files[i].bytes->0,
            ).chunks.len(),
        forall|i: int, j: int|
            0 <= i < files.len() && files[i].vectors is Some && 0 <= j < files[i].vectors->0.len()
                ==> (#[trigger] files[i].vectors->0[j]).len() == (embedder->0).1,
    ensures
        store::described(whole_run(s, embedder, files, stale).vectors),
        whole_run(s, embedder, files, stale).vectors.model is None <==> whole_run(
            s,
            embedder,
            files,
            stale,
        ).vectors.vectors == Map::<Seq<char>, Seq<u32>>::empty(),
{
    let made = long_as_said();
    assert forall|i: int| 0 <= i < files.len() implies made_by(
        #[trigger] files[i],
        embedder,
        made,
    ) by {
        let f = files[i];
        if f.bytes is Some && f.vectors is Some {
            let chunks = corpus::pending(f.relpath, f.bytes->0).chunks;
            assert forall|j: int| 0 <= j < chunks.len() implies made(
                (embedder->0).0,
                (embedder->0).1,
                corpus::embed_text(#[trigger] chunks[j]),
                f.vectors->0[j],
            ) by {
                assert(files[i].vectors->0[j].len() == (embedder->0).1);
            }
        }
    }
    law_vectors_are_of_their_model(s, embedder, files, stale, made);
    let t = whole_run(s, embedder, files, stale);
    if t.vectors.vectors != Map::<Seq<char>, Seq<u32>>::empty() && t.vectors.model is None {
        assert forall|id: Seq<char>| !t.vectors.vectors.contains_key(id) by {
        }
        assert(t.vectors.vectors =~= Map::empty());
    }
}

// ── the contents of the index ───────────────────────────────────────────────
/// Whether everything stored was made from these contents of the recorded
/// files: each entry holds the hash of the file's bytes and the ids of its
/// chunks, and each of those chunks is stored as it was cut. With the agreement
/// of the stores, nothing else is stored.
pub open spec fn indexed_from(s: RunView, contents: Map<Seq<char>, Seq<u8>>) -> bool {
    &&& reconciled(s)
    &&& s.manifest.dom() == contents.dom()
    &&& forall|relpath: Seq<char>| #[trigger]
        contents.contains_key(relpath) ==> s.manifest[relpath] == entry_of(
            relpath,
            contents[relpath],
        )
    &&& forall|relpath: Seq<char>, j: int|
        contents.contains_key(relpath) && 0 <= j < corpus::pending(
            relpath,
            contents[relpath],
        ).chunks.len() ==> s.chunks[chunk::chunk_id(relpath, j as nat)]
            == #[trigger] corpus::pending(relpath, contents[relpath]).chunks[j]
}

/// The entry of a file with these bytes.
pub open spec fn entry_of(relpath: Seq<char>, bytes: Seq<u8>) -> FileEntryView {
    let file = corpus::pending(relpath, bytes);
    FileEntryView { hash: file.hash, chunk_ids: corpus::ids_of(file.chunks) }
}

/// Whether the chunks of a file are stored under their ids, as they were cut.
pub open spec fn stored_as_cut(
    chunks: Map<Seq<char>, ChunkView>,
    file: corpus::PendingFileView,
) -> bool {
    forall|j: int|
        0 <= j < file.chunks.len() ==> chunks.contains_key((#[trigger] file.chunks[j]).id)
            && chunks[file.chunks[j].id] == file.chunks[j]
}

/// The contents that are indexed after this file.
pub open spec fn contents_after_file(
    contents: Map<Seq<char>, Seq<u8>>,
    s: RunView,
    f: FileInput,
) -> Map<Seq<char>, Seq<u8>> {
    if is_indexed(s.manifest, f) {
        contents.insert(f.relpath, f.bytes->0)
    } else {
        contents
    }
}

/// The contents that are indexed after these files.
pub open spec fn contents_after_files(
    contents: Map<Seq<char>, Seq<u8>>,
    s: RunView,
    files: Seq<FileInput>,
) -> Map<Seq<char>, Seq<u8>>
    decreases files.len(),
{
    if files.len() == 0 {
        contents
    } else {
        contents_after_file(
            contents_after_files(contents, s, files.drop_last()),
            after_files(s, files.drop_last()),
            files.last(),
        )
    }
}

/// Taking in a file keeps everything stored made from the contents of the
/// recorded files: the bytes of this file where it is indexed, and those it was
/// indexed from before where it is skipped.
pub proof fn law_file_contents(s: RunView, contents: Map<Seq<char>, Seq<u8>>, f: FileInput)
    requires
        indexed_from(s, contents),
    ensures
        indexed_from(after_file(s, f), contents_after_file(contents, s, f)),
{
    law_file_reconciled(s, f);
    if is_indexed(s.manifest, f) {
        let t = after_file(s, f);
        let now = contents_after_file(contents, s, f);
        let file = corpus::pending(f.relpath, f.bytes->0);
        let d = corpus::dropped(s, f.relpath);
        lemma_pending_numbered(f.relpath, f.bytes->0);
        lemma_with_chunks(d.chunks, file.chunks, f.relpath);
        assert(t.manifest.dom() =~= now.dom());
        assert forall|relpath: Seq<char>| #[trigger] now.contains_key(relpath) implies t.manifest[relpath]
            == entry_of(relpath, now[relpath]) by {
            if relpath != f.relpath {
                assert(contents.contains_key(relpath));
            }
        }
        assert forall|relpath: Seq<char>, j: int|
            now.contains_key(relpath) && 0 <= j < corpus::pending(
                relpath,
                now[relpath],
            ).chunks.len() implies t.chunks[chunk::chunk_id(relpath, j as nat)]
            == #[trigger] corpus::pending(relpath, now[relpath]).chunks[j] by {
            let id = chunk::chunk_id(relpath, j as nat);
            if relpath == f.relpath {
                assert(file.chunks[j].id == id);
            } else {
                assert(contents.contains_key(relpath));
                assert(s.manifest.dom().contains(relpath));
                assert(s.manifest[relpath] == entry_of(relpath, contents[relpath]));
                assert(listed(s.manifest, relpath, j));
                assert(s.chunks[id] == corpus::pending(relpath, contents[relpath]).chunks[j]);
                lemma_other_chunk(s, f, id);
            }
        }
    }
}

proof fn lemma_files_contents(s: RunView, contents: Map<Seq<char>, Seq<u8>>, files: Seq<FileInput>)
    requires
        indexed_from(s, contents),
    ensures
        indexed_from(after_files(s, files), contents_after_files(contents, s, files)),
    decreases files.len(),
{
    if files.len() > 0 {
        let front = files.drop_last();
        lemma_files_contents(s, contents, front);
        law_file_contents(
            after_files(s, front),
            contents_after_files(contents, s, front),
            files.last(),
        );
    }
}

/// Dropping files keeps everything stored made from the contents of the files
/// that stay recorded.
pub proof fn law_cleared_contents(
    s: RunView,
    contents: Map<Seq<char>, Seq<u8>>,
    stale: Seq<Seq<char>>,
)
    requires
        indexed_from(s, contents),
    ensures
        indexed_from(corpus::cleared(s, stale), contents.remove_keys(stale.to_set())),
{
    lemma_cleared(s, stale);
    lemma_cleared_reconciled(s, stale);
    let t = corpus::cleared(s, stale);
    let now = contents.remove_keys(stale.to_set());
    assert forall|k: Seq<char>| t.manifest.dom().contains(k) == now.dom().contains(k) by {
        assert(t.manifest.contains_key(k) <==> s.manifest.contains_key(k) && !stale.contains(k));
        assert(s.manifest.dom().contains(k) == contents.dom().contains(k));
    }
    assert(t.manifest.dom() =~= now.dom());
    assert forall|relpath: Seq<char>| #[trigger] now.contains_key(relpath) implies t.manifest[relpath]
        == entry_of(relpath, now[relpath]) by {
        assert(contents.contains_key(relpath));
        assert(t.manifest.dom().contains(relpath));
        assert(t.manifest.contains_key(relpath));
    }
    assert forall|relpath: Seq<char>, j: int|
        now.contains_key(relpath) && 0 <= j < corpus::pending(
            relpath,
            now[relpath],
        ).chunks.len() implies t.chunks[chunk::chunk_id(relpath, j as nat)]
        == #[trigger] corpus::pending(relpath, now[relpath]).chunks[j] by {
        let id = chunk::chunk_id(relpath, j as nat);
        assert(contents.contains_key(relpath));
        assert(s.manifest.dom().contains(relpath));
        assert(s.manifest[relpath] == entry_of(relpath, contents[relpath]));
        assert(listed(s.manifest, relpath, j));
        assert(s.chunks[id].path == relpath);
        assert(s.chunks[id] == corpus::pending(relpath, contents[relpath]).chunks[j]);
        assert(!stale.contains(relpath));
        assert(t.chunks.contains_key(id));
    }
}

proof fn lemma_contents_of(
    contents: Map<Seq<char>, Seq<u8>>,
    s: RunView,
    files: Seq<FileInput>,
    i: int,
)
    requires
        distinct_paths(files),
        0 <= i < files.len(),
    ensures
        is_indexed(s.manifest, files[i]) ==> contents_after_files(contents, s, files).contains_key(
            files[i].relpath,
        ) && contents_after_files(contents, s, files)[files[i].relpath] == files[i].bytes->0,
        !is_indexed(s.manifest, files[i]) ==> contents_after_files(
            contents,
            s,
            files,
        ).contains_key(files[i].relpath) == contents.contains_key(files[i].relpath)
            && contents_after_files(contents, s, files)[files[i].relpath]
            == contents[files[i].relpath],
    decreases files.len(),
{
    let front = files.drop_last();
    lemma_distinct_front(files);
    if i < files.len() - 1 {
        lemma_contents_of(contents, s, front, i);
        assert(front[i] == files[i]);
        assert(front[i].relpath != files.last().relpath);
    } else {
        lemma_other_entry(s, front, files[i].relpath);
        lemma_other_contents(contents, s, front, files[i].relpath);
    }
}

proof fn lemma_other_contents(
    contents: Map<Seq<char>, Seq<u8>>,
    s: RunView,
    files: Seq<FileInput>,
    relpath: Seq<char>,
)
    requires
        forall|i: int| 0 <= i < files.len() ==> (#[trigger] files[i]).relpath != relpath,
    ensures
        contents_after_files(contents, s, files).contains_key(relpath) == contents.contains_key(
            relpath,
        ),
        contents_after_files(contents, s, files)[relpath] == contents[relpath],
    decreases files.len(),
{
    if files.len() > 0 {
        let front = files.drop_last();
        assert forall|i: int| 0 <= i < front.len() implies (#[trigger] front[i]).relpath
            != relpath by {
            assert(front[i] == files[i]);
        }
        lemma_other_contents(contents, s, front, relpath);
        assert(files[files.len() - 1].relpath != relpath);
    }
}

/// The contents that are indexed after a whole run.
pub open spec fn contents_after_run(
    contents: Map<Seq<char>, Seq<u8>>,
    s: RunView,
    embedder: Option<(Seq<char>, nat)>,
    files: Seq<FileInput>,
    stale: Seq<Seq<char>>,
) -> Map<Seq<char>, Seq<u8>> {
    contents_after_files(
        contents,
        corpus::started(s.manifest, s.chunks, s.vectors, embedder),
        files,
    ).remove_keys(stale.to_set())
}

/// A whole run keeps everything stored made from the contents of the recorded
/// files. It does so from the first run on, and where the manifest was lost.
pub proof fn law_run_contents(
    s: RunView,
    contents: Map<Seq<char>, Seq<u8>>,
    embedder: Option<(Seq<char>, nat)>,
    files: Seq<FileInput>,
    stale: Seq<Seq<char>>,
)
    requires
        indexed_from(s, contents) || (s.manifest == Map::<Seq<char>, FileEntryView>::empty()
            && contents == Map::<Seq<char>, Seq<u8>>::empty()),
    ensures
        indexed_from(
            whole_run(s, embedder, files, stale),
            contents_after_run(contents, s, embedder, files, stale),
        ),
{
    let a = corpus::started(s.manifest, s.chunks, s.vectors, embedder);
    law_start_reconciled(s, embedder);
    lemma_start_contents(s, contents, embedder);
    lemma_files_contents(a, contents, files);
    let r = after_files(a, files);
    let now = contents_after_files(contents, a, files);
    law_cleared_contents(r, now, stale);
    lemma_finished_reconciled(corpus::cleared(r, stale));
}

proof fn lemma_start_contents(
    s: RunView,
    contents: Map<Seq<char>, Seq<u8>>,
    embedder: Option<(Seq<char>, nat)>,
)
    requires
        indexed_from(s, contents) || (s.manifest == Map::<Seq<char>, FileEntryView>::empty()
            && contents == Map::<Seq<char>, Seq<u8>>::empty()),
    ensures
        indexed_from(corpus::started(s.manifest, s.chunks, s.vectors, embedder), contents),
{
    law_start_reconciled(s, embedder);
    let a = corpus::started(s.manifest, s.chunks, s.vectors, embedder);
    if s.manifest == Map::<Seq<char>, FileEntryView>::empty() {
        assert(contents.dom() =~= Set::empty());
        assert(a.manifest.dom() =~= contents.dom());
        assert forall|relpath: Seq<char>| !contents.contains_key(relpath) by {
            assert(!contents.dom().contains(relpath));
        }
    }
}

/// After a run that could read every file, the index is that of the files as
/// they are: exactly the files it met are recorded, each with the hash of its
/// bytes and the ids of the chunks it is cut into; those chunks are stored as
/// they are and no others; and every vector is that of a stored chunk.
///
/// The run meets every recorded file that is still there, which holds where the
/// globs are those of the runs before. A file that is skipped holds the bytes it
/// was indexed from, unless these are other bytes with the same hash.
pub proof fn law_index_is_current(
    s: RunView,
    contents: Map<Seq<char>, Seq<u8>>,
    embedder: Option<(Seq<char>, nat)>,
    files: Seq<FileInput>,
    seen: Seq<Seq<char>>,
    stale: Seq<Seq<char>>,
)
    requires
        indexed_from(s, contents) || (s.manifest == Map::<Seq<char>, FileEntryView>::empty()
            && contents == Map::<Seq<char>, Seq<u8>>::empty()),
        distinct_paths(files),
        forall|i: int| 0 <= i < files.len() ==> (#[trigger] files[i]).bytes is Some,
        forall|i: int| 0 <= i < files.len() ==> seen.contains((#[trigger] files[i]).relpath),
        forall|k: Seq<char>| #[trigger]
            s.manifest.contains_key(k) && seen.contains(k) ==> exists|i: int|
                0 <= i < files.len() && (#[trigger] files[i]).relpath == k,
        is_stale(files_taken_in(s, embedder, files), seen, stale),
        forall|i: int|
            0 <= i < files.len() && contents.contains_key((#[trigger] files[i]).relpath)
                && manifest::blake3_hex(contents[files[i].relpath]) == manifest::blake3_hex(
                files[i].bytes->0,
            ) ==> contents[files[i].relpath] == files[i].bytes->0,
    ensures
        ({
            let t = whole_run(s, embedder, files, stale);
            &&& forall|k: Seq<char>| #[trigger]
                t.manifest.contains_key(k) <==> exists|i: int|
                    0 <= i < files.len() && (#[trigger] files[i]).relpath == k
            &&& forall|i: int|
                0 <= i < files.len() ==> t.manifest[(#[trigger] files[i]).relpath] == entry_of(
                    files[i].relpath,
                    files[i].bytes->0,
                )
            &&& forall|i: int|
                0 <= i < files.len() ==> stored_as_cut(
                    t.chunks,
                    corpus::pending((#[trigger] files[i]).relpath, files[i].bytes->0),
                )
            &&& forall|id: Seq<char>| #[trigger]
                t.chunks.contains_key(id) ==> exists|i: int, j: int|
                    0 <= i < files.len() && 0 <= j < corpus::pending(
                        files[i].relpath,
                        files[i].bytes->0,
                    ).chunks.len() && (#[trigger] corpus::pending(
                        files[i].relpath,
                        files[i].bytes->0,
                    ).chunks[j]).id == id
            &&& forall|id: Seq<char>| #[trigger]
                t.vectors.vectors.contains_key(id) ==> t.chunks.contains_key(id)
            &&& t.chunks.len() <= usize::MAX ==> t.report.chunks == t.chunks.len()
        }),
{
    let a = corpus::started(s.manifest, s.chunks, s.vectors, embedder);
    let t = whole_run(s, embedder, files, stale);
    let r = after_files(a, files);
    let now = contents_after_files(contents, a, files);
    let last = contents_after_run(contents, s, embedder, files, stale);
    law_run_contents(s, contents, embedder, files, stale);
    lemma_start_contents(s, contents, embedder);
    lemma_files_contents(a, contents, files);
    assert(r.manifest.dom() == now.dom());
    assert forall|i: int| 0 <= i < files.len() implies last.contains_key(
        (#[trigger] files[i]).relpath,
    ) && last[files[i].relpath] == files[i].bytes->0 by {
        let k = files[i].relpath;
        lemma_contents_of(contents, a, files, i);
        if !is_indexed(a.manifest, files[i]) {
            assert(a.manifest.contains_key(k));
            assert(a.manifest.dom().contains(k));
            assert(contents.dom().contains(k));
            assert(contents.contains_key(k));
            assert(a.manifest[k] == entry_of(k, contents[k]));
        }
        assert(now.contains_key(k));
        assert(seen.contains(k));
        assert(!stale.contains(k));
        assert(!stale.to_set().contains(k));
    }
    assert forall|k: Seq<char>| #[trigger] t.manifest.contains_key(k) <==> exists|i: int|
        0 <= i < files.len() && (#[trigger] files[i]).relpath == k by {
        assert(t.manifest.dom().contains(k) == last.dom().contains(k));
        if t.manifest.contains_key(k) {
            assert(last.contains_key(k));
            assert(now.contains_key(k));
            assert(r.manifest.dom().contains(k));
            assert(r.manifest.contains_key(k));
            assert(!stale.to_set().contains(k));
            assert(!stale.contains(k));
            assert(seen.contains(k));
            if forall|i: int| 0 <= i < files.len() ==> (#[trigger] files[i]).relpath != k {
                lemma_other_entry(a, files, k);
                assert(a.manifest.contains_key(k));
                assert(s.manifest.contains_key(k));
            }
        }
    }
    assert forall|i: int| 0 <= i < files.len() implies t.manifest[(#[trigger] files[i]).relpath]
        == entry_of(files[i].relpath, files[i].bytes->0) by {
        assert(last.contains_key(files[i].relpath));
    }
    assert forall|i: int| 0 <= i < files.len() implies stored_as_cut(
        t.chunks,
        corpus::pending((#[trigger] files[i]).relpath, files[i].bytes->0),
    ) by {
        let k = files[i].relpath;
        let file = corpus::pending(k, files[i].bytes->0);
        assert(last.contains_key(k) && last[k] == files[i].bytes->0);
        assert(t.manifest.contains_key(k));
        assert(t.manifest[k] == entry_of(k, last[k]));
        lemma_pending_numbered(k, files[i].bytes->0);
        assert forall|j: int| 0 <= j < file.chunks.len() implies t.chunks.contains_key(
            (#[trigger] file.chunks[j]).id,
        ) && t.chunks[file.chunks[j].id] == file.chunks[j] by {
            assert(listed(t.manifest, k, j));
            assert(t.chunks[chunk::chunk_id(k, j as nat)] == corpus::pending(k, last[k]).chunks[j]);
        }
    }
    assert forall|id: Seq<char>| #[trigger] t.chunks.contains_key(id) implies exists|
        i: int,
        j: int,
    |
        0 <= i < files.len() && 0 <= j < corpus::pending(
            files[i].relpath,
            files[i].bytes->0,
        ).chunks.len() && (#[trigger] corpus::pending(
            files[i].relpath,
            files[i].bytes->0,
        ).chunks[j]).id == id by {
        let (k, j) = choose|k: Seq<char>, j: int| #[trigger]
            listed(t.manifest, k, j) && id == chunk::chunk_id(k, j as nat);
        assert(t.manifest.contains_key(k));
        let i = choose|i: int| 0 <= i < files.len() && (#[trigger] files[i]).relpath == k;
        assert(t.manifest[k] == entry_of(files[i].relpath, files[i].bytes->0));
        lemma_pending_numbered(files[i].relpath, files[i].bytes->0);
        assert(corpus::pending(files[i].relpath, files[i].bytes->0).chunks[j].id == id);
    }
}

// ── searches ────────────────────────────────────────────────────────────────
/// A search gives at most `k` results. They come in the order of the ranking,
/// each for a stored chunk among the first `k` ranked ids, at the place where
/// that id is ranked.
pub proof fn law_results(ids: Seq<Seq<char>>, k: nat, chunks: Map<Seq<char>, ChunkView>)
    ensures
        corpus::results_for(corpus::first_k(ids, k), chunks).len() <= k,
        forall|i: int|
            0 <= i < corpus::results_for(corpus::first_k(ids, k), chunks).len() ==> {
                let r = #[trigger] corpus::results_for(corpus::first_k(ids, k), chunks)[i];
                &&& r.rank < k
                &&& r.rank < ids.len()
                &&& chunks.contains_key(ids[r.rank as int])
                &&& r == corpus::result_of(chunks[ids[r.rank as int]], r.rank)
            },
        forall|i: int, j: int|
            0 <= i < j < corpus::results_for(corpus::first_k(ids, k), chunks).len() ==> (
            #[trigger] corpus::results_for(corpus::first_k(ids, k), chunks)[i]).rank < (
            #[trigger] corpus::results_for(corpus::first_k(ids, k), chunks)[j]).rank,
{
    lemma_results(corpus::first_k(ids, k), chunks);
}

proof fn lemma_results(ids: Seq<Seq<char>>, chunks: Map<Seq<char>, ChunkView>)
    ensures
        corpus::results_for(ids, chunks).len() <= ids.len(),
        forall|i: int|
            0 <= i < corpus::results_for(ids, chunks).len() ==> {
                let r = #[trigger] corpus::results_for(ids, chunks)[i];
                &&& r.rank < ids.len()
                &&& chunks.contains_key(ids[r.rank as int])
                &&& r == corpus::result_of(chunks[ids[r.rank as int]], r.rank)
            },
        forall|i: int, j: int|
            0 <= i < j < corpus::results_for(ids, chunks).len() ==> (
            #[trigger] corpus::results_for(ids, chunks)[i]).rank < (
            #[trigger] corpus::results_for(ids, chunks)[j]).rank,
    decreases ids.len(),
{
    if ids.len() > 0 {
        let front = ids.drop_last();
        lemma_results(front, chunks);
        let before = corpus::results_for(front, chunks);
        let all = corpus::results_for(ids, chunks);
        assert forall|i: int| 0 <= i < all.len() implies {
            let r = #[trigger] all[i];
            &&& r.rank < ids.len()
            &&& chunks.contains_key(ids[r.rank as int])
            &&& r == corpus::result_of(chunks[ids[r.rank as int]], r.rank)
        } by {
            if i < before.len() {
                assert(all[i] == before[i]);
                assert(front[before[i].rank as int] == ids[before[i].rank as int]);
            }
        }
        assert forall|i: int, j: int| 0 <= i < j < all.len() implies (#[trigger] all[i]).rank < (
        #[trigger] all[j]).rank by {
            assert(all[i] == before[i]);
            if j < before.len() {
                assert(all[j] == before[j]);
            }
        }
    }
}

/// Every ranked id among the first `k` that has a chunk gives a result.
pub proof fn law_no_result_lost(
    ids: Seq<Seq<char>>,
    k: nat,
    chunks: Map<Seq<char>, ChunkView>,
    at: int,
)
    requires
        0 <= at < ids.len(),
        at < k,
        chunks.contains_key(ids[at]),
    ensures
        corpus::results_for(corpus::first_k(ids, k), chunks).contains(
            corpus::result_of(chunks[ids[at]], at as nat),
        ),
{
    lemma_no_result_lost(corpus::first_k(ids, k), chunks, at);
}

proof fn lemma_no_result_lost(ids: Seq<Seq<char>>, chunks: Map<Seq<char>, ChunkView>, at: int)
    requires
        0 <= at < ids.len(),
        chunks.contains_key(ids[at]),
    ensures
        corpus::results_for(ids, chunks).contains(corpus::result_of(chunks[ids[at]], at as nat)),
    decreases ids.len(),
{
    let all = corpus::results_for(ids, chunks);
    let before = corpus::results_for(ids.drop_last(), chunks);
    let r = corpus::result_of(chunks[ids[at]], at as nat);
    if at < ids.len() - 1 {
        lemma_no_result_lost(ids.drop_last(), chunks, at);
        let i = before.index_of(r);
        assert(all[i] == r);
    } else {
        assert(all[before.len() as int] == r);
    }
}

/// A semantic search finds something where a vector is stored, whatever the
/// similarities are, and each vector stands for a stored chunk.
pub proof fn law_semantic_search_finds(
    s: RunView,
    ids: Seq<Seq<char>>,
    similarities: Seq<u32>,
    k: nat,
)
    requires
        reconciled(s),
        s.vectors.vectors != Map::<Seq<char>, Seq<u32>>::empty(),
        ids.to_set() == s.vectors.vectors.dom(),
        similarities.len() == ids.len(),
        0 < k <= usize::MAX,
    ensures
        corpus::results_for(
            corpus::first_k(
                corpus::scored_ids(
                    store::nearest(ids, similarities, corpus::fetch_depth(k as int) as nat),
                ),
                k,
            ),
            s.chunks,
        ).len() > 0,
{
    broadcast use vstd::seq_lib::group_to_multiset_ensures;

    let fetch = corpus::fetch_depth(k as int) as nat;
    let near = store::nearest(ids, similarities, fetch);
    if ids.len() == 0 {
        assert(ids.to_set() =~= Set::empty());
        assert(s.vectors.vectors =~= Map::empty());
    }
    let pairs = store::id_scores(ids, similarities);
    store::law_nearest(ids, similarities, fetch);
    search::law_ranked(pairs, 0);
    let all = search::ranked(pairs);
    assert(near[0] == all[0]);
    assert(all.to_multiset().count(all[0]) > 0);
    assert(pairs.contains(all[0]));
    let at = pairs.index_of(all[0]);
    let found = corpus::scored_ids(near);
    assert(found[0] == ids[at]);
    assert(ids.to_set().contains(ids[at]));
    assert(s.vectors.vectors.contains_key(found[0]));
    law_no_result_lost(found, k, s.chunks, 0);
}

} // verus!
