//! Index runs and searches from end to end: the text lane, the incremental
//! updates, and the semantic lane with the stub embedder.

use std::collections::BTreeMap;

use corpus::config::default_include;
use corpus::corpus::{
    embed_input, fused_ids, plan_search, rank_lanes, results, semantic_ids, semantic_ready,
    FileStep, IndexReport, IndexRun, Ranking,
};
use corpus::discovery::{discover, WalkEntry};
use corpus::embed::StubEmbedder;
use corpus::index::{document_of, index_query};
use corpus::manifest::Manifest;
use corpus::search::{Scored, SearchMode, SearchResult};
use corpus::store::{ChunkStore, VectorStore};
use tantivy::collector::TopDocs;
use tantivy::query::QueryParser;
use tantivy::schema::{Field, Schema, Value, STORED, STRING, TEXT};
use tantivy::{Index, IndexWriter, TantivyDocument, Term};

/// A repository, its stores and its lexical index, all in memory.
struct Corpus {
    files: BTreeMap<String, String>,
    manifest: Option<Manifest>,
    chunks: Option<ChunkStore>,
    vectors: Option<VectorStore>,
    index: Index,
    path: Field,
    chunk_id: Field,
    heading: Field,
    body: Field,
    embedder: Option<StubEmbedder>,
}

fn cosine(a: &[f32], b: &[f32]) -> f32 {
    let dot: f32 = a.iter().zip(b).map(|(x, y)| x * y).sum();
    let na: f32 = a.iter().map(|x| x * x).sum();
    let nb: f32 = b.iter().map(|x| x * x).sum();
    if na == 0.0 || nb == 0.0 {
        return 0.0;
    }
    dot / (na.sqrt() * nb.sqrt())
}

fn embed(e: &StubEmbedder, text: &str) -> Vec<f32> {
    e.embed(text).into_iter().map(|count| count as f32).collect()
}

impl Corpus {
    fn new(embedder: Option<StubEmbedder>) -> Corpus {
        let mut builder = Schema::builder();
        let path = builder.add_text_field("path", STRING);
        let chunk_id = builder.add_text_field("chunk_id", STORED);
        let heading = builder.add_text_field("heading", TEXT);
        let body = builder.add_text_field("body", TEXT);
        Corpus {
            files: BTreeMap::new(),
            manifest: Some(Manifest::default()),
            chunks: Some(ChunkStore::default()),
            vectors: Some(VectorStore::default()),
            index: Index::create_in_ram(builder.build()),
            path,
            chunk_id,
            heading,
            body,
            embedder,
        }
    }

    fn write(&mut self, relpath: &str, body: &str) {
        self.files.insert(relpath.to_string(), body.to_string());
    }

    fn index(&mut self) -> IndexReport {
        self.index_globs(&default_include())
    }

    fn index_globs(&mut self, globs: &Vec<String>) -> IndexReport {
        let walk: Vec<WalkEntry> = self
            .files
            .keys()
            .enumerate()
            .map(|(abs, path)| WalkEntry {
                abs,
                is_file: true,
                components: Some(path.split('/').map(String::from).collect()),
            })
            .collect();
        let bodies: Vec<&String> = self.files.values().collect();
        let docs = discover(&walk, globs).unwrap();
        let mut writer: IndexWriter = self.index.writer(50_000_000).unwrap();
        let (mut run, rebuild) = IndexRun::start(
            self.manifest.take().unwrap(),
            self.chunks.take().unwrap(),
            self.vectors.take().unwrap(),
            self.embedder.as_ref().map(|e| (e.model_id(), e.dimensions())),
        );
        if rebuild {
            writer.delete_all_documents().unwrap();
        }
        for doc in &docs {
            let file = match run.file(&doc.relpath, bodies[doc.abs].as_bytes()) {
                FileStep::Unchanged => continue,
                FileStep::Reindex(file) => file,
            };
            writer.delete_term(Term::from_field_text(self.path, &doc.relpath));
            for chunk in &file.chunks {
                let d = document_of(chunk);
                let mut doc = TantivyDocument::new();
                doc.add_text(self.path, &d.path);
                doc.add_text(self.chunk_id, &d.chunk_id);
                doc.add_text(self.heading, &d.heading);
                doc.add_text(self.body, &d.body);
                writer.add_document(doc).unwrap();
            }
            let vectors = self.embedder.as_ref().map(|e| {
                file.chunks
                    .iter()
                    .map(|c| embed(e, &embed_input(c)).into_iter().map(f32::to_bits).collect())
                    .collect()
            });
            run.finish_file(file, vectors);
        }
        for relpath in run.drop_vanished(&walk) {
            writer.delete_term(Term::from_field_text(self.path, &relpath));
        }
        writer.commit().unwrap();
        let report = run.finish();
        self.manifest = Some(run.manifest);
        self.chunks = Some(run.chunks);
        self.vectors = Some(run.vectors);
        report
    }

    fn text_ids(&self, query: &str, k: usize) -> Vec<String> {
        let reader = self.index.reader().unwrap();
        reader.reload().unwrap();
        let searcher = reader.searcher();
        let parser = QueryParser::for_index(&self.index, vec![self.heading, self.body]);
        let Some(terms) = index_query(query) else {
            return vec![];
        };
        let parsed = parser.parse_query(&terms).unwrap();
        let top = searcher
            .search(&parsed, &TopDocs::with_limit(k).order_by_score())
            .unwrap();
        let mut hits = Vec::new();
        for (_, address) in top {
            let doc: TantivyDocument = searcher.doc(address).unwrap();
            hits.push(doc.get_first(self.chunk_id).unwrap().as_str().unwrap().to_string());
        }
        hits
    }

    fn search(&self, query: &str, k: usize, mode: SearchMode) -> Vec<SearchResult> {
        let chunks = self.chunks.as_ref().unwrap();
        let vectors = self.vectors.as_ref().unwrap();
        let Some(plan) = plan_search(chunks, k, mode) else {
            return vec![];
        };
        let text = if plan.text { self.text_ids(query, plan.fetch) } else { vec![] };
        let semantic = match &self.embedder {
            Some(e) if plan.semantic && semantic_ready(true, vectors) => {
                let q = embed(e, query);
                let similarities = (0..vectors.vectors.len())
                    .map(|i| {
                        let v: Vec<f32> =
                            vectors.vectors.entry(i).1.iter().map(|b| f32::from_bits(*b)).collect();
                        cosine(&q, &v).to_bits()
                    })
                    .collect();
                semantic_ids(vectors, &similarities, plan.fetch)
            }
            _ => vec![],
        };
        let ranked = match rank_lanes(mode, text, semantic, self.embedder.is_some()).unwrap() {
            Ranking::Ids(ids) => ids,
            Ranking::Fuse(candidates) => fused_ids(
                candidates
                    .into_iter()
                    .map(|c| {
                        let score: f32 = c.ranks.iter().map(|r| 1.0 / (60.0 + *r as f32)).sum();
                        Scored { id: c.id, score: score.to_bits() }
                    })
                    .collect(),
            ),
        };
        results(&ranked, k, chunks)
    }
}

#[test]
fn text_index_and_search_end_to_end() {
    let mut corpus = Corpus::new(None);
    corpus.write(
        "docs/config.md",
        "# Configuration\n\n## Executor kinds\n\nThe executor kinds are llm and tool.\n",
    );
    corpus.write("README.md", "# Project\n\nA gateway for governed workflows.\n");

    let report = corpus.index();
    assert_eq!(report.indexed, 2);
    assert_eq!(report.skipped_unchanged, 0);
    assert_eq!(report.removed, 0);
    assert!(report.chunks >= 2);
    assert_eq!(report.embedded, 0);

    let hits = corpus.search("executor kinds", 5, SearchMode::Text);
    assert!(!hits.is_empty());
    assert_eq!(hits[0].path, "docs/config.md");
    assert_eq!(
        hits[0].heading_path,
        vec!["Configuration", "Executor kinds"]
    );
    assert!(hits[0].snippet.contains("executor kinds"));
}

#[test]
fn freshness_skips_unchanged_reindexes_changed_and_drops_deleted() {
    let mut corpus = Corpus::new(None);
    corpus.write("a.md", "# A\n\nalpha content about widgets\n");
    corpus.write("b.md", "# B\n\nbeta content about gadgets\n");

    // First index: both new.
    let r1 = corpus.index();
    assert_eq!(r1.indexed, 2);
    assert_eq!(r1.skipped_unchanged, 0);

    // Re-index with no changes: both skipped by content hash.
    let r2 = corpus.index();
    assert_eq!(r2.indexed, 0);
    assert_eq!(r2.skipped_unchanged, 2);
    assert_eq!(r2.removed, 0);

    // Change only a.md: exactly one reindexed, one skipped.
    corpus.write("a.md", "# A\n\nalpha content about sprockets now\n");
    let r3 = corpus.index();
    assert_eq!(r3.indexed, 1);
    assert_eq!(r3.skipped_unchanged, 1);
    assert_eq!(r3.removed, 0);

    // The new content is searchable; the old content is gone.
    let sprockets = corpus.search("sprockets", 5, SearchMode::Text);
    assert!(!sprockets.is_empty());
    let widgets = corpus.search("widgets", 5, SearchMode::Text);
    assert!(widgets.is_empty(), "stale chunk should have been dropped");

    // Delete b.md: reported removed, chunks dropped.
    corpus.files.remove("b.md");
    let r4 = corpus.index();
    assert_eq!(r4.removed, 1);
    assert_eq!(r4.indexed, 0);
    let gadgets = corpus.search("gadgets", 5, SearchMode::Text);
    assert!(gadgets.is_empty(), "deleted file's chunks should be gone");
}

#[test]
fn semantic_and_hybrid_search_via_stub_embedder() {
    let mut corpus = Corpus::new(Some(StubEmbedder::new(256)));
    corpus.write(
        "guide.md",
        "# Guide\n\n## Configuring executors\n\nSet executor kinds in the config file.\n",
    );
    corpus.write(
        "recipes.md",
        "# Recipes\n\n## Baking bread\n\nMix flour water yeast salt and bake.\n",
    );

    let report = corpus.index();
    assert!(report.embedded > 0, "chunks should be embedded");
    assert_eq!(report.embedded, report.chunks);

    // Semantic: a query sharing tokens with the executor section should rank it
    // first via cosine over the stub's bag-of-words vectors.
    let sem = corpus.search("how to configure executor kinds", 5, SearchMode::Semantic);
    assert!(!sem.is_empty());
    assert_eq!(sem[0].path, "guide.md");

    // Hybrid fuses text + semantic and still surfaces the right doc.
    let hybrid = corpus.search("configure executor kinds", 5, SearchMode::Hybrid);
    assert!(!hybrid.is_empty());
    assert_eq!(hybrid[0].path, "guide.md");
}

#[test]
fn hybrid_falls_back_to_text_when_no_vectors() {
    let mut corpus = Corpus::new(None);
    corpus.write("a.md", "# A\n\ncontent about telemetry pipelines\n");

    // Index without an embedder (no vectors persisted).
    corpus.index();

    // Hybrid with no embedder must not error: it falls back to text.
    let hits = corpus.search("telemetry", 5, SearchMode::Hybrid);
    assert!(!hits.is_empty());
}

#[test]
fn a_lost_manifest_leaves_no_stale_results() {
    let mut corpus = Corpus::new(None);
    corpus.write("a.md", "# A\n\nabout widgets\n");
    corpus.write("b.md", "# B\n\nabout gadgets\n");
    corpus.index();
    corpus.files.remove("b.md");
    corpus.manifest = Some(Manifest::default());
    let report = corpus.index();
    assert_eq!(report.indexed, 1);
    assert_eq!(report.chunks, 1);
    assert!(corpus.search("gadgets", 5, SearchMode::Text).is_empty());
    assert_eq!(corpus.search("widgets", 5, SearchMode::Text).len(), 1);
}

#[test]
fn a_file_that_the_globs_of_a_run_leave_out_is_not_removed() {
    let mut corpus = Corpus::new(None);
    corpus.write("a.md", "# A\n\nx\n");
    corpus.write("b.txt", "hello");
    corpus.index();
    let report = corpus.index_globs(&vec!["**/*.txt".to_string()]);
    assert_eq!(report.removed, 0);
    assert_eq!(report.skipped_unchanged, 1);
    assert_eq!(report.chunks, 2);
    assert!(corpus.chunks.as_ref().unwrap().get("a.md#0").is_some());
}

#[test]
fn a_change_of_model_leaves_no_vector_of_the_old_one() {
    let mut corpus = Corpus::new(Some(StubEmbedder::new(64)));
    corpus.write("a.md", "# A\n\nabout widgets\n");
    corpus.write("b.md", "# B\n\nabout gadgets\n");
    assert_eq!(corpus.index().embedded, 2);
    corpus.embedder = Some(StubEmbedder::new(256));
    corpus.write("b.md", "# B\n\nabout sprockets\n");
    let report = corpus.index();
    assert_eq!(report.skipped_unchanged, 1);
    assert_eq!(report.embedded, 1);
    let vectors = corpus.vectors.as_ref().unwrap();
    assert_eq!(vectors.model, Some("stub/hash-256".to_string()));
    assert_eq!(vectors.dims, 256);
    assert_eq!(vectors.vectors.len(), 1);
    assert_eq!(vectors.vectors.get("b.md#0").unwrap().len(), 256);

    // The same where no file changed.
    corpus.embedder = Some(StubEmbedder::new(32));
    let report = corpus.index();
    assert_eq!(report.skipped_unchanged, 2);
    let vectors = corpus.vectors.as_ref().unwrap();
    assert!(vectors.is_empty());
    assert_eq!(vectors.model, None);
    assert_eq!(vectors.dims, 0);
}

#[test]
fn a_second_run_leaves_the_stores_as_they_are() {
    let mut corpus = Corpus::new(Some(StubEmbedder::new(64)));
    corpus.write("a.md", "# A\n\nabout widgets\n");
    corpus.write("b.txt", "about gadgets\n");
    let first = corpus.index();
    let stored = |c: &Corpus| {
        let v = c.vectors.as_ref().unwrap();
        let vectors: Vec<(String, Vec<u32>)> = (0..v.vectors.len())
            .map(|i| (v.vectors.entry(i).0.clone(), v.vectors.entry(i).1.clone()))
            .collect();
        let chunks = c.chunks.as_ref().unwrap().len();
        (v.model.clone(), v.dims, vectors, chunks, c.manifest.as_ref().unwrap().files.len())
    };
    let before = stored(&corpus);
    let second = corpus.index();
    assert_eq!(stored(&corpus), before);
    assert_eq!(second.indexed, 0);
    assert_eq!(second.removed, 0);
    assert_eq!(second.embedded, 0);
    assert_eq!(second.skipped_unchanged, first.indexed + first.skipped_unchanged);
    assert_eq!(second.chunks, first.chunks);

    // Nor does a run on an empty repository change what the one before left.
    corpus.files.clear();
    corpus.embedder = None;
    assert_eq!(corpus.index().removed, 2);
    let before = stored(&corpus);
    assert_eq!(before, (None, 0, vec![], 0, 0));
    corpus.index();
    assert_eq!(stored(&corpus), before);
}

#[test]
fn a_skipped_file_keeps_the_chunks_it_was_cut_into() {
    let mut corpus = Corpus::new(None);
    corpus.write("a.md", "# A\n\nabout widgets\n");
    corpus.index();
    corpus.index();
    let expected = corpus::chunk::chunk_file("a.md", "# A\n\nabout widgets\n");
    let chunks = corpus.chunks.as_ref().unwrap();
    assert_eq!(chunks.len(), expected.len());
    for chunk in &expected {
        assert_eq!(chunks.get(&chunk.id), Some(chunk));
    }
}
