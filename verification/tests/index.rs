use corpus::chunk::Chunk;
use corpus::index::{document_of, index_query, sanitize_query};
use tantivy::collector::TopDocs;
use tantivy::query::QueryParser;
use tantivy::schema::{Field, Schema, Value, STORED, STRING, TEXT};
use tantivy::{Index, IndexWriter, TantivyDocument, Term};

/// A lexical index in memory.
struct TextIndex {
    index: Index,
    path: Field,
    chunk_id: Field,
    heading: Field,
    body: Field,
}

impl TextIndex {
    fn open() -> TextIndex {
        let mut builder = Schema::builder();
        let path = builder.add_text_field("path", STRING);
        let chunk_id = builder.add_text_field("chunk_id", STORED);
        let heading = builder.add_text_field("heading", TEXT);
        let body = builder.add_text_field("body", TEXT);
        let index = Index::create_in_ram(builder.build());
        TextIndex { index, path, chunk_id, heading, body }
    }

    fn writer(&self) -> IndexWriter {
        self.index.writer(50_000_000).unwrap()
    }

    fn add_chunk(&self, writer: &IndexWriter, chunk: &Chunk) {
        let d = document_of(chunk);
        let mut doc = TantivyDocument::new();
        doc.add_text(self.path, &d.path);
        doc.add_text(self.chunk_id, &d.chunk_id);
        doc.add_text(self.heading, &d.heading);
        doc.add_text(self.body, &d.body);
        writer.add_document(doc).unwrap();
    }

    fn delete_path(&self, writer: &IndexWriter, relpath: &str) {
        writer.delete_term(Term::from_field_text(self.path, relpath));
    }

    fn search(&self, query: &str, k: usize) -> Result<Vec<String>, String> {
        let reader = self.index.reader().unwrap();
        reader.reload().unwrap();
        let searcher = reader.searcher();
        let parser = QueryParser::for_index(&self.index, vec![self.heading, self.body]);
        let Some(terms) = index_query(query) else {
            return Ok(vec![]);
        };
        let parsed = parser.parse_query(&terms).map_err(|e| e.to_string())?;
        let top = searcher
            .search(&parsed, &TopDocs::with_limit(k).order_by_score())
            .map_err(|e| e.to_string())?;
        let mut hits = Vec::new();
        for (_, address) in top {
            let doc: TantivyDocument = searcher.doc(address).unwrap();
            hits.push(doc.get_first(self.chunk_id).unwrap().as_str().unwrap().to_string());
        }
        Ok(hits)
    }
}

fn chunk(id: &str, path: &str, heading: &[&str], text: &str) -> Chunk {
    Chunk {
        id: id.to_string(),
        path: path.to_string(),
        heading_path: heading.iter().map(|s| s.to_string()).collect(),
        text: text.to_string(),
    }
}

#[test]
fn indexes_and_searches() {
    let idx = TextIndex::open();
    let mut w = idx.writer();
    idx.add_chunk(
        &w,
        &chunk("a#0", "a.md", &["Config"], "the executor kinds are llm and tool"),
    );
    idx.add_chunk(
        &w,
        &chunk("b#0", "b.md", &["Intro"], "welcome to the project overview"),
    );
    w.commit().unwrap();

    let hits = idx.search("executor kinds", 5).unwrap();
    assert!(!hits.is_empty());
    assert_eq!(hits[0], "a#0");
}

#[test]
fn delete_path_removes_chunks() {
    let idx = TextIndex::open();
    let mut w = idx.writer();
    idx.add_chunk(&w, &chunk("a#0", "a.md", &[], "alpha content here"));
    w.commit().unwrap();
    assert!(!idx.search("alpha", 5).unwrap().is_empty());

    idx.delete_path(&w, "a.md");
    w.commit().unwrap();
    assert!(idx.search("alpha", 5).unwrap().is_empty());
}

#[test]
fn special_chars_do_not_error() {
    let idx = TextIndex::open();
    let mut w = idx.writer();
    idx.add_chunk(&w, &chunk("a#0", "a.md", &[], "some text about rust"));
    w.commit().unwrap();
    // A query full of metacharacters must not panic/Err.
    let hits = idx.search("rust: (foo) +bar* ??", 5).unwrap();
    assert!(!hits.is_empty());
}

#[test]
fn no_query_is_an_error_of_syntax() {
    let idx = TextIndex::open();
    let mut w = idx.writer();
    idx.add_chunk(&w, &chunk("a#0", "a.md", &[], "some text about rust"));
    w.commit().unwrap();
    for query in [
        "don't rust",
        "'rust",
        "`rust`",
        "> rust",
        "<= rust",
        "rust AND",
        "OR rust",
        "NOT rust",
        "rust IN",
        "IN [rust]",
        "rust\u{a0}\u{3000}about\u{b}x",
        "-rust^2 ~1 /rust/ \"rust",
        "field:rust {a TO b}",
        "rust \\",
        "== , ; . rust",
    ] {
        let hits = idx.search(query, 5);
        assert_eq!(hits, Ok(vec!["a#0".to_string()]), "for {query:?}");
    }
    assert_eq!(idx.search("AND OR NOT IN", 5), Ok(vec![]));
    assert_eq!(idx.search(" (*) \t", 5), Ok(vec![]));
}

#[test]
fn headings_count_in_the_search() {
    let idx = TextIndex::open();
    let mut w = idx.writer();
    idx.add_chunk(&w, &chunk("a#0", "a.md", &["Executor", "Kinds"], "plain body"));
    idx.add_chunk(&w, &chunk("b#0", "b.md", &["Other"], "plain body"));
    w.commit().unwrap();
    assert_eq!(idx.search("kinds", 5), Ok(vec!["a#0".to_string()]));
}

#[test]
fn the_document_of_a_chunk_joins_its_headings() {
    let d = document_of(&chunk("a#0", "a.md", &["A", "B c"], "text"));
    assert_eq!(d.path, "a.md");
    assert_eq!(d.chunk_id, "a#0");
    assert_eq!(d.heading, "A B c");
    assert_eq!(d.body, "text");
}

#[test]
fn query_syntax_becomes_spaces() {
    assert_eq!(sanitize_query("rust: (foo) +bar* ??"), "rust   foo   bar    ");
    assert_eq!(sanitize_query("a-b&c|d!e{f}[g]^h\"i~j\\k/l"), "a b c d e f  g  h i j k l");
    assert_eq!(sanitize_query("it's `x` <y>"), "it s  x   y ");
    assert_eq!(sanitize_query("ünï, 1.5 = x"), "ünï, 1.5 = x");
}

#[test]
fn the_query_is_a_list_of_terms() {
    assert_eq!(index_query("a AND b"), Some("a and b".to_string()));
    assert_eq!(index_query("ANDROID and NOTE"), Some("ANDROID and NOTE".to_string()));
    assert_eq!(index_query("(NOT)  (IN)"), Some("not in".to_string()));
    assert_eq!(index_query(" \u{3000} "), None);
    assert_eq!(index_query("+-*"), None);
}
