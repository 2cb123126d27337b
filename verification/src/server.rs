//! The tool surface: `corpus_index` and `corpus_search`.
//!
//! What the two tools are advertised with, and what a call of one asks for.
//! Each call names its own repository, so that one server can serve many.

use vstd::prelude::*;

use crate::ordered::StringMap;
use crate::search::{SearchMode, UnknownMode};
use crate::{search, text};

verus! {

/// The name of the tool that indexes a repository.
pub const TOOL_INDEX: &'static str = "corpus_index";

/// The name of the tool that searches one.
pub const TOOL_SEARCH: &'static str = "corpus_search";

/// How many results a search gives where the call does not say.
pub const DEFAULT_RESULTS: usize = 8;

// ── calls ───────────────────────────────────────────────────────────────────
/// An argument of a call, as far as the tools tell arguments apart.
#[derive(Debug, Clone, PartialEq, Eq)]
pub enum ArgValue {
    Flag(bool),
    /// A number that is not negative and not a fraction.
    Unsigned(u64),
    Text(String),
    /// A list: its texts, and `None` for each element that is no text.
    List(Vec<Option<String>>),
    /// Anything else.
    Other,
}

/// What an [`ArgValue`] holds.
#[verifier::ext_equal]
pub enum ArgView {
    Flag(bool),
    Unsigned(u64),
    Text(Seq<char>),
    List(Seq<Option<Seq<char>>>),
    Other,
}

/// The views of a sequence of list elements.
pub open spec fn element_views(v: Seq<Option<String>>) -> Seq<Option<Seq<char>>> {
    v.map_values(
        |e: Option<String>|
            match e {
                Some(s) => Some(s@),
                None => None,
            },
    )
}

impl View for ArgValue {
    type V = ArgView;

    open spec fn view(&self) -> ArgView {
        match self {
            ArgValue::Flag(b) => ArgView::Flag(*b),
            ArgValue::Unsigned(n) => ArgView::Unsigned(*n),
            ArgValue::Text(s) => ArgView::Text(s@),
            ArgValue::List(v) => ArgView::List(element_views(v@)),
            ArgValue::Other => ArgView::Other,
        }
    }
}

/// Why a call is refused.
#[derive(Debug, Clone, PartialEq, Eq)]
pub enum CallError {
    UnknownTool(String),
    NoQuery,
    NoRepoPath,
    UnknownMode(UnknownMode),
    NotADirectory(String),
}

impl CallError {
    /// The message for the caller.
    pub open spec fn text(self) -> Seq<char> {
        match self {
            CallError::UnknownTool(name) => "unknown tool '"@ + name@ + "'. Available: "@
                + TOOL_INDEX@ + ", "@ + TOOL_SEARCH@,
            CallError::NoQuery => "query is required"@,
            CallError::NoRepoPath => "repo_path is required"@,
            CallError::UnknownMode(e) => e.text(),
            CallError::NotADirectory(path) => "repo_path '"@ + path@ + "' is not a directory"@,
        }
    }

    /// The message for the caller.
    pub fn message(&self) -> (r: String)
        ensures
            r@ == self.text(),
    {
        match self {
            CallError::UnknownTool(name) => {
                let mut m = "unknown tool '".to_owned();
                m.append(name.as_str());
                m.append("'. Available: ");
                m.append(TOOL_INDEX);
                m.append(", ");
                m.append(TOOL_SEARCH);
                m
            },
            CallError::NoQuery => "query is required".to_owned(),
            CallError::NoRepoPath => "repo_path is required".to_owned(),
            CallError::UnknownMode(e) => e.message(),
            CallError::NotADirectory(path) => {
                let mut m = "repo_path '".to_owned();
                m.append(path.as_str());
                m.append("' is not a directory");
                m
            },
        }
    }
}

/// A call of `corpus_index`.
#[derive(Debug, Clone, PartialEq, Eq)]
pub struct IndexRequest {
    pub repo_path: String,
    /// The globs to go by in place of the configured ones.
    pub include_globs: Option<Vec<String>>,
    /// Whether to embed, in place of what is configured.
    pub embeddings: Option<bool>,
}

/// What an [`IndexRequest`] holds.
#[verifier::ext_equal]
pub struct IndexRequestView {
    pub repo_path: Seq<char>,
    pub include_globs: Option<Seq<Seq<char>>>,
    pub embeddings: Option<bool>,
}

impl View for IndexRequest {
    type V = IndexRequestView;

    open spec fn view(&self) -> IndexRequestView {
        IndexRequestView {
            repo_path: self.repo_path@,
            include_globs: match self.include_globs {
                Some(globs) => Some(text::texts(globs@)),
                None => None,
            },
            embeddings: self.embeddings,
        }
    }
}

/// A call of `corpus_search`.
#[derive(Debug, Clone, PartialEq, Eq)]
pub struct SearchRequest {
    pub query: String,
    pub repo_path: String,
    pub k: usize,
    pub mode: SearchMode,
}

/// What a [`SearchRequest`] holds.
#[verifier::ext_equal]
pub struct SearchRequestView {
    pub query: Seq<char>,
    pub repo_path: Seq<char>,
    pub k: usize,
    pub mode: SearchMode,
}

impl View for SearchRequest {
    type V = SearchRequestView;

    open spec fn view(&self) -> SearchRequestView {
        SearchRequestView {
            query: self.query@,
            repo_path: self.repo_path@,
            k: self.k,
            mode: self.mode,
        }
    }
}

/// The text at `name`, where there is one.
pub open spec fn text_arg(args: Map<Seq<char>, ArgView>, name: Seq<char>) -> Option<Seq<char>> {
    if args.contains_key(name) {
        match args[name] {
            ArgView::Text(s) => Some(s),
            _ => None,
        }
    } else {
        None
    }
}

fn get_text<'a>(args: &'a StringMap<ArgValue>, name: &str) -> (r: Option<&'a str>)
    ensures
        search::opt_text(r) == text_arg(args@, name@),
{
    match args.get(name) {
        Some(ArgValue::Text(s)) => Some(s.as_str()),
        _ => None,
    }
}

/// The texts among the elements of a list.
pub open spec fn texts_among(list: Seq<Option<Seq<char>>>) -> Seq<Seq<char>>
    decreases list.len(),
{
    if list.len() == 0 {
        Seq::empty()
    } else {
        match list.last() {
            Some(s) => texts_among(list.drop_last()).push(s),
            None => texts_among(list.drop_last()),
        }
    }
}

fn keep_texts(list: &Vec<Option<String>>) -> (r: Vec<String>)
    ensures
        text::texts(r@) == texts_among(element_views(list@)),
{
    let ghost all = element_views(list@);
    let mut r: Vec<String> = Vec::new();
    let mut i: usize = 0;
    assert(text::texts(r@) =~= texts_among(all.take(0)));
    while i < list.len()
        invariant
            i <= list@.len(),
            all == element_views(list@),
            text::texts(r@) == texts_among(all.take(i as int)),
        decreases list@.len() - i,
    {
        let ghost before = text::texts(r@);
        assert(all.take(i + 1).drop_last() =~= all.take(i as int));
        assert(all.take(i + 1).last() == all[i as int]);
        if let Some(s) = &list[i] {
            r.push(s.clone());
            assert(text::texts(r@) =~= before.push(s@));
        }
        i = i + 1;
    }
    assert(all.take(i as int) =~= all);
    r
}

/// What the arguments of a call of `corpus_index` ask for, where they name a
/// repository.
pub open spec fn index_call(args: Map<Seq<char>, ArgView>) -> IndexRequestView {
    IndexRequestView {
        repo_path: text_arg(args, "repo_path"@)->0,
        include_globs: if args.contains_key("include"@) {
            match args["include"@] {
                ArgView::List(list) => Some(texts_among(list)),
                _ => None,
            }
        } else {
            None
        },
        embeddings: if args.contains_key("embeddings"@) {
            match args["embeddings"@] {
                ArgView::Flag(b) => Some(b),
                _ => None,
            }
        } else {
            None
        },
    }
}

/// Reads the arguments of a call of `corpus_index`.
pub fn index_request(args: &StringMap<ArgValue>) -> (r: Result<IndexRequest, CallError>)
    ensures
        r is Ok <==> text_arg(args@, "repo_path"@) is Some,
        r matches Ok(request) ==> request@ == index_call(args@),
        r matches Err(e) ==> e == CallError::NoRepoPath,
{
    let repo_path = match get_text(args, "repo_path") {
        Some(p) => p.to_owned(),
        None => { return Err(CallError::NoRepoPath); },
    };
    let include_globs = match args.get("include") {
        Some(ArgValue::List(list)) => Some(keep_texts(list)),
        _ => None,
    };
    let embeddings = match args.get("embeddings") {
        Some(ArgValue::Flag(b)) => Some(*b),
        _ => None,
    };
    Ok(IndexRequest { repo_path, include_globs, embeddings })
}

impl IndexRequest {
    /// Refuses a path that is no directory.
    pub fn check_directory(&self, is_dir: bool) -> (r: Result<(), CallError>)
        ensures
            r is Ok <==> is_dir,
            r matches Err(e) ==> (e matches CallError::NotADirectory(path) && path@
                == self.repo_path@),
    {
        if is_dir {
            Ok(())
        } else {
            Err(CallError::NotADirectory(self.repo_path.clone()))
        }
    }
}

/// How many results the arguments ask for: at least one.
pub open spec fn result_count(args: Map<Seq<char>, ArgView>) -> usize {
    let k = if args.contains_key("k"@) {
        match args["k"@] {
            ArgView::Unsigned(n) => n as usize,
            _ => DEFAULT_RESULTS,
        }
    } else {
        DEFAULT_RESULTS
    };
    if k < 1 {
        1
    } else {
        k
    }
}

/// The mode that the arguments ask for, if it is one.
pub open spec fn search_mode(args: Map<Seq<char>, ArgView>) -> Option<SearchMode> {
    search::named_mode(text_arg(args, "mode"@))
}

/// What the arguments of a call of `corpus_search` ask for, where they give a
/// query, a repository and a mode.
pub open spec fn search_call(args: Map<Seq<char>, ArgView>) -> SearchRequestView {
    SearchRequestView {
        query: text_arg(args, "query"@)->0,
        repo_path: text_arg(args, "repo_path"@)->0,
        k: result_count(args),
        mode: search_mode(args)->0,
    }
}

/// Reads the arguments of a call of `corpus_search`.
pub fn search_request(args: &StringMap<ArgValue>) -> (r: Result<SearchRequest, CallError>)
    ensures
        r is Ok <==> text_arg(args@, "query"@) is Some && text_arg(args@, "repo_path"@) is Some
            && search_mode(args@) is Some,
        r matches Ok(request) ==> request@ == search_call(args@),
        r matches Err(e) ==> match e {
            CallError::NoQuery => text_arg(args@, "query"@) is None,
            CallError::NoRepoPath => text_arg(args@, "query"@) is Some && text_arg(
                args@,
                "repo_path"@,
            ) is None,
            CallError::UnknownMode(m) => text_arg(args@, "query"@) is Some && text_arg(
                args@,
                "repo_path"@,
            ) is Some && search_mode(args@) is None && Some(m.mode@) == text_arg(args@, "mode"@),
            _ => false,
        },
{
    let query = match get_text(args, "query") {
        Some(q) => q.to_owned(),
        None => { return Err(CallError::NoQuery); },
    };
    let repo_path = match get_text(args, "repo_path") {
        Some(p) => p.to_owned(),
        None => { return Err(CallError::NoRepoPath); },
    };
    let asked: usize = match args.get("k") {
        Some(ArgValue::Unsigned(n)) => *n as usize,
        _ => DEFAULT_RESULTS,
    };
    let k: usize = if asked < 1 {
        1
    } else {
        asked
    };
    let mode = match SearchMode::parse(get_text(args, "mode")) {
        Ok(mode) => mode,
        Err(e) => { return Err(CallError::UnknownMode(e)); },
    };
    Ok(SearchRequest { query, repo_path, k, mode })
}

/// What a call asks for.
#[derive(Debug, Clone, PartialEq, Eq)]
pub enum ToolRequest {
    Index(IndexRequest),
    Search(SearchRequest),
}

/// The server. It holds no state: each call operates on the repository that it
/// is given.
#[derive(Debug, Clone, Copy, PartialEq, Eq)]
pub struct CorpusServer {}

impl Default for CorpusServer {
    fn default() -> (r: CorpusServer)
        ensures
            r == (CorpusServer {  }),
    {
        CorpusServer {  }
    }
}

impl CorpusServer {
    pub fn new() -> (r: CorpusServer)
        ensures
            r == (CorpusServer {  }),
    {
        CorpusServer {  }
    }

    /// Reads a call of the tool `name`.
    pub fn dispatch(&self, name: &str, args: &StringMap<ArgValue>) -> (r: Result<
        ToolRequest,
        CallError,
    >)
        ensures
            r is Ok <==> admitted(name@, args@),
            r matches Ok(request) ==> match request {
                ToolRequest::Index(i) => name@ == TOOL_INDEX@ && i@ == index_call(args@),
                ToolRequest::Search(s) => name@ == TOOL_SEARCH@ && s@ == search_call(args@),
            },
            r matches Err(e) ==> refusal(name@, args@, e),
    {
        proof {
            lemma_tool_names();
        }
        if text::text_eq(name, TOOL_INDEX) {
            match index_request(args) {
                Ok(request) => Ok(ToolRequest::Index(request)),
                Err(e) => Err(e),
            }
        } else if text::text_eq(name, TOOL_SEARCH) {
            match search_request(args) {
                Ok(request) => Ok(ToolRequest::Search(request)),
                Err(e) => Err(e),
            }
        } else {
            Err(CallError::UnknownTool(name.to_owned()))
        }
    }
}

/// Whether a call is taken: it names a tool, and gives what that tool needs.
pub open spec fn admitted(name: Seq<char>, args: Map<Seq<char>, ArgView>) -> bool {
    ||| name == TOOL_INDEX@ && text_arg(args, "repo_path"@) is Some
    ||| name == TOOL_SEARCH@ && text_arg(args, "query"@) is Some && text_arg(
        args,
        "repo_path"@,
    ) is Some && search_mode(args) is Some
}

/// Whether a call is refused with this error.
pub open spec fn refusal(name: Seq<char>, args: Map<Seq<char>, ArgView>, e: CallError) -> bool {
    match e {
        CallError::UnknownTool(t) => name != TOOL_INDEX@ && name != TOOL_SEARCH@ && t@ == name,
        CallError::NoQuery => name == TOOL_SEARCH@ && text_arg(args, "query"@) is None,
        CallError::NoRepoPath => text_arg(args, "repo_path"@) is None && (name == TOOL_INDEX@
            || name == TOOL_SEARCH@ && text_arg(args, "query"@) is Some),
        CallError::UnknownMode(m) => name == TOOL_SEARCH@ && text_arg(args, "query"@) is Some
            && text_arg(args, "repo_path"@) is Some && search_mode(args) is None && Some(m.mode@)
            == text_arg(args, "mode"@),
        CallError::NotADirectory(_) => false,
    }
}

proof fn lemma_tool_names()
    ensures
        TOOL_INDEX@ != TOOL_SEARCH@,
{
    reveal_strlit("corpus_index");
    reveal_strlit("corpus_search");
    assert(TOOL_INDEX@.len() == 12);
}

// ── the advertised tools ────────────────────────────────────────────────────
/// The type of an argument in a tool's schema.
#[derive(Debug, Clone, PartialEq, Eq)]
pub enum PropertyType {
    Text,
    TextList,
    Flag,
    Integer,
    /// One of these texts.
    Choice(Vec<String>),
}

/// What a [`PropertyType`] holds.
#[verifier::ext_equal]
pub enum PropertyTypeView {
    Text,
    TextList,
    Flag,
    Integer,
    Choice(Seq<Seq<char>>),
}

impl View for PropertyType {
    type V = PropertyTypeView;

    open spec fn view(&self) -> PropertyTypeView {
        match self {
            PropertyType::Text => PropertyTypeView::Text,
            PropertyType::TextList => PropertyTypeView::TextList,
            PropertyType::Flag => PropertyTypeView::Flag,
            PropertyType::Integer => PropertyTypeView::Integer,
            PropertyType::Choice(c) => PropertyTypeView::Choice(text::texts(c@)),
        }
    }
}

/// An argument in a tool's schema.
#[derive(Debug, Clone, PartialEq, Eq)]
pub struct Property {
    pub name: String,
    pub kind: PropertyType,
    pub description: String,
}

/// What a [`Property`] holds.
#[verifier::ext_equal]
pub struct PropertyView {
    pub name: Seq<char>,
    pub kind: PropertyTypeView,
    pub description: Seq<char>,
}

impl View for Property {
    type V = PropertyView;

    open spec fn view(&self) -> PropertyView {
        PropertyView { name: self.name@, kind: self.kind@, description: self.description@ }
    }
}

/// The views of a sequence of properties.
pub open spec fn property_views(v: Seq<Property>) -> Seq<PropertyView> {
    v.map_values(|p: Property| p@)
}

/// A tool as it is advertised. Its schema takes no arguments but those listed.
#[derive(Debug, Clone, PartialEq, Eq)]
pub struct ToolSpec {
    pub name: String,
    pub description: String,
    pub properties: Vec<Property>,
    /// The names of the arguments that a call must give.
    pub required: Vec<String>,
}

/// What a [`ToolSpec`] holds.
#[verifier::ext_equal]
pub struct ToolSpecView {
    pub name: Seq<char>,
    pub description: Seq<char>,
    pub properties: Seq<PropertyView>,
    pub required: Seq<Seq<char>>,
}

impl View for ToolSpec {
    type V = ToolSpecView;

    open spec fn view(&self) -> ToolSpecView {
        ToolSpecView {
            name: self.name@,
            description: self.description@,
            properties: property_views(self.properties@),
            required: text::texts(self.required@),
        }
    }
}

/// The views of a sequence of tools.
pub open spec fn tool_views(v: Seq<ToolSpec>) -> Seq<ToolSpecView> {
    v.map_values(|t: ToolSpec| t@)
}

/// `corpus_index` as it is advertised.
pub open spec fn index_tool() -> ToolSpecView {
    ToolSpecView {
        name: TOOL_INDEX@,
        description: "Index a repo's docs for retrieval. Incremental by content hash: unchanged files are skipped, changed/new files re-chunked, deleted files dropped. Returns { indexed, skipped_unchanged, removed, chunks, embedded }."@,
        properties: seq![
            PropertyView {
                name: "repo_path"@,
                kind: PropertyTypeView::Text,
                description: "Absolute path to the repo to index."@,
            },
            PropertyView {
                name: "include"@,
                kind: PropertyTypeView::TextList,
                description: "Optional glob overrides (default: **/*.md, **/*.mdx, **/*.txt, **/*.adoc)."@,
            },
            PropertyView {
                name: "embeddings"@,
                kind: PropertyTypeView::Flag,
                description: "Enable semantic embedding for this run (default: off / config-driven)."@,
            },
        ],
        required: seq!["repo_path"@],
    }
}

/// `corpus_search` as it is advertised.
pub open spec fn search_tool() -> ToolSpecView {
    ToolSpecView {
        name: TOOL_SEARCH@,
        description: "Search indexed docs. Returns ranked [{ path, heading_path, snippet, score }]. mode = hybrid (BM25 + semantic RRF) | text | semantic."@,
        properties: seq![
            PropertyView {
                name: "query"@,
                kind: PropertyTypeView::Text,
                description: "The search query."@,
            },
            PropertyView {
                name: "repo_path"@,
                kind: PropertyTypeView::Text,
                description: "Absolute path to the indexed repo."@,
            },
            PropertyView {
                name: "k"@,
                kind: PropertyTypeView::Integer,
                description: "Max results (default 8)."@,
            },
            PropertyView {
                name: "mode"@,
                kind: PropertyTypeView::Choice(seq!["hybrid"@, "text"@, "semantic"@]),
                description: "Retrieval mode (default hybrid)."@,
            },
        ],
        required: seq!["query"@, "repo_path"@],
    }
}

/// The tools as they are advertised.
pub open spec fn tools() -> Seq<ToolSpecView> {
    seq![index_tool(), search_tool()]
}

fn property(name: &str, kind: PropertyType, description: &str) -> (r: Property)
    ensures
        r@ == (PropertyView { name: name@, kind: kind@, description: description@ }),
{
    Property { name: name.to_owned(), kind, description: description.to_owned() }
}

fn index_definition() -> (r: ToolSpec)
    ensures
        r@ == index_tool(),
{
    let mut properties: Vec<Property> = Vec::new();
    properties.push(
        property("repo_path", PropertyType::Text, "Absolute path to the repo to index."),
    );
    properties.push(
        property(
            "include",
            PropertyType::TextList,
            "Optional glob overrides (default: **/*.md, **/*.mdx, **/*.txt, **/*.adoc).",
        ),
    );
    properties.push(
        property(
            "embeddings",
            PropertyType::Flag,
            "Enable semantic embedding for this run (default: off / config-driven).",
        ),
    );
    let mut required: Vec<String> = Vec::new();
    required.push("repo_path".to_owned());
    let r = ToolSpec {
        name: TOOL_INDEX.to_owned(),
        description: "Index a repo's docs for retrieval. Incremental by content hash: unchanged files are skipped, changed/new files re-chunked, deleted files dropped. Returns { indexed, skipped_unchanged, removed, chunks, embedded }.".to_owned(),
        properties,
        required,
    };
    assert(r@.properties =~= index_tool().properties);
    assert(r@.required =~= index_tool().required);
    r
}

fn search_definition() -> (r: ToolSpec)
    ensures
        r@ == search_tool(),
{
    let mut modes: Vec<String> = Vec::new();
    modes.push("hybrid".to_owned());
    modes.push("text".to_owned());
    modes.push("semantic".to_owned());
    assert(text::texts(modes@) =~= seq!["hybrid"@, "text"@, "semantic"@]);
    let mut properties: Vec<Property> = Vec::new();
    properties.push(property("query", PropertyType::Text, "The search query."));
    properties.push(
        property("repo_path", PropertyType::Text, "Absolute path to the indexed repo."),
    );
    properties.push(property("k", PropertyType::Integer, "Max results (default 8)."));
    properties.push(
        property("mode", PropertyType::Choice(modes), "Retrieval mode (default hybrid)."),
    );
    let mut required: Vec<String> = Vec::new();
    required.push("query".to_owned());
    required.push("repo_path".to_owned());
    let r = ToolSpec {
        name: TOOL_SEARCH.to_owned(),
        description: "Search indexed docs. Returns ranked [{ path, heading_path, snippet, score }]. mode = hybrid (BM25 + semantic RRF) | text | semantic.".to_owned(),
        properties,
        required,
    };
    assert(r@.properties =~= search_tool().properties);
    assert(r@.required =~= search_tool().required);
    r
}

/// The two tools with their schemas.
pub fn tool_definitions() -> (r: Vec<ToolSpec>)
    ensures
        tool_views(r@) == tools(),
{
    let mut r: Vec<ToolSpec> = Vec::new();
    r.push(index_definition());
    r.push(search_definition());
    assert(tool_views(r@) =~= tools());
    r
}

impl CorpusServer {
    /// The tool of this name.
    pub fn get_tool(&self, name: &str) -> (r: Option<ToolSpec>)
        ensures
            r is Some <==> name@ == TOOL_INDEX@ || name@ == TOOL_SEARCH@,
            r matches Some(t) ==> t@ == if name@ == TOOL_INDEX@ {
                index_tool()
            } else {
                search_tool()
            },
    {
        if text::text_eq(name, TOOL_INDEX) {
            Some(index_definition())
        } else if text::text_eq(name, TOOL_SEARCH) {
            Some(search_definition())
        } else {
            None
        }
    }
}

/// Whether an argument has a type.
pub open spec fn has_type(arg: ArgView, kind: PropertyTypeView) -> bool {
    match kind {
        PropertyTypeView::Text => arg is Text,
        PropertyTypeView::TextList => arg matches ArgView::List(list) && forall|i: int|
            0 <= i < list.len() ==> (#[trigger] list[i]) is Some,
        PropertyTypeView::Flag => arg is Flag,
        PropertyTypeView::Integer => arg is Unsigned || arg is Other,
        PropertyTypeView::Choice(choices) => arg matches ArgView::Text(s) && choices.contains(s),
    }
}

/// Whether the arguments of a call fit a tool's schema.
pub open spec fn fits(args: Map<Seq<char>, ArgView>, tool: ToolSpecView) -> bool {
    &&& forall|i: int|
        0 <= i < tool.required.len() ==> args.contains_key(#[trigger] tool.required[i])
    &&& forall|i: int|
        0 <= i < tool.properties.len() && args.contains_key(
            (#[trigger] tool.properties[i]).name,
        ) ==> has_type(args[tool.properties[i].name], tool.properties[i].kind)
}

/// A call whose arguments fit the advertised schema of its tool is taken.
pub proof fn law_schema_admits(tool: ToolSpecView, args: Map<Seq<char>, ArgView>)
    requires
        tools().contains(tool),
        fits(args, tool),
    ensures
        admitted(tool.name, args),
{
    let i = tools().index_of(tool);
    assert(tool == index_tool() || tool == search_tool());
    if tool == index_tool() {
        assert(tool.required[0] == "repo_path"@);
        assert(tool.properties[0].name == "repo_path"@);
    } else {
        assert(tool.required[0] == "query"@);
        assert(tool.required[1] == "repo_path"@);
        assert(tool.properties[0].name == "query"@);
        assert(tool.properties[1].name == "repo_path"@);
        assert(tool.properties[3].name == "mode"@);
        if args.contains_key("mode"@) {
            let choices = seq!["hybrid"@, "text"@, "semantic"@];
            assert(tool.properties[3].kind == PropertyTypeView::Choice(choices));
            assert(has_type(args["mode"@], tool.properties[3].kind));
            let s = args["mode"@]->Text_0;
            let j = choices.index_of(s);
            assert(s == choices[j]);
        }
    }
}

/// A call that leaves out an argument that its tool's schema requires is
/// refused.
pub proof fn law_required_is_needed(tool: ToolSpecView, args: Map<Seq<char>, ArgView>, i: int)
    requires
        tools().contains(tool),
        0 <= i < tool.required.len(),
        !args.contains_key(tool.required[i]),
    ensures
        !admitted(tool.name, args),
{
    lemma_tool_names();
    let j = tools().index_of(tool);
    assert(tool == index_tool() || tool == search_tool());
}

// ── what a call asks for ────────────────────────────────────────────────────
/// An argument that is a text is read whole; any other, and one that is not
/// given, is read as none.
pub proof fn law_text_arg(args: Map<Seq<char>, ArgView>, name: Seq<char>)
    ensures
        !args.contains_key(name) ==> text_arg(args, name) is None,
        args.contains_key(name) && !(args[name] is Text) ==> text_arg(args, name) is None,
        args.contains_key(name) ==> (args[name] matches ArgView::Text(s) ==> text_arg(args, name)
            == Some(s)),
{
}

/// The texts among the elements of a list are those of its parts, one after the
/// other: a text is kept, and anything else left out.
pub proof fn law_texts_among(
    a: Seq<Option<Seq<char>>>,
    b: Seq<Option<Seq<char>>>,
    s: Seq<char>,
)
    ensures
        texts_among(a + b) == texts_among(a) + texts_among(b),
        texts_among(Seq::empty()) == Seq::<Seq<char>>::empty(),
        texts_among(seq![Some(s)]) == seq![s],
        texts_among(seq![None::<Seq<char>>]) == Seq::<Seq<char>>::empty(),
    decreases b.len(),
{
    let none = Seq::<Option<Seq<char>>>::empty();
    assert(texts_among(none) =~= Seq::<Seq<char>>::empty());
    assert(seq![Some(s)].drop_last() =~= none);
    assert(seq![None::<Seq<char>>].drop_last() =~= none);
    assert(texts_among(seq![Some(s)]) =~= seq![s]);
    if b.len() == 0 {
        assert(a + b =~= a);
        assert(texts_among(a) + texts_among(b) =~= texts_among(a));
    } else {
        law_texts_among(a, b.drop_last(), s);
        assert((a + b).drop_last() =~= a + b.drop_last());
        assert((a + b).last() == b.last());
        assert(texts_among(a + b) =~= texts_among(a) + texts_among(b));
    }
}

/// A call of `corpus_index` is read by three arguments: the repository, the
/// texts of a list of globs, and a flag for the embeddings. What is not given,
/// or is of another type, is left to the configuration.
pub proof fn law_index_call(args: Map<Seq<char>, ArgView>)
    ensures
        ({
            let r = index_call(args);
            &&& args.contains_key("repo_path"@) ==> (args["repo_path"@] matches ArgView::Text(s)
                ==> r.repo_path == s)
            &&& args.contains_key("include"@) ==> (args["include"@] matches ArgView::List(list)
                ==> r.include_globs == Some(texts_among(list)))
            &&& args.contains_key("include"@) && !(args["include"@] is List)
                ==> r.include_globs is None
            &&& !args.contains_key("include"@) ==> r.include_globs is None
            &&& args.contains_key("embeddings"@) ==> (args["embeddings"@] matches ArgView::Flag(on)
                ==> r.embeddings == Some(on))
            &&& args.contains_key("embeddings"@) && !(args["embeddings"@] is Flag)
                ==> r.embeddings is None
            &&& !args.contains_key("embeddings"@) ==> r.embeddings is None
        }),
{
}

/// A call of `corpus_search` is read by four arguments: the query and the
/// repository, each whole, the number of results, of which there is at least
/// one and 8 where none is given, and the mode.
pub proof fn law_search_call(args: Map<Seq<char>, ArgView>)
    ensures
        ({
            let r = search_call(args);
            &&& args.contains_key("query"@) ==> (args["query"@] matches ArgView::Text(s) ==> r.query
                == s)
            &&& args.contains_key("repo_path"@) ==> (args["repo_path"@] matches ArgView::Text(s)
                ==> r.repo_path == s)
            &&& args.contains_key("k"@) ==> (args["k"@] matches ArgView::Unsigned(n) ==> (1 <= n
                <= usize::MAX ==> r.k == n) && (n == 0 ==> r.k == 1))
            &&& args.contains_key("k"@) && !(args["k"@] is Unsigned) ==> r.k == 8
            &&& !args.contains_key("k"@) ==> r.k == 8
            &&& r.k >= 1
            &&& args.contains_key("mode"@) ==> (args["mode"@] matches ArgView::Text(s) ==> (s
                == "hybrid"@ ==> r.mode == SearchMode::Hybrid) && (s == "text"@ ==> r.mode
                == SearchMode::Text) && (s == "semantic"@ ==> r.mode == SearchMode::Semantic))
            &&& args.contains_key("mode"@) && !(args["mode"@] is Text) ==> r.mode
                == SearchMode::Hybrid
            &&& !args.contains_key("mode"@) ==> r.mode == SearchMode::Hybrid
        }),
{
    if args.contains_key("mode"@) && args["mode"@] is Text {
        search::law_modes(args["mode"@]->Text_0);
    }
}

/// A call is taken where it names one of the two tools and gives a text for
/// each argument that the tool needs, and a search no mode but one of the
/// three.
pub proof fn law_admitted(name: Seq<char>, args: Map<Seq<char>, ArgView>)
    ensures
        ({
            let repo = args.contains_key("repo_path"@) && args["repo_path"@] is Text;
            let query = args.contains_key("query"@) && args["query"@] is Text;
            let mode = args.contains_key("mode"@) && args["mode"@] is Text ==> ({
                let m = args["mode"@]->Text_0;
                m == "hybrid"@ || m == "text"@ || m == "semantic"@
            });
            &&& admitted("corpus_index"@, args) <==> repo
            &&& admitted("corpus_search"@, args) <==> query && repo && mode
            &&& name != "corpus_index"@ && name != "corpus_search"@ ==> !admitted(name, args)
        }),
{
    lemma_tool_names();
    if args.contains_key("mode"@) && args["mode"@] is Text {
        search::law_modes(args["mode"@]->Text_0);
    }
}

/// A call is refused with one error: the tool that does not exist, by its name;
/// else the first that is missing of the query and the repository; else the
/// mode that does not exist, by its name. No call that is taken is refused.
pub proof fn law_refusal(name: Seq<char>, args: Map<Seq<char>, ArgView>, e: CallError)
    requires
        refusal(name, args, e),
    ensures
        ({
            let repo = args.contains_key("repo_path"@) && args["repo_path"@] is Text;
            let query = args.contains_key("query"@) && args["query"@] is Text;
            &&& !admitted(name, args)
            &&& name != "corpus_index"@ && name != "corpus_search"@ ==> (
            e matches CallError::UnknownTool(t) && t@ == name)
            &&& name == "corpus_index"@ ==> e is NoRepoPath
            &&& name == "corpus_search"@ && !query ==> e is NoQuery
            &&& name == "corpus_search"@ && query && !repo ==> e is NoRepoPath
            &&& name == "corpus_search"@ && query && repo ==> args["mode"@] is Text && (
            e matches CallError::UnknownMode(m) && m.mode@ == args["mode"@]->Text_0)
        }),
{
    lemma_tool_names();
}

/// The message on an error quotes the tool, the mode or the path whole.
pub proof fn law_call_error_text(e: CallError)
    ensures
        e matches CallError::UnknownTool(t) ==> e.text().len() > "unknown tool '"@.len() + t@.len()
            && e.text().skip("unknown tool '"@.len() as int).take(t@.len() as int) == t@,
        e matches CallError::NotADirectory(p) ==> e.text().len() == "repo_path '"@.len() + p@.len()
            + "' is not a directory"@.len() && e.text().skip("repo_path '"@.len() as int).take(
            p@.len() as int,
        ) == p@,
        e matches CallError::UnknownMode(m) ==> e.text() == m.text(),
        e is NoQuery ==> e.text() == "query is required"@,
        e is NoRepoPath ==> e.text() == "repo_path is required"@,
{
    match e {
        CallError::UnknownTool(t) => {
            reveal_strlit("'. Available: ");
            assert(e.text().skip("unknown tool '"@.len() as int).take(t@.len() as int) =~= t@);
        },
        CallError::NotADirectory(p) => {
            assert(e.text().skip("repo_path '"@.len() as int).take(p@.len() as int) =~= p@);
        },
        _ => {},
    }
}

/// The two tools, each with its own arguments.
pub proof fn law_tools()
    ensures
        tools().len() == 2,
        tools()[0].name == "corpus_index"@,
        tools()[0].required == seq!["repo_path"@],
        tools()[0].properties.map_values(|p: PropertyView| p.name) == seq![
            "repo_path"@,
            "include"@,
            "embeddings"@,
        ],
        tools()[0].properties.map_values(|p: PropertyView| p.kind) == seq![
            PropertyTypeView::Text,
            PropertyTypeView::TextList,
            PropertyTypeView::Flag,
        ],
        tools()[1].name == "corpus_search"@,
        tools()[1].required == seq!["query"@, "repo_path"@],
        tools()[1].properties.map_values(|p: PropertyView| p.name) == seq![
            "query"@,
            "repo_path"@,
            "k"@,
            "mode"@,
        ],
        tools()[1].properties.map_values(|p: PropertyView| p.kind) == seq![
            PropertyTypeView::Text,
            PropertyTypeView::Text,
            PropertyTypeView::Integer,
            PropertyTypeView::Choice(seq!["hybrid"@, "text"@, "semantic"@]),
        ],
{
}

/// The views of arguments and requests hold these whole.
pub proof fn law_call_views(
    arg: ArgValue,
    elements: Seq<Option<String>>,
    i: IndexRequest,
    s: SearchRequest,
)
    ensures
        arg matches ArgValue::Flag(b) ==> arg@ == ArgView::Flag(b),
        arg matches ArgValue::Unsigned(n) ==> arg@ == ArgView::Unsigned(n),
        arg matches ArgValue::Text(t) ==> arg@ == ArgView::Text(t@),
        arg matches ArgValue::List(v) ==> arg@ == ArgView::List(element_views(v@)),
        arg is Other ==> arg@ is Other,
        element_views(elements).len() == elements.len(),
        forall|k: int|
            #![trigger element_views(elements)[k]]
            0 <= k < elements.len() ==> (elements[k] is None <==> element_views(elements)[k] is None)
                && (elements[k] is Some ==> element_views(elements)[k] == Some(elements[k]->0@)),
        i@.repo_path == i.repo_path@,
        i@.embeddings == i.embeddings,
        i.include_globs is None <==> i@.include_globs is None,
        i.include_globs is Some ==> i@.include_globs->0.len() == i.include_globs->0@.len(),
        i.include_globs is Some ==> forall|k: int|
            0 <= k < i.include_globs->0@.len() ==> #[trigger] i@.include_globs->0[k]
                == i.include_globs->0@[k]@,
        s@.query == s.query@,
        s@.repo_path == s.repo_path@,
        s@.k == s.k,
        s@.mode == s.mode,
{
}

/// The views of tools and their arguments hold these whole.
pub proof fn law_tool_views(tools: Seq<ToolSpec>, properties: Seq<Property>, kind: PropertyType)
    ensures
        tool_views(tools).len() == tools.len(),
        forall|i: int|
            #![trigger tool_views(tools)[i]]
            0 <= i < tools.len() ==> tool_views(tools)[i].name == tools[i].name@ && tool_views(
                tools,
            )[i].description == tools[i].description@ && tool_views(tools)[i].properties
                == property_views(tools[i].properties@) && tool_views(tools)[i].required
                == text::texts(tools[i].required@),
        property_views(properties).len() == properties.len(),
        forall|i: int|
            #![trigger property_views(properties)[i]]
            0 <= i < properties.len() ==> property_views(properties)[i].name == properties[i].name@
                && property_views(properties)[i].kind == properties[i].kind@ && property_views(
                properties,
            )[i].description == properties[i].description@,
        kind is Text <==> kind@ is Text,
        kind is TextList <==> kind@ is TextList,
        kind is Flag <==> kind@ is Flag,
        kind is Integer <==> kind@ is Integer,
        kind matches PropertyType::Choice(c) ==> kind@ == PropertyTypeView::Choice(
            text::texts(c@),
        ),
{
}

} // verus!
