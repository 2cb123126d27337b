use corpus::ordered::StringMap;
use corpus::search::SearchMode;
use corpus::server::{
    index_request, search_request, tool_definitions, ArgValue, CallError, CorpusServer,
    IndexRequest, PropertyType, SearchRequest, ToolRequest, TOOL_INDEX, TOOL_SEARCH,
};

fn text(s: &str) -> ArgValue {
    ArgValue::Text(s.to_string())
}

fn args(list: Vec<(&str, ArgValue)>) -> StringMap<ArgValue> {
    let mut m = StringMap::new();
    for (name, value) in list {
        m.insert(name.to_string(), value);
    }
    m
}

#[test]
fn an_index_call_is_read() {
    let server = CorpusServer::new();
    let given = args(vec![
        ("repo_path", text("/repo")),
        (
            "include",
            ArgValue::List(vec![Some("*.md".to_string()), None, Some("*.txt".to_string())]),
        ),
        ("embeddings", ArgValue::Flag(true)),
    ]);
    assert_eq!(
        server.dispatch(TOOL_INDEX, &given),
        Ok(ToolRequest::Index(IndexRequest {
            repo_path: "/repo".to_string(),
            include_globs: Some(vec!["*.md".to_string(), "*.txt".to_string()]),
            embeddings: Some(true),
        }))
    );
}

#[test]
fn arguments_of_another_type_count_as_absent() {
    let given = args(vec![
        ("repo_path", text("/repo")),
        ("include", text("*.md")),
        ("embeddings", ArgValue::Unsigned(1)),
    ]);
    let request = index_request(&given).unwrap();
    assert_eq!(request.include_globs, None);
    assert_eq!(request.embeddings, None);
    let given = args(vec![
        ("repo_path", text("/repo")),
        ("query", text("q")),
        ("k", ArgValue::Other),
        ("mode", ArgValue::Flag(true)),
    ]);
    let request = search_request(&given).unwrap();
    assert_eq!(request.k, 8);
    assert_eq!(request.mode, SearchMode::Hybrid);
}

#[test]
fn a_search_call_is_read() {
    let server = CorpusServer::new();
    let given = args(vec![
        ("repo_path", text("/repo")),
        ("query", text("how")),
        ("k", ArgValue::Unsigned(3)),
        ("mode", text("text")),
    ]);
    assert_eq!(
        server.dispatch(TOOL_SEARCH, &given),
        Ok(ToolRequest::Search(SearchRequest {
            query: "how".to_string(),
            repo_path: "/repo".to_string(),
            k: 3,
            mode: SearchMode::Text,
        }))
    );
}

#[test]
fn a_search_asks_for_at_least_one_result() {
    let given = args(vec![
        ("repo_path", text("/repo")),
        ("query", text("how")),
        ("k", ArgValue::Unsigned(0)),
        ("mode", text("semantic")),
    ]);
    let request = search_request(&given).unwrap();
    assert_eq!(request.k, 1);
    assert_eq!(request.mode, SearchMode::Semantic);
}

#[test]
fn incomplete_calls_are_refused() {
    let server = CorpusServer::default();
    let refused = |name: &str, given: Vec<(&str, ArgValue)>| -> CallError {
        server.dispatch(name, &args(given)).err().unwrap()
    };
    assert_eq!(refused(TOOL_INDEX, vec![]), CallError::NoRepoPath);
    assert_eq!(refused(TOOL_INDEX, vec![("repo_path", ArgValue::Other)]), CallError::NoRepoPath);
    assert_eq!(refused(TOOL_SEARCH, vec![]), CallError::NoQuery);
    assert_eq!(refused(TOOL_SEARCH, vec![("repo_path", text("/r"))]), CallError::NoQuery);
    assert_eq!(refused(TOOL_SEARCH, vec![("query", text("q"))]), CallError::NoRepoPath);
    assert_eq!(refused(TOOL_INDEX, vec![]).message(), "repo_path is required");
    assert_eq!(refused(TOOL_SEARCH, vec![]).message(), "query is required");
    let bad_mode = vec![("query", text("q")), ("repo_path", text("/r")), ("mode", text("fuzzy"))];
    assert_eq!(
        refused(TOOL_SEARCH, bad_mode).message(),
        "unknown mode 'fuzzy' (expected hybrid | text | semantic)"
    );
    assert_eq!(
        refused("corpus_drop", vec![]).message(),
        "unknown tool 'corpus_drop'. Available: corpus_index, corpus_search"
    );
}

#[test]
fn a_path_that_is_no_directory_is_refused() {
    let request = index_request(&args(vec![("repo_path", text("/nowhere"))])).unwrap();
    assert_eq!(request.check_directory(true), Ok(()));
    assert_eq!(
        request.check_directory(false).err().unwrap().message(),
        "repo_path '/nowhere' is not a directory"
    );
}

#[test]
fn two_tools_are_advertised() {
    let tools = tool_definitions();
    let names: Vec<&str> = tools.iter().map(|t| t.name.as_str()).collect();
    assert_eq!(names, vec!["corpus_index", "corpus_search"]);
    assert_eq!(tools[0].required, vec!["repo_path"]);
    assert_eq!(tools[1].required, vec!["query", "repo_path"]);
    let properties = |i: usize| -> Vec<(&str, &PropertyType)> {
        tools[i].properties.iter().map(|p| (p.name.as_str(), &p.kind)).collect()
    };
    assert_eq!(
        properties(0),
        vec![
            ("repo_path", &PropertyType::Text),
            ("include", &PropertyType::TextList),
            ("embeddings", &PropertyType::Flag),
        ]
    );
    let modes = PropertyType::Choice(vec![
        "hybrid".to_string(),
        "text".to_string(),
        "semantic".to_string(),
    ]);
    assert_eq!(
        properties(1),
        vec![
            ("query", &PropertyType::Text),
            ("repo_path", &PropertyType::Text),
            ("k", &PropertyType::Integer),
            ("mode", &modes),
        ]
    );
    assert!(tools[0].description.contains("unchanged files are skipped"));
    assert!(tools[1].description.starts_with("Search indexed docs."));
    assert_eq!(tools[1].properties[2].description, "Max results (default 8).");
}

#[test]
fn tools_are_found_by_name() {
    let server = CorpusServer::new();
    let tools = tool_definitions();
    assert_eq!(server.get_tool("corpus_index").as_ref(), Some(&tools[0]));
    assert_eq!(server.get_tool("corpus_search").as_ref(), Some(&tools[1]));
    assert_eq!(server.get_tool("corpus"), None);
}

#[test]
fn calls_that_fit_the_schema_are_taken() {
    let server = CorpusServer::new();
    for mode in ["hybrid", "text", "semantic"] {
        let given = args(vec![
            ("query", text("q")),
            ("repo_path", text("/r")),
            ("mode", text(mode)),
            ("k", ArgValue::Unsigned(5)),
        ]);
        assert!(server.dispatch(TOOL_SEARCH, &given).is_ok());
    }
}
