use corpus::config::default_include;
use corpus::discovery::{
    discover, documents_of, glob_builder, present_files, DocFile, WalkEntry,
};

fn entry(abs: usize, path: &str) -> WalkEntry {
    WalkEntry {
        abs,
        is_file: true,
        components: Some(path.split('/').map(String::from).collect()),
    }
}

fn doc(abs: usize, relpath: &str) -> DocFile {
    DocFile { abs, relpath: relpath.to_string() }
}

fn globs(list: &[&str]) -> Vec<String> {
    list.iter().map(|s| s.to_string()).collect()
}

#[test]
fn documents_are_matched_and_sorted() {
    let walk = vec![
        entry(0, "src/lib.rs"),
        entry(1, "z.md"),
        entry(2, "docs/guide.mdx"),
        entry(3, "a.txt"),
        entry(4, "docs/deep/er/x.adoc"),
        entry(5, ".github/README.md"),
    ];
    assert_eq!(
        discover(&walk, &default_include()),
        Ok(vec![
            doc(5, ".github/README.md"),
            doc(3, "a.txt"),
            doc(4, "docs/deep/er/x.adoc"),
            doc(2, "docs/guide.mdx"),
            doc(1, "z.md"),
        ])
    );
}

#[test]
fn directories_foreign_entries_and_the_data_dir_are_left_out() {
    let walk = vec![
        WalkEntry { abs: 0, is_file: false, components: Some(vec!["d.md".to_string()]) },
        WalkEntry { abs: 1, is_file: true, components: None },
        entry(2, ".corpus/notes.md"),
        entry(3, ".corpus2/notes.md"),
        entry(4, "sub/.corpus/notes.md"),
    ];
    assert_eq!(
        discover(&walk, &globs(&["**/*.md"])),
        Ok(vec![doc(3, ".corpus2/notes.md"), doc(4, "sub/.corpus/notes.md")])
    );
}

#[test]
fn no_glob_matches_nothing() {
    assert_eq!(discover(&vec![entry(0, "a.md")], &vec![]), Ok(vec![]));
}

#[test]
fn globs_are_those_of_the_glob_set() {
    let walk = vec![entry(0, "a.md"), entry(1, "d/a.md"), entry(2, "b.txt"), entry(3, "c.rs")];
    let found = |g: &str| -> Vec<usize> {
        discover(&walk, &globs(&[g])).unwrap().iter().map(|d| d.abs).collect()
    };
    assert_eq!(found("*.{md,txt}"), vec![0, 2, 1]);
    assert_eq!(found("d/*"), vec![1]);
    assert_eq!(found("[ab].md"), vec![0]);
    assert_eq!(found("?.rs"), vec![3]);
}

#[test]
fn the_first_bad_glob_is_reported() {
    let message = discover(&vec![], &globs(&["*.md", "[", "{"])).err().unwrap().message;
    assert_eq!(message, globset::Glob::new("[").err().unwrap().to_string());
}

#[test]
fn backslashes_become_slashes() {
    let walk = vec![WalkEntry {
        abs: 0,
        is_file: true,
        components: Some(vec!["a\\b.md".to_string()]),
    }];
    assert_eq!(documents_of(&walk, &vec![true]), vec![doc(0, "a/b.md")]);
}

#[test]
fn equal_documents_are_listed_once() {
    let walk = vec![entry(7, "a.md"), entry(7, "a.md"), entry(8, "a.md")];
    assert_eq!(
        documents_of(&walk, &vec![true, true, true]),
        vec![doc(7, "a.md"), doc(8, "a.md")]
    );
    assert!(documents_of(&walk, &vec![false, false, false]).is_empty());
}

#[test]
fn all_files_are_present_whether_matched_or_not() {
    let walk = vec![
        entry(0, "b.rs"),
        WalkEntry { abs: 1, is_file: false, components: Some(vec!["d".to_string()]) },
        entry(2, ".corpus/chunks.json"),
        entry(3, "a.md"),
        WalkEntry { abs: 4, is_file: true, components: Some(vec!["c\\d.md".to_string()]) },
        WalkEntry { abs: 5, is_file: true, components: None },
    ];
    assert_eq!(present_files(&walk), globs(&["b.rs", "a.md", "c/d.md"]));
}

#[test]
fn extension_globs_match_by_the_end_of_the_path() {
    let walk = vec![
        entry(0, "a.md"),
        entry(1, "x/.md"),
        entry(2, "x.md/y"),
        entry(3, "a.mdx"),
        entry(4, "a.MD"),
        entry(5, "amd"),
        entry(6, "x/y/z.tar.md"),
        entry(7, "z\\w.md"),
        entry(8, "z.md\\w"),
    ];
    let found: Vec<usize> =
        discover(&walk, &globs(&["**/*.md"])).unwrap().iter().map(|d| d.abs).collect();
    assert_eq!(found, vec![0, 1, 6, 7]);
}

#[test]
fn a_builder_holds_the_globs_it_is_given() {
    assert!(glob_builder(&default_include()).is_ok());
    let set = glob_builder(&globs(&["*.rs", "docs/*"])).unwrap().build().unwrap();
    assert_eq!(set.len(), 2);
    assert!(set.is_match("docs/x"));
    assert!(glob_builder(&globs(&["*.rs", "{a"])).is_err());
}

#[test]
fn globs_without_a_regular_expression_are_accepted() {
    let walk = vec![
        entry(0, "README.md"),
        entry(1, "docs/README.md"),
        entry(2, "docs/a,b].txt"),
        entry(3, "x.tar.gz"),
    ];
    let found = |g: &str| -> Vec<usize> {
        discover(&walk, &globs(&[g])).unwrap().iter().map(|d| d.abs).collect()
    };
    assert_eq!(found("README.md"), vec![0]);
    assert_eq!(found("docs/a,b].txt"), vec![2]);
    assert_eq!(found("**/README.md"), vec![0, 1]);
    assert_eq!(found("**/docs/README.md"), vec![1]);
    assert_eq!(found("docs/*"), vec![1, 2]);
    assert_eq!(found("*.tar.gz"), vec![3]);
    assert_eq!(found("**/*ME.md"), vec![0, 1]);
    let all = ["README.md", "**/x", "docs/*", "*.gz", "**/*.txt", "*E.md"];
    assert_eq!(discover(&walk, &globs(&all)).unwrap().len(), 4);
}
