use perg::config::{Config, OutputConfig, SearchConfig};
use perg::error::Error;
use perg::matcher::Matcher;
use perg::searchers::stdin::STDIN_SOURCE;
use perg::searchers::{
    select_searcher, summarize, FileStep, RecursiveSearcher, Searcher, SingleFileSearcher,
    StdinSearcher, Visited,
};
use perg::summary::{MatchIndices, MatchedLine, SearchSummary};

const LOREM: &str = "Lorem ipsum dolor sit amet, consectetur adipiscing elit.\n\
Aenean commodo ligula eget dolor.\n\
Aenean massa.\n\
Cum sociis natoque penatibus et magnis dis parturient montes.\n";

fn expected_summary(file: &str) -> SearchSummary {
    SearchSummary::from_map(vec![(
        file.to_owned(),
        vec![
            MatchedLine {
                line_number: Some(1),
                line: "Lorem ipsum dolor sit amet, consectetur adipiscing elit.".to_owned(),
                matches_indices: vec![MatchIndices { start: 12, end: 17 }],
            },
            MatchedLine {
                line_number: Some(2),
                line: "Aenean commodo ligula eget dolor.".to_owned(),
                matches_indices: vec![MatchIndices { start: 27, end: 32 }],
            },
        ],
    )])
}

/// Searches a file that holds `content`.
fn search_file(
    searcher: &SingleFileSearcher,
    matcher: &Matcher,
    is_symlink: bool,
    content: &str,
) -> Result<SearchSummary, Error> {
    searcher.search(matcher, is_symlink, Ok(content.as_bytes().to_vec()))
}

fn matcher(pattern: &str) -> Matcher {
    Matcher::try_create(pattern, &SearchConfig::default()).expect("Failed to build matcher")
}

fn config(path: &str) -> Config {
    Config {
        pattern: "dolor".to_owned(),
        path: path.to_owned(),
        search: SearchConfig {
            case_insensitive: false,
            follow_symlinks: true,
            exact_match: false,
        },
        output: OutputConfig {
            only_file_names: false,
        },
    }
}

#[test]
fn search_in_test_data() {
    let file = "test_data/lorem.txt";
    let config = SearchConfig::default();
    let searcher = SingleFileSearcher::new(file.into(), &config);
    let matcher = Matcher::try_create("dolor", &config).expect("Failed to build matcher");
    let search_summary = search_file(&searcher, &matcher, false, LOREM).expect("Searcher failed");
    let expected_summary = expected_summary(file);

    assert_eq!(search_summary, expected_summary);
}

#[test]
fn search_in_symlink_with_feature_disabled_yields_nothing() {
    let file = "test_data/lorem_symlink";
    let config = SearchConfig::default();
    let searcher = SingleFileSearcher::new(file.into(), &config);
    let matcher = Matcher::try_create("dolor", &config).expect("Failed to build matcher");
    let search_summary = search_file(&searcher, &matcher, true, LOREM).expect("Searcher failed");
    let expected_summary = SearchSummary::empty();

    assert_eq!(search_summary, expected_summary);
}

#[test]
fn search_in_symlink_yields_linked_file_contents() {
    let file = "test_data/lorem_symlink";
    let config = SearchConfig {
        follow_symlinks: true,
        ..SearchConfig::default()
    };
    let searcher = SingleFileSearcher::new(file.into(), &config);
    let matcher = Matcher::try_create("dolor", &config).expect("Failed to build matcher");
    let search_summary = search_file(&searcher, &matcher, true, LOREM).expect("Searcher failed");
    let expected_summary = expected_summary(file);

    assert_eq!(search_summary, expected_summary);
}

#[test]
fn followed_symlink_gives_what_its_target_gives() {
    let follow = SearchConfig {
        follow_symlinks: true,
        ..SearchConfig::default()
    };
    let plain = SearchConfig::default();
    let link = SingleFileSearcher::new("test_data/lorem_symlink".into(), &follow);
    let target = SingleFileSearcher::new("test_data/lorem.txt".into(), &plain);
    let matcher = matcher("dolor");

    let through_link = search_file(&link, &matcher, true, LOREM).expect("Searcher failed");
    let direct = search_file(&target, &matcher, false, LOREM).expect("Searcher failed");

    let (mut through_link, mut direct) = (through_link.into_entries(), direct.into_entries());
    assert_eq!(through_link.len(), 1);
    assert_eq!(direct.len(), 1);
    let (link_name, link_lines) = through_link.remove(0);
    let (target_name, target_lines) = direct.remove(0);
    assert_eq!(link_name, "test_data/lorem_symlink");
    assert_eq!(target_name, "test_data/lorem.txt");
    assert_eq!(link_lines, target_lines);
}

#[test]
fn begin_opens_every_file_but_a_link_that_is_not_followed() {
    let plain = SearchConfig::default();
    let follow = SearchConfig {
        follow_symlinks: true,
        ..SearchConfig::default()
    };

    let searcher = SingleFileSearcher::new("a".into(), &plain);
    assert!(matches!(searcher.begin(false), FileStep::Open));
    assert!(matches!(searcher.begin(true), FileStep::Finished(summary) if summary.is_empty()));

    let searcher = SingleFileSearcher::new("a".into(), &follow);
    assert!(matches!(searcher.begin(false), FileStep::Open));
    assert!(matches!(searcher.begin(true), FileStep::Open));
}

#[test]
fn link_that_is_not_followed_is_not_read() {
    let config = SearchConfig::default();
    let searcher = SingleFileSearcher::new("dangling".into(), &config);
    let cause = std::io::Error::from(std::io::ErrorKind::NotFound);

    let found = searcher.search(&matcher("dolor"), true, Err(cause));

    assert!(matches!(found, Ok(summary) if summary.is_empty()));
}

#[test]
fn followed_link_that_cannot_be_opened_fails_with_its_path() {
    let config = SearchConfig {
        follow_symlinks: true,
        ..SearchConfig::default()
    };
    let searcher = SingleFileSearcher::new("dangling".into(), &config);
    let cause = std::io::Error::from(std::io::ErrorKind::NotFound);

    let found = searcher.search(&matcher("dolor"), true, Err(cause));

    assert!(matches!(found, Err(Error::Io(path, _)) if path == "dangling"));
}

#[test]
fn begin_and_search_agree_on_a_link() {
    let plain = SearchConfig::default();
    let follow = SearchConfig {
        follow_symlinks: true,
        ..SearchConfig::default()
    };
    let matcher = matcher("dolor");
    for config in [&plain, &follow] {
        for is_symlink in [false, true] {
            let searcher = SingleFileSearcher::new("a.txt".into(), config);
            let searched = search_file(&searcher, &matcher, is_symlink, LOREM)
                .expect("Searcher failed");
            match searcher.begin(is_symlink) {
                FileStep::Finished(summary) => assert_eq!(searched, summary),
                FileStep::Open => assert_eq!(searched, expected_summary("a.txt")),
            }
        }
    }
}

#[test]
fn file_searcher_knows_its_path() {
    let config = SearchConfig::default();
    let searcher = SingleFileSearcher::new("some/where.txt".into(), &config);

    assert_eq!(searcher.path(), "some/where.txt");
}

#[test]
fn file_that_cannot_be_opened_fails_with_its_path() {
    let config = SearchConfig::default();
    let searcher = SingleFileSearcher::new("missing.txt".into(), &config);
    let cause = std::io::Error::from(std::io::ErrorKind::NotFound);

    let found = searcher.search(&matcher("dolor"), false, Err(cause));

    assert!(matches!(
        found,
        Err(Error::Io(path, cause))
            if path == "missing.txt" && cause.kind() == std::io::ErrorKind::NotFound
    ));
}

#[test]
fn file_without_a_match_gives_an_empty_summary() {
    let config = SearchConfig::default();
    let searcher = SingleFileSearcher::new("a.txt".into(), &config);

    let found = search_file(&searcher, &matcher("quux"), false, LOREM).expect("Searcher failed");
    assert_eq!(found, SearchSummary::empty());

    let found = search_file(&searcher, &matcher("dolor"), false, "").expect("Searcher failed");
    assert_eq!(found, SearchSummary::empty());
}

#[test]
fn file_lines_are_numbered_from_one_through_lines_that_are_no_text() {
    let config = SearchConfig::default();
    let searcher = SingleFileSearcher::new("mixed.bin".into(), &config);
    let content = b"no match\n\xff\xfe foo\nfoo here\r\n\nlast foo".to_vec();

    let found = searcher
        .search(&matcher("foo"), false, Ok(content))
        .expect("Searcher failed");

    assert_eq!(
        found.into_entries(),
        vec![(
            "mixed.bin".to_owned(),
            vec![
                MatchedLine {
                    line_number: Some(3),
                    line: "foo here".to_owned(),
                    matches_indices: vec![MatchIndices { start: 0, end: 3 }],
                },
                MatchedLine {
                    line_number: Some(5),
                    line: "last foo".to_owned(),
                    matches_indices: vec![MatchIndices { start: 5, end: 8 }],
                },
            ]
        )]
    );
}

#[test]
fn searching_twice_gives_the_same_summary() {
    let config = SearchConfig {
        case_insensitive: true,
        ..SearchConfig::default()
    };
    let searcher = SingleFileSearcher::new("test_data/lorem.txt".into(), &config);
    let first_matcher =
        Matcher::try_create("aenean|DOLOR", &config).expect("Failed to build matcher");
    let second_matcher =
        Matcher::try_create("aenean|DOLOR", &config).expect("Failed to build matcher");

    let first = search_file(&searcher, &first_matcher, false, LOREM).expect("Searcher failed");
    let again = search_file(&searcher, &first_matcher, false, LOREM).expect("Searcher failed");
    let anew = search_file(&searcher, &second_matcher, false, LOREM).expect("Searcher failed");

    assert_eq!(first, again);
    assert_eq!(first, anew);
    assert_eq!(first.files(), again.files());
    assert_eq!(first.into_entries(), again.into_entries());
}

#[test]
fn summarize_numbers_lines_by_their_place() {
    let lines = vec![
        Some("foo".to_owned()),
        None,
        Some("bar".to_owned()),
        Some("a foo and a foo".to_owned()),
    ];

    let summary = summarize(&matcher("foo"), "f".to_owned(), lines, true);

    assert_eq!(
        summary.into_entries(),
        vec![(
            "f".to_owned(),
            vec![
                MatchedLine {
                    line_number: Some(1),
                    line: "foo".to_owned(),
                    matches_indices: vec![MatchIndices { start: 0, end: 3 }],
                },
                MatchedLine {
                    line_number: Some(4),
                    line: "a foo and a foo".to_owned(),
                    matches_indices: vec![
                        MatchIndices { start: 2, end: 5 },
                        MatchIndices { start: 12, end: 15 }
                    ],
                },
            ]
        )]
    );
}

#[test]
fn summarize_without_numbers() {
    let lines = vec![Some("bar".to_owned()), Some("foo".to_owned())];

    let summary = summarize(&matcher("foo"), "f".to_owned(), lines, false);

    assert_eq!(
        summary.into_entries(),
        vec![(
            "f".to_owned(),
            vec![MatchedLine {
                line_number: None,
                line: "foo".to_owned(),
                matches_indices: vec![MatchIndices { start: 0, end: 3 }],
            }]
        )]
    );
}

#[test]
fn summarize_of_nothing_is_empty() {
    assert_eq!(
        summarize(&matcher("foo"), "f".to_owned(), vec![], true),
        SearchSummary::empty()
    );
    assert_eq!(
        summarize(&matcher("foo"), "f".to_owned(), vec![None, Some("bar".to_owned())], true),
        SearchSummary::empty()
    );
}

#[test]
fn stdin_matches_have_no_line_number() {
    let searcher = StdinSearcher::new();

    let found = searcher
        .search(&matcher("dolor"), LOREM.as_bytes())
        .expect("Searcher failed");

    assert_eq!(found.files(), vec!["<stdin>"]);
    let entries = found.into_entries();
    assert_eq!(entries.len(), 1);
    assert_eq!(entries[0].0, STDIN_SOURCE);
    assert_eq!(entries[0].1.len(), 2);
    for line in &entries[0].1 {
        assert_eq!(line.line_number, None);
    }
    assert_eq!(
        entries[0].1[1],
        MatchedLine {
            line_number: None,
            line: "Aenean commodo ligula eget dolor.".to_owned(),
            matches_indices: vec![MatchIndices { start: 27, end: 32 }],
        }
    );
}

#[test]
fn stdin_without_a_match_gives_an_empty_summary() {
    let searcher = StdinSearcher::default();

    let found = searcher
        .search(&matcher("quux"), LOREM.as_bytes())
        .expect("Searcher failed");

    assert_eq!(found, SearchSummary::empty());
}

#[test]
fn stdin_skips_lines_that_are_no_text() {
    let searcher = StdinSearcher::new();

    let found = searcher
        .search(&matcher("foo"), b"\xfffoo\nfoo\n")
        .expect("Searcher failed");

    assert_eq!(
        found.into_entries(),
        vec![(
            "<stdin>".to_owned(),
            vec![MatchedLine {
                line_number: None,
                line: "foo".to_owned(),
                matches_indices: vec![MatchIndices { start: 0, end: 3 }],
            }]
        )]
    );
}

#[test]
fn select_searcher_prefers_piped_input() {
    let config = config("some/file.txt");

    assert!(matches!(select_searcher(&config, true, true), Searcher::Stdin(_)));
    assert!(matches!(select_searcher(&config, true, false), Searcher::Stdin(_)));
}

#[test]
fn select_searcher_searches_a_regular_file_alone() {
    let config = config("some/file.txt");

    match select_searcher(&config, false, true) {
        Searcher::SingleFile(searcher) => {
            assert_eq!(searcher.path(), "some/file.txt");
            assert!(matches!(searcher.begin(true), FileStep::Open));
        }
        other => panic!("chose {:?}", other),
    }
}

#[test]
fn select_searcher_walks_anything_else() {
    let config = config("some/dir");

    match select_searcher(&config, false, false) {
        Searcher::Recursive(searcher) => {
            assert_eq!(searcher.path(), "some/dir");
            assert!(searcher.follow_links());
        }
        other => panic!("chose {:?}", other),
    }
}

#[test]
fn recursive_searcher_searches_regular_files_only() {
    let config = SearchConfig::default();
    let searcher = RecursiveSearcher::new("root".into(), &config);
    assert_eq!(searcher.path(), "root");
    assert!(!searcher.follow_links());

    let directory = searcher.visit(Ok(Visited {
        path: "root/sub".to_owned(),
        is_file: false,
    }));
    assert!(matches!(directory, Ok(None)));

    let file = searcher.visit(Ok(Visited {
        path: "root/sub/a.txt".to_owned(),
        is_file: true,
    }));
    match file {
        Ok(Some(file)) => {
            assert_eq!(file.path(), "root/sub/a.txt");
            assert!(matches!(file.begin(true), FileStep::Finished(_)));
        }
        other => panic!("decided {:?}", other),
    }
}

#[test]
fn recursive_searcher_hands_its_options_to_each_file() {
    let config = SearchConfig {
        follow_symlinks: true,
        ..SearchConfig::default()
    };
    let searcher = RecursiveSearcher::new("root".into(), &config);

    let file = searcher.visit(Ok(Visited {
        path: "root/link".to_owned(),
        is_file: true,
    }));

    assert!(matches!(file, Ok(Some(file)) if matches!(file.begin(true), FileStep::Open)));
}

#[test]
fn recursive_searcher_fails_when_the_traversal_fails() {
    let config = SearchConfig::default();
    let searcher = RecursiveSearcher::new("root".into(), &config);
    let failure = walkdir::WalkDir::new("/no/such/directory/for/this/test")
        .into_iter()
        .next()
        .expect("an entry for the root")
        .expect_err("a failure for a root that does not exist");
    let path = failure.path().map(|path| path.to_owned());

    let decided = searcher.visit(Err(failure));

    assert!(matches!(
        decided,
        Err(Error::WalkDir(cause)) if cause.path().map(|path| path.to_owned()) == path
    ));
}

#[test]
fn directory_with_two_matching_files_gives_two_sources() {
    let config = SearchConfig::default();
    let searcher = RecursiveSearcher::new("dir".into(), &config);
    let matcher = matcher("needle");
    let tree = [
        ("dir", false, ""),
        ("dir/b.txt", true, "hay\nneedle in b\n"),
        ("dir/sub", false, ""),
        ("dir/sub/a.txt", true, "a needle\nhay\n"),
        ("dir/sub/none.txt", true, "hay\nhay\n"),
    ];

    let mut summary = SearchSummary::empty();
    for (path, is_file, content) in tree {
        let entry = Visited {
            path: path.to_owned(),
            is_file,
        };
        if let Some(file) = searcher.visit(Ok(entry)).expect("Searcher failed") {
            summary.merge(search_file(&file, &matcher, false, content).expect("Searcher failed"));
        }
    }

    assert_eq!(summary.files(), vec!["dir/b.txt", "dir/sub/a.txt"]);
    assert_eq!(
        summary.into_entries(),
        vec![
            (
                "dir/b.txt".to_owned(),
                vec![MatchedLine {
                    line_number: Some(2),
                    line: "needle in b".to_owned(),
                    matches_indices: vec![MatchIndices { start: 0, end: 6 }],
                }]
            ),
            (
                "dir/sub/a.txt".to_owned(),
                vec![MatchedLine {
                    line_number: Some(1),
                    line: "a needle".to_owned(),
                    matches_indices: vec![MatchIndices { start: 2, end: 8 }],
                }]
            ),
        ]
    );
}
