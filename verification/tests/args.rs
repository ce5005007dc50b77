use perg::args::Args;
use perg::config::{Config, SearchConfig};

fn args(path: Option<&str>) -> Args {
    Args {
        pattern: "fo+".to_owned(),
        path: path.map(|path| path.to_owned()),
        files_with_matches: false,
        ignore_case: false,
        follow_symlinks: false,
        whole_words: false,
    }
}

#[test]
fn config_searches_the_current_directory_by_default() {
    let config = Config::from(args(None));

    assert_eq!(config.pattern, "fo+");
    assert_eq!(config.path, ".");
    assert!(!config.search.case_insensitive);
    assert!(!config.search.follow_symlinks);
    assert!(!config.search.exact_match);
    assert!(!config.output.only_file_names);
}

#[test]
fn config_keeps_the_given_path() {
    let config = Config::from(args(Some("src/lib.rs")));

    assert_eq!(config.path, "src/lib.rs");
}

#[test]
fn config_takes_each_switch_to_its_place() {
    let config: Config = Args {
        ignore_case: true,
        ..args(None)
    }
    .into();
    assert!(config.search.case_insensitive);
    assert!(!config.search.follow_symlinks && !config.search.exact_match);
    assert!(!config.output.only_file_names);

    let config = Config::from(Args {
        follow_symlinks: true,
        ..args(None)
    });
    assert!(config.search.follow_symlinks);
    assert!(!config.search.case_insensitive && !config.search.exact_match);
    assert!(!config.output.only_file_names);

    let config = Config::from(Args {
        whole_words: true,
        ..args(None)
    });
    assert!(config.search.exact_match);
    assert!(!config.search.case_insensitive && !config.search.follow_symlinks);
    assert!(!config.output.only_file_names);

    let config = Config::from(Args {
        files_with_matches: true,
        ..args(None)
    });
    assert!(config.output.only_file_names);
    assert!(!config.search.case_insensitive);
    assert!(!config.search.follow_symlinks);
    assert!(!config.search.exact_match);
}

#[test]
fn default_search_config_has_every_switch_off() {
    let config = SearchConfig::default();

    assert!(!config.case_insensitive);
    assert!(!config.follow_symlinks);
    assert!(!config.exact_match);
}
