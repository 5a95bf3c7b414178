use clonehunter::scan::{
    FileLimitingFactor, ScanState, WalkConfig, extension_matches, extension_of,
    file_list_generator, process_entry,
};
use clonehunter::fingerprint::FileMetaData;
use clonehunter::traits::{Displayer, ExactSize, Paths, Times};

fn no_filter() -> WalkConfig {
    WalkConfig { ext: None, max_depth: Some(10), max_file_size: None, min_file_size: None }
}

#[test]
fn extensions_come_from_the_file_name() {
    assert_eq!(extension_of("/x/a.tar.gz"), Some(String::from("gz")));
    assert_eq!(extension_of("/x/report.pdf"), Some(String::from("pdf")));
    assert_eq!(extension_of("notes.txt"), Some(String::from("txt")));
    assert_eq!(extension_of("/x/noext"), None);
    assert_eq!(extension_of("/x/.bashrc"), None);
    assert_eq!(extension_of("/pa.th/noext"), None);
    assert_eq!(extension_of("/x/trailing."), Some(String::from("")));
}

#[test]
fn extension_filter_is_case_sensitive() {
    assert!(extension_matches("pdf,txt,mp4", "txt"));
    assert!(extension_matches("pdf", "pdf"));
    assert!(!extension_matches("pdf", "PDF"));
    assert!(!extension_matches("pdf,txt", "mp4"));
    assert!(!extension_matches("", "pdf"));
}

#[test]
fn files_without_filter_all_pass() {
    let mut state = ScanState::new();
    file_list_generator("/d/a.txt", 10, &no_filter(), &mut state);
    file_list_generator("/d/noext", 5, &no_filter(), &mut state);
    assert_eq!(state.files, vec![String::from("/d/a.txt"), String::from("/d/noext")]);
    assert_eq!(state.total_bytes, 15);
    assert!(state.dirs.is_empty());
}

#[test]
fn filtered_files_need_a_matching_extension() {
    let wc = WalkConfig {
        ext: Some(String::from("pdf,txt")),
        max_depth: None,
        max_file_size: None,
        min_file_size: None,
    };
    let mut state = ScanState::new();
    file_list_generator("/d/a.txt", 10, &wc, &mut state);
    file_list_generator("/d/b.mp4", 20, &wc, &mut state);
    file_list_generator("/d/noext", 30, &wc, &mut state);
    assert_eq!(state.files, vec![String::from("/d/a.txt")]);
    assert_eq!(state.total_bytes, 10);
}

#[test]
fn directories_join_their_own_list() {
    let mut state = ScanState::new();
    process_entry("/d/sub", true, None, &no_filter(), &mut state);
    assert_eq!(state.dirs, vec![String::from("/d/sub")]);
    assert!(state.files.is_empty());
    assert_eq!(state.total_bytes, 0);
}

#[test]
fn minimum_bound_is_strict() {
    let wc = WalkConfig {
        ext: None,
        max_depth: None,
        max_file_size: None,
        min_file_size: Some(100),
    };
    let mut state = ScanState::new();
    process_entry("/d/small.bin", false, Some(100), &wc, &mut state);
    process_entry("/d/big.bin", false, Some(101), &wc, &mut state);
    assert_eq!(state.files, vec![String::from("/d/big.bin")]);
    assert_eq!(state.total_bytes, 101);
}

#[test]
fn maximum_bound_is_strict() {
    let wc = WalkConfig {
        ext: None,
        max_depth: None,
        max_file_size: Some(100),
        min_file_size: None,
    };
    let mut state = ScanState::new();
    process_entry("/d/small.bin", false, Some(99), &wc, &mut state);
    process_entry("/d/big.bin", false, Some(100), &wc, &mut state);
    assert_eq!(state.files, vec![String::from("/d/small.bin")]);
    assert_eq!(state.total_bytes, 99);
}

#[test]
fn unreadable_metadata_counts_as_zero_bytes() {
    let mut state = ScanState::new();
    process_entry("/d/ghost.bin", false, None, &no_filter(), &mut state);
    assert_eq!(state.files, vec![String::from("/d/ghost.bin")]);
    assert_eq!(state.total_bytes, 0);
}

#[test]
fn limiting_factor_variants_exist() {
    let g = FileLimitingFactor::GreaterThan(10);
    let l = FileLimitingFactor::LessThan(20);
    assert!(matches!(g, FileLimitingFactor::GreaterThan(10)));
    assert!(matches!(l, FileLimitingFactor::LessThan(20)));
}

#[test]
fn collection_traits_cover_vectors_of_paths() {
    let v = vec![String::from("/a"), String::from("/b")];
    assert_eq!(ExactSize::len(&v), 2);
    assert_eq!(v.get_path(), String::from("/a"));
}

#[test]
fn metadata_exposes_time_and_text() {
    let m = FileMetaData {
        file_name: String::from("data.bin"),
        modified_date: 1000,
        file_size: 100,
    };
    assert_eq!(m.get_modified(), Some(1000));
    assert_eq!(Displayer::to_string(&m), String::from("data.bin"));
}
