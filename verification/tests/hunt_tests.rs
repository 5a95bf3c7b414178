use clonehunter::config::{OrderBy, SortBy, SortOrder};
use clonehunter::fingerprint::{
    FileContent, FileInput, FileMetaData, ReadPlan, checksum_fingerprint, content_plan,
    fast_fingerprint,
};
use clonehunter::hunt::hunt;
use clonehunter::report::HuntReport;

fn checksum_input(path: &str, content: Vec<u8>) -> FileInput {
    FileInput::Checksum {
        path: String::from(path),
        size: content.len() as u64,
        content: FileContent::Whole(content),
    }
}

fn fast_input(path: &str, name: &str, modified: u64, size: u64) -> FileInput {
    FileInput::Fast {
        path: String::from(path),
        meta: FileMetaData {
            file_name: String::from(name),
            modified_date: modified,
            file_size: size,
        },
    }
}

fn by_file_type() -> SortOrder {
    SortOrder(SortBy::FileType, None)
}

#[test]
fn small_file_boundary_takes_the_whole_content_path() {
    assert_eq!(content_plan(2048), ReadPlan::WholeFile);
    assert_eq!(content_plan(2049), ReadPlan::FrontBack);
    assert_eq!(content_plan(0), ReadPlan::WholeFile);
    let at_boundary = checksum_fingerprint(2048, &FileContent::Whole(vec![7u8; 2048]));
    let past_boundary = checksum_fingerprint(
        2049,
        &FileContent::FrontBack { front: vec![7u8; 1024], back: vec![7u8; 1024] },
    );
    assert_ne!(at_boundary, past_boundary);
}

#[test]
fn empty_content_has_the_known_digest() {
    let fp = checksum_fingerprint(0, &FileContent::Whole(Vec::new()));
    assert_eq!(fp, 0xd41d8cd98f00b204e9800998ecf8427e_u128);
}

#[test]
fn equal_content_means_equal_fingerprints() {
    let a = checksum_fingerprint(100, &FileContent::Whole(vec![7u8; 100]));
    let b = checksum_fingerprint(100, &FileContent::Whole(vec![7u8; 100]));
    let c = checksum_fingerprint(100, &FileContent::Whole(vec![9u8; 100]));
    assert_eq!(a, b);
    assert_ne!(a, c);
}

#[test]
fn equal_metadata_means_equal_fast_fingerprints() {
    let m1 = FileMetaData {
        file_name: String::from("data.bin"),
        modified_date: 1000,
        file_size: 100,
    };
    let m2 = FileMetaData {
        file_name: String::from("data.bin"),
        modified_date: 1000,
        file_size: 100,
    };
    let m3 = FileMetaData {
        file_name: String::from("data.bin"),
        modified_date: 2000,
        file_size: 100,
    };
    assert_eq!(fast_fingerprint(&m1), fast_fingerprint(&m2));
    assert_ne!(fast_fingerprint(&m1), fast_fingerprint(&m3));
}

#[test]
fn two_identical_files_form_one_group() {
    let inputs = vec![
        checksum_input("/t/a.bin", vec![7u8; 100]),
        checksum_input("/t/b.bin", vec![7u8; 100]),
        checksum_input("/t/c.bin", vec![9u8; 100]),
    ];
    let report: HuntReport = hunt(inputs, &by_file_type());
    assert_eq!(report.duplicates_count, 2);
    assert_eq!(report.duplicates_total_size, 200);
    assert_eq!(report.records.len(), 1);
    let record = &report.records[0];
    assert_eq!(record.duplicate_group_no, 1);
    assert_eq!(record.duplicate_group_count, 2);
    assert_eq!(record.duplicate_group_bytes_each, 100);
    assert_eq!(record.duplicate_list, vec![String::from("/t/a.bin"), String::from("/t/b.bin")]);
}

#[test]
fn distinct_contents_report_no_duplicates() {
    let inputs = vec![
        checksum_input("/t/a.bin", vec![1u8; 50]),
        checksum_input("/t/b.bin", vec![2u8; 50]),
        checksum_input("/t/c.bin", vec![3u8; 50]),
    ];
    let report = hunt(inputs, &by_file_type());
    assert_eq!(report.duplicates_count, 0);
    assert_eq!(report.duplicates_total_size, 0);
    assert!(report.records.is_empty());
}

#[test]
fn fast_mode_separates_different_modified_times() {
    let inputs = vec![
        fast_input("/a/data.bin", "data.bin", 1000, 100),
        fast_input("/b/data.bin", "data.bin", 2000, 100),
    ];
    let report = hunt(inputs, &by_file_type());
    assert_eq!(report.duplicates_count, 0);
    assert!(report.records.is_empty());
}

#[test]
fn fast_mode_groups_equal_metadata() {
    let inputs = vec![
        fast_input("/a/data.bin", "data.bin", 1000, 100),
        fast_input("/b/data.bin", "data.bin", 1000, 100),
    ];
    let report = hunt(inputs, &by_file_type());
    assert_eq!(report.duplicates_count, 2);
    assert_eq!(report.duplicates_total_size, 200);
    assert_eq!(report.records.len(), 1);
    assert_eq!(
        report.records[0].duplicate_list,
        vec![String::from("/a/data.bin"), String::from("/b/data.bin")]
    );
}

#[test]
fn grouping_is_delivery_order_invariant() {
    let one = vec![
        checksum_input("/t/a.bin", vec![7u8; 100]),
        checksum_input("/t/b.bin", vec![7u8; 100]),
        checksum_input("/t/c.bin", vec![9u8; 100]),
    ];
    let other = vec![
        checksum_input("/t/c.bin", vec![9u8; 100]),
        checksum_input("/t/b.bin", vec![7u8; 100]),
        checksum_input("/t/a.bin", vec![7u8; 100]),
    ];
    let r1 = hunt(one, &by_file_type());
    let r2 = hunt(other, &by_file_type());
    assert_eq!(r1.records, r2.records);
    assert_eq!(r1.duplicates_count, r2.duplicates_count);
    assert_eq!(r1.duplicates_total_size, r2.duplicates_total_size);
}

fn two_group_inputs() -> Vec<FileInput> {
    vec![
        fast_input("/d/x1.txt", "same.txt", 1, 10),
        fast_input("/d/x2.txt", "same.txt", 1, 10),
        fast_input("/e/y1.bin", "other.bin", 1, 20),
        fast_input("/e/y2.bin", "other.bin", 1, 20),
    ]
}

#[test]
fn file_type_sort_orders_by_extension() {
    let report = hunt(two_group_inputs(), &SortOrder(SortBy::FileType, None));
    assert_eq!(report.records.len(), 2);
    assert_eq!(report.records[0].duplicate_group_bytes_each, 20);
    assert_eq!(report.records[1].duplicate_group_bytes_each, 10);
    assert_eq!(report.records[0].duplicate_group_no, 1);
    assert_eq!(report.records[1].duplicate_group_no, 2);
    assert_eq!(report.duplicates_count, 4);
    assert_eq!(report.duplicates_total_size, 60);
}

#[test]
fn file_size_sort_follows_the_order_option() {
    let asc = hunt(two_group_inputs(), &SortOrder(SortBy::FileSize, Some(OrderBy::Asc)));
    assert_eq!(asc.records[0].duplicate_group_bytes_each, 10);
    assert_eq!(asc.records[1].duplicate_group_bytes_each, 20);
    let desc = hunt(two_group_inputs(), &SortOrder(SortBy::FileSize, Some(OrderBy::Desc)));
    assert_eq!(desc.records[0].duplicate_group_bytes_each, 20);
    assert_eq!(desc.records[1].duplicate_group_bytes_each, 10);
    assert_eq!(desc.records[0].duplicate_group_no, 1);
}

#[test]
fn combined_sort_reverses_by_extension() {
    let desc = hunt(two_group_inputs(), &SortOrder(SortBy::Both, Some(OrderBy::Desc)));
    assert_eq!(desc.records[0].duplicate_group_bytes_each, 10);
    assert_eq!(desc.records[1].duplicate_group_bytes_each, 20);
}

#[test]
fn byte_totals_saturate_instead_of_wrapping() {
    let huge = u64::MAX - 1;
    let inputs = vec![
        fast_input("/h/a.bin", "huge.bin", 1, huge),
        fast_input("/h/b.bin", "huge.bin", 1, huge),
    ];
    let report = hunt(inputs, &by_file_type());
    assert_eq!(report.duplicates_count, 2);
    assert_eq!(report.duplicates_total_size, u64::MAX);
}

#[test]
fn an_empty_delivery_reports_nothing() {
    let report = hunt(Vec::new(), &by_file_type());
    assert_eq!(report.duplicates_count, 0);
    assert_eq!(report.duplicates_total_size, 0);
    assert!(report.records.is_empty());
}
