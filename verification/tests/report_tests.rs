use minhash_cluster::report::{
    decimal_digits, representative_file_name, representative_record, sort_rows, summary_file_name,
    summary_table, SummaryRow,
};

fn row(cluster_id: usize, members: usize) -> SummaryRow {
    SummaryRow { cluster_id, members }
}

#[test]
fn decimal_digits_of_small_numbers() {
    assert_eq!(decimal_digits(0), b"0".to_vec());
    assert_eq!(decimal_digits(7), b"7".to_vec());
    assert_eq!(decimal_digits(9), b"9".to_vec());
    assert_eq!(decimal_digits(10), b"10".to_vec());
    assert_eq!(decimal_digits(105), b"105".to_vec());
    assert_eq!(decimal_digits(9990), b"9990".to_vec());
}

#[test]
fn decimal_digits_agree_with_to_string() {
    for n in [0usize, 1, 9, 10, 11, 99, 100, 101, 12345, 1_000_000, usize::MAX - 1, usize::MAX] {
        assert_eq!(decimal_digits(n), n.to_string().into_bytes());
    }
}

#[test]
fn representative_file_is_named_by_cluster_number() {
    assert_eq!(representative_file_name(1), b"cluster_1.fastq".to_vec());
    assert_eq!(representative_file_name(12), b"cluster_12.fastq".to_vec());
    assert_eq!(representative_file_name(300), b"cluster_300.fastq".to_vec());
}

#[test]
fn summary_file_is_named_clusters_tsv() {
    assert_eq!(summary_file_name(), b"clusters.tsv".to_vec());
}

#[test]
fn representative_record_has_no_trailing_line_feed() {
    assert_eq!(representative_record(b"read_1", b"ACGT"), b">read_1\nACGT".to_vec());
    assert_eq!(representative_record(b"", b""), b">\n".to_vec());
    assert_eq!(representative_record(b"r 1 extra", b"NNNN"), b">r 1 extra\nNNNN".to_vec());
}

#[test]
fn summary_sort_scenario() {
    let sorted = sort_rows(&[row(1, 1), row(2, 5), row(3, 3)]);
    assert_eq!(sorted, vec![row(2, 5), row(3, 3), row(1, 1)]);
    let members: Vec<usize> = sorted.iter().map(|r| r.members).collect();
    assert_eq!(members, vec![5, 3, 1]);
}

#[test]
fn sort_rows_keeps_equal_sizes_in_given_order() {
    let sorted = sort_rows(&[row(1, 2), row(2, 3), row(3, 2), row(4, 3), row(5, 2)]);
    assert_eq!(sorted, vec![row(2, 3), row(4, 3), row(1, 2), row(3, 2), row(5, 2)]);
}

#[test]
fn sort_rows_agrees_with_a_stable_reverse_sort() {
    let mut rows = Vec::new();
    let mut state: u64 = 17;
    for id in 1..=200usize {
        state = state.wrapping_mul(6364136223846793005).wrapping_add(1442695040888963407);
        rows.push(row(id, (state >> 60) as usize + 1));
    }
    let mut expected = rows.clone();
    expected.sort_by(|a, b| a.members.cmp(&b.members).reverse());
    assert_eq!(sort_rows(&rows), expected);
}

#[test]
fn sort_rows_of_nothing_and_of_one() {
    assert_eq!(sort_rows(&[]), Vec::<SummaryRow>::new());
    assert_eq!(sort_rows(&[row(1, 4)]), vec![row(1, 4)]);
}

#[test]
fn sort_rows_leaves_sorted_rows_alone() {
    let rows = [row(1, 9), row(2, 9), row(3, 4), row(4, 1)];
    assert_eq!(sort_rows(&rows), rows.to_vec());
}

#[test]
fn summary_table_has_header_and_one_line_per_row() {
    assert_eq!(summary_table(&[]), b"cluster_id\tcluster_members\n".to_vec());
    assert_eq!(
        summary_table(&[row(2, 5), row(3, 3), row(1, 1)]),
        b"cluster_id\tcluster_members\n2\t5\n3\t3\n1\t1\n".to_vec()
    );
    assert_eq!(
        summary_table(&[row(10, 120)]),
        b"cluster_id\tcluster_members\n10\t120\n".to_vec()
    );
}
