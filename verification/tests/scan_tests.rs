use ft::buffer::Buffer;
use ft::scan::scan_all;
use ft::scan::ScanError;
use ft::scan::Scanner;

fn lens_of(input: &[u8], cap: usize, min_len: u64) -> (Vec<u32>, u64) {
    scan_all(input, cap, min_len).expect("scan failed")
}

#[test]
fn two_fasta_records() {
    let (lens, total) = lens_of(b">r1\nACGT\n>r2\nACGTACGT\n", 64, 0);
    assert_eq!(lens, vec![4, 8]);
    assert_eq!(total, 12);
}

#[test]
fn min_length_is_strict() {
    let (lens, total) = lens_of(b">r1\nACGT\n>r2\nACGTACGT\n", 64, 4);
    assert_eq!(lens, vec![8]);
    assert_eq!(total, 8);
}

#[test]
fn min_length_boundary() {
    // A record of exactly the minimum length is excluded; one byte less
    // in the filter lets it through.
    let (lens, _) = lens_of(b">r1\nACGT\n", 64, 4);
    assert_eq!(lens, Vec::<u32>::new());
    let (lens, total) = lens_of(b">r1\nACGT\n", 64, 3);
    assert_eq!(lens, vec![4]);
    assert_eq!(total, 4);
}

#[test]
fn fastq_record_with_quality() {
    let (lens, total) = lens_of(b"@r1\nACGT\n+\n!!!!\n", 64, 0);
    assert_eq!(lens, vec![4]);
    assert_eq!(total, 4);
}

#[test]
fn chunking_never_changes_results() {
    let input: &[u8] = b">r1\nACGT\n>r2\nACGTACGT\n@r3\nACG\n+\n!!!\n";
    let big = lens_of(input, 4096, 0);
    for cap in 1..12usize {
        assert_eq!(lens_of(input, cap, 0), big);
    }
}

#[test]
fn header_split_at_chunk_boundary() {
    // Capacity 2 forces the header line itself to span chunks.
    let input: &[u8] = b">read_one\nACGTAC\n";
    assert_eq!(lens_of(input, 2, 0), lens_of(input, 4096, 0));
}

#[test]
fn truncated_quality_is_fatal() {
    let r = scan_all(b"@r1\nACGT\n+\n!!", 64, 0);
    assert_eq!(r, Err(ScanError::TruncatedRecord));
}

#[test]
fn malformed_start_is_fatal() {
    let r = scan_all(b"xACGT\n", 64, 0);
    assert_eq!(r, Err(ScanError::MalformedRecordStart));
}

#[test]
fn multi_line_sequence() {
    let (lens, total) = lens_of(b">a\nAC\nGT\n>b\nA\n", 64, 0);
    assert_eq!(lens, vec![4, 1]);
    assert_eq!(total, 5);
}

#[test]
fn empty_input_yields_nothing() {
    let (lens, total) = lens_of(b"", 16, 0);
    assert_eq!(lens, Vec::<u32>::new());
    assert_eq!(total, 0);
}

#[test]
fn final_record_without_terminator() {
    let (lens, total) = lens_of(b">r1\nACGT", 64, 0);
    assert_eq!(lens, vec![4]);
    assert_eq!(total, 4);
}

#[test]
fn lengths_accumulate_across_inputs() {
    let mut sc = Scanner::new(0);
    let mut buf = Buffer::new(64);
    buf.compact();
    buf.append_from(b">r1\nACGT\n", 0, 9);
    sc.scan_chunk(&mut buf).expect("scan failed");
    sc.finish_input(&mut buf).expect("flush failed");
    buf.compact();
    buf.append_from(b"@r2\nAC\n+\n!!\n", 0, 12);
    sc.scan_chunk(&mut buf).expect("scan failed");
    sc.finish_input(&mut buf).expect("flush failed");
    let (lens, total) = sc.results();
    assert_eq!(lens, vec![4, 2]);
    assert_eq!(total, 6);
}

#[test]
fn record_never_spans_inputs() {
    // An input that ends inside a quality region is a truncation even if
    // more input would follow.
    let mut sc = Scanner::new(0);
    let mut buf = Buffer::new(64);
    buf.compact();
    buf.append_from(b"@r1\nACGT\n+\n!!", 0, 13);
    sc.scan_chunk(&mut buf).expect("scan failed");
    assert_eq!(sc.finish_input(&mut buf), Err(ScanError::TruncatedRecord));
}

#[test]
fn buffer_primitives() {
    let mut buf = Buffer::new(8);
    assert!(buf.is_drained());
    buf.append_from(b"ab\ncdef", 0, 7);
    assert_eq!(buf.next_byte(false), Some(b'a'));
    assert_eq!(buf.next_byte(true), Some(b'a'));
    assert_eq!(buf.consume_next_line(), Some(1));
    // no terminator left: the partial line stays put
    assert_eq!(buf.consume_next_line(), None);
    assert_eq!(buf.skip_bytes(2), 2);
    buf.compact();
    assert_eq!(buf.free_space(), 6);
    assert_eq!(buf.skip_bytes(9), 2);
    assert!(buf.is_drained());
}

#[test]
fn skip_lines_stops_at_partial_line() {
    let mut buf = Buffer::new(16);
    buf.append_from(b"a\nbb\nccc", 0, 8);
    // only two complete lines are present
    assert_eq!(buf.skip_lines(5), 2);
    assert_eq!(buf.next_byte(false), Some(b'c'));
    assert_eq!(buf.skip_lines(0), 0);
    let mut buf2 = Buffer::new(16);
    buf2.append_from(b"a\nbb\nccc\n", 0, 9);
    assert_eq!(buf2.skip_lines(2), 2);
    assert_eq!(buf2.next_byte(true), Some(b'c'));
}
