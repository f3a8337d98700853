use headr::head_cli::head_bytes;
use headr::head_cli::head_lines;
use headr::head_cli::header;
use headr::head_cli::HeadCli;
use headr::limit::effective_count;
use headr::lines::split_lines;

fn five_lines() -> Vec<u8> {
    b"L1\nL2\nL3\nL4\nL5\n".to_vec()
}

#[test]
fn n_5_takes_all_five_lines() {
    assert_eq!(head_lines(&five_lines(), 5), b"L1\nL2\nL3\nL4\nL5\n".to_vec());
}

#[test]
fn n_minus_2_drops_last_two_lines() {
    assert_eq!(head_lines(&five_lines(), -2), b"L1\nL2\nL3\n".to_vec());
}

#[test]
fn n_minus_total_or_more_is_empty() {
    assert_eq!(head_lines(&five_lines(), -5), Vec::<u8>::new());
    assert_eq!(head_lines(&five_lines(), -6), Vec::<u8>::new());
}

#[test]
fn line_request_beyond_total_takes_all() {
    assert_eq!(head_lines(&five_lines(), 10), five_lines());
}

#[test]
fn zero_lines_is_empty() {
    assert_eq!(head_lines(&five_lines(), 0), Vec::<u8>::new());
}

#[test]
fn empty_source_gives_empty_line_output() {
    assert_eq!(head_lines(&Vec::new(), 10), Vec::<u8>::new());
}

#[test]
fn unterminated_final_line_gets_one_newline() {
    assert_eq!(head_lines(&b"a\nb".to_vec(), 10), b"a\nb\n".to_vec());
}

#[test]
fn crlf_terminator_is_not_duplicated() {
    assert_eq!(head_lines(&b"a\r\nb\r\n".to_vec(), 10), b"a\nb\n".to_vec());
}

#[test]
fn undecodable_line_is_skipped_but_counted() {
    let content = vec![0xFFu8, 0xFEu8, b'\n', b'x', b'\n'];
    assert_eq!(head_lines(&content, 1), Vec::<u8>::new());
    assert_eq!(head_lines(&content, 2), b"x\n".to_vec());
}

#[test]
fn c_6_takes_all_six_bytes() {
    assert_eq!(head_bytes(&b"abcdef".to_vec(), 6), b"abcdef".to_vec());
}

#[test]
fn c_minus_6_of_six_bytes_is_empty() {
    assert_eq!(head_bytes(&b"abcdef".to_vec(), -6), Vec::<u8>::new());
}

#[test]
fn c_minus_2_drops_last_two_bytes() {
    assert_eq!(head_bytes(&b"abcdef".to_vec(), -2), b"abcd".to_vec());
}

#[test]
fn byte_request_beyond_length_reads_short() {
    assert_eq!(head_bytes(&b"ab".to_vec(), 100), b"ab".to_vec());
}

#[test]
fn effective_count_resolution() {
    assert_eq!(effective_count(5, 3), 3);
    assert_eq!(effective_count(3, 5), 3);
    assert_eq!(effective_count(0, 5), 0);
    assert_eq!(effective_count(-2, 5), 3);
    assert_eq!(effective_count(-5, 5), 0);
    assert_eq!(effective_count(-9, 5), 0);
    assert_eq!(effective_count(i64::MIN, 5), 0);
}

#[test]
fn split_lines_matches_text_reader() {
    assert_eq!(
        split_lines(&b"a\nb\r\nc\r".to_vec()),
        vec![b"a".to_vec(), b"b".to_vec(), b"c\r".to_vec()]
    );
    assert_eq!(split_lines(&Vec::new()), Vec::<Vec<u8>>::new());
    assert_eq!(split_lines(&b"\n\n".to_vec()), vec![Vec::<u8>::new(), Vec::<u8>::new()]);
}

#[test]
fn header_line_format() {
    assert_eq!(header(&b"f".to_vec(), true), b"==> f <==\n".to_vec());
    assert_eq!(header(&b"f".to_vec(), false), b"\n==> f <==\n".to_vec());
}

#[test]
fn run_single_source_has_no_header() {
    let cli = HeadCli {
        number_of_lines: 10,
        number_of_bytes: None,
        files: vec![b"one".to_vec()],
    };
    assert_eq!(cli.run(&vec![b"hello\n".to_vec()]), b"hello\n".to_vec());
}

#[test]
fn run_without_files_reads_one_unnamed_source() {
    let cli = HeadCli { number_of_lines: 2, number_of_bytes: None, files: vec![] };
    assert_eq!(cli.run(&vec![b"x\ny\nz\n".to_vec()]), b"x\ny\n".to_vec());
}

#[test]
fn run_two_sources_has_one_separator_before_second_header() {
    let cli = HeadCli {
        number_of_lines: 10,
        number_of_bytes: None,
        files: vec![b"a.txt".to_vec(), b"b.txt".to_vec()],
    };
    let out = cli.run(&vec![b"1\n".to_vec(), b"2\n".to_vec()]);
    assert_eq!(out, b"==> a.txt <==\n1\n\n==> b.txt <==\n2\n".to_vec());
    let text = String::from_utf8(out).unwrap();
    assert_eq!(text.matches("\n\n").count(), 1);
    assert!(!text.starts_with('\n'));
}

#[test]
fn run_twice_gives_identical_output() {
    let cli = HeadCli { number_of_lines: 3, number_of_bytes: None, files: vec![b"f".to_vec()] };
    let sources = vec![b"a\nb\nc\nd\n".to_vec()];
    assert_eq!(cli.run(&sources), cli.run(&sources));
}

#[test]
fn byte_mode_wins_over_line_mode() {
    let cli = HeadCli { number_of_lines: 1, number_of_bytes: Some(4), files: vec![] };
    assert_eq!(cli.run(&vec![b"abc\ndef\n".to_vec()]), b"abc\n".to_vec());
}

#[test]
fn most_negative_byte_limit_drops_last_128_bytes() {
    let cli = HeadCli { number_of_lines: 10, number_of_bytes: Some(-128), files: vec![] };
    assert_eq!(cli.run(&vec![vec![b'q'; 130]]), vec![b'q'; 2]);
}
