use hibp_downloader::config::{default_multiplier, default_sort, get_config, Commands};
use hibp_downloader::num::{format_decimal, parse_decimal};
use hibp_downloader::row::{MyStruct, RowError};
use hibp_downloader::sort::{hash_size_of, plan_sort, run_sort, SortError, SortPlan};
use std::cmp::Ordering;

const SHA1_A: &str = "abcabcabcabcabcabcabcabcabcabcabcabcabca";
const SHA1_D: &str = "defdefdefdefdefdefdefdefdefdefdefdefdefd";
const NTLM: &str = "0123456789ABCDEF0123456789ABCDEF";

fn row(hash: &str, count: u32) -> MyStruct {
    MyStruct { count, hash: hash.as_bytes().to_vec() }
}

#[test]
fn record_is_length_hash_and_count() {
    let mut out: Vec<u8> = vec![9];
    row("AB", 0x0403_0201).encode(&mut out);
    assert_eq!(out, vec![9, 2, b'A', b'B', 1, 2, 3, 4]);
}

#[test]
fn decoding_gives_the_encoded_row_back() {
    for (hash, count) in [(SHA1_A, 10u32), (NTLM, 0), (SHA1_D, u32::MAX), ("", 7)] {
        let mut bytes: Vec<u8> = Vec::new();
        row(hash, count).encode(&mut bytes);
        assert_eq!(bytes.len(), hash.len() + 5);
        let (back, used) = MyStruct::decode(&bytes).unwrap();
        assert_eq!(back.hash, hash.as_bytes().to_vec());
        assert_eq!(back.count, count);
        assert_eq!(used, bytes.len());
    }
}

#[test]
fn decoding_reads_rows_one_after_the_other() {
    let mut bytes: Vec<u8> = Vec::new();
    row(SHA1_A, 300).encode(&mut bytes);
    row(NTLM, 70_000).encode(&mut bytes);
    let (first, used) = MyStruct::decode(&bytes).unwrap();
    assert_eq!((first.count, used), (300, 45));
    let (second, used) = MyStruct::decode(&bytes[used..]).unwrap();
    assert_eq!((second.count, used), (70_000, 37));
    assert_eq!(second.hash, NTLM.as_bytes().to_vec());
}

#[test]
fn decoding_refuses_what_is_no_record() {
    assert!(MyStruct::decode(&[]).is_none());
    assert!(MyStruct::decode(&[2, b'A']).is_none());
    assert!(MyStruct::decode(&[2, b'A', b'B', 1, 2, 3]).is_none());
    assert!(MyStruct::decode(&[1, 0xFF, 1, 0, 0, 0]).is_none());
    let mut long = vec![41u8];
    long.extend_from_slice(&[b'A'; 45]);
    assert!(MyStruct::decode(&long).is_none());
    let (r, used) = MyStruct::decode(&[1, b'Z', 1, 1, 0, 0, 99]).unwrap();
    assert_eq!((r.hash, r.count, used), (b"Z".to_vec(), 257, 6));
}

#[test]
fn line_is_split_at_the_first_colon() {
    let r = MyStruct::from_str("ABCDEF:42").unwrap();
    assert_eq!((r.hash, r.count), (b"ABCDEF".to_vec(), 42));
    let r = MyStruct::from_str(":+7").unwrap();
    assert_eq!((r.hash, r.count), (b"".to_vec(), 7));
    let r = MyStruct::from_bytes(b"AB:0004294967295").unwrap();
    assert_eq!(r.count, u32::MAX);
}

#[test]
fn bad_lines_are_told_apart() {
    assert_eq!(MyStruct::from_str("ABCDEF").unwrap_err(), RowError::MissingColon);
    assert_eq!(MyStruct::from_str("").unwrap_err(), RowError::MissingColon);
    assert_eq!(MyStruct::from_str("AB:").unwrap_err(), RowError::BadCount);
    assert_eq!(MyStruct::from_str("AB:12x").unwrap_err(), RowError::BadCount);
    assert_eq!(MyStruct::from_str("AB:1:2").unwrap_err(), RowError::BadCount);
    assert_eq!(MyStruct::from_str("AB:-1").unwrap_err(), RowError::BadCount);
    assert_eq!(MyStruct::from_str("AB: 1").unwrap_err(), RowError::BadCount);
    assert_eq!(MyStruct::from_str("AB:4294967296").unwrap_err(), RowError::BadCount);
}

#[test]
fn parsing_agrees_with_the_standard_parser() {
    for text in ["0", "+0", "007", "+", "", "4294967295", "4294967296", "99999999999999999999", "1a", "++1", "-0"] {
        let expected = text.parse::<u32>().ok().map(u64::from);
        assert_eq!(parse_decimal(text.as_bytes(), u32::MAX as u64), expected);
    }
    assert_eq!(parse_decimal(b"18446744073709551615", u64::MAX), Some(u64::MAX));
    assert_eq!(parse_decimal(b"18446744073709551616", u64::MAX), None);
}

#[test]
fn numbers_are_written_without_leading_zeros() {
    assert_eq!(format_decimal(0), b"0".to_vec());
    assert_eq!(format_decimal(10), b"10".to_vec());
    assert_eq!(format_decimal(4_294_967_295), b"4294967295".to_vec());
    assert_eq!(format_decimal(u64::MAX), b"18446744073709551615".to_vec());
}

#[test]
fn line_of_a_row_parses_back() {
    let line = row(SHA1_A, 1234).to_line();
    assert_eq!(line, format!("{SHA1_A}:1234\n").into_bytes());
    let back = MyStruct::from_bytes(&line[..line.len() - 1]).unwrap();
    assert_eq!((back.hash, back.count), (SHA1_A.as_bytes().to_vec(), 1234));
}

#[test]
fn larger_count_comes_first() {
    assert_eq!(row("A", 20).partial_cmp(&row("B", 10)), Some(Ordering::Less));
    assert_eq!(row("A", 10).partial_cmp(&row("B", 20)), Some(Ordering::Greater));
    assert_eq!(row("A", 10).partial_cmp(&row("B", 10)), Some(Ordering::Equal));
    assert!(row("A", 20) < row("B", 10));
    assert!(row("A", 10) == row("B", 10));
    assert!(row("A", 10) != row("A", 11));
}

fn sort_text(input: &str) -> String {
    let mut rows: Vec<MyStruct> =
        input.lines().map(|l| MyStruct::from_str(l).unwrap()).collect();
    rows.sort_by(|a, b| a.partial_cmp(b).unwrap());
    let mut out: Vec<u8> = Vec::new();
    for r in rows {
        let mut record: Vec<u8> = Vec::new();
        r.encode(&mut record);
        let (back, _) = MyStruct::decode(&record).unwrap();
        out.extend_from_slice(&back.to_line());
    }
    String::from_utf8(out).unwrap()
}

#[test]
fn two_rows_come_out_by_descending_count() {
    let input = format!("{SHA1_A}:10\n{SHA1_D}:20\n");
    assert_eq!(run_sort(input.len() as u64, &input.as_bytes()[..60]).unwrap().hash_size, 40);
    assert_eq!(sort_text(&input), format!("{SHA1_D}:20\n{SHA1_A}:10\n"));
}

#[test]
fn sorted_rows_stay_as_they_are() {
    let input = format!("{SHA1_D}:20\n{SHA1_A}:10\n{NTLM}:3\n");
    assert_eq!(sort_text(&input), input);
    assert_eq!(sort_text(&sort_text(&input)), input);
}

#[test]
fn input_under_sixty_bytes_is_too_small() {
    let text = format!("{SHA1_A}:10\n{SHA1_D}:20\n");
    assert_eq!(run_sort(59, &text.as_bytes()[..59]), Err(SortError::FileTooSmall));
    assert_eq!(run_sort(0, b""), Err(SortError::FileTooSmall));
    assert!(run_sort(60, &text.as_bytes()[..60]).is_ok());
}

#[test]
fn sixty_bytes_with_a_malformed_line_fail_to_parse() {
    let no_colon = [b'A'; 60];
    assert_eq!(run_sort(60, &no_colon), Err(SortError::NoColon));
    let mut colon_on_second_line = vec![b'A'; 30];
    colon_on_second_line.push(b'\n');
    colon_on_second_line.extend_from_slice(format!("{NTLM}:1").as_bytes());
    assert_eq!(run_sort(60, &colon_on_second_line[..60]), Err(SortError::NoColon));
    let line = String::from_utf8(no_colon.to_vec()).unwrap();
    assert_eq!(MyStruct::from_str(&line).unwrap_err(), RowError::MissingColon);
    let bad_count = format!("{SHA1_A}:1O\n");
    assert_eq!(MyStruct::from_str(bad_count.trim_end()).unwrap_err(), RowError::BadCount);
}

#[test]
fn hash_length_is_thirty_two_or_forty() {
    assert_eq!(hash_size_of(format!("{NTLM}:5\n{NTLM}:4\n").as_bytes()), Ok(32));
    assert_eq!(hash_size_of(format!("{SHA1_A}:5").as_bytes()), Ok(40));
    assert_eq!(hash_size_of(b"ABCDEF:5\n"), Err(SortError::BadHashLength));
    assert_eq!(hash_size_of(b":5\n"), Err(SortError::BadHashLength));
    assert_eq!(hash_size_of(b""), Err(SortError::NoColon));
}

#[test]
fn head_is_read_as_text_the_lossy_way() {
    // Thirty bytes that are no UTF-8 become thirty replacement characters of
    // three bytes each, so the hash is neither 32 nor 40 long.
    let mut head = vec![0xFFu8; 30];
    head.extend_from_slice(b"AB:1\n");
    assert_eq!(run_sort(100, &head), Err(SortError::BadHashLength));
    let mut head = vec![0xFFu8; 10];
    head.extend_from_slice(b"AB:1\n");
    assert_eq!(run_sort(100, &head).unwrap().hash_size, 32);
    assert_eq!(plan_sort(100, &head), Err(SortError::BadHashLength));
}

#[test]
fn plan_estimates_the_rows() {
    let head = format!("{SHA1_A}:10\n");
    assert_eq!(
        run_sort(4700, head.as_bytes()),
        Ok(SortPlan { hash_size: 40, rows_in_file: 100, progress_length: 200 })
    );
    let head = format!("{NTLM}:10\n");
    assert_eq!(
        plan_sort(u64::MAX, head.as_bytes()),
        Ok(SortPlan {
            hash_size: 32,
            rows_in_file: u64::MAX / 39,
            progress_length: u64::MAX / 39 * 2
        })
    );
}

#[test]
fn defaults_keep_the_connections_at_the_ceiling() {
    assert_eq!(default_multiplier(1), 128);
    assert_eq!(default_multiplier(8), 16);
    assert_eq!(default_multiplier(12), 10);
    assert_eq!(default_multiplier(200), 0);
    let c = get_config(8);
    assert!(c.subcommands.is_none());
    assert_eq!((c.workers, c.multiplier, c.ntlm), (8, 16, false));
    assert_eq!(c.output_file, "./hibp_password_hashes.txt");
    let Commands::Sort { input_file, output_file, temp_dir } = default_sort();
    assert_eq!(input_file, "./hibp_password_hashes.txt");
    assert_eq!(output_file, "./hibp_password_hashes_sorted.txt");
    assert_eq!(temp_dir, "./tmp_scratch_disk_for_hibp_sort");
}
