use tpch_engine::buffer_pool::DiskRequest;
use tpch_engine::disk_manager::{read_line_as_u64, setup_disk_io, setup_monitor_io, DiskError, DiskManager};
use tpch_engine::text::{
    i64_to_str_with_pipe, parse_i64_within, parse_trimmed_u64, parse_trimmed_usize, parse_u64, split_fields,
    split_whitespace, str_eq, u64_to_decimal,
};

#[test]
fn decimal_digits_of_numbers() {
    assert_eq!(u64_to_decimal(0), b"0".to_vec());
    assert_eq!(u64_to_decimal(7), b"7".to_vec());
    assert_eq!(u64_to_decimal(1234567890), b"1234567890".to_vec());
    assert_eq!(u64_to_decimal(u64::MAX), b"18446744073709551615".to_vec());
}

#[test]
fn i64_to_str_with_pipe_formats_signed_values() {
    assert_eq!(i64_to_str_with_pipe(0), b"0|".to_vec());
    assert_eq!(i64_to_str_with_pipe(42), b"42|".to_vec());
    assert_eq!(i64_to_str_with_pipe(-42), b"-42|".to_vec());
    assert_eq!(i64_to_str_with_pipe(i64::MIN), b"-9223372036854775808|".to_vec());
    assert_eq!(i64_to_str_with_pipe(i64::MAX), b"9223372036854775807|".to_vec());
}

#[test]
fn trimmed_lines_parse_like_std() {
    for line in ["42\n", "  42  ", "\t+42\r\n", "0", "18446744073709551615\n", "", "  ", "-1", "4 2", "42x", "+", "18446744073709551616", "\u{a0}7\u{3000}"] {
        assert_eq!(parse_trimmed_u64(line), line.trim().parse::<u64>().ok(), "line {:?}", line);
        assert_eq!(parse_trimmed_usize(line), line.trim().parse::<usize>().ok(), "line {:?}", line);
    }
}

#[test]
fn whole_strings_parse_like_std() {
    for s in ["12", "+12", " 12", "12 ", "", "00012", "99999999999999999999"] {
        assert_eq!(parse_u64(s), s.parse::<u64>().ok(), "{:?}", s);
    }
    for s in ["-2147483648", "2147483647", "2147483648", "-2147483649", "-0", "+5", "-", "1_0", "abc"] {
        assert_eq!(parse_i64_within(s, i32::MIN as i64, i32::MAX as i64), s.parse::<i32>().ok().map(|v| v as i64), "{:?}", s);
    }
    for s in ["-9223372036854775808", "9223372036854775807", "9223372036854775808", "-9223372036854775809"] {
        assert_eq!(parse_i64_within(s, i64::MIN, i64::MAX), s.parse::<i64>().ok(), "{:?}", s);
    }
}

#[test]
fn formatted_numbers_read_back() {
    for n in [0u64, 9, 10, 4096, 123456789, u64::MAX] {
        let mut line = u64_to_decimal(n);
        line.push(b'\n');
        assert_eq!(parse_trimmed_u64(std::str::from_utf8(&line).unwrap()), Some(n));
    }
}

#[test]
fn words_split_on_unicode_white_space() {
    let line = "  get\tblock \u{2003}12  3\n";
    let ws: Vec<String> = split_whitespace(line);
    let expected: Vec<String> = line.split_whitespace().map(String::from).collect();
    assert_eq!(ws, expected);
    assert_eq!(split_whitespace("   ").len(), 0);
}

#[test]
fn fields_split_on_bars() {
    for line in ["a|b|c|\n", "a||c", "  x|y||  ", "", "|", "one"] {
        let expected: Vec<String> = line.trim().trim_end_matches('|').split('|').map(String::from).collect();
        assert_eq!(split_fields(line), expected, "{:?}", line);
    }
}

#[test]
fn strings_compare_by_characters() {
    assert!(str_eq("exit", "exit"));
    assert!(!str_eq("exit", "exi"));
    assert!(!str_eq("Exit", "exit"));
}

#[test]
fn disk_manager_reads_the_block_size() {
    assert_eq!(DiskManager::block_size_request(), b"get block-size\n".to_vec());
    let dm = DiskManager::new("4096\n").unwrap();
    assert_eq!(dm.block_size, 4096);
    assert_eq!(DiskManager::new("abc\n"), Err(DiskError::BadNumber));
}

#[test]
fn disk_manager_builds_requests() {
    let dm = DiskManager { block_size: 4096 };
    assert_eq!(dm.get_anon_start_block(), b"get anon-start-block\n".to_vec());
    assert_eq!(dm.get_file_start_block("lineitem"), b"get file start-block lineitem\n".to_vec());
    assert_eq!(dm.get_file_num_blocks("orders"), b"get file num-blocks orders\n".to_vec());
    let (cmd, bytes) = dm.read_blocks(17, 3);
    assert_eq!(cmd, b"get block 17 3\n".to_vec());
    assert_eq!(bytes, 3 * 4096);
}

#[test]
fn disk_manager_frames_writes() {
    let dm = DiskManager { block_size: 4 };
    let msg = dm.write_blocks(9, &[1, 2, 3, 4, 5, 6, 7, 8]);
    let mut expected = b"put block 9 2\n".to_vec();
    expected.extend_from_slice(&[1, 2, 3, 4, 5, 6, 7, 8]);
    assert_eq!(msg, expected);
}

#[test]
fn disk_manager_answers_pool_requests() {
    let dm = DiskManager { block_size: 100 };
    let (c, n) = dm.request_bytes(&DiskRequest::ReadBlocks { start: 5, count: 2 });
    assert_eq!(c, b"get block 5 2\n".to_vec());
    assert_eq!(n, Some(200));
    let (c, n) = dm.request_bytes(&DiskRequest::FileStartBlock("part".to_string()));
    assert_eq!(c, b"get file start-block part\n".to_vec());
    assert_eq!(n, None);
}

#[test]
fn reply_lines_are_numbers() {
    assert_eq!(read_line_as_u64(" 12 \n"), Ok(12));
    assert_eq!(read_line_as_u64("\n"), Err(DiskError::BadNumber));
}

#[test]
fn pipes_use_fixed_descriptors() {
    assert_eq!(setup_disk_io(), (3, 4));
    assert_eq!(setup_monitor_io(), (5, 6));
}
