use hexdump::ascii::format_ascii;
use hexdump::config::{ConfigError, FormatConfig};
use hexdump::dump::{chunk_take, format_line, render};
use hexdump::hex::format_hex;

fn letters(n: u8) -> Vec<u8> {
    (0..n).map(|i| b'A' + i).collect()
}

fn config(cols: usize, split: usize, upper_case: bool, len: Option<usize>) -> FormatConfig {
    FormatConfig::new(cols, split, upper_case, len).unwrap()
}

#[test]
fn hex_byte_is_two_zero_padded_digits() {
    assert_eq!(format_hex(&[10], 1, 0, false), "0a");
    assert_eq!(format_hex(&[10], 1, 0, true), "0A");
    assert_eq!(format_hex(&[0, 255, 0xab], 3, 0, false), "00ffab");
}

#[test]
fn hex_groups_every_split_bytes() {
    assert_eq!(format_hex(&[0, 1, 2, 3, 4], 5, 2, false), "0001 0203 04");
    assert_eq!(format_hex(&[0, 1, 2, 3, 4], 5, 1, false), "00 01 02 03 04");
    assert_eq!(format_hex(&[0, 1, 2, 3, 4], 5, 5, false), "0001020304");
    assert_eq!(format_hex(&[0, 1, 2, 3, 4], 5, 9, false), "0001020304");
}

#[test]
fn hex_digit_and_separator_counts() {
    for len in 1..=40usize {
        let chunk: Vec<u8> = (0..len).map(|i| (i * 37) as u8).collect();
        for split in 0..=len {
            let text = format_hex(&chunk, len, split, false);
            let spaces = text.chars().filter(|c| *c == ' ').count();
            let digits = text.chars().filter(|c| c.is_ascii_hexdigit()).count();
            let expected = if split == 0 { 0 } else { (len + split - 1) / split - 1 };
            assert_eq!(digits, 2 * len);
            assert_eq!(spaces, expected);
            assert_eq!(text.len(), 2 * len + expected);
        }
    }
    let full: Vec<u8> = (0..=255u8).collect();
    let text = format_hex(&full, 256, 16, true);
    assert_eq!(text.len(), 512 + 15);
}

#[test]
fn hex_upper_case_is_lower_case_upper_cased() {
    let chunk: Vec<u8> = vec![0xab, 0xcd, 0xef, 0x01, 0x9a, 0xff];
    for split in 0..4 {
        let lower = format_hex(&chunk, 8, split, false);
        let upper = format_hex(&chunk, 8, split, true);
        assert_eq!(upper, lower.to_ascii_uppercase());
    }
    assert_eq!(format_hex(&chunk, 6, 2, true), "ABCD EF01 9AFF");
}

#[test]
fn hex_short_chunk_is_filled_to_width() {
    assert_eq!(format_hex(&[0xab, 0xcd], 4, 0, false), "abcd....");
    assert_eq!(format_hex(&[0xab, 0xcd], 4, 2, false), "abcd ....");
    assert_eq!(format_hex(&[0xab], 4, 1, false), "ab .. .. ..");
    assert_eq!(format_hex(&[], 3, 0, false), "......");
    let text = format_hex(&[1, 2, 3], 16, 0, false);
    assert_eq!(text.chars().filter(|c| *c == '.').count(), 2 * 13);
    assert!(text.starts_with("010203"));
}

#[test]
fn hex_chunk_longer_than_width_is_not_filled() {
    assert_eq!(format_hex(&[1, 2, 3], 2, 0, false), "010203");
}

#[test]
fn formatting_twice_gives_the_same_text() {
    let chunk = vec![0x41, 0x0a, 0x42, 0xfe];
    assert_eq!(format_hex(&chunk, 8, 2, true), format_hex(&chunk, 8, 2, true));
    assert_eq!(format_ascii(&chunk, 2), format_ascii(&chunk, 2));
}

#[test]
fn ascii_bytes_are_cast_to_characters() {
    assert_eq!(format_ascii(b"Hello, world", 0), "Hello, world");
    assert_eq!(format_ascii(&[0x09, 0x7f], 4), "\u{9}\u{7f}");
    assert_eq!(format_ascii(&[0xe9], 0), "\u{e9}");
    assert_eq!(format_ascii(&[], 3), "");
}

#[test]
fn ascii_newline_without_grouping() {
    assert_eq!(format_ascii(&[0x41, 0x0a, 0x42], 0), "A\n...... | B");
}

#[test]
fn ascii_newline_with_grouping() {
    assert_eq!(format_ascii(&[0x41, 0x0a, 0x42], 1), "A\n.. .. .. | B");
    assert_eq!(format_ascii(&[0x41, 0x0a, 0x42, 0x43], 2), "A\n.... .... | BC");
    assert_eq!(format_ascii(&[0x41, 0x0a, 0x42, 0x43, 0x44], 2), "A\n.... .... | BCD");
    assert_eq!(format_ascii(&[0x0a], 4), "\n | ");
}

#[test]
fn ascii_each_newline_breaks_the_line_once() {
    let chunk = vec![0x0a, 0x41, 0x0a, 0x0a];
    let text = format_ascii(&chunk, 0);
    assert_eq!(text.matches('\n').count(), 3);
    assert_eq!(text, "\n........ | A\n........ | \n........ | ");
}

#[test]
fn newline_fill_matches_hex_width() {
    let chunk = vec![0x30, 0x0a, 0x31, 0x32, 0x33, 0x34];
    for split in [0usize, 1, 2, 3, 6] {
        let hex = format_hex(&chunk, 6, split, false);
        let ascii = format_ascii(&chunk, split);
        let fill = ascii.split('\n').nth(1).unwrap().split(" | ").next().unwrap();
        assert_eq!(fill.len(), hex.len());
    }
}

#[test]
fn line_joins_columns() {
    let cfg = config(4, 0, false, None);
    assert_eq!(format_line(b"AB", &cfg), "4142.... | AB\n");
    let cfg = config(4, 2, true, None);
    assert_eq!(format_line(&[0xab, 0x43, 0x44, 0x45], &cfg), "AB43 4445 | \u{ab}CDE\n");
}

#[test]
fn twenty_bytes_at_sixteen_columns() {
    let data = letters(20);
    let cfg = config(16, 0, false, None);
    let out = render(&data, &cfg);
    let lines: Vec<&str> = out.lines().collect();
    assert_eq!(lines.len(), 2);
    assert_eq!(lines[0], "4142434445464748494a4b4c4d4e4f50 | ABCDEFGHIJKLMNOP");
    let dots = ".".repeat(24);
    assert_eq!(lines[1], format!("51525354{} | QRST", dots));
    assert!(out.ends_with('\n'));
}

#[test]
fn newline_input_at_three_columns() {
    let cfg = config(3, 0, false, None);
    let out = render(&[0x41, 0x0a, 0x42], &cfg);
    assert_eq!(out, "410a42 | A\n...... | B\n");
}

#[test]
fn empty_input_gives_no_lines() {
    let cfg = config(16, 0, false, None);
    assert_eq!(render(&[], &cfg), "");
}

#[test]
fn length_limit_cuts_inside_a_chunk() {
    let data = letters(20);
    let cfg = config(16, 0, false, Some(5));
    let out = render(&data, &cfg);
    assert_eq!(out, format!("4142434445{} | ABCDE\n", ".".repeat(22)));
}

#[test]
fn length_limit_on_a_chunk_boundary() {
    let data = letters(20);
    let cfg = config(4, 0, false, Some(8));
    assert_eq!(render(&data, &cfg), "41424344 | ABCD\n45464748 | EFGH\n");
    let cfg = config(4, 0, false, Some(0));
    assert_eq!(render(&data, &cfg), "");
    let cfg = config(4, 0, false, Some(100));
    assert_eq!(render(&data, &cfg).lines().count(), 5);
}

#[test]
fn render_with_grouping_and_upper_case() {
    let data = vec![0xde, 0xad, 0xbe, 0xef, 0x01];
    let cfg = config(4, 2, true, None);
    assert_eq!(
        render(&data, &cfg),
        "DEAD BEEF | \u{de}\u{ad}\u{be}\u{ef}\n01.. .... | \u{1}\n"
    );
}

#[test]
fn config_rejects_column_count_out_of_range() {
    assert_eq!(FormatConfig::new(0, 0, false, None), Err(ConfigError::ColsOutOfRange));
    assert_eq!(FormatConfig::new(257, 0, false, None), Err(ConfigError::ColsOutOfRange));
    let cfg = FormatConfig::new(256, 3, true, Some(7)).unwrap();
    assert_eq!(cfg.cols, 256);
    assert_eq!(cfg.split, 3);
    assert!(cfg.upper_case);
    assert_eq!(cfg.len, Some(7));
    assert!(FormatConfig::new(1, 0, false, None).is_ok());
}

#[test]
fn take_follows_the_limit() {
    let open = config(16, 0, false, None);
    assert_eq!(chunk_take(&open, 1000, 16), 16);
    let cfg = config(16, 0, false, Some(5));
    assert_eq!(chunk_take(&cfg, 0, 16), 5);
    assert_eq!(chunk_take(&cfg, 0, 3), 3);
    assert_eq!(chunk_take(&cfg, 3, 16), 2);
    assert_eq!(chunk_take(&cfg, 5, 16), 0);
    assert_eq!(chunk_take(&cfg, 9, 16), 0);
}
