//! Dictionary and frequency-list parsing, and the merge that joins them.

use hanzi_srs::cedict::{parse_cedict_line, parse_cedict_entries, strip_parentheses};
use hanzi_srs::subtlex::{
    parse_i32_or_zero, parse_subtlex_character_file, parse_subtlex_lines, parse_subtlex_word_file,
    FrequencyData, FrequencyTable,
};
use hanzi_srs::merge::{merge_cedict_with_frequency, merge_cedict_with_frequency_separated};
use hanzi_srs::timefmt::{format_datetime_minutes, parse_datetime_minutes};

#[test]
fn test_parse_single_character() {
    let line = "一 一 [yi1] /one/1/single/";
    let entry = parse_cedict_line(line).unwrap();

    assert_eq!(entry.traditional, "一");
    assert_eq!(entry.simplified, "一");
    assert_eq!(entry.pinyin, "yi1");
    assert_eq!(entry.definitions.len(), 3);
    assert_eq!(entry.definitions[0], "one");
    assert!(!entry.is_word);
}

#[test]
fn test_parse_word() {
    let line = "漢字 汉字 [han4 zi4] /Chinese character/";
    let entry = parse_cedict_line(line).unwrap();

    assert_eq!(entry.simplified, "汉字");
    assert_eq!(entry.pinyin, "han4 zi4");
    assert!(entry.is_word);
}

#[test]
fn test_parse_invalid_line() {
    let line = "Invalid line without proper format";
    assert!(parse_cedict_line(line).is_none());
}

#[test]
fn definitions_come_back_complete_and_in_order() {
    let entry = parse_cedict_line("一 一 [yi1] / one / 1 //single/").unwrap();
    // Every non-empty raw segment, in order, trimmed; the empty segment
    // between the doubled slashes is dropped.
    assert_eq!(entry.definitions, vec!["one", "1", "single"]);
    let spaced = parse_cedict_line("口 口 [kou3] /mouth/ /gate/").unwrap();
    // A segment of only spaces is non-empty raw text and trims to "".
    assert_eq!(spaced.definitions, vec!["mouth", "", "gate"]);
}

#[test]
fn parse_skips_comments_and_bad_lines() {
    let lines = vec![
        "# CC-CEDICT comment".to_string(),
        "".to_string(),
        "   ".to_string(),
        "一 一 [yi1] /one/".to_string(),
        "not a real line".to_string(),
        "中 中 [zhong1] /middle/center/".to_string(),
    ];
    let entries = parse_cedict_entries(&lines);
    assert_eq!(entries.len(), 2);
    assert_eq!(entries[0].simplified, "一");
    assert_eq!(entries[1].definitions.len(), 2);
}

#[test]
fn strip_parentheses_drops_nested_and_fullwidth() {
    assert_eq!(strip_parentheses("one (single) thing"), "one  thing");
    assert_eq!(strip_parentheses("a (b (c) d) e"), "a  e");
    assert_eq!(strip_parentheses("x （full width） y"), "x  y");
    assert_eq!(strip_parentheses("  padded  "), "padded");
    assert_eq!(strip_parentheses(") stray ("), "stray");
}

#[test]
fn test_frequency_data_creation() {
    let data = FrequencyData {
        item: "的".to_string(),
        frequency_rank: 1,
        count: 1000000,
        is_word: false,
    };

    assert_eq!(data.item, "的");
    assert_eq!(data.frequency_rank, 1);
    assert!(!data.is_word);
}

#[test]
fn test_frequency_data_word() {
    let data = FrequencyData {
        item: "中国".to_string(),
        frequency_rank: 10,
        count: 50000,
        is_word: true,
    };

    assert_eq!(data.item, "中国");
    assert!(data.is_word);
}

#[test]
fn parse_subtlex_rows_rank_and_dedup() {
    let lines = vec![
        "Total character count: 46,841,097".to_string(),
        "Context number: 6,243".to_string(),
        "Character\tCount".to_string(),
        "的\t1000000".to_string(),
        "".to_string(),
        "一\t500000".to_string(),
        "nocount-line-without-tab".to_string(),
        "的\t999".to_string(),
        "\t7".to_string(),
    ];
    let table = parse_subtlex_lines(&lines, false);
    // "的" was replaced by its later row; the blank item was dropped.
    assert_eq!(table.entries.len(), 2);
    assert_eq!(table.lookup_rank("一"), Some(2));
    assert_eq!(table.lookup_rank("的"), Some(3));
    assert_eq!(table.lookup_rank("不"), None);
    let idx = table.find("的").unwrap();
    assert_eq!(table.entries[idx].count, 999);
    assert!(!table.entries[idx].is_word);
}

#[test]
fn parse_subtlex_decodes_gbk_bytes() {
    // "的" in GBK is 0xB5 0xC4; headers then one row "的\t9".
    let mut bytes: Vec<u8> = Vec::new();
    bytes.extend_from_slice(b"h1\nh2\nh3\n");
    bytes.extend_from_slice(&[0xB5, 0xC4]);
    bytes.extend_from_slice(b"\t9\n");
    let table = parse_subtlex_character_file(&bytes);
    assert_eq!(table.entries.len(), 1);
    assert_eq!(table.lookup_rank("的"), Some(1));
    assert_eq!(table.entries[0].count, 9);

    let words = parse_subtlex_word_file(b"h\nh\nh\nabc\t4\n");
    assert_eq!(words.entries.len(), 1);
    assert!(words.entries[0].is_word);
}

#[test]
fn parse_i32_handles_malformed_and_overflow() {
    assert_eq!(parse_i32_or_zero("12345"), 12345);
    assert_eq!(parse_i32_or_zero("-60"), -60);
    assert_eq!(parse_i32_or_zero("2147483647"), 2147483647);
    assert_eq!(parse_i32_or_zero("-2147483648"), -2147483648);
    assert_eq!(parse_i32_or_zero("2147483648"), 0);
    assert_eq!(parse_i32_or_zero("12a"), 0);
    assert_eq!(parse_i32_or_zero(""), 0);
    assert_eq!(parse_i32_or_zero("-"), 0);
}

fn table_of(rows: &[(&str, i32, bool)]) -> FrequencyTable {
    let mut entries = Vec::new();
    for (item, rank, is_word) in rows {
        entries.push(FrequencyData {
            item: item.to_string(),
            frequency_rank: *rank,
            count: 1,
            is_word: *is_word,
        });
    }
    FrequencyTable { entries }
}

#[test]
fn merge_attaches_ranks_and_leaves_unknown_none() {
    let lines = vec![
        "一 一 [yi1] /one/".to_string(),
        "中 中 [zhong1] /middle/".to_string(),
    ];
    let entries = parse_cedict_entries(&lines);
    let table = table_of(&[("一", 2, false)]);
    let merged = merge_cedict_with_frequency(entries, &table);
    assert_eq!(merged.len(), 2);
    assert_eq!(merged[0].frequency_rank, Some(2));
    assert_eq!(merged[1].frequency_rank, None);
}

#[test]
fn merge_separated_uses_per_kind_tables() {
    let lines = vec![
        "一 一 [yi1] /one/".to_string(),
        "中國 中国 [zhong1 guo2] /China/".to_string(),
    ];
    let entries = parse_cedict_entries(&lines);
    let chars = table_of(&[("一", 1, false), ("中国", 77, false)]);
    let words = table_of(&[("中国", 10, true)]);
    let merged = merge_cedict_with_frequency_separated(entries, &chars, &words);
    assert_eq!(merged[0].frequency_rank, Some(1));
    // The two-character word resolves in the word table, not the char table.
    assert_eq!(merged[1].frequency_rank, Some(10));
}

#[test]
fn timestamp_text_round_trips() {
    let t = parse_datetime_minutes("2024-02-29 15:30:00").unwrap();
    assert_eq!(format_datetime_minutes(t), "2024-02-29 15:30:00");
    let epoch = parse_datetime_minutes("1970-01-01 00:00:00").unwrap();
    assert_eq!(epoch, 0);
    let one_day = parse_datetime_minutes("1970-01-02 00:00:00").unwrap();
    assert_eq!(one_day, 1440);
    // Seconds are validated but dropped (minute granularity).
    let with_seconds = parse_datetime_minutes("1970-01-01 00:01:59").unwrap();
    assert_eq!(with_seconds, 1);
}

#[test]
fn timestamp_text_rejects_malformed() {
    assert_eq!(parse_datetime_minutes(""), None);
    assert_eq!(parse_datetime_minutes("yesterday"), None);
    assert_eq!(parse_datetime_minutes("2024-13-01 00:00:00"), None);
    assert_eq!(parse_datetime_minutes("2023-02-29 00:00:00"), None); // not a leap year
    assert_eq!(parse_datetime_minutes("2024-02-29 24:00:00"), None);
    assert_eq!(parse_datetime_minutes("1969-12-31 23:59:59"), None); // before the epoch
    assert_eq!(parse_datetime_minutes("2024-02-29T00:00:00"), None);
    assert!(parse_datetime_minutes("2024-02-29 00:00:00").is_some());
}
