//! Limits, formats, refusals and outcomes.

use velum::decimal::{format_u32, parse_u32};
use velum::rules::{
    blank_passphrase, input_format, is_armored, judge_chunk_size, judge_recipient_count,
    memory_cost_kib, refuse_stream, ChunkSize, Format, RecipientCount, StreamRefusal,
    DEFAULT_CHUNK_SIZE, MAX_SAFE_CHUNK_SIZE,
};
use velum::status::SigStatus;

#[test]
fn recipients_are_counted() {
    assert_eq!(judge_recipient_count(0, true), RecipientCount::Zero);
    assert_eq!(judge_recipient_count(1, false), RecipientCount::Fine);
    assert_eq!(judge_recipient_count(512, false), RecipientCount::Fine);
    assert_eq!(judge_recipient_count(513, false), RecipientCount::TooMany);
    assert_eq!(judge_recipient_count(513, true), RecipientCount::Fine);
}

#[test]
fn chunk_sizes_are_judged() {
    assert_eq!(DEFAULT_CHUNK_SIZE, 4 << 20);
    assert_eq!(MAX_SAFE_CHUNK_SIZE, 0xFFFF_FFFE - 16);
    assert_eq!(judge_chunk_size(MAX_SAFE_CHUNK_SIZE), ChunkSize::Fine);
    assert_eq!(judge_chunk_size(MAX_SAFE_CHUNK_SIZE + 1), ChunkSize::TooLarge);
    assert_eq!(judge_chunk_size(64 * 1024), ChunkSize::Fine);
    assert_eq!(judge_chunk_size(64 * 1024 - 1), ChunkSize::Small);
}

#[test]
fn binary_output_stays_off_the_terminal() {
    assert_eq!(refuse_stream(true, true, true), Some(StreamRefusal::Armor));
    assert_eq!(refuse_stream(false, true, true), Some(StreamRefusal::Terminal));
    assert_eq!(refuse_stream(false, true, false), None);
    assert_eq!(refuse_stream(false, false, true), None);
}

#[test]
fn formats_are_told_apart() {
    let armor = b"-----BEGIN VELUM MESSAGE-----\nv:1\n";
    assert!(is_armored(armor));
    assert!(is_armored(b"-----BEGIN VELUM MESSAGE-----"));
    assert!(!is_armored(b"-----BEGIN VELUM MESSAGE----"));
    assert!(!is_armored(b"VLM1"));
    assert!(!is_armored(b""));
    assert_eq!(input_format(false, false, armor), Format::Armor);
    assert_eq!(input_format(false, false, b"VLM1"), Format::Binary);
    assert_eq!(input_format(true, true, b"VLM1"), Format::Armor);
    assert_eq!(input_format(false, true, armor), Format::Binary);
}

#[test]
fn memory_costs_are_converted() {
    assert_eq!(memory_cost_kib(None), Some(98304));
    assert_eq!(memory_cost_kib(Some(128)), Some(131072));
    assert_eq!(memory_cost_kib(Some(0)), Some(0));
    assert_eq!(memory_cost_kib(Some(0x40_0000)), None);
}

#[test]
fn blank_passphrases_are_noticed() {
    assert!(blank_passphrase("", "x"));
    assert!(blank_passphrase("x", " \u{3000}\t"));
    assert!(!blank_passphrase(" x ", "y"));
}

#[test]
fn outcomes_have_numbers() {
    for n in 0..4 {
        assert_eq!(SigStatus::from(n).number(), n);
    }
    assert_eq!(SigStatus::from(-1), SigStatus::Unexpected);
}

#[test]
fn numbers_are_read_and_written() {
    assert_eq!(format_u32(0), "0");
    assert_eq!(format_u32(4294967295), "4294967295");
    assert_eq!(parse_u32("4294967295"), Some(4294967295));
    assert_eq!(parse_u32("4294967296"), None);
    assert_eq!(parse_u32("007"), Some(7));
    assert_eq!(parse_u32("+7"), Some(7));
    assert_eq!(parse_u32("+"), None);
    assert_eq!(parse_u32("-7"), None);
    assert_eq!(parse_u32(""), None);
    assert_eq!(parse_u32("7 "), None);
}
