//! Subtitle files with corrected times.

use alass_stream::subtitle::{
    format_srt_time, lines_from_entries, text_of_export, SubtitleState,
};
use alass_stream::subtitle_file::SubtitleEntry;

const SRT: &str = "1\n00:00:01,000 --> 00:00:04,000\nHello\n\n2\n00:00:05,000 --> 00:00:08,000\nWorld\n\n";

const ASS: &str = "[Script Info]\nTitle: t\n\n[Events]\nFormat: Layer, Start, End, Style, Name, MarginL, MarginR, MarginV, Effect, Text\nDialogue: 0,0:00:01.00,0:00:04.00,Default,,0,0,0,,Hello\n";

#[test]
fn parsing_keeps_times_and_format() {
    let state = SubtitleState::parse(SRT, "srt").unwrap();
    assert_eq!(state.len(), 2);
    assert_eq!(state.format, "srt");
    let line = state.lines()[1];
    assert_eq!((line.original_start_ms, line.original_end_ms), (5000, 8000));
    assert_eq!((line.corrected_start_ms, line.corrected_end_ms), (5000, 8000));
    assert_eq!(SubtitleState::parse(ASS, "ssa").unwrap().format, "ass");
}

#[test]
fn parsing_says_what_is_wrong() {
    let unknown = SubtitleState::parse(SRT, "vtt").err().unwrap();
    assert!(unknown.starts_with("unsupported subtitle format 'vtt': unknown file format"));
    assert_eq!(
        SubtitleState::parse("\n", "srt").err().unwrap(),
        "subtitle file contains no entries"
    );
    let broken = SubtitleState::parse("1\nnot a time\n", "srt").err().unwrap();
    assert!(broken.starts_with("failed to parse subtitle: "), "{broken}");
    assert!(broken.len() > "failed to parse subtitle: ".len());
}

#[test]
fn corrections_can_be_taken_back() {
    let mut state = SubtitleState::parse(SRT, "srt").unwrap();
    state.lines[0].corrected_start_ms = 77;
    state.lines[1].corrected_end_ms = -5;
    state.reset_corrections();
    for line in state.lines() {
        assert_eq!(line.corrected_start_ms, line.original_start_ms);
        assert_eq!(line.corrected_end_ms, line.original_end_ms);
    }
}

#[test]
fn corrected_files_have_the_corrected_times_and_their_own_text() {
    let mut state = SubtitleState::parse(SRT, "srt").unwrap();
    state.lines[0].corrected_start_ms = 2500;
    state.lines[0].corrected_end_ms = 5500;
    state.lines[1].corrected_start_ms = -1;
    let text = state.export_corrected().unwrap();
    assert_eq!(
        text,
        "1\n00:00:02,500 --> 00:00:05,500\nHello\n\n2\n00:00:00,000 --> 00:00:08,000\nWorld\n\n"
    );
    let mut state = SubtitleState::parse(ASS, "ass").unwrap();
    state.lines[0].corrected_start_ms = 2500;
    let text = state.export_corrected().unwrap();
    assert!(text.contains("Dialogue: 0,0:00:02.50,0:00:04.00,Default,,0,0,0,,Hello"), "{text}");
    assert!(text.contains("Title: t"));
}

#[test]
fn srt_blocks_have_numbers_times_and_texts() {
    let mut state = SubtitleState::parse(SRT, "srt").unwrap();
    state.lines[0].corrected_start_ms = -3000;
    assert_eq!(
        state.export_srt(),
        "1\n00:00:00,000 --> 00:00:04,000\nHello\n\n2\n00:00:05,000 --> 00:00:08,000\nWorld\n\n"
    );
    let mut state = SubtitleState::parse(ASS, "ass").unwrap();
    state.lines[0].corrected_end_ms = 4500;
    assert_eq!(state.export_srt(), "1\n00:00:01,000 --> 00:00:04,500\nHello\n\n");
    // a line without a text has none
    let idx = "timestamp: 00:00:01:000, filepos: 0\ntimestamp: 00:00:03:000, filepos: 9\n";
    let state = SubtitleState::parse(idx, "idx").unwrap();
    assert_eq!(
        state.export_srt(),
        "1\n00:00:01,000 --> 00:00:03,000\n\n2\n00:00:03,000 --> 00:01:03,000\n\n"
    );
}

#[test]
fn corrected_srt_text_reads_as_the_corrected_lines() {
    let mut state = SubtitleState::parse(SRT, "srt").unwrap();
    state.lines[0].corrected_start_ms = -1;
    state.lines[0].corrected_end_ms = 3_599_999;
    state.lines[1].corrected_start_ms = 360_000_001;
    let text = state.export_corrected().unwrap();
    let again = SubtitleState::parse(&text, "srt").unwrap();
    assert_eq!(again.len(), 2);
    assert_eq!(again.lines()[0].original_start_ms, 0);
    assert_eq!(again.lines()[0].original_end_ms, 3_599_999);
    assert_eq!(again.lines()[1].original_start_ms, 360_000_001);
    assert_eq!(again.lines()[1].original_end_ms, 8000);
    assert!(again.export_srt().contains("\nHello\n"));
    assert!(again.export_srt().contains("\nWorld\n"));
}

#[test]
fn corrected_letters_read_back() {
    let text = "Ένα δύο τρία";
    let content = format!("9\n00:00:01,000 --> 00:00:02,000\n{text}\n\n");
    let mut state = SubtitleState::parse(&content, "srt").unwrap();
    state.lines[0].corrected_start_ms = 3_723_004;
    let exported = state.export_corrected().unwrap();
    assert_eq!(exported, format!("9\n01:02:03,004 --> 00:00:02,000\n{text}\n\n"));
    let again = SubtitleState::parse(&exported, "srt").unwrap();
    assert_eq!(again.lines()[0].original_start_ms, 3_723_004);
    assert!(again.export_srt().contains(text));
}

#[test]
fn frame_numbers_can_be_corrected_too() {
    let mut state = SubtitleState::parse("{24}{48}first|second\n", "sub").unwrap();
    assert_eq!(state.format, "sub");
    assert_eq!(state.len(), 2);
    for line in state.lines.iter_mut() {
        line.corrected_start_ms += 1000;
        line.corrected_end_ms += 1000;
    }
    assert_eq!(state.export_corrected().unwrap(), "{48}{72}first|second");
}

#[test]
fn times_before_zero_are_written_as_zero() {
    assert_eq!(format_srt_time(-1), "00:00:00,000");
    assert_eq!(format_srt_time(3_661_123), "01:01:01,123");
}

#[test]
fn entries_become_lines() {
    let entries = vec![SubtitleEntry { start_ms: 9, end_ms: 4, line: None }];
    let lines = lines_from_entries(&entries);
    assert_eq!(lines.len(), 1);
    assert_eq!((lines[0].original_start_ms, lines[0].corrected_end_ms), (9, 4));
}

#[test]
fn output_has_to_be_text() {
    assert_eq!(text_of_export("äöü".as_bytes().to_vec()).unwrap(), "äöü");
    let fault = text_of_export(vec![b'a', 0xff]).err().unwrap();
    assert!(fault.starts_with("subtitle output is not valid UTF-8: "));
    assert!(fault.contains("index 1"), "{fault}");
}
