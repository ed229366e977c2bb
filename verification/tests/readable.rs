//! Which bytes the subtitle parser can be handed.

use alass_stream::readable::is_readable;
use alass_stream::{StreamingAligner, SubtitleFormat};

const SRT: SubtitleFormat = SubtitleFormat::SubRip;
const ASS: SubtitleFormat = SubtitleFormat::SubStationAlpha;
const IDX: SubtitleFormat = SubtitleFormat::VobSubIdx;
const SUB: SubtitleFormat = SubtitleFormat::MicroDVD;

/// One more than a 64-bit integer holds.
const HUGE: &str = "9223372036854775808";

fn block(number: &str, start: &str) -> Vec<u8> {
    format!("{number}\n{start} --> 00:00:09,000\ntext\n\n").into_bytes()
}

/// A SubStation Alpha file with these events.
fn events(format: &str, lines: &[&str]) -> Vec<u8> {
    let mut text = format!("[Events]\n{format}\n");
    for line in lines {
        text.push_str(line);
        text.push('\n');
    }
    text.into_bytes()
}

/// Hands the bytes to the parser: how many entries it finds.
fn load(bytes: &[u8], extension: &str) -> Option<usize> {
    let mut aligner = StreamingAligner::new();
    aligner.load_subtitle_bytes(bytes, Some(extension)).ok()
}

#[test]
fn ordinary_text_is_readable() {
    assert!(is_readable(SRT, &block("1", "00:00:01,000")));
    assert!(is_readable(SRT, b""));
    assert!(is_readable(ASS, b"[Events]\nFormat: Start, End, Text\n"));
    assert!(is_readable(IDX, b"timestamp: 00:00:01:000, filepos: 0\n"));
    assert!(is_readable(SUB, b"{1}{2}text\n"));
}

#[test]
fn numerals_of_times_have_limits() {
    assert!(is_readable(SRT, &block("1", "00:00:01,9223372036854774807")));
    assert!(!is_readable(SRT, &block("1", &format!("00:00:01,{HUGE}"))));
    assert!(!is_readable(SRT, &block("1", &format!("{HUGE}:00:01,000"))));
    assert!(!is_readable(SRT, &block("1", "00:00:01,9223372036854774808")));
    assert!(is_readable(SRT, &block("1", "2562047788015:00:00,000")));
    assert!(!is_readable(SRT, &block("1", "2562047788016:00:00,000")));
    assert!(!is_readable(SRT, &block("1", "00:-9223372036854775809:01,000")));
    assert!(!is_readable(SRT, format!("1\n00:00:01,000 --> {HUGE}:00:00,000\n").as_bytes()));
}

#[test]
fn numerals_elsewhere_have_none() {
    // a number line that is no number is an error, not the end
    assert!(is_readable(SRT, &block(HUGE, "00:00:01,000")));
    assert_eq!(load(&block(HUGE, "00:00:01,000"), "srt"), None);
    // the text of an entry is not looked at
    let text = format!("1\n00:00:01,000 --> 00:00:02,000\n{HUGE}\n{HUGE}:00:00,000 --> x\n\n");
    assert!(is_readable(SRT, text.as_bytes()));
    assert_eq!(load(text.as_bytes(), "srt"), Some(1));
    // nor is anything after an error
    let text = format!("no number\n{HUGE}:00:00,000\n");
    assert!(is_readable(SRT, text.as_bytes()));
    assert_eq!(load(text.as_bytes(), "srt"), None);
    let text = format!("1\n00:00:01.000 --> {HUGE}\n");
    assert!(is_readable(SRT, text.as_bytes()));
    assert_eq!(load(text.as_bytes(), "srt"), None);
    // accented letters change nothing of this
    let text = format!("1\r\n00:00:01,000 --> 00:00:02,000\r\nÉté {HUGE}\r\n{HUGE}\r\n\r\n");
    assert!(is_readable(SRT, text.as_bytes()));
    assert_eq!(load(text.as_bytes(), "srt"), Some(1));
}

#[test]
fn what_is_readable_can_be_loaded() {
    for bytes in [
        block("1", "00:00:01,000"),
        block("123456789012345678", "00:00:01,000"),
        block("1", "2562047788015:00:00,000"),
        block("1", "-00:-1:-59,-9223372036854656808"),
        block("no number", "00:00:01,000"),
        b"\x1b$B\x1b(B".to_vec(),
        b"\xff\xfe1\0\n\0".to_vec(),
        b"\xef\xbb\xbf1\n00:00:01,000 --> 00:00:02,000\nx\n".to_vec(),
        b"\xa0\n1\n00:00:01,000\xa0--> 00:00:02,000\nx\n".to_vec(),
    ] {
        assert!(is_readable(SRT, &bytes), "{bytes:?}");
        let _ = load(&bytes, "srt");
    }
    let wide: Vec<u8> = "1\n00:00:01,000 --> 00:00:02,000\nx\n\n"
        .encode_utf16()
        .flat_map(|u| u.to_be_bytes())
        .collect();
    let bytes = [vec![0xfe, 0xff], wide].concat();
    assert!(is_readable(SRT, &bytes));
    assert_eq!(load(&bytes, "srt"), Some(1));
    let huge: Vec<u8> = format!("1\n{HUGE}:00:01,000\n")
        .encode_utf16()
        .flat_map(|u| u.to_le_bytes())
        .collect();
    assert!(!is_readable(SRT, &[vec![0xff, 0xfe], huge].concat()));
    // escape sequences join what stands around them
    assert!(!is_readable(SRT, b"1\n922337203\x1b(B6854775808:00:01,000\n"));
    assert!(is_readable(SRT, b"1\n922337203\x1b$B6854775808:00:01,000\n"));
}

#[test]
fn what_may_be_an_empty_line_is_taken_both_ways() {
    // a no-break space may end the entry, and then a number follows
    let after_gap = format!("1\n00:00:01,000 --> 00:00:02,000\n\u{a0}\n2\n{HUGE}:00:00,000\n");
    assert!(!is_readable(SRT, after_gap.as_bytes()));
    let in_text = format!("1\n00:00:01,000 --> 00:00:02,000\nx\u{a0}\n2\n{HUGE}:00:00,000\n");
    assert!(is_readable(SRT, in_text.as_bytes()));
}

#[test]
fn nothing_is_left_open_where_the_encoding_is_certain() {
    let entry = "1\n00:00:01,000 --> 00:00:02,000\n";
    let line = |text: &str| format!("{entry}{text}\n2\n{HUGE}:00:00,000\n");
    // four letters may be anything, five are letters
    assert!(!is_readable(SRT, line("éééé").as_bytes()));
    assert!(is_readable(SRT, line("ééééé").as_bytes()));
    assert_eq!(load(line("ééééé").as_bytes(), "srt"), Some(1));
    assert!(is_readable(SRT, line("Привет").as_bytes()));
    assert_eq!(load(line("Привет").as_bytes(), "srt"), Some(1));
    // white space is white space
    assert!(!is_readable(SRT, line("\u{a0}\u{3000}\u{2003}\u{a0}\u{2028}").as_bytes()));
    // emoji and control characters make it uncertain again
    assert!(!is_readable(SRT, line("ééééé\n😀😀").as_bytes()));
    assert!(!is_readable(SRT, line("\u{e}\nééééé").as_bytes()));
    // a mark makes it certain
    assert!(!is_readable(SRT, line("é").as_bytes()));
    assert!(is_readable(SRT, format!("\u{feff}{}", line("é")).as_bytes()));
    assert_eq!(load(format!("\u{feff}{}", line("é")).as_bytes(), "srt"), Some(1));
    assert!(!is_readable(SRT, format!("\u{feff}{}", line("\u{a0}")).as_bytes()));
    let undecoded = [b"\xef\xbb\xbf\xff" as &[u8], line("\u{a0}").as_bytes()].concat();
    assert!(is_readable(SRT, &undecoded));
    assert_eq!(load(&undecoded, "srt"), None);
    let wide = |text: &str| -> Vec<u8> {
        format!("\u{feff}{}", line(text)).encode_utf16().flat_map(u16::to_le_bytes).collect()
    };
    assert!(is_readable(SRT, &wide("é")));
    assert_eq!(load(&wide("é"), "srt"), Some(1));
    assert!(!is_readable(SRT, &wide("\u{3000}")));
    // and so does plain ASCII with no-break spaces
    let space = [entry.as_bytes(), b"\xa0\n2\n9223372036854775808:0:0,0\n"].concat();
    assert!(!is_readable(SRT, &space));
    let space = [entry.as_bytes(), b"x\xa0\n2\n9223372036854775808:0:0,0\n"].concat();
    assert!(is_readable(SRT, &space));
    assert_eq!(load(&space, "srt"), Some(1));
}

#[test]
fn escape_bytes_have_to_announce_something() {
    assert!(is_readable(SRT, b"\x1b$B"));
    assert!(is_readable(SRT, b"\x1b(J"));
    assert!(!is_readable(SRT, b"a\x1bb"));
    assert!(!is_readable(SRT, b"\x1b$"));
    assert!(!is_readable(SRT, b"\x0e\x1b$B"));
    assert!(is_readable(SRT, b"\x1bb\xc3\xa9"));
    // known by name, but not decoded: an error whatever follows
    for bytes in [
        format!("1\n\x1b$)C\n{HUGE}:0:0,0"),
        format!("\x0e1\n\x1b$)C\n{HUGE}:0:0,0"),
        format!("1\n\x1b$(D\n{HUGE}:0:0,0"),
        format!("1\n~~x~{{abc~~e~}}\n{HUGE}:0:0,0\x1b"),
        format!("~{{~}}\0\x1b\n{HUGE}:0:0,0"),
    ] {
        assert!(is_readable(SRT, bytes.as_bytes()), "{bytes:?}");
        assert_eq!(load(bytes.as_bytes(), "srt"), None);
    }
    for bytes in ["\x1b$)A", "\0\x1b$)C", "~{abc~}\x1b", "~x~{ab~}\x1b", "~{ab\x1b~}"] {
        assert!(!is_readable(SRT, bytes.as_bytes()), "{bytes:?}");
    }
}

#[test]
fn format_lines_are_flush() {
    assert!(is_readable(ASS, &events("Format: Start, End, Text", &[])));
    assert!(!is_readable(ASS, &events("  Format: Start, End, Text", &[])));
    assert!(!is_readable(ASS, &events("\u{a0}Format: Start, End, Text", &[])));
    assert!(is_readable(ASS, &events("Dialogue: in the Format: of old", &[])));
    assert!(is_readable(SRT, &events("  Format: Start, End, Text", &[])));
    // outside the events, and after the first, an indented one is none
    let styles = "[V4+ Styles]\n  Format: Name\n[Events]\nFormat: Start, End, Text\n  Format: x\n";
    assert!(is_readable(ASS, styles.as_bytes()));
    assert_eq!(load(styles.as_bytes(), "ass"), Some(0));
    let commented = "[Events] ; none\n  Format: Start, End, Text\n";
    assert!(is_readable(ASS, commented.as_bytes()));
    assert_eq!(load(commented.as_bytes(), "ass"), None);
}

#[test]
fn dialogue_needs_its_times() {
    let layout = "Format: Layer, Start, End, Text";
    let load_events = |lines: &[&str]| load(&events(layout, lines), "ass");
    let whole = ["Dialogue: 0,0:00:01.00,0:00:02.00,a, b"];
    assert!(is_readable(ASS, &events(layout, &whole)));
    assert_eq!(load_events(&whole), Some(1));
    // lines that end before their times are taken by the parser
    for short in ["Dialogue:", "Dialogue: ", "Dialogue: 0,", "Dialogue: 0,0:00:01.00,"] {
        assert!(!is_readable(ASS, &events(layout, &[short])), "{short}");
    }
    // others are errors
    for broken in [
        "Dialogue: 0,0:00:01.00",
        "Dialogue: 0,0:00:01.00,0:00:02.00",
        "Dialogue: 0,never,0:00:02.00,x",
        "Dialogue: 0,",
    ] {
        let lines = ["Dialogue: 0,0:00:01.00,soon,x", broken];
        assert!(is_readable(ASS, &events(layout, &lines)), "{broken}");
        assert_eq!(load_events(&lines), None);
    }
    for broken in ["Dialogue: 0,0:00:01.00", "\x0bDialogue: 0,0:00:01.00,0:00:02.00,x"] {
        let lines = ["Dialogue: 0,", broken];
        assert!(is_readable(ASS, &events(layout, &lines)), "{broken}");
        assert_eq!(load_events(&lines), None);
    }
    assert!(is_readable(ASS, &events(layout, &["Dialogue: 0,0:00:01.00,0:00:02.00"])));
    assert_eq!(load_events(&["Dialogue: 0,0:00:01.00,0:00:02.00"]), None);
    // and so is a file without a layout
    assert!(is_readable(ASS, &events("Format: Layer, Text", &["Dialogue: 0,"])));
    assert_eq!(load(&events("Format: Layer, Text", &["Dialogue: 0,"]), "ass"), None);
}

#[test]
fn numerals_of_dialogue_count_in_the_times_only() {
    let layout = "Format: Layer, Start, End, Text";
    let text = format!("Dialogue: {HUGE},0:00:01.00,0:00:02.00,{HUGE}:0:0.0");
    assert!(is_readable(ASS, &events(layout, &[&text])));
    assert_eq!(load(&events(layout, &[&text]), "ass"), Some(1));
    let start = format!("Dialogue: 0,0:00:{HUGE}.00,0:00:02.00,x");
    assert!(!is_readable(ASS, &events(layout, &[&start])));
    let end = "Dialogue: 0,0:00:01.00,0:00:02.922337203685477581,x";
    assert!(!is_readable(ASS, &events(layout, &[end])));
    let styles = format!("[Styles]\nDialogue: 0,{HUGE}:0:0.0,0:00:02.00,x\n");
    assert!(is_readable(ASS, &[styles.as_bytes(), &events(layout, &[])].concat()));
    let cr = format!("[Events]\nFormat: Start, End, Text\nx\rDialogue: {HUGE}:0:0.0,0:0:0.0,x\n");
    assert!(!is_readable(ASS, cr.as_bytes()));
}

#[test]
fn other_formats_have_their_numerals_too() {
    assert!(!is_readable(SUB, format!("{{{HUGE}}}{{2}}x\n").as_bytes()));
    assert!(!is_readable(SUB, format!("{{1}}{{2}}x\n{{1}}{{{HUGE}}}x\n").as_bytes()));
    let text = format!("{{1}}{{2}}{{3}}{HUGE}{{{HUGE}}}\n");
    assert!(is_readable(SUB, text.as_bytes()));
    assert_eq!(load(text.as_bytes(), "sub"), Some(1));
    let error = format!("x\n{{{HUGE}}}{{2}}x\n");
    assert!(is_readable(SUB, error.as_bytes()));
    assert_eq!(load(error.as_bytes(), "sub"), None);
    let open = format!("{{1}}{{2}}x|{{y:i\n{{{HUGE}}}{{2}}x\n");
    assert!(is_readable(SUB, open.as_bytes()));
    assert_eq!(load(open.as_bytes(), "sub"), None);
    let closed = format!("{{1}}{{2}}{{y:i}}x{{|{{y:b}}{{\n{{{HUGE}}}{{2}}x\n");
    assert!(is_readable(SUB, closed.as_bytes()));
    assert_eq!(load(closed.as_bytes(), "sub"), None);
    let closed = format!("{{1}}{{2}}{{y:i}}x{{|{{y:b}}\n{{{HUGE}}}{{2}}x\n");
    assert!(!is_readable(SUB, closed.as_bytes()));
    let late = "timestamp: 00:00:00:9223372036854775807\ntimestamp: 00:00:01:000\n";
    assert!(is_readable(IDX, late.as_bytes()));
    assert_eq!(load(late.as_bytes(), "idx"), Some(2));
    assert!(!is_readable(IDX, format!(" timestamp: {HUGE}:00:00:000\n").as_bytes()));
    assert!(!is_readable(IDX, b"timestamp: 00:00:00:9223372036854715808\n"));
    let text = format!("# {HUGE}\ntimestamp: 00:00:01:000, filepos: {HUGE}\n");
    assert!(is_readable(IDX, text.as_bytes()));
    assert_eq!(load(text.as_bytes(), "idx"), Some(1));
}

#[test]
fn binary_files_are_always_readable() {
    assert!(is_readable(SubtitleFormat::VobSubSub, b"\0\0\x01\xba\x1b12345678901234567890"));
}

/// Texts made up of pieces that matter to the parser, at random.
fn jumble(pieces: &[&[u8]], x: &mut u64) -> Vec<u8> {
    let mut bytes = Vec::new();
    let mut next = || {
        *x = x.wrapping_mul(6364136223846793005).wrapping_add(1442695040888963407);
        (*x >> 33) as usize
    };
    for _ in 0..next() % 24 {
        bytes.extend_from_slice(pieces[next() % pieces.len()]);
    }
    bytes
}

/// Hands jumbled texts to the parser, as far as it can be handed them: how many
/// it could and could not be handed, and how many of them made a file.
fn try_jumbles(format: SubtitleFormat, extension: &str, pieces: &[&[u8]]) -> (u32, u32, u32) {
    let (mut readable, mut other, mut files) = (0, 0, 0);
    let mut x: u64 = 5;
    for _ in 0..30_000 {
        let bytes = jumble(pieces, &mut x);
        if is_readable(format, &bytes) {
            readable += 1;
            if load(&bytes, extension).is_some() {
                files += 1;
            }
        } else {
            other += 1;
        }
    }
    (readable, other, files)
}

#[test]
fn jumbled_subrip_text_can_be_loaded_if_readable() {
    let pieces: &[&[u8]] = &[
        b"1\n",
        b"1\n00:00:01,000 --> 00:00:02,000\n",
        b"00:00:01,000 --> ",
        b"\n",
        b"\r\n",
        b"\n\n",
        b"9223372036854775808",
        b"\n9223372036854775807",
        b":",
        b"-",
        b",",
        b" ",
        b"\t",
        b"\x0b",
        b"x",
        b"\xa0",
        b"\xc3\xa9",
        b"\xe3\x80\x80",
        b"\xef\xbb\xbf",
        b"\x1b(B",
        b"\x1b$B",
        b"\x1b$)C",
        b"\x1b$(D",
        b"~",
        b"{",
        b"}",
        b"\xc3\xa9\xc3\xa9\xc3\xa9\xc3\xa9\xc3\xa9",
        b"\xf0\x9f\x98\x80",
    ];
    let (readable, other, files) = try_jumbles(SRT, "srt", pieces);
    assert!(readable > 10_000 && other > 100 && files > 1_000, "{readable} {other} {files}");
}

#[test]
fn jumbled_events_can_be_loaded_if_readable() {
    let pieces: &[&[u8]] = &[
        b"[Events]\nFormat: Start, End, Text\n",
        b"[Events]\nFormat: Start, End, Text\n",
        b"[Events]\n",
        b"\n[Styles]\n",
        b"Format: Text, Start, End",
        b" Format:",
        b"Start",
        b"End",
        b"Text",
        b"\nDialogue: ",
        b"\nDialogue: 0:00:01.00,0:00:02.00,x\n",
        b"Dialogue:",
        b"0:00:01.00,",
        b"9223372036854775808:0:0.0,",
        b"0:0:0.922337203685477581,",
        b",",
        b"\n",
        b"\r",
        b" ",
        b"\x0b",
        b"\xa0",
        b"\xc3\xa9",
        b"[",
        b"]",
    ];
    let (readable, other, files) = try_jumbles(ASS, "ass", pieces);
    assert!(readable > 10_000 && other > 100 && files > 100, "{readable} {other} {files}");
}

#[test]
fn jumbled_frames_and_timestamps_can_be_loaded_if_readable() {
    let pieces: &[&[u8]] = &[
        b"{1}{2}x\n",
        b"{1}{2}{y:i}x|{Y:b}y\n",
        b"{",
        b"}",
        b"|",
        b"-",
        b"12",
        b"9223372036854775808",
        b"x",
        b"\n",
        b"\r\n",
        b"\xc3\xa9",
    ];
    let (readable, other, files) = try_jumbles(SUB, "sub", pieces);
    assert!(readable > 10_000 && other > 100 && files > 100, "{readable} {other} {files}");
    let pieces: &[&[u8]] = &[
        b"timestamp: 00:00:01:000, filepos: 0\n",
        b"timestamp:",
        b"00:00:00:",
        b"00:00:00:9223372036854775807",
        b"9223372036854775808",
        b" ",
        b"\x0b",
        b":",
        b"1",
        b"\n",
        b"\r",
        b"#",
        b"\xa0",
    ];
    let (readable, other, files) = try_jumbles(IDX, "idx", pieces);
    assert!(readable > 10_000 && other > 100 && files > 100, "{readable} {other} {files}");
}
