use srt_align::input::{is_audio_extension, text_lines};

#[test]
fn lines_are_trimmed_and_empty_ones_dropped() {
    let text = "  Hello \r\n\n world\t\nlast";
    assert_eq!(text_lines(text), vec!["Hello".to_string(), "world".to_string(), "last".to_string()]);
}

#[test]
fn lines_of_empty_text() {
    assert_eq!(text_lines(""), Vec::<String>::new());
    assert_eq!(text_lines("\n \n\t\n"), Vec::<String>::new());
}

#[test]
fn lines_keep_inner_spaces_and_unicode() {
    assert_eq!(text_lines("\u{3000}Привіт,  світе!\u{a0}\n"), vec!["Привіт,  світе!".to_string()]);
}

#[test]
fn audio_extensions() {
    assert!(is_audio_extension("mp3"));
    assert!(is_audio_extension("MP3"));
    assert!(is_audio_extension("Wav"));
    assert!(!is_audio_extension("mp4"));
    assert!(!is_audio_extension("txt"));
    assert!(!is_audio_extension(""));
    assert!(!is_audio_extension("mp33"));
}

#[test]
fn white_space_is_unicode_white_space() {
    for u in (0u32..0x3100).chain(0xFEFF..0xFF00) {
        if let Some(c) = char::from_u32(u) {
            let line = format!("{}x{}", c, c);
            let expected = if c.is_whitespace() { "x".to_string() } else { line.clone() };
            assert_eq!(text_lines(&line), vec![expected], "U+{:04X}", u);
        }
    }
}
