//! Track loading, the playback cursor, and duration bookkeeping.

use ass_overlay::ass::AssData;
use ass_overlay::track::max_end_ms;

fn sample_doc() -> Vec<u8> {
    let text = "[Events]\n\
Format: Layer, Start, End, Style, Name, MarginL, MarginR, MarginV, Effect, Text\n\
Dialogue: 0,0:00:00.00,0:00:00.50,Default,,0,0,0,,First\n\
Dialogue: 0,0:00:00.10,0:00:01.20,Default,,0,0,0,,Second\n\
Dialogue: 0,0:00:00.20,0:00:00.90,Default,,0,0,0,,Third\n";
    text.as_bytes().to_vec()
}

fn empty_doc() -> Vec<u8> {
    let text = "[Events]\n\
Format: Layer, Start, End, Style, Name, MarginL, MarginR, MarginV, Effect, Text\n";
    text.as_bytes().to_vec()
}

#[test]
fn tick_is_noop_while_unloaded() {
    let mut data = AssData::new();
    assert!(!data.loaded());
    for _ in 0..5 {
        let request = data.tick(40);
        assert!(request.is_none());
        assert_eq!(data.current_time(), 0);
    }
    assert!(!data.loaded());
    assert_eq!(data.current_len(), 0);
}

#[test]
fn cursor_resets_on_load() {
    let mut data = AssData::new();
    data.load_track(&sample_doc()).unwrap();
    assert_eq!(data.current_time(), 0);
    data.tick(700);
    assert_eq!(data.current_time(), 700);
    data.load_track(&sample_doc()).unwrap();
    assert_eq!(data.current_time(), 0);
}

#[test]
fn duration_is_largest_end_timestamp() {
    let mut data = AssData::new();
    data.load_track(&sample_doc()).unwrap();
    assert!(data.loaded());
    assert_eq!(data.current_len(), 1200);
}

#[test]
fn duration_is_zero_without_entries() {
    let mut data = AssData::new();
    data.load_track(&empty_doc()).unwrap();
    assert!(data.loaded());
    assert_eq!(data.current_len(), 0);
}

#[test]
fn max_end_of_listed_entries() {
    assert_eq!(max_end_ms(&vec![500, 1200, 900]), 1200);
    assert_eq!(max_end_ms(&vec![]), 0);
    assert_eq!(max_end_ms(&vec![7]), 7);
}

#[test]
fn end_detection_boundaries() {
    let mut data = AssData::new();
    data.load_track(&sample_doc()).unwrap();
    assert!(!data.ended());
    data.tick(1199);
    assert!(!data.ended());
    data.tick(1);
    assert_eq!(data.current_time(), 1200);
    assert!(data.ended());
    data.tick(1);
    assert!(data.ended());
}

#[test]
fn negative_delta_moves_time_backward() {
    let mut data = AssData::new();
    data.load_track(&sample_doc()).unwrap();
    data.tick(100);
    let request = data.tick(-60);
    assert_eq!(request, Some(40));
    assert_eq!(data.current_time(), 40);
}

#[test]
fn failed_load_leaves_state_untouched() {
    let mut data = AssData::new();
    data.load_track(&sample_doc()).unwrap();
    data.tick(300);
    let garbage = b"this is not a subtitle document".to_vec();
    assert!(data.load_track(&garbage).is_err());
    assert!(data.loaded());
    assert_eq!(data.current_time(), 300);
    assert_eq!(data.current_len(), 1200);
}

#[test]
fn whitespace_led_format_line_is_refused() {
    // The parser asserts on a format line with leading whitespace; the
    // loader must refuse such a document instead of handing it over.
    let text = "[Events]\n \
 Format: Layer, Start, End, Style, Name, MarginL, MarginR, MarginV, Effect, Text\n\
Dialogue: 0,0:00:00.00,0:00:01.20,Default,,0,0,0,,Hello\n";
    let mut data = AssData::new();
    assert!(data.load_track(&text.as_bytes().to_vec()).is_err());
    assert!(!data.loaded());
    assert_eq!(data.current_time(), 0);
}

#[test]
fn long_digit_run_is_refused() {
    // A timestamp component long enough to overflow the parser's 64-bit
    // time arithmetic is refused before parsing.
    let text = "[Events]\n\
Format: Layer, Start, End, Style, Name, MarginL, MarginR, MarginV, Effect, Text\n\
Dialogue: 0,0:00:00.00,900000000000000:00:00.00,Default,,0,0,0,,Hello\n";
    let mut data = AssData::new();
    assert!(data.load_track(&text.as_bytes().to_vec()).is_err());
    assert!(!data.loaded());
}

#[test]
fn truncated_dialogue_line_is_refused() {
    // A dialogue line that ends at a field boundary makes the parser's
    // field grammar stop early and its entry pairing panic; the loader
    // must refuse such a document instead of handing it over.
    let text = "[Events]\n\
Format: Layer, Start, End, Style, Name, MarginL, MarginR, MarginV, Effect, Text\n\
Dialogue: 0,\n";
    let mut data = AssData::new();
    assert!(data.load_track(&text.as_bytes().to_vec()).is_err());
    assert!(!data.loaded());
    assert_eq!(data.current_time(), 0);
}

#[test]
fn digits_in_dialogue_text_are_accepted() {
    // A short digit run in the dialogue text is harmless — the parser
    // reads numbers only from timestamp fields — and must load.
    let text = "[Events]\n\
Format: Layer, Start, End, Style, Name, MarginL, MarginR, MarginV, Effect, Text\n\
Dialogue: 0,0:00:00.00,0:00:01.20,Default,,0,0,0,,Call 123456789 now\n";
    let mut data = AssData::new();
    data.load_track(&text.as_bytes().to_vec()).unwrap();
    assert_eq!(data.current_len(), 1200);
}

#[test]
fn format_word_in_dialogue_text_is_accepted() {
    // A format-line marker in the middle of dialogue text is not at the
    // head of a line, so it cannot trip the parser and must load.
    let text = "[Events]\n\
Format: Layer, Start, End, Style, Name, MarginL, MarginR, MarginV, Effect, Text\n\
Dialogue: 0,0:00:00.00,0:00:01.20,Default,,0,0,0,,See Format: below\n";
    let mut data = AssData::new();
    data.load_track(&text.as_bytes().to_vec()).unwrap();
    assert_eq!(data.current_len(), 1200);
}

#[test]
fn negative_end_timestamp_clamps_duration_to_zero() {
    // A duration is never negative: an all-negative set of end
    // timestamps loads with duration 0.
    let text = "[Events]\n\
Format: Layer, Start, End, Style, Name, MarginL, MarginR, MarginV, Effect, Text\n\
Dialogue: 0,0:00:00.00,0:0:-5.0,Default,,0,0,0,,Hello\n";
    let mut data = AssData::new();
    data.load_track(&text.as_bytes().to_vec()).unwrap();
    assert!(data.loaded());
    assert_eq!(data.current_len(), 0);
}

#[test]
fn load_decodes_bytes_lossily() {
    // An invalid UTF-8 byte inside a dialogue's text field is replaced
    // during decoding and must not stop the load or change the duration.
    let mut doc = sample_doc();
    let text_pos = doc.len() - 2;
    doc[text_pos] = 0xFF;
    let mut data = AssData::new();
    data.load_track(&doc).unwrap();
    assert_eq!(data.current_len(), 1200);
}

#[test]
fn failed_load_on_fresh_compositor() {
    let mut data = AssData::new();
    let garbage = b"no events section at all".to_vec();
    assert!(data.load_track(&garbage).is_err());
    assert!(!data.loaded());
    assert_eq!(data.current_time(), 0);
}
