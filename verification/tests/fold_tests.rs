use fnew::FoldError;
use fnew::MaxWidth;
use fnew::Mode;
use fnew::fold_file;
use fnew::fold_line;
use fnew::fold_mode_line;

fn segs(parts: &[&str]) -> Vec<Vec<u8>> {
    parts.iter().map(|p| p.as_bytes().to_vec()).collect()
}

fn width(w: usize) -> MaxWidth {
    MaxWidth::new(w).unwrap()
}

#[test]
fn hard_break_mid_word() {
    let out = fold_mode_line("hello world", width(5), Mode::Graphemes, false);
    assert_eq!(out, segs(&["hello", " worl", "d"]));
}

#[test]
fn whitespace_split() {
    let out = fold_mode_line("hello world", width(5), Mode::Graphemes, true);
    assert_eq!(out, segs(&["hello", " ", "world"]));
}

#[test]
fn whitespace_split_keeps_trailing_space() {
    let out = fold_mode_line("foo bar baz", width(4), Mode::Graphemes, true);
    assert_eq!(out, segs(&["foo ", "bar ", "baz"]));
}

#[test]
fn empty_line_one_empty_segment() {
    let out = fold_mode_line("", width(5), Mode::Graphemes, true);
    assert_eq!(out, segs(&[""]));
}

#[test]
fn short_line_passes_through() {
    let out = fold_mode_line("ab", width(5), Mode::Graphemes, false);
    assert_eq!(out, segs(&["ab"]));
}

#[test]
fn fallback_hard_break_without_whitespace() {
    let out = fold_mode_line("aaaaaaaaaa", width(3), Mode::Graphemes, true);
    assert_eq!(out, segs(&["aaa", "aaa", "aaa", "a"]));
    let hard = fold_mode_line("aaaaaaaaaa", width(3), Mode::Graphemes, false);
    assert_eq!(out, hard);
}

#[test]
fn zero_width_is_rejected() {
    assert_eq!(MaxWidth::new(0).err(), Some(FoldError::InvalidWidth));
    assert!(MaxWidth::new(1).is_ok());
    assert_eq!(MaxWidth::new(80).unwrap().get(), 80);
}

#[test]
fn round_trip_rebuilds_every_line() {
    let inputs = ["hello world", "", "a", "  doubled  spaces  ", "tab\tand\rreturns", "aaaaaaaaaa"];
    for input in inputs {
        for mode in [Mode::Graphemes, Mode::Chars, Mode::Bytes] {
            for split in [false, true] {
                for w in [1usize, 2, 3, 5, 80] {
                    let out = fold_mode_line(input, width(w), mode, split);
                    let joined: Vec<u8> = out.concat();
                    assert_eq!(joined, input.as_bytes(), "w={} split={}", w, split);
                }
            }
        }
    }
}

#[test]
fn width_exact_without_split() {
    let out = fold_mode_line("abcdefghij", width(4), Mode::Graphemes, false);
    assert_eq!(out, segs(&["abcd", "efgh", "ij"]));
    for seg in &out[..out.len() - 1] {
        assert_eq!(seg.len(), 4);
    }
    assert!(out[out.len() - 1].len() <= 4);
}

#[test]
fn breaks_fall_after_whitespace_when_present() {
    let out = fold_mode_line("one two three four", width(7), Mode::Graphemes, true);
    let joined: Vec<u8> = out.concat();
    assert_eq!(joined, "one two three four".as_bytes());
    for seg in &out[..out.len() - 1] {
        let has_ws = seg.iter().any(|b| b.is_ascii_whitespace());
        if has_ws {
            assert!(seg.last().unwrap().is_ascii_whitespace(), "{:?}", seg);
        }
    }
}

#[test]
fn refolding_folded_output_splits_nothing() {
    for split in [false, true] {
        let out = fold_mode_line("the quick brown fox jumps", width(6), Mode::Graphemes, split);
        for seg in &out {
            let text = String::from_utf8(seg.clone()).unwrap();
            let again = fold_mode_line(&text, width(6), Mode::Graphemes, split);
            assert_eq!(again, vec![seg.clone()]);
        }
    }
}

#[test]
fn byte_mode_splits_inside_encoded_char() {
    let out = fold_mode_line("é", width(1), Mode::Bytes, false);
    assert_eq!(out, vec![vec![0xc3u8], vec![0xa9u8]]);
}

#[test]
fn char_mode_counts_scalar_values() {
    let out = fold_mode_line("é", width(1), Mode::Chars, false);
    assert_eq!(out, segs(&["é"]));
    let out = fold_mode_line("e\u{301}x", width(1), Mode::Chars, false);
    assert_eq!(out, segs(&["e", "\u{301}", "x"]));
}

#[test]
fn grapheme_mode_keeps_combining_marks_together() {
    let out = fold_mode_line("e\u{301}x", width(1), Mode::Graphemes, false);
    assert_eq!(out, segs(&["e\u{301}", "x"]));
    let out = fold_mode_line("a\u{310}e\u{301}o\u{308}\u{332}", width(1), Mode::Graphemes, false);
    assert_eq!(out, segs(&["a\u{310}", "e\u{301}", "o\u{308}\u{332}"]));
}

#[test]
fn grapheme_mode_boundaries_drive_the_fold() {
    let out = fold_mode_line("ab", width(1), Mode::Graphemes, false);
    assert_eq!(out, segs(&["a", "b"]));
}

#[test]
fn width_one_degenerates_to_unit_per_line() {
    let out = fold_mode_line("abc", width(1), Mode::Graphemes, false);
    assert_eq!(out, segs(&["a", "b", "c"]));
}

#[test]
fn fold_line_with_explicit_boundaries() {
    let line: Vec<u8> = b"abcdef".to_vec();
    let boundaries: Vec<usize> = vec![0, 2, 4];
    let out = fold_line(&line, &boundaries, width(2), false);
    assert_eq!(out, segs(&["abcd", "ef"]));
}

#[test]
fn fold_file_keeps_line_order() {
    let lines = vec!["hello world".to_string(), "".to_string(), "ab".to_string()];
    let out = fold_file(&lines, width(5), Mode::Graphemes, false);
    assert_eq!(out, segs(&["hello", " worl", "d", "", "ab"]));
}

#[test]
fn fold_file_empty_input() {
    let lines: Vec<String> = vec![];
    let out = fold_file(&lines, width(5), Mode::Graphemes, true);
    assert!(out.is_empty());
}

#[test]
fn char_mode_split_counts_multibyte_chars_once() {
    let out = fold_mode_line("héé ww", width(3), Mode::Chars, true);
    assert_eq!(out, segs(&["héé", " ww"]));
}

#[test]
fn all_ascii_whitespace_kinds_are_break_points() {
    for ws in ['\t', '\r', '\x0c', ' '] {
        let input = format!("ab{}cd", ws);
        let out = fold_mode_line(&input, width(3), Mode::Graphemes, true);
        assert_eq!(out.len(), 2, "{:?} -> {:?}", input, out);
        assert_eq!(*out[0].last().unwrap(), ws as u8);
        let joined: Vec<u8> = out.concat();
        assert_eq!(joined, input.as_bytes());
    }
}
