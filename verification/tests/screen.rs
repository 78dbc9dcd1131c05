use zor::boundary::MAX_CONTROL_STRING_BYTES;
use zor::rules::view::{Progress, ScreenView};
use zor::screen::{window, Screen};

#[test]
fn overlong_chunked_control_strings_are_discarded_and_parser_recovers() {
    for (start, end) in [
        (b"\x1b]2;".as_slice(), b"\x07".as_slice()),
        (b"\x1bP".as_slice(), b"\x1b\\".as_slice()),
        (b"\x1b_".as_slice(), b"\x1b\\".as_slice()),
    ] {
        let mut screen = Screen::new(4, 20);
        assert!(!screen.process(start));
        let chunk = vec![b'x'; 1024];
        for _ in 0..=(MAX_CONTROL_STRING_BYTES / chunk.len()) {
            assert!(!screen.process(&chunk));
        }
        if end == b"\x1b\\" {
            assert!(!screen.process(b"\x1b"));
            assert!(screen.process(b"\\"));
        } else {
            assert!(screen.process(end));
        }
        assert!(screen.process(b"RECOVERED"));
        assert_eq!(screen.text(), "RECOVERED\n");
        assert_eq!(screen.title(), "");
        assert!(screen.take_observed_reports().is_empty());
    }
}

#[test]
fn valid_split_agent_osc_remains_observable_below_the_limit() {
    let mut screen = Screen::new(4, 20);
    for chunk in [
        b"\x1b]7877;state=blocked;agent=a;".as_slice(),
        b"seq=1;visible=blocker;exited=0\x1b",
        b"\\",
    ] {
        screen.process(chunk);
    }
    assert_eq!(screen.take_observed_reports().len(), 1);
    assert!(screen.ground());
}

#[test]
fn callbacks_record_title_bell_and_progress() {
    let mut screen = Screen::new(4, 20);
    screen.process(b"\x1b]2;hi\x07\x07\x1b]9;4;3;42\x07");
    assert_eq!(screen.title(), "hi");
    assert_eq!(screen.bell_count(), 1);
    assert_eq!(
        screen.progress(),
        Some(Progress {
            state: 3,
            percent: 42
        })
    );
}

#[test]
fn titles_clear_strip_controls_and_cap_length() {
    let mut screen = Screen::new(4, 400);
    let long = "x".repeat(300);
    screen.process(format!("\x1b]2;a\x01b\x07\x1b]2;{long}\x07").as_bytes());
    assert_eq!(screen.title().chars().count(), 256);
    screen.process(b"\x1b]2;\x07");
    assert_eq!(screen.title(), "");
}

#[test]
fn progress_accepts_all_states_and_ignores_malformed_reports() {
    let mut screen = Screen::new(4, 20);
    for state in 0..=3 {
        screen.process(format!("\x1b]9;4;{state};25\x07").as_bytes());
        let expected = if state == 0 {
            Progress {
                state: 0,
                percent: 0,
            }
        } else {
            Progress { state, percent: 25 }
        };
        assert_eq!(screen.progress(), Some(expected));
    }
    screen.process(b"\x1b]9;4;9;200\x07");
    assert_eq!(
        screen.progress(),
        Some(Progress {
            state: 3,
            percent: 25
        })
    );
}

#[test]
fn wide_glyph_appears_once_and_alternate_screen_is_separate() {
    let mut screen = Screen::new(3, 10);
    screen.process("界".as_bytes());
    assert_eq!(screen.text(), "界\n");
    screen.process(b"\x1b[?1049halt\x1b[Halt");
    assert_eq!(screen.text(), "alt\n");
    screen.process(b"\x1b[?1049l");
    assert_eq!(screen.text(), "界\n");
}

#[test]
fn repainting_identical_content_is_unchanged() {
    let mut screen = Screen::new(4, 20);
    screen.process(b"x");
    screen.clear_changed();
    screen.process(b"\r\x1b[Kx");
    assert!(!screen.changed());
}

#[test]
fn a_blank_screen_shows_nothing_and_counts_as_changed() {
    let screen = Screen::new(4, 20);
    assert_eq!(screen.text(), "");
    assert!(screen.lines().is_empty());
    assert!(screen.changed());
    assert!(screen.ground());
    assert_eq!(screen.size(), (4, 20));
    assert_eq!(screen.progress(), None);
    assert_eq!(screen.bell_count(), 0);
}

#[test]
fn the_window_reaches_into_the_history() {
    let mut screen = Screen::new(3, 10);
    screen.process(b"one\r\ntwo\r\nthree\r\nfour");
    assert_eq!(screen.text(), "two\nthree\nfour\n");
    screen.process(b"\x1b[H\x1b[J");
    assert!(screen.lines().is_empty());
    screen.process(b"x");
    assert_eq!(screen.lines(), vec!["one".to_owned(), "x".to_owned()]);
}

#[test]
fn a_resize_changes_the_size_and_keeps_the_text() {
    let mut screen = Screen::new(3, 10);
    screen.process(b"text");
    screen.clear_changed();
    screen.resize(5, 30);
    assert!(screen.changed());
    assert_eq!(screen.size(), (5, 30));
    assert_eq!(screen.text(), "text\n");
}

#[test]
fn clearing_the_evidence_forgets_title_and_progress() {
    let mut screen = Screen::new(3, 20);
    screen.process(b"\x1b]2;busy\x07\x1b]9;4;1;10\x07text");
    screen.clear_changed();
    screen.clear_detection_evidence();
    assert_eq!(screen.title(), "");
    assert_eq!(screen.progress(), None);
    assert_eq!(screen.text(), "text\n");
    assert!(screen.changed());
}

#[test]
fn observed_titles_are_cleaned_and_progress_is_taken_over() {
    let mut screen = Screen::new(3, 20);
    screen.set_observed_title("a\u{7}b\u{85}c");
    assert_eq!(screen.title(), "abc");
    screen.set_observed_title(&"x".repeat(300));
    assert_eq!(screen.title().len(), 256);
    let progress = Progress {
        state: 4,
        percent: 7,
    };
    screen.set_observed_progress(Some(progress));
    assert_eq!(screen.progress(), Some(progress));
}

#[test]
fn reports_of_both_numbers_are_taken_once() {
    let mut screen = Screen::new(3, 20);
    screen.process(b"\x1b]7877;state=none;seq=1\x07\x1b]21337;status=working\x1b\\\x1b]777;x\x07");
    assert_eq!(
        screen.take_observed_reports(),
        vec![
            b"7877;state=none;seq=1".to_vec(),
            b"21337;status=working".to_vec()
        ]
    );
    assert!(screen.take_observed_reports().is_empty());
}

#[test]
fn invalid_bytes_in_a_title_are_replaced() {
    let mut screen = Screen::new(3, 20);
    screen.process(b"\x1b]2;a\xffb\x07");
    assert_eq!(screen.title(), "a\u{fffd}b");
}

fn strings(values: &[&str]) -> Vec<String> {
    values.iter().map(|value| value.to_string()).collect()
}

#[test]
fn windows_end_at_the_later_of_text_and_cursor() {
    let above = strings(&["h1", "h2", "h3"]);
    assert_eq!(
        window(false, above, strings(&["a", "", ""]), 1, 3),
        strings(&["h3", "a"])
    );
    let above = strings(&["h1", "h2", "h3"]);
    assert_eq!(
        window(false, above, strings(&["a", "b", ""]), 0, 3),
        strings(&["h3", "a", "b"])
    );
    let above = strings(&["h1", "h2", "h3"]);
    assert_eq!(
        window(false, above, strings(&["", "", ""]), 0, 3),
        strings(&[])
    );
    assert_eq!(
        window(true, strings(&["h1"]), strings(&["a", "b", ""]), 0, 3),
        strings(&["a", "b"])
    );
}

#[test]
fn a_cancel_of_the_child_undoes_nothing() {
    let mut screen = Screen::new(4, 20);
    screen.process(b"\x1b]2;hi\x07\x18");
    assert_eq!(screen.title(), "hi");
    screen.process(b"\x07\x1b]2;lost\x18text\x1b]2;new\x07");
    assert_eq!(screen.title(), "new");
    assert_eq!(screen.bell_count(), 1);
    assert_eq!(screen.text(), "text\n");
}

#[test]
fn a_wide_character_that_would_be_cut_is_erased() {
    let mut screen = Screen::new(2, 4);
    screen.process("ab\u{754c}\r\n\u{754c}cd".as_bytes());
    screen.resize(2, 3);
    assert_eq!(screen.text(), "ab\n\u{754c}c\n");
    screen.process(b"x");
    assert_eq!(screen.text(), "ab\n\u{754c}x\n");
    screen.process("\x1b[H\u{754c}\u{754c}\x1b[P\x1b[1;3H\x1b[X\x1b[@".as_bytes());
    screen.resize(3, 5);
    screen.process(b"\x1b[2J\x1b[Hdone");
    assert!(screen.text().ends_with("done\n"));
}

#[test]
fn narrow_characters_and_the_cursor_stay_where_they_are() {
    let mut screen = Screen::new(4, 20);
    screen.process("\u{256d}\u{2500}\u{2500}\u{256e}\r\n\u{2502} \u{276f}\x1b]2;ti".as_bytes());
    screen.resize(4, 10);
    assert_eq!(screen.text(), "\u{256d}\u{2500}\u{2500}\u{256e}\n\u{2502} \u{276f}\n");
    screen.process(b"tle\x07 go");
    assert_eq!(screen.title(), "title");
    assert_eq!(screen.text(), "\u{256d}\u{2500}\u{2500}\u{256e}\n\u{2502} \u{276f} go\n");
}

#[test]
fn mending_leaves_the_cursor_and_the_sequence_alone() {
    let mut screen = Screen::new(4, 6);
    screen.process("aaaa\u{754c}\r\nbbb\u{754c}\r\ncc\x1b[".as_bytes());
    screen.resize(4, 5);
    assert_eq!(screen.text(), "aaaa\nbbb\u{754c}\ncc\n");
    screen.process(b"1mdd\x1b[1;5Hz");
    assert_eq!(screen.text(), "aaaaz\nbbb\u{754c}\nccdd\n");
}

#[test]
fn mending_ignores_the_margins_and_the_origin() {
    let mut screen = Screen::new(4, 6);
    screen.process("aaaa\u{754c}\x1b[2;3r\x1b[?6h\x1b[1;1Hbb".as_bytes());
    screen.resize(4, 5);
    screen.process(b"b\x1b[1;1H>");
    assert_eq!(screen.text(), "aaaa\n>bb\n");
}

#[test]
fn the_screen_that_is_not_shown_is_mended_too() {
    let mut screen = Screen::new(2, 4);
    screen.process("ab\u{754c}\x1b[?1049hcd\u{754c}".as_bytes());
    screen.resize(2, 3);
    assert_eq!(screen.text(), "cd\n");
    screen.process(b"\x1b[?1049l");
    assert_eq!(screen.text(), "ab\n");
    screen.process(b"\x1b[1;3Hx\x1b[2K\x1b[1Gnew");
    assert_eq!(screen.text(), "new\n");

    let mut hidden = Screen::new(2, 4);
    hidden.process("\x1b[?47h\x1b[Hcd\u{754c}\x1b[?47lab".as_bytes());
    hidden.resize(2, 3);
    assert_eq!(hidden.text(), "ab\n");
    hidden.process(b"\x1b[?47h\x1b[1;3Hx");
    assert_eq!(hidden.text(), "cdx\n");
}

#[test]
fn narrowing_keeps_plain_text_on_the_screen() {
    let mut screen = Screen::new(4, 20);
    screen.process(b"plain text");
    screen.resize(4, 5);
    assert_eq!(screen.text(), "plain\n");
    screen.process(b"\r\nmore");
    assert_eq!(screen.text(), "plain\nmore\n");
}

#[test]
fn the_widest_character_fits_the_narrowest_screen() {
    let mut screen = Screen::new(2, 3);
    screen.process("\u{17d8}x\u{17d8}\u{17d8}".as_bytes());
    screen.process(b"\x1b[2J\x1b[Hok");
    assert_eq!(screen.text(), "\u{17d8}x\nok\n");
}

#[test]
fn long_stretches_are_shown_to_their_end() {
    let mut screen = Screen::new(4, 20);
    let mut stretch = b"\x1b]2;first\x07".to_vec();
    stretch.extend(b"\x1b[H.".repeat(5000));
    stretch.extend(b"\x1b]2;last\x07\x07\x1b[2J\x1b[Hend");
    screen.process(&stretch);
    assert_eq!(screen.title(), "last");
    assert_eq!(screen.bell_count(), 1);
    assert_eq!(screen.text(), "end\n");
    assert!(screen.ground());
}
