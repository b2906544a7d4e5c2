use apilaaa::ui::dash::{
    bar_layout, clip, clock, footer_phase, handle, header_cell, header_column, log_rows,
    scroll_back, scroll_forward, style_line, track, width, wrap, Key, Tone,
};
use apilaaa::ui::{
    aborted, finish, head, is_warning, phase, request_abort, say, shutdown, start_dashboard,
    task_add, task_begin, task_end, task_set, Sink, State, Stop, Task, LOG_CAP,
};

fn text(s: &str) -> String {
    String::from(s)
}

fn board(sink: &Sink) -> &State {
    match sink {
        Sink::Tui(ui) => &ui.state,
        Sink::Plain => panic!("no dashboard"),
    }
}

fn new_sink() -> Sink {
    start_dashboard(vec![(text("input"), text("/frames"))])
}

#[test]
fn plain_lines_are_printed() {
    let mut sink = Sink::Plain;
    assert_eq!(say(&mut sink, text("hello")), Some(text("hello")));
    head(&mut sink, "a", text("b"));
    task_begin(&mut sink, "t", "label", 3);
    assert!(matches!(sink, Sink::Plain));
}

#[test]
fn log_keeps_the_latest_lines() {
    let mut sink = new_sink();
    for i in 0..LOG_CAP + 3 {
        assert_eq!(say(&mut sink, format!("line {}", i)), None);
    }
    let st = board(&sink);
    assert_eq!(st.log.len(), LOG_CAP);
    assert_eq!(st.dropped, 3);
    assert_eq!(st.log[0], "line 3");
    assert_eq!(st.log[LOG_CAP - 1], format!("line {}", LOG_CAP + 2));
}

#[test]
fn warnings_are_kept_aside() {
    assert!(is_warning("  WARNING: few stars"));
    assert!(is_warning("a.arw: LOAD FAILED"));
    assert!(is_warning("a.arw NOT ALIGNED"));
    assert!(is_warning("implausible alignment"));
    assert!(is_warning("different dimensions"));
    assert!(!is_warning("warning in small letters"));
    let mut sink = new_sink();
    say(&mut sink, text("fine"));
    say(&mut sink, text("WARNING: cloud"));
    assert_eq!(board(&sink).warnings, vec![text("WARNING: cloud")]);
    assert_eq!(board(&sink).log.len(), 2);
    for i in 0..600 {
        say(&mut sink, format!(" WARNING: {} ", i));
    }
    assert_eq!(board(&sink).warnings.len(), 601);
    assert_eq!(board(&sink).warnings[600], "WARNING: 599");
}

#[test]
fn header_fields_are_replaced_or_added() {
    let mut sink = new_sink();
    head(&mut sink, "input", text("/other"));
    head(&mut sink, "frames", text("12"));
    assert_eq!(
        board(&sink).header,
        vec![(text("input"), text("/other")), (text("frames"), text("12"))]
    );
    phase(&mut sink, "stacking");
    assert_eq!(board(&sink).phase, "stacking");
}

#[test]
fn bars_begin_move_and_end() {
    let mut sink = new_sink();
    task_begin(&mut sink, "align", "align frames", 10);
    task_begin(&mut sink, "stack", "stack", 0);
    task_add(&mut sink, "align", 4);
    task_add(&mut sink, "align", 5);
    task_set(&mut sink, "stack", 7);
    task_add(&mut sink, "nowhere", 1);
    assert_eq!(board(&sink).tasks[0].done, 9);
    assert_eq!(board(&sink).tasks[1].done, 7);
    task_add(&mut sink, "align", 5);
    task_end(&mut sink, "align", text("ok"));
    assert!(board(&sink).tasks[0].finished);
    assert_eq!(board(&sink).tasks[0].done, 10);
    assert_eq!(board(&sink).tasks[0].note, "ok");
    task_begin(&mut sink, "align", "again", 3);
    assert_eq!(board(&sink).tasks.len(), 2);
    assert_eq!(board(&sink).tasks[0].label, "again");
    assert_eq!(board(&sink).tasks[0].done, 0);
    assert!(!board(&sink).tasks[0].finished);
}

#[test]
fn stopping_is_remembered() {
    let mut stop = Stop { asked: false };
    assert!(!aborted(&stop));
    request_abort(&mut stop);
    assert!(aborted(&stop));
}

#[test]
fn errors_end_the_run_as_failed() {
    let mut sink = new_sink();
    finish(&mut sink, Some(text("no frames")), false, 1234);
    assert_eq!(board(&sink).log[0], "ERROR: no frames");
    assert!(matches!(&sink, Sink::Tui(ui) if ui.failed && ui.done && ui.finish_ms == 1234));
    let mut sink = new_sink();
    finish(&mut sink, Some(text("stopped by the user")), true, 10);
    assert!(board(&sink).log.is_empty());
    assert!(matches!(&sink, Sink::Tui(ui) if !ui.failed && ui.done));
    let mut sink = new_sink();
    finish(&mut sink, None, false, 10);
    assert!(matches!(&sink, Sink::Tui(ui) if !ui.failed && ui.done));
}

#[test]
fn summary_repeats_what_matters() {
    let mut sink = new_sink();
    task_begin(&mut sink, "align", "align", 2);
    task_add(&mut sink, "align", 2);
    task_end(&mut sink, "align", text(""));
    for i in 0..25 {
        say(&mut sink, format!("WARNING: {}", i));
    }
    let lines = shutdown(board(&sink));
    assert!(lines[0].contains("input") && lines[0].contains("/frames"));
    assert!(lines.iter().any(|l| l.contains("align")));
    assert_eq!(lines[2], "25 warning(s):");
    for i in 0..25 {
        assert_eq!(lines[3 + i], format!("  WARNING: {}", i));
    }
    assert_eq!(lines.len(), 28);
}

#[test]
fn keys_scroll_and_stop() {
    let mut st = State::new(Vec::new());
    let mut stop = Stop { asked: false };
    assert!(!handle(&mut st, &mut stop, Key::Up, false, false));
    assert!(!st.follow && st.scroll == 1);
    handle(&mut st, &mut stop, Key::PageUp, false, false);
    assert_eq!(st.scroll, 11);
    handle(&mut st, &mut stop, Key::PageDown, false, false);
    assert_eq!(st.scroll, 1);
    handle(&mut st, &mut stop, Key::Down, false, false);
    assert!(st.follow && st.scroll == 0);
    handle(&mut st, &mut stop, Key::Home, false, false);
    assert_eq!(st.scroll, usize::MAX / 2);
    handle(&mut st, &mut stop, Key::End, false, false);
    assert!(st.follow && st.scroll == 0);
    assert!(!handle(&mut st, &mut stop, Key::Char('q'), false, false));
    assert!(stop.asked);
    assert_eq!(st.phase, "stopping after the frame in flight...");
    assert!(handle(&mut st, &mut stop, Key::Enter, false, true));
    assert!(handle(&mut st, &mut stop, Key::Char('c'), true, true));
    assert!(!handle(&mut st, &mut stop, Key::Up, false, true));
    scroll_back(&mut st, 3);
    scroll_forward(&mut st, 1);
    assert_eq!(st.scroll, 2);
}

#[test]
fn text_is_clipped_and_wrapped() {
    assert_eq!(width("αβγ"), 3);
    assert_eq!(clip("short", 9), "short");
    assert_eq!(clip("a long line", 6), "a lon…");
    assert_eq!(clip("abc", 0), "…");
    let rows = wrap("one two three four", 9);
    assert_eq!(rows.concat().replace(' ', ""), "onetwothreefour");
    assert!(rows.iter().all(|r| width(r) <= 9));
    assert!(rows.len() >= 2);
    assert_eq!(wrap("abcdefghij", 4), vec!["abcd"]);
    assert_eq!(wrap("abcdefghijklmnop", 9), vec!["abcdefghi", "    jklmn", "    op"]);
    assert_eq!(wrap("one two three", 9), vec!["one two", "    three"]);
}

#[test]
fn following_shows_the_end_of_the_log() {
    let mut st = State::new(Vec::new());
    for i in 0..10 {
        st.log.push_back(format!("{}", i));
    }
    assert_eq!(log_rows(&mut st, 20, 3), vec!["7", "8", "9"]);
    st.follow = false;
    st.scroll = 2;
    assert_eq!(log_rows(&mut st, 20, 3), vec!["5", "6", "7"]);
    st.scroll = 1000;
    assert_eq!(log_rows(&mut st, 20, 3), vec!["0", "1", "2"]);
    assert_eq!(st.scroll, 7);
}

#[test]
fn lines_have_their_tone() {
    assert!(matches!(style_line(" ERROR: x"), Tone::Error));
    assert!(matches!(style_line("WARNING: x"), Tone::Warning));
    assert!(matches!(style_line("a.arw: LOAD FAILED"), Tone::Problem));
    assert!(matches!(style_line("  detail"), Tone::Detail));
    assert!(matches!(style_line("plain"), Tone::Normal));
}

#[test]
fn layout_of_the_panels() {
    assert_eq!(header_column(30), 20);
    assert_eq!(header_column(100), 50);
    let (k, v, p) = header_cell("input", "/frames", 20, true);
    assert_eq!(k, "input    ");
    assert_eq!(v, "/frames");
    assert_eq!(p.len(), 20 - 16);
    let (_, v, p) = header_cell("input", "/a/very/long/path", 20, false);
    assert_eq!(v, "/a/very/l…");
    assert_eq!(p, "");
    let tasks = vec![Task {
        key: text("a"),
        label: text("align frames"),
        done: 5,
        total: 10,
        finished: false,
        note: text(""),
    }];
    let (label, count, cells) = bar_layout(&tasks, 60);
    assert_eq!(label, 12);
    assert_eq!(cells, 60 - (12 + 1 + count + 2));
    let none: Vec<Task> = Vec::new();
    assert_eq!(bar_layout(&none, 200), (6, 12, 56));
    let t = track(10, 4);
    assert_eq!(t, "░░░█░░░░░░");
    assert_eq!(clock(3_725_000, 5), " 01:02:05 ");
    assert_eq!(clock(0, 65), " 00:01:05 ");
    assert_eq!(footer_phase("aligning", false, false, false), "aligning");
    assert_eq!(footer_phase("aligning", true, true, true), "stopped");
    assert_eq!(footer_phase("aligning", true, false, true), "failed — see the last line of the log");
    assert_eq!(footer_phase("aligning", true, false, false), "done");
}
