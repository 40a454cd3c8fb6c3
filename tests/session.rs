use yesh::{
    parse_command, real_main, rebuild_command_views, rebuild_line_views, split_command,
    ChildReport, Cycle, Input, Key, Segment, Style, StyledUnit, Yesh, INFO,
};

const STYLE: Style = Style { attributes: 0, color_pair: 0 };

fn chars(s: &str) -> Vec<char> {
    s.chars().collect()
}

fn quiet() -> ChildReport {
    ChildReport { output: Vec::new(), exited: false }
}

fn line_text(yesh: &Yesh, i: usize) -> String {
    yesh.lines[i].iter().map(|u| u.ch).collect()
}

fn type_text(yesh: &mut Yesh, s: &str) {
    for c in s.chars() {
        yesh.process_events(Input::Character(c), &quiet());
    }
}

fn token_strings(tokens: &[Vec<char>]) -> Vec<String> {
    tokens.iter().map(|t| t.iter().collect()).collect()
}

#[test]
fn simple_command_is_echoed_launched_and_streamed() {
    let mut yesh = Yesh::new(80, 24, STYLE);
    type_text(&mut yesh, "ls");
    assert_eq!(yesh.command, chars("ls"));
    yesh.process_events(Input::Character('\n'), &quiet());
    assert_eq!(yesh.lines.len(), 1);
    assert_eq!(line_text(&yesh, 0), "% ls");
    assert!(yesh.command.is_empty());
    assert!(yesh.running);
    let launch = yesh.take_launch().expect("a launch");
    assert_eq!(launch.program, chars("ls"));
    assert!(launch.args.is_empty());
    assert!(yesh.take_launch().is_none());

    let report = ChildReport { output: chars("Cargo.toml\nsrc\n"), exited: false };
    yesh.process_events(Input::Nothing, &report);
    assert_eq!(yesh.lines.len(), 3);
    assert_eq!(line_text(&yesh, 1), "Cargo.toml");
    assert_eq!(line_text(&yesh, 2), "src");
    assert!(yesh.running);

    let done = ChildReport { output: Vec::new(), exited: true };
    yesh.process_events(Input::Nothing, &done);
    assert!(!yesh.running);
    assert_eq!(yesh.lines.len(), 3);
}

#[test]
fn comment_is_stripped_before_launch() {
    let mut yesh = Yesh::new(80, 24, STYLE);
    type_text(&mut yesh, "ls # list files");
    yesh.process_events(Input::Character('\n'), &quiet());
    let launch = yesh.take_launch().expect("a launch");
    assert_eq!(launch.program, chars("ls"));
    assert_eq!(launch.args.len(), 0);
    assert_eq!(line_text(&yesh, 0), "% ls # list files");
}

#[test]
fn resize_mid_edit_keeps_command_and_offset() {
    let mut yesh = Yesh::new(20, 24, STYLE);
    let command: String = (0..50).map(|i| char::from(b'a' + (i % 26) as u8)).collect();
    type_text(&mut yesh, &command);
    assert_eq!(yesh.command.len(), 50);
    let widths: Vec<usize> = yesh.command_views.iter().map(|v| v.width).collect();
    assert_eq!(widths, vec![18, 20, 12]);
    let before = yesh.command_index_at_cursor();
    assert_eq!(before, Some(50));

    yesh.process_events(Input::Key(Key::Resize { columns: 10, lines: 24 }), &quiet());
    let widths: Vec<usize> = yesh.command_views.iter().map(|v| v.width).collect();
    assert_eq!(widths, vec![8, 10, 10, 10, 10, 2]);
    assert_eq!(widths.iter().sum::<usize>(), 50);
    let mut covered = Vec::new();
    for v in &yesh.command_views {
        covered.extend_from_slice(&yesh.command[v.offset..v.offset + v.width]);
    }
    assert_eq!(covered, chars(&command));
    assert_eq!(yesh.command_index_at_cursor(), before);
}

#[test]
fn resize_keeps_offset_in_the_middle_of_the_command() {
    let mut yesh = Yesh::new(20, 24, STYLE);
    type_text(&mut yesh, &"x".repeat(50));
    for _ in 0..25 {
        yesh.process_events(Input::Key(Key::Left), &quiet());
    }
    assert_eq!(yesh.command_index_at_cursor(), Some(25));
    yesh.process_events(Input::Key(Key::Resize { columns: 10, lines: 3 }), &quiet());
    assert_eq!(yesh.command_index_at_cursor(), Some(25));
    assert!(yesh.scroll_offset <= yesh.cursor_y && yesh.cursor_y < yesh.scroll_offset + 3);
}

#[test]
fn cancellation_while_running_is_absorbed() {
    let mut yesh = Yesh::new(80, 24, STYLE);
    type_text(&mut yesh, "sleep 5");
    yesh.process_events(Input::Character('\n'), &quiet());
    let launch = yesh.take_launch().expect("a launch");
    assert_eq!(launch.program, chars("sleep"));
    assert_eq!(launch.args, vec![chars("5")]);
    let lines_before = yesh.lines.len();
    let exit = yesh.process_events(Input::Interrupt, &quiet());
    assert!(!exit);
    assert!(yesh.running);
    assert_eq!(yesh.lines.len(), lines_before);
    assert!(yesh.take_launch().is_none());
}

#[test]
fn line_views_tile_each_line() {
    let lines = vec![vec!['a'; 25], Vec::new(), vec!['b'; 10], vec!['c'; 3]];
    let views = rebuild_line_views(&lines, 10);
    let got: Vec<(usize, usize, usize, usize)> =
        views.iter().map(|v| (v.index, v.segment.row, v.segment.offset, v.segment.width)).collect();
    assert_eq!(
        got,
        vec![(0, 0, 0, 10), (0, 1, 10, 10), (0, 2, 20, 5), (2, 3, 0, 10), (3, 4, 0, 3)]
    );
    for (i, line) in lines.iter().enumerate() {
        let mut rebuilt = Vec::new();
        let mut total = 0;
        for v in views.iter().filter(|v| v.index == i) {
            rebuilt.extend_from_slice(&line[v.segment.offset..v.segment.offset + v.segment.width]);
            total += v.segment.width;
        }
        assert_eq!(total, line.len());
        assert_eq!(&rebuilt, line);
    }
}

#[test]
fn empty_line_yields_no_view() {
    let lines: Vec<Vec<char>> = vec![Vec::new()];
    assert!(rebuild_line_views(&lines, 5).is_empty());
}

#[test]
fn command_views_start_after_the_prompt() {
    let views = rebuild_command_views(7, 2, 5, 4);
    assert_eq!(
        views,
        vec![
            Segment { row: 4, width: 3, offset: 0 },
            Segment { row: 5, width: 4, offset: 3 },
        ]
    );
    assert!(rebuild_command_views(0, 2, 5, 4).is_empty());
    let narrow = rebuild_command_views(3, 4, 3, 0);
    assert_eq!(
        narrow,
        vec![Segment { row: 0, width: 0, offset: 0 }, Segment { row: 1, width: 3, offset: 0 }]
    );
}

#[test]
fn cursor_round_trip_over_every_offset() {
    let mut yesh = Yesh::new(7, 50, STYLE);
    type_text(&mut yesh, "abcdefghijklmnopq");
    let len = yesh.command.len();
    let p = yesh.prompt.len();
    let w = yesh.columns;
    let start = yesh.line_views.len();
    for i in 0..=len {
        let (x, y) = if i < w - p { (p + i, start) } else { ((i - (w - p)) % w, start + 1 + (i - (w - p)) / w) };
        yesh.cursor_x = x;
        yesh.cursor_y = y;
        assert_eq!(yesh.command_index_at_cursor(), Some(i), "offset {}", i);
    }
}

#[test]
fn rebuilding_twice_gives_the_same_views() {
    let mut yesh = Yesh::new(6, 10, STYLE);
    type_text(&mut yesh, "echo one two");
    yesh.refresh_views();
    let lines_once = yesh.line_views.clone();
    let command_once = yesh.command_views.clone();
    yesh.refresh_views();
    assert_eq!(yesh.line_views, lines_once);
    assert_eq!(yesh.command_views, command_once);
}

#[test]
fn backspace_on_empty_command_ends_session() {
    let mut yesh = Yesh::new(80, 24, STYLE);
    assert!(yesh.process_events(Input::Key(Key::Backspace), &quiet()));
}

#[test]
fn end_of_transmission_on_empty_command_ends_session() {
    let mut yesh = Yesh::new(80, 24, STYLE);
    assert!(yesh.process_events(Input::Character('\u{4}'), &quiet()));
}

#[test]
fn delete_at_end_of_command_changes_nothing() {
    let mut yesh = Yesh::new(80, 24, STYLE);
    type_text(&mut yesh, "abc");
    let exit = yesh.process_events(Input::Key(Key::DeleteCharacter), &quiet());
    assert!(!exit);
    assert_eq!(yesh.command, chars("abc"));
    assert_eq!(yesh.cursor_x, 5);
}

#[test]
fn delete_keys_edit_the_command() {
    let mut yesh = Yesh::new(80, 24, STYLE);
    type_text(&mut yesh, "abcd");
    yesh.process_events(Input::Key(Key::Left), &quiet());
    yesh.process_events(Input::Key(Key::Left), &quiet());
    yesh.process_events(Input::Key(Key::DeleteCharacter), &quiet());
    assert_eq!(yesh.command, chars("abd"));
    yesh.process_events(Input::Character('\u{7f}'), &quiet());
    assert_eq!(yesh.command, chars("ad"));
    assert_eq!(yesh.command_index_at_cursor(), Some(1));
    yesh.process_events(Input::Character('\u{8}'), &quiet());
    assert_eq!(yesh.command, chars("d"));
    yesh.process_events(Input::Key(Key::Backspace), &quiet());
    assert_eq!(yesh.command, chars("d"));
    assert_eq!(yesh.cursor_x, 2);
}

#[test]
fn left_at_first_editable_column_stays() {
    let mut yesh = Yesh::new(80, 24, STYLE);
    yesh.process_events(Input::Key(Key::Left), &quiet());
    assert_eq!((yesh.cursor_x, yesh.cursor_y), (2, 0));
}

#[test]
fn up_from_top_row_changes_nothing() {
    let mut yesh = Yesh::new(80, 24, STYLE);
    yesh.process_events(Input::Key(Key::Up), &quiet());
    assert_eq!((yesh.cursor_x, yesh.cursor_y, yesh.scroll_offset), (2, 0, 0));
}

#[test]
fn typing_wraps_to_next_row() {
    let mut yesh = Yesh::new(5, 24, STYLE);
    type_text(&mut yesh, "abc");
    assert_eq!((yesh.cursor_x, yesh.cursor_y), (0, 1));
    assert_eq!(yesh.command_index_at_cursor(), Some(3));
    type_text(&mut yesh, "d");
    assert_eq!((yesh.cursor_x, yesh.cursor_y), (1, 1));
    assert_eq!(yesh.command, chars("abcd"));
}

#[test]
fn scrolling_follows_the_cursor_down() {
    let mut yesh = Yesh::new(10, 2, STYLE);
    type_text(&mut yesh, &"z".repeat(30));
    assert_eq!(yesh.cursor_y, 3);
    assert_eq!(yesh.scroll_offset, 2);
    yesh.process_events(Input::Key(Key::Up), &quiet());
    yesh.process_events(Input::Key(Key::Up), &quiet());
    assert_eq!(yesh.cursor_y, 1);
    assert_eq!(yesh.scroll_offset, 1);
}

#[test]
fn info_builtin_prints_banner() {
    let mut yesh = Yesh::new(200, 24, STYLE);
    type_text(&mut yesh, "info");
    yesh.process_events(Input::Character('\n'), &quiet());
    assert!(!yesh.running);
    assert!(yesh.take_launch().is_none());
    let banner: Vec<&str> = INFO.split('\n').collect();
    assert_eq!(yesh.lines.len(), 1 + banner.len());
    assert_eq!(line_text(&yesh, 0), "% info");
    for (i, l) in banner.iter().enumerate() {
        assert_eq!(line_text(&yesh, i + 1), *l);
    }
}

#[test]
fn exit_builtin_ends_session() {
    let mut yesh = Yesh::new(80, 24, STYLE);
    type_text(&mut yesh, "  exit  ");
    assert!(yesh.process_events(Input::Character('\n'), &quiet()));
    assert!(yesh.take_launch().is_none());
}

#[test]
fn empty_command_only_echoes() {
    let mut yesh = Yesh::new(80, 24, STYLE);
    yesh.process_events(Input::Character('\n'), &quiet());
    assert_eq!(yesh.lines.len(), 1);
    assert_eq!(line_text(&yesh, 0), "% ");
    assert!(!yesh.running);
}

#[test]
fn launch_failure_is_reported_in_scrollback() {
    let mut yesh = Yesh::new(200, 24, STYLE);
    type_text(&mut yesh, "nosuchprogram");
    yesh.process_events(Input::Character('\n'), &quiet());
    assert!(yesh.take_launch().is_some());
    yesh.launch_failed("No such file or directory (os error 2)");
    assert!(!yesh.running);
    assert_eq!(
        line_text(&yesh, 1),
        "yesh: ERROR: Failed to launch command: No such file or directory (os error 2)"
    );
}

#[test]
fn partial_output_waits_for_its_line_feed() {
    let mut yesh = Yesh::new(80, 24, STYLE);
    type_text(&mut yesh, "cat");
    yesh.process_events(Input::Character('\n'), &quiet());
    yesh.take_launch();
    yesh.process_events(Input::Nothing, &ChildReport { output: chars("ab"), exited: false });
    assert_eq!(yesh.lines.len(), 1);
    assert_eq!(yesh.pending, chars("ab"));
    yesh.process_events(Input::Nothing, &ChildReport { output: chars("c\nde"), exited: false });
    assert_eq!(yesh.lines.len(), 2);
    assert_eq!(line_text(&yesh, 1), "abc");
    yesh.process_events(Input::Nothing, &ChildReport { output: Vec::new(), exited: true });
    assert_eq!(yesh.lines.len(), 3);
    assert_eq!(line_text(&yesh, 2), "de");
    assert!(!yesh.running);
}

#[test]
fn keystrokes_are_not_inserted_while_running() {
    let mut yesh = Yesh::new(80, 24, STYLE);
    type_text(&mut yesh, "cat");
    yesh.process_events(Input::Character('\n'), &quiet());
    yesh.take_launch();
    type_text(&mut yesh, "xy");
    assert!(yesh.command.is_empty());
}

#[test]
fn report_is_ignored_until_launch_is_taken() {
    let mut yesh = Yesh::new(80, 24, STYLE);
    type_text(&mut yesh, "cat");
    let report = ChildReport { output: chars("early\n"), exited: true };
    yesh.process_events(Input::Character('\n'), &report);
    assert!(yesh.running);
    assert_eq!(yesh.lines.len(), 1);
}

#[test]
fn typing_on_the_prompt_label_is_dropped() {
    let mut yesh = Yesh::new(80, 24, STYLE);
    yesh.cursor_x = 0;
    yesh.process_events(Input::Character('q'), &quiet());
    assert!(yesh.command.is_empty());
}

#[test]
fn other_control_codes_are_ignored() {
    let mut yesh = Yesh::new(80, 24, STYLE);
    type_text(&mut yesh, "ab");
    yesh.process_events(Input::Character('\u{1b}'), &quiet());
    yesh.process_events(Input::Character('\u{85}'), &quiet());
    assert_eq!(yesh.command, chars("ab"));
}

#[test]
fn parse_command_splits_on_white_space() {
    let tokens = parse_command(&chars("  grep\t-n  foo#bar baz"));
    assert_eq!(token_strings(&tokens), vec!["grep", "-n", "foo"]);
    assert!(parse_command(&chars("# nothing")).is_empty());
    assert!(parse_command(&chars("   ")).is_empty());
}

#[test]
fn split_command_follows_given_blanks() {
    let command = chars("a-b-c");
    let blanks = vec![false, true, false, true, false];
    let tokens = split_command(&command, &blanks);
    assert_eq!(token_strings(&tokens), vec!["a", "b", "c"]);
}

#[test]
fn frame_draws_scrollback_prompt_and_command() {
    let mut yesh = Yesh::new(200, 24, STYLE);
    type_text(&mut yesh, "info");
    yesh.process_events(Input::Character('\n'), &quiet());
    for _ in 0..5 {
        yesh.process_events(Input::Key(Key::Down), &quiet());
    }
    type_text(&mut yesh, "x");
    let frame = yesh.render();
    let first: Vec<(usize, usize, char)> =
        frame.cells.iter().take(6).map(|c| (c.x, c.y, c.unit.ch)).collect();
    assert_eq!(first, vec![(0, 0, '%'), (1, 0, ' '), (2, 0, 'i'), (3, 0, 'n'), (4, 0, 'f'), (5, 0, 'o')]);
    let start = yesh.line_views.len();
    let tail: Vec<(usize, usize, char)> =
        frame.cells.iter().rev().take(3).map(|c| (c.x, c.y, c.unit.ch)).collect();
    assert_eq!(tail, vec![(2, start, 'x'), (1, start, ' '), (0, start, '%')]);
    assert!(frame.cells.iter().all(|c| c.unit.style == STYLE));
    assert_eq!((frame.cursor_x, frame.cursor_y), (yesh.cursor_x, yesh.cursor_y));
}

#[test]
fn frame_hides_prompt_while_running() {
    let mut yesh = Yesh::new(80, 24, STYLE);
    type_text(&mut yesh, "cat");
    yesh.process_events(Input::Character('\n'), &quiet());
    yesh.take_launch();
    let frame = yesh.render();
    let text: String = frame.cells.iter().map(|c| c.unit.ch).collect();
    assert_eq!(text, "% cat");
}

#[test]
fn real_main_runs_one_turn() {
    let mut yesh = Yesh::new(80, 24, STYLE);
    match real_main(&mut yesh, Input::Character('e'), &quiet()) {
        Cycle::Draw(frame) => assert_eq!(frame.cells.len(), 3),
        _ => panic!("expected a frame"),
    }
    real_main(&mut yesh, Input::Character('d'), &quiet());
    match real_main(&mut yesh, Input::Character('\n'), &quiet()) {
        Cycle::Launch(launch) => assert_eq!(launch.program, chars("ed")),
        _ => panic!("expected a launch"),
    }
    assert!(yesh.launch.is_none());
    let done = ChildReport { output: Vec::new(), exited: true };
    real_main(&mut yesh, Input::Nothing, &done);
    yesh.process_events(Input::Key(Key::Down), &quiet());
    type_text(&mut yesh, "exit");
    assert_eq!(yesh.command, chars("exit"));
    assert!(matches!(real_main(&mut yesh, Input::Character('\n'), &quiet()), Cycle::Exit));
}

#[test]
fn styled_units_keep_the_session_style() {
    let style = Style { attributes: 0x200, color_pair: 3 };
    let mut yesh = Yesh::new(80, 24, style);
    yesh.process_events(Input::Character('\n'), &quiet());
    assert_eq!(yesh.lines[0][0], StyledUnit { ch: '%', style });
}

#[test]
fn dispatch_character_follows_the_given_control_flag() {
    let mut yesh = Yesh::new(80, 24, STYLE);
    yesh.dispatch_character('a', true);
    assert!(yesh.command.is_empty());
    yesh.dispatch_character('\u{4}', false);
    assert_eq!(yesh.command, vec!['\u{4}']);
    yesh.dispatch_character('\u{8}', true);
    assert!(yesh.command.is_empty());
}

#[test]
fn report_without_a_child_changes_nothing() {
    let mut yesh = Yesh::new(80, 24, STYLE);
    yesh.read_from_child(&ChildReport { output: chars("stray\n"), exited: true });
    assert!(yesh.lines.is_empty());
    assert!(yesh.pending.is_empty());
}

#[test]
fn wrap_segments_gives_a_short_last_row() {
    let segments = yesh::wrap_segments(11, 4, 5, 2);
    let got: Vec<(usize, usize, usize)> = segments.iter().map(|s| (s.row, s.offset, s.width)).collect();
    assert_eq!(got, vec![(2, 0, 4), (3, 4, 5), (4, 9, 2)]);
}

#[test]
fn narrow_window_keeps_cursor_inside() {
    let mut yesh = Yesh::new(1, 1, STYLE);
    assert_eq!((yesh.cursor_x, yesh.cursor_y), (0, 0));
    type_text(&mut yesh, "ab");
    assert!(yesh.cursor_x < yesh.columns);
    assert!(yesh.scroll_offset <= yesh.cursor_y && yesh.cursor_y < yesh.scroll_offset + yesh.rows);
}

fn finish_child(yesh: &mut Yesh, output: &str) {
    yesh.take_launch();
    yesh.process_events(Input::Nothing, &ChildReport { output: chars(output), exited: true });
}

#[test]
fn left_from_prompt_label_wraps_to_row_above() {
    let mut yesh = Yesh::new(80, 24, STYLE);
    type_text(&mut yesh, "ab");
    yesh.process_events(Input::Character('\n'), &quiet());
    finish_child(&mut yesh, "");
    assert_eq!((yesh.cursor_x, yesh.cursor_y), (4, 0));
    for _ in 0..4 {
        yesh.process_events(Input::Key(Key::Left), &quiet());
    }
    assert_eq!((yesh.cursor_x, yesh.cursor_y), (0, 0));
    yesh.process_events(Input::Key(Key::Down), &quiet());
    assert_eq!((yesh.cursor_x, yesh.cursor_y), (0, 1));
    yesh.process_events(Input::Key(Key::Left), &quiet());
    assert_eq!((yesh.cursor_x, yesh.cursor_y), (4, 0));
}

#[test]
fn left_at_first_editable_column_below_scrollback_stays() {
    let mut yesh = Yesh::new(80, 24, STYLE);
    type_text(&mut yesh, "ab");
    yesh.process_events(Input::Character('\n'), &quiet());
    finish_child(&mut yesh, "");
    yesh.process_events(Input::Key(Key::Down), &quiet());
    assert_eq!((yesh.cursor_x, yesh.cursor_y), (2, 1));
    yesh.process_events(Input::Key(Key::Left), &quiet());
    assert_eq!((yesh.cursor_x, yesh.cursor_y), (2, 1));
}

#[test]
fn clamp_uses_the_row_the_cursor_ends_on() {
    let mut yesh = Yesh::new(80, 2, STYLE);
    type_text(&mut yesh, "abc");
    yesh.process_events(Input::Character('\n'), &quiet());
    finish_child(&mut yesh, "0123456789\n");
    assert_eq!(yesh.lines.len(), 2);
    yesh.process_events(Input::Key(Key::Down), &quiet());
    for _ in 0..3 {
        yesh.process_events(Input::Key(Key::Right), &quiet());
    }
    assert_eq!((yesh.cursor_x, yesh.cursor_y, yesh.scroll_offset), (8, 1, 0));
    yesh.process_events(Input::Key(Key::Resize { columns: 80, lines: 1 }), &quiet());
    assert_eq!((yesh.cursor_x, yesh.cursor_y), (5, 0));
}
