use diffo::tui_screen::Screen;
use diffo::tui_text::fit_cell;
use std::ops::Range;

// Retain complete styled rows so comparisons catch stale colors as well as text.
struct Terminal {
    rows: Vec<String>,
    region: Range<usize>,
}
impl Terminal {
    fn new(height: usize) -> Self {
        Self {
            rows: vec![String::new(); height],
            region: 0..height,
        }
    }
    fn apply(&mut self, output: &str) {
        let mut row = 0;
        for part in output.split("\x1b[").skip(1) {
            let end = part
                .bytes()
                .position(|byte| byte.is_ascii_alphabetic())
                .unwrap();
            let command = part.as_bytes()[end];
            let params = &part[..end];
            match command {
                b'H' => {
                    row = params.split(';').next().unwrap().parse::<usize>().unwrap() - 1;
                    self.rows[row].clear();
                }
                b'm' => {
                    self.rows[row].push_str("\x1b[");
                    self.rows[row].push_str(&part[..=end]);
                }
                b'r' => {
                    self.region = if params.is_empty() {
                        0..self.rows.len()
                    } else {
                        let (top, bottom) = params.split_once(';').unwrap();
                        top.parse::<usize>().unwrap() - 1..bottom.parse().unwrap()
                    };
                }
                b'S' | b'T' => {
                    let count = params.parse::<usize>().unwrap();
                    let rows = &mut self.rows[self.region.clone()];
                    if command == b'S' {
                        rows.rotate_left(count);
                        let len = rows.len();
                        rows[len - count..].fill_with(String::new);
                    } else {
                        rows.rotate_right(count);
                        rows[..count].fill_with(String::new);
                    }
                }
                b'h' | b'l' => {}
                _ => panic!("Unexpected terminal command: {part:?}"),
            }
            self.rows[row].push_str(&part[end + 1..]);
        }
    }
}

fn styled(text: &str, width: usize, selected: bool) -> String {
    format!(
        "\x1b[{}m{}\x1b[0m",
        if selected { 35 } else { 32 },
        fit_cell(text, width)
    )
}

#[test]
fn scrolling_matches_full_frames_including_styles_sidebar_and_dock() {
    for sidebar in [false, true] {
        let mut screen = Screen::default();
        let mut terminal = Terminal::new(18);
        let mut saw_up = false;
        let mut saw_down = false;
        for first in (0..40).chain((0..40).rev()) {
            let mut lines = vec![styled("file.rs", 80, false)];
            for y in 1..14 {
                let side = if sidebar && y < 4 {
                    format!("file {y}")
                } else {
                    String::new()
                };
                lines.push(styled(
                    &format!("{side:8} | line {} 架构 e\u{301}", first + y),
                    80,
                    y == 13,
                ));
            }
            lines.extend((0..3).map(|y| styled(&format!("comment row {y}"), 80, false)));
            lines.push(styled(&format!("CODE {}", first + 13), 80, false));
            let output = screen.draw(lines.clone(), 80, 1..14);
            saw_up |= output.contains("\x1b[1S");
            saw_down |= output.contains("\x1b[1T");
            terminal.apply(&output);
            assert_eq!(terminal.rows, lines, "first={first} sidebar={sidebar}");
            assert_eq!(terminal.region, 0..18);
        }
        assert!(saw_up && saw_down);
    }
}

#[test]
fn resize_and_invalidation_remove_stale_rows() {
    let mut screen = Screen::default();
    for (width, height) in [(1, 3), (19, 8), (120, 30), (80, 24)] {
        let lines: Vec<_> = (0..height)
            .map(|y| styled(&format!("row {y}"), width, false))
            .collect();
        let mut terminal = Terminal::new(height);
        let output = screen.draw(lines.clone(), width, 1..height - 1);
        assert_eq!(output.matches(";1H").count(), height);
        terminal.apply(&output);
        assert_eq!(terminal.rows, lines);
        let unchanged = screen.draw(lines.clone(), width, 1..height - 1);
        assert_eq!(unchanged.matches(";1H").count(), 2);
        assert!(!unchanged.contains("\x1b[r"));
        terminal.apply(&unchanged);
        assert_eq!(terminal.rows, lines);
        let overlay = 1..height - 1;
        terminal.rows[overlay.clone()].fill("overlay text".into());
        screen.invalidate_rows(overlay);
        terminal.apply(&screen.draw(lines.clone(), width, 1..height - 1));
        assert_eq!(terminal.rows, lines);
        screen.invalidate();
        assert_eq!(
            screen
                .draw(lines, width, 1..height - 1)
                .matches(";1H")
                .count(),
            height
        );
    }
}
