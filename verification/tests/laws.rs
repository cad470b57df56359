use rsakura::art::art_lines;
use rsakura::buffer::Buffer;
use rsakura::cli::validate_color;
use rsakura::color::Color;
use rsakura::paint::DrawCommand;

/// Plays commands on a model terminal of `w` x `h` positions that starts
/// filled with `'?'` in no colour.
fn play(cmds: &[DrawCommand], w: usize, h: usize) -> Vec<Vec<(char, Option<Color>)>> {
    let mut screen = vec![vec![('?', None); w + 2]; h + 2];
    let (mut x, mut y, mut pen) = (0usize, 0usize, Some(Color::Cyan));
    for cmd in cmds {
        match cmd {
            DrawCommand::MoveTo(cx, cy) => {
                x = *cx;
                y = *cy;
            }
            DrawCommand::SetForegroundColor(c) => pen = Some(*c),
            DrawCommand::ResetColor => pen = None,
            DrawCommand::Print(s) => {
                for ch in s.chars() {
                    screen[y][x] = (ch, pen);
                    x += 1;
                }
            }
        }
    }
    screen
}

#[test]
fn display_shows_the_grid_and_nothing_else() {
    let mut b = Buffer::new(4, 3);
    b.write(0, 0, "ab", Color::Red);
    b.write_char(3, 0, 'c', Color::Blue);
    b.write_char(2, 1, 'd', Color::Red);
    b.write(1, 2, "ef", Color::Green);
    let screen = play(&b.display(), 4, 3);
    for y in 0..3 {
        for x in 0..4 {
            match b.get(x, y) {
                Some((ch, c)) => assert_eq!(screen[y][x], (ch, Some(c))),
                None => assert_eq!(screen[y][x].0, ' '),
            }
        }
        assert_eq!(screen[y][4], ('?', None));
    }
    assert_eq!(screen[3][0], ('?', None));
}

#[test]
fn write_then_read_back() {
    let mut b = Buffer::new(3, 3);
    b.write_char(1, 2, 'k', Color::AnsiValue(200));
    assert_eq!(b.get(1, 2), Some(('k', Color::AnsiValue(200))));
    for (x, y) in [(0, 0), (1, 1), (2, 2), (0, 2)] {
        assert_eq!(b.get(x, y), None);
    }
}

#[test]
fn decimal_triples_read_back() {
    for v in 0..=255u8 {
        let s = format!("{},{},{}", v, 255 - v, v / 3);
        assert_eq!(validate_color(&s), Ok(Color::Rgb { r: v, g: 255 - v, b: v / 3 }));
    }
}

#[test]
fn hex_triples_read_back() {
    for v in 0..=255u8 {
        let s = format!("#{:02x}{:02x}{:02x}", v, 255 - v, v / 3);
        assert_eq!(validate_color(&s), Ok(Color::Rgb { r: v, g: 255 - v, b: v / 3 }));
    }
}

#[test]
fn three_hex_digits_read_doubled() {
    for (short, long) in [("#abc", "#aabbcc"), ("#0f9", "#00ff99"), ("#F0a", "#ff00aa")] {
        assert_eq!(validate_color(short), validate_color(long));
        assert!(validate_color(short).is_ok());
    }
}

#[test]
fn lines_hold_no_line_feed() {
    for text in ["a\nb\r\n\nc", "\n", "x\r\ny\r", ""] {
        for line in art_lines(text) {
            assert!(!line.contains(&'\n'));
        }
    }
}
