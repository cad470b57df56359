use rsakura::art::{art_lines, art_size, ArtCell, Sampling};
use rsakura::buffer::Buffer;
use rsakura::color::Color;

fn lines(v: &[&str]) -> Vec<Vec<char>> {
    v.iter().map(|l| l.chars().collect()).collect()
}

#[test]
fn lines_split_at_line_feeds() {
    assert_eq!(art_lines("a\nb\r\nc"), lines(&["a", "b", "c"]));
    assert_eq!(art_lines("a\n"), lines(&["a"]));
    assert_eq!(art_lines(""), lines(&[]));
    assert_eq!(art_lines("\n\n"), lines(&["", ""]));
    assert_eq!(art_lines("a\r"), lines(&["a\r"]));
    assert_eq!(art_lines("a\rb\n"), lines(&["a\rb"]));
    assert_eq!(art_lines("  *\n ***\n"), lines(&["  *", " ***"]));
}

#[test]
fn size_is_widest_line_by_line_count() {
    assert_eq!(art_size(&lines(&["  *", " ***", "*"])), (4, 3));
    assert_eq!(art_size(&lines(&[])), (0, 0));
    assert_eq!(art_size(&lines(&["", ""])), (0, 2));
}

#[test]
fn art_is_centred_one_row_above_the_bottom() {
    let mut tree = Buffer::new(4, 4);
    let art = lines(&["ab", "c "]);
    let sampling = Sampling { rows: vec![0, 1], cols: vec![0, 1] };
    let d = tree.draw_art(&art, &sampling, Color::White);
    assert_eq!(
        d.cells,
        vec![
            ArtCell { x: 1, y: 1, row: 0, ch: 'a' },
            ArtCell { x: 2, y: 1, row: 0, ch: 'b' },
            ArtCell { x: 1, y: 2, row: 1, ch: 'c' },
        ]
    );
    assert_eq!(d.ground, 2);
    assert_eq!(tree.get(1, 1), Some(('a', Color::White)));
    assert_eq!(tree.get(2, 1), Some(('b', Color::White)));
    assert_eq!(tree.get(1, 2), Some(('c', Color::White)));
    assert_eq!(tree.get(2, 2), None);
    assert_eq!(tree.get(0, 0), None);
    assert_eq!(tree.get(1, 3), None);
}

#[test]
fn samples_past_the_art_are_skipped() {
    let mut tree = Buffer::new(3, 3);
    let art = lines(&["xy", "z"]);
    let sampling = Sampling { rows: vec![0, 1, 5], cols: vec![1, 1, 3] };
    let d = tree.draw_art(&art, &sampling, Color::Green);
    assert_eq!(
        d.cells,
        vec![ArtCell { x: 0, y: 0, row: 0, ch: 'y' }, ArtCell { x: 1, y: 0, row: 0, ch: 'y' }]
    );
    assert_eq!(d.ground, 0);
}

#[test]
fn art_larger_than_the_grid_is_cut() {
    let mut tree = Buffer::new(2, 2);
    let art = lines(&["abc", "def", "ghi"]);
    let sampling = Sampling { rows: vec![0, 1, 2], cols: vec![0, 1, 2] };
    let d = tree.draw_art(&art, &sampling, Color::Red);
    assert_eq!(
        d.cells,
        vec![
            ArtCell { x: 0, y: 0, row: 0, ch: 'a' },
            ArtCell { x: 1, y: 0, row: 0, ch: 'b' },
            ArtCell { x: 0, y: 1, row: 1, ch: 'd' },
            ArtCell { x: 1, y: 1, row: 1, ch: 'e' },
        ]
    );
    assert_eq!(d.ground, 1);
}

#[test]
fn nothing_drawn_rests_on_row_zero() {
    let mut tree = Buffer::new(3, 3);
    let art = lines(&["   "]);
    let sampling = Sampling { rows: vec![0], cols: vec![0, 1, 2] };
    let d = tree.draw_art(&art, &sampling, Color::Red);
    assert!(d.cells.is_empty());
    assert_eq!(d.ground, 0);
}
