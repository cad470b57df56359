use rsakura::buffer::Buffer;
use rsakura::color::Color;
use rsakura::paint::DrawCommand;

fn row(b: &Buffer, y: usize) -> Vec<Option<(char, Color)>> {
    (0..b.width()).map(|x| b.get(x, y)).collect()
}

#[test]
fn new_buffer_is_empty() {
    let b = Buffer::new(3, 2);
    assert_eq!(b.width(), 3);
    assert_eq!(b.height(), 2);
    for y in 0..2 {
        assert_eq!(row(&b, y), vec![None, None, None]);
    }
}

#[test]
fn write_char_sets_one_cell() {
    let mut b = Buffer::new(3, 2);
    b.write_char(2, 1, 'x', Color::Red);
    assert_eq!(b.get(2, 1), Some(('x', Color::Red)));
    assert_eq!(row(&b, 0), vec![None, None, None]);
    assert_eq!(row(&b, 1), vec![None, None, Some(('x', Color::Red))]);
}

#[test]
fn write_char_out_of_bounds_is_a_no_op() {
    let mut b = Buffer::new(2, 2);
    b.write_char(2, 0, 'x', Color::Red);
    b.write_char(0, 2, 'y', Color::Red);
    b.write_char(usize::MAX, usize::MAX, 'z', Color::Red);
    assert_eq!(row(&b, 0), vec![None, None]);
    assert_eq!(row(&b, 1), vec![None, None]);
}

#[test]
fn write_drops_characters_past_the_edge() {
    let mut b = Buffer::new(3, 2);
    b.write(1, 0, "abc", Color::White);
    assert_eq!(row(&b, 0), vec![None, Some(('a', Color::White)), Some(('b', Color::White))]);
    assert_eq!(row(&b, 1), vec![None, None, None]);
    b.write(0, 5, "zz", Color::White);
    assert_eq!(row(&b, 1), vec![None, None, None]);
}

#[test]
fn write_counts_characters_not_bytes() {
    let mut b = Buffer::new(4, 1);
    b.write(0, 0, "é*ü", Color::Grey);
    assert_eq!(
        row(&b, 0),
        vec![Some(('é', Color::Grey)), Some(('*', Color::Grey)), Some(('ü', Color::Grey)), None]
    );
}

#[test]
fn clear_empties_every_cell() {
    let mut b = Buffer::new(2, 2);
    b.write(0, 0, "ab", Color::Blue);
    b.write(0, 1, "cd", Color::Blue);
    b.clear();
    assert_eq!(row(&b, 0), vec![None, None]);
    assert_eq!(row(&b, 1), vec![None, None]);
}

#[test]
fn copy_from_takes_the_other_cells() {
    let mut tree = Buffer::new(2, 2);
    tree.write_char(1, 1, '#', Color::Green);
    let mut frame = Buffer::new(2, 2);
    frame.write_char(0, 0, '*', Color::Magenta);
    frame.copy_from(&tree);
    assert_eq!(row(&frame, 0), vec![None, None]);
    assert_eq!(row(&frame, 1), vec![None, Some(('#', Color::Green))]);
}

fn print(s: &str) -> DrawCommand {
    DrawCommand::Print(s.to_string())
}

#[test]
fn display_prints_runs_of_one_colour() {
    let mut b = Buffer::new(5, 1);
    b.write(0, 0, "ab", Color::Red);
    b.write_char(3, 0, 'c', Color::Red);
    b.write_char(4, 0, 'd', Color::Blue);
    assert_eq!(
        b.display(),
        vec![
            DrawCommand::MoveTo(0, 0),
            DrawCommand::SetForegroundColor(Color::Red),
            print("ab"),
            DrawCommand::ResetColor,
            print(" "),
            DrawCommand::SetForegroundColor(Color::Red),
            print("c"),
            DrawCommand::SetForegroundColor(Color::Blue),
            print("d"),
            DrawCommand::ResetColor,
        ]
    );
}

#[test]
fn display_starts_each_row_without_a_colour() {
    let mut b = Buffer::new(2, 2);
    b.write_char(1, 0, 'x', Color::Yellow);
    b.write_char(0, 1, 'y', Color::Yellow);
    assert_eq!(
        b.display(),
        vec![
            DrawCommand::MoveTo(0, 0),
            print(" "),
            DrawCommand::SetForegroundColor(Color::Yellow),
            print("x"),
            DrawCommand::MoveTo(0, 1),
            DrawCommand::SetForegroundColor(Color::Yellow),
            print("y"),
            DrawCommand::ResetColor,
            print(" "),
            DrawCommand::ResetColor,
        ]
    );
}

#[test]
fn display_of_an_empty_grid_only_resets() {
    let b = Buffer::new(0, 0);
    assert_eq!(b.display(), vec![DrawCommand::ResetColor]);
    let b = Buffer::new(0, 2);
    assert_eq!(
        b.display(),
        vec![DrawCommand::MoveTo(0, 0), DrawCommand::MoveTo(0, 1), DrawCommand::ResetColor]
    );
}

#[test]
fn display_of_blank_rows_prints_spaces() {
    let b = Buffer::new(3, 1);
    assert_eq!(b.display(), vec![DrawCommand::MoveTo(0, 0), print("   "), DrawCommand::ResetColor]);
}
