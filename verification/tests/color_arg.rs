use rsakura::cli::{parse_color, validate_color};
use rsakura::color::Color;

fn rgb(r: u8, g: u8, b: u8) -> Color {
    Color::Rgb { r, g, b }
}

#[test]
fn names_are_read_in_any_case() {
    assert_eq!(validate_color("red"), Ok(Color::Red));
    assert_eq!(validate_color("RED"), Ok(Color::Red));
    assert_eq!(validate_color("Dark_Magenta"), Ok(Color::DarkMagenta));
    assert_eq!(validate_color("reset"), Ok(Color::Reset));
    assert_eq!(validate_color("grey"), Ok(Color::Grey));
    assert_eq!(validate_color("dark_grey"), Ok(Color::DarkGrey));
    assert_eq!(validate_color("White"), Ok(Color::White));
}

#[test]
fn every_name_is_known() {
    let names = [
        ("reset", Color::Reset),
        ("black", Color::Black),
        ("dark_grey", Color::DarkGrey),
        ("red", Color::Red),
        ("dark_red", Color::DarkRed),
        ("green", Color::Green),
        ("dark_green", Color::DarkGreen),
        ("yellow", Color::Yellow),
        ("dark_yellow", Color::DarkYellow),
        ("blue", Color::Blue),
        ("dark_blue", Color::DarkBlue),
        ("magenta", Color::Magenta),
        ("dark_magenta", Color::DarkMagenta),
        ("cyan", Color::Cyan),
        ("dark_cyan", Color::DarkCyan),
        ("white", Color::White),
        ("grey", Color::Grey),
    ];
    for (name, color) in names {
        assert_eq!(validate_color(name), Ok(color));
    }
    assert_eq!(
        validate_color("gray"),
        Err("Invalid color: gray".to_string())
    );
}

#[test]
fn hex_colours() {
    assert_eq!(validate_color("#ff8000"), Ok(rgb(255, 128, 0)));
    assert_eq!(validate_color("#FF8000"), Ok(rgb(255, 128, 0)));
    assert_eq!(validate_color("#abc"), Ok(rgb(0xaa, 0xbb, 0xcc)));
    assert_eq!(validate_color("#aabbcc"), Ok(rgb(0xaa, 0xbb, 0xcc)));
    assert_eq!(validate_color("#000"), Ok(rgb(0, 0, 0)));
}

#[test]
fn hex_errors() {
    assert_eq!(
        validate_color("#abcd"),
        Err("Invalid color: #abcd\nBad length: 4".to_string())
    );
    assert_eq!(validate_color("#"), Err("Invalid color: #\nBad length: 0".to_string()));
    assert_eq!(
        validate_color("#12345678901"),
        Err("Invalid color: #12345678901\nBad length: 11".to_string())
    );
    assert_eq!(
        validate_color("#agz"),
        Err("Invalid color: #agz\nBad value: g".to_string())
    );
    assert_eq!(
        validate_color("#12g4567"),
        Err("Invalid color: #12g4567\nBad value: g".to_string())
    );
}

#[test]
fn hex_digits_are_screened_by_their_low_byte() {
    // U+0161 has low byte 0x61 ('a'): it passes the screen and fails as a digit.
    assert_eq!(
        validate_color("#\u{161}00000"),
        Err("Invalid color: #\u{161}00000\nBad value: \u{161}0".to_string())
    );
    assert_eq!(
        validate_color("#00\u{161}"),
        Err("Invalid color: #00\u{161}\nBad value: \u{161}\u{161}".to_string())
    );
}

#[test]
fn decimal_triples() {
    assert_eq!(validate_color("1,2,3"), Ok(rgb(1, 2, 3)));
    assert_eq!(validate_color("255,0,007"), Ok(rgb(255, 0, 7)));
    assert_eq!(validate_color("+1,+2,+3"), Ok(rgb(1, 2, 3)));
}

#[test]
fn decimal_errors() {
    for bad in ["", "1,2", "1,2,3,4", "256,0,0", " 1,2,3", "1,2,", "-1,2,3", "++1,2,3", "+,1,2", "a,b,c"] {
        assert_eq!(validate_color(bad), Err(format!("Invalid color: {}", bad)));
    }
}

#[test]
fn the_message_quotes_the_argument_as_given() {
    assert_eq!(
        validate_color("#ABCD"),
        Err("Invalid color: #ABCD\nBad length: 4".to_string())
    );
}

#[test]
fn parse_color_reads_the_lowered_form() {
    assert_eq!(parse_color("X", "blue"), Ok(Color::Blue));
    assert_eq!(parse_color("X", "#0f0"), Ok(rgb(0, 255, 0)));
    assert_eq!(parse_color("X", "#0F0"), Ok(rgb(0, 255, 0)));
    assert_eq!(parse_color("X", "BLUE"), Err("Invalid color: X".to_string()));
    assert_eq!(parse_color("Y", "#0f"), Err("Invalid color: Y\nBad length: 2".to_string()));
}
