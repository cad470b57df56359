use vstd::prelude::*;

use crate::color::Color;
use crate::text::{chars_of, code_point, find_char, find_from, push_char};

verus! {

// ---------------------------------------------------------------------------
// Lower-casing, which std does by the Unicode tables.
// ---------------------------------------------------------------------------

/// What `str::to_lowercase` of std returns for a string.
pub uninterp spec fn spec_lowercase(s: Seq<char>) -> Seq<char>;

/// Calls `str::to_lowercase` of std, whose documentation defines the result
/// by the Unicode Derived Core Property Lowercase: a function of the string
/// alone. The contract names that result and says nothing of its content.
#[verifier::external_body]
fn lowercase(s: &str) -> (res: String)
    ensures
        res@ == spec_lowercase(s@),
{
    s.to_lowercase()
}

// ---------------------------------------------------------------------------
// The grammar of a colour argument.
// ---------------------------------------------------------------------------

/// The colour that a lower-cased name stands for, if it is one of the names.
pub open spec fn named_color(name: Seq<char>) -> Option<Color> {
    if name == "reset"@ {
        Some(Color::Reset)
    } else if name == "black"@ {
        Some(Color::Black)
    } else if name == "dark_grey"@ {
        Some(Color::DarkGrey)
    } else if name == "red"@ {
        Some(Color::Red)
    } else if name == "dark_red"@ {
        Some(Color::DarkRed)
    } else if name == "green"@ {
        Some(Color::Green)
    } else if name == "dark_green"@ {
        Some(Color::DarkGreen)
    } else if name == "yellow"@ {
        Some(Color::Yellow)
    } else if name == "dark_yellow"@ {
        Some(Color::DarkYellow)
    } else if name == "blue"@ {
        Some(Color::Blue)
    } else if name == "dark_blue"@ {
        Some(Color::DarkBlue)
    } else if name == "magenta"@ {
        Some(Color::Magenta)
    } else if name == "dark_magenta"@ {
        Some(Color::DarkMagenta)
    } else if name == "cyan"@ {
        Some(Color::Cyan)
    } else if name == "dark_cyan"@ {
        Some(Color::DarkCyan)
    } else if name == "white"@ {
        Some(Color::White)
    } else if name == "grey"@ {
        Some(Color::Grey)
    } else {
        None
    }
}

/// `c` with an ASCII capital letter turned into its small letter.
pub open spec fn ascii_lower(c: char) -> int {
    if 65 <= c as int <= 90 {
        c as int + 32
    } else {
        c as int
    }
}

/// The screening of a hex digit: the low byte of the ASCII-lower-cased code
/// point is that of `0`-`9` or `a`-`f` (so some non-ASCII characters pass).
pub open spec fn passes_hex_screen(c: char) -> bool {
    let b = ascii_lower(c) % 256;
    (48 <= b <= 57) || (97 <= b <= 102)
}

/// The value of a hexadecimal digit (either case).
pub open spec fn hex_digit(c: char) -> Option<nat> {
    let n = c as int;
    if 48 <= n <= 57 {
        Some((n - 48) as nat)
    } else if 97 <= n <= 102 {
        Some((n - 87) as nat)
    } else if 65 <= n <= 70 {
        Some((n - 55) as nat)
    } else {
        None
    }
}

/// The byte that two hexadecimal digits stand for.
pub open spec fn hex_pair(a: char, b: char) -> Option<u8> {
    match (hex_digit(a), hex_digit(b)) {
        (Some(x), Some(y)) => Some((16 * x + y) as u8),
        _ => None,
    }
}

/// Where the first character of `d` that fails the hex screen stands
/// (`d.len()` if none does).
pub open spec fn first_unscreened(d: Seq<char>) -> nat
    decreases d.len(),
{
    if d.len() == 0 {
        0
    } else if !passes_hex_screen(d[0]) {
        0
    } else {
        1 + first_unscreened(d.drop_first())
    }
}

/// The decimal numeral of `n`.
pub open spec fn decimal(n: nat) -> Seq<char>
    decreases n,
{
    if n < 10 {
        seq![(48 + n) as char]
    } else {
        decimal(n / 10).push((48 + n % 10) as char)
    }
}

/// "Invalid color: {input}"
pub open spec fn invalid_message(input: Seq<char>) -> Seq<char> {
    "Invalid color: "@ + input
}

/// "Invalid color: {input}\nBad value: {value}"
pub open spec fn bad_value_message(input: Seq<char>, value: Seq<char>) -> Seq<char> {
    "Invalid color: "@ + input + "\nBad value: "@ + value
}

/// "Invalid color: {input}\nBad length: {len}"
pub open spec fn bad_length_message(input: Seq<char>, len: nat) -> Seq<char> {
    "Invalid color: "@ + input + "\nBad length: "@ + decimal(len)
}

/// The digits after `#` with each doubled where there are three of them
/// (`abc` reads as `aabbcc`).
pub open spec fn full_hex(d: Seq<char>) -> Seq<char> {
    if d.len() == 3 {
        seq![d[0], d[0], d[1], d[1], d[2], d[2]]
    } else {
        d
    }
}

/// The outcome for a `#` colour whose digits (after the `#`) are `d`.
pub open spec fn hex_color(input: Seq<char>, d: Seq<char>) -> Result<Color, Seq<char>> {
    let i = first_unscreened(d);
    if i < d.len() {
        Err(bad_value_message(input, seq![d[i as int]]))
    } else if d.len() != 3 && d.len() != 6 {
        Err(bad_length_message(input, d.len()))
    } else {
        let f = full_hex(d);
        match (hex_pair(f[0], f[1]), hex_pair(f[2], f[3]), hex_pair(f[4], f[5])) {
            (Some(r), Some(g), Some(b)) => Ok(Color::Rgb { r, g, b }),
            (None, _, _) => Err(bad_value_message(input, seq![f[0], f[1]])),
            (Some(_), None, _) => Err(bad_value_message(input, seq![f[2], f[3]])),
            (Some(_), Some(_), None) => Err(bad_value_message(input, seq![f[4], f[5]])),
        }
    }
}

pub open spec fn is_decimal_digit(c: char) -> bool {
    48 <= c as int <= 57
}

/// The number that a string of decimal digits stands for.
pub open spec fn digits_value(d: Seq<char>) -> nat
    decreases d.len(),
{
    if d.len() == 0 {
        0
    } else {
        digits_value(d.drop_last()) * 10 + (d.last() as int - 48) as nat
    }
}

/// `p` without one leading `+`, if it has one.
pub open spec fn unsigned_digits(p: Seq<char>) -> Seq<char> {
    if p.len() > 0 && p[0] == '+' {
        p.drop_first()
    } else {
        p
    }
}

pub open spec fn all_decimal_digits(d: Seq<char>) -> bool {
    forall|i: int| 0 <= i < d.len() ==> is_decimal_digit(#[trigger] d[i])
}

/// A byte in decimal as std parses it: an optional `+`, then one or more
/// decimal digits, of value at most 255.
pub open spec fn parse_u8(p: Seq<char>) -> Option<u8> {
    let d = unsigned_digits(p);
    if d.len() > 0 && all_decimal_digits(d) && digits_value(d) <= 255 {
        Some(digits_value(d) as u8)
    } else {
        None
    }
}

/// The outcome for a colour written `r,g,b`: the text is cut at its first two
/// commas into three parts, each a byte in decimal.
pub open spec fn rgb_color(input: Seq<char>, low: Seq<char>) -> Result<Color, Seq<char>> {
    let i = find_char(low, ',');
    let rest = low.skip(i as int + 1);
    let j = find_char(rest, ',');
    if i < low.len() && j < rest.len() {
        match (parse_u8(low.take(i as int)), parse_u8(rest.take(j as int)), parse_u8(
            rest.skip(j as int + 1),
        )) {
            (Some(r), Some(g), Some(b)) => Ok(Color::Rgb { r, g, b }),
            _ => Err(invalid_message(input)),
        }
    } else {
        Err(invalid_message(input))
    }
}

/// The outcome of reading a colour argument `input` whose lower-cased form is
/// `low`: a name, `#` and three or six hex digits, or `r,g,b` in decimal.
pub open spec fn color_outcome(input: Seq<char>, low: Seq<char>) -> Result<Color, Seq<char>> {
    match named_color(low) {
        Some(c) => Ok(c),
        None => if low.len() > 0 && low[0] == '#' {
            hex_color(input, low.drop_first())
        } else {
            rgb_color(input, low)
        },
    }
}

/// The model of a parse result: the colour, or the error message's characters.
pub open spec fn result_view(r: Result<Color, String>) -> Result<Color, Seq<char>> {
    match r {
        Ok(c) => Ok(c),
        Err(e) => Err(e@),
    }
}

// ---------------------------------------------------------------------------
// Laws of the grammar.
// ---------------------------------------------------------------------------

/// Every colour name starts with a small letter.
proof fn lemma_not_a_name(low: Seq<char>)
    requires
        low.len() > 0,
        !(97 <= low[0] as int <= 122),
    ensures
        named_color(low) is None,
{
    reveal_strlit("reset");
    reveal_strlit("black");
    reveal_strlit("dark_grey");
    reveal_strlit("red");
    reveal_strlit("dark_red");
    reveal_strlit("green");
    reveal_strlit("dark_green");
    reveal_strlit("yellow");
    reveal_strlit("dark_yellow");
    reveal_strlit("blue");
    reveal_strlit("dark_blue");
    reveal_strlit("magenta");
    reveal_strlit("dark_magenta");
    reveal_strlit("cyan");
    reveal_strlit("dark_cyan");
    reveal_strlit("white");
    reveal_strlit("grey");
}

/// Two arguments that lower-case alike read as the same colour, or both fail:
/// the argument itself only shows in the error message.
pub proof fn law_same_lowercase_same_color(a: Seq<char>, b: Seq<char>)
    requires
        spec_lowercase(a) == spec_lowercase(b),
    ensures
        (color_outcome(a, spec_lowercase(a)) is Ok) == (color_outcome(b, spec_lowercase(b)) is Ok),
        color_outcome(a, spec_lowercase(a)) is Ok ==> color_outcome(a, spec_lowercase(a))
            == color_outcome(b, spec_lowercase(b)),
{
}

/// The decimal numeral of a number is a non-empty run of decimal digits,
/// without sign or comma, that stands for that number.
proof fn lemma_decimal(n: nat)
    ensures
        decimal(n).len() > 0,
        all_decimal_digits(decimal(n)),
        digits_value(decimal(n)) == n,
    decreases n,
{
    let d = decimal(n);
    assert(((48 + n % 10) as char) as int == 48 + n % 10);
    if n < 10 {
        assert(d.last() as int == 48 + n);
        assert(d.drop_last() =~= Seq::<char>::empty());
        assert(digits_value(d.drop_last()) == 0);
        assert(digits_value(d) == digits_value(d.drop_last()) * 10 + (d.last() as int - 48) as nat);
    } else {
        lemma_decimal(n / 10);
        assert(d.drop_last() =~= decimal(n / 10));
        assert(d.last() as int == 48 + n % 10);
        assert(n == (n / 10) * 10 + n % 10);
        assert(digits_value(d) == digits_value(d.drop_last()) * 10 + (d.last() as int - 48) as nat);
        assert forall|i: int| 0 <= i < d.len() implies is_decimal_digit(#[trigger] d[i]) by {
            if i < d.len() - 1 {
                assert(d[i] == decimal(n / 10)[i]);
            }
        }
    }
}

/// The lower-case hexadecimal digit of a number below 16.
pub open spec fn hex_char(n: nat) -> char {
    if n < 10 {
        (48 + n) as char
    } else {
        (87 + n) as char
    }
}

/// Three bytes written in decimal as `r,g,b` read back as that true colour.
pub proof fn law_rgb_decimal_round_trip(input: Seq<char>, r: u8, g: u8, b: u8)
    ensures
        color_outcome(
            input,
            decimal(r as nat) + seq![','] + decimal(g as nat) + seq![','] + decimal(b as nat),
        ) == Ok::<Color, Seq<char>>(Color::Rgb { r: r, g: g, b: b }),
{
    let dr = decimal(r as nat);
    let dg = decimal(g as nat);
    let db = decimal(b as nat);
    lemma_decimal(r as nat);
    lemma_decimal(g as nat);
    lemma_decimal(b as nat);
    let low = dr + seq![','] + dg + seq![','] + db;
    assert(low[0] == dr[0]);
    assert(is_decimal_digit(dr[0]));
    lemma_not_a_name(low);
    assert forall|j: int| 0 <= j < dr.len() implies #[trigger] low[j] != ',' by {
        assert(low[j] == dr[j]);
        assert(is_decimal_digit(dr[j]));
    }
    assert(low[dr.len() as int] == ',');
    crate::text::lemma_find_char(low, ',', dr.len());
    let i = dr.len();
    let rest = low.skip(i as int + 1);
    assert(rest =~= dg + seq![','] + db);
    assert forall|j: int| 0 <= j < dg.len() implies #[trigger] rest[j] != ',' by {
        assert(rest[j] == dg[j]);
        assert(is_decimal_digit(dg[j]));
    }
    assert(rest[dg.len() as int] == ',');
    crate::text::lemma_find_char(rest, ',', dg.len());
    assert(low.take(i as int) =~= dr);
    assert(rest.take(dg.len() as int) =~= dg);
    assert(rest.skip(dg.len() as int + 1) =~= db);
    assert(unsigned_digits(dr) == dr);
    assert(unsigned_digits(dg) == dg);
    assert(unsigned_digits(db) == db);
}

proof fn lemma_hex_char(n: nat)
    requires
        n < 16,
    ensures
        passes_hex_screen(hex_char(n)),
        hex_digit(hex_char(n)) == Some(n),
{
}

/// A true colour written as `#` and six lower-case hex digits reads back as
/// that colour.
pub proof fn law_hex_round_trip(input: Seq<char>, r: u8, g: u8, b: u8)
    ensures
        color_outcome(
            input,
            seq![
                '#',
                hex_char(r as nat / 16),
                hex_char(r as nat % 16),
                hex_char(g as nat / 16),
                hex_char(g as nat % 16),
                hex_char(b as nat / 16),
                hex_char(b as nat % 16),
            ],
        ) == Ok::<Color, Seq<char>>(Color::Rgb { r: r, g: g, b: b }),
{
    let low = seq![
        '#',
        hex_char(r as nat / 16),
        hex_char(r as nat % 16),
        hex_char(g as nat / 16),
        hex_char(g as nat % 16),
        hex_char(b as nat / 16),
        hex_char(b as nat % 16),
    ];
    lemma_not_a_name(low);
    let d = low.drop_first();
    lemma_hex_char(r as nat / 16);
    lemma_hex_char(r as nat % 16);
    lemma_hex_char(g as nat / 16);
    lemma_hex_char(g as nat % 16);
    lemma_hex_char(b as nat / 16);
    lemma_hex_char(b as nat % 16);
    assert forall|j: int| 0 <= j < 6 implies passes_hex_screen(#[trigger] d[j]) by {
        assert(d[j] == low[j + 1]);
    }
    lemma_first_unscreened(d, 6);
    assert(full_hex(d) == d);
}

/// A colour written with three hex digits reads as the one written with
/// each of those digits doubled (`#abc` is `#aabbcc`).
pub proof fn law_hex_shorthand(input: Seq<char>, long_input: Seq<char>, a: char, b: char, c: char)
    requires
        hex_digit(a) is Some,
        hex_digit(b) is Some,
        hex_digit(c) is Some,
    ensures
        color_outcome(input, seq!['#', a, b, c]) is Ok,
        color_outcome(input, seq!['#', a, b, c]) == color_outcome(
            long_input,
            seq!['#', a, a, b, b, c, c],
        ),
{
    let short = seq!['#', a, b, c];
    let long = seq!['#', a, a, b, b, c, c];
    lemma_not_a_name(short);
    lemma_not_a_name(long);
    let ds = short.drop_first();
    let dl = long.drop_first();
    assert forall|j: int| 0 <= j < 3 implies passes_hex_screen(#[trigger] ds[j]) by {
        assert(ds[j] == short[j + 1]);
    }
    assert forall|j: int| 0 <= j < 6 implies passes_hex_screen(#[trigger] dl[j]) by {
        assert(dl[j] == long[j + 1]);
    }
    lemma_first_unscreened(ds, 3);
    lemma_first_unscreened(dl, 6);
    assert(full_hex(ds) =~= dl);
}

// ---------------------------------------------------------------------------
// Executable parts.
// ---------------------------------------------------------------------------

fn equals_literal(a: &Vec<char>, lit: &str) -> (res: bool)
    ensures
        res == (a@ == lit@),
{
    let n = lit.unicode_len();
    if a.len() != n {
        return false;
    }
    for i in 0..n
        invariant
            n == lit@.len(),
            n == a@.len(),
            forall|k: int| 0 <= k < i ==> a@[k] == lit@[k],
    {
        if a[i] != lit.get_char(i) {
            return false;
        }
    }
    assert(a@ =~= lit@);
    true
}

fn named(low: &Vec<char>) -> (res: Option<Color>)
    ensures
        res == named_color(low@),
{
    if equals_literal(low, "reset") {
        Some(Color::Reset)
    } else if equals_literal(low, "black") {
        Some(Color::Black)
    } else if equals_literal(low, "dark_grey") {
        Some(Color::DarkGrey)
    } else if equals_literal(low, "red") {
        Some(Color::Red)
    } else if equals_literal(low, "dark_red") {
        Some(Color::DarkRed)
    } else if equals_literal(low, "green") {
        Some(Color::Green)
    } else if equals_literal(low, "dark_green") {
        Some(Color::DarkGreen)
    } else if equals_literal(low, "yellow") {
        Some(Color::Yellow)
    } else if equals_literal(low, "dark_yellow") {
        Some(Color::DarkYellow)
    } else if equals_literal(low, "blue") {
        Some(Color::Blue)
    } else if equals_literal(low, "dark_blue") {
        Some(Color::DarkBlue)
    } else if equals_literal(low, "magenta") {
        Some(Color::Magenta)
    } else if equals_literal(low, "dark_magenta") {
        Some(Color::DarkMagenta)
    } else if equals_literal(low, "cyan") {
        Some(Color::Cyan)
    } else if equals_literal(low, "dark_cyan") {
        Some(Color::DarkCyan)
    } else if equals_literal(low, "white") {
        Some(Color::White)
    } else if equals_literal(low, "grey") {
        Some(Color::Grey)
    } else {
        None
    }
}


fn passes_screen(c: char) -> (b: bool)
    ensures
        b == passes_hex_screen(c),
{
    let n = code_point(c);
    let l: u32 = if 65 <= n && n <= 90 {
        n + 32
    } else {
        n
    };
    let b = l % 256;
    (48 <= b && b <= 57) || (97 <= b && b <= 102)
}

fn hex_digit_value(c: char) -> (v: Option<u32>)
    ensures
        match hex_digit(c) {
            Some(x) => v == Some(x as u32),
            None => v is None,
        },
{
    let n = code_point(c);
    if 48 <= n && n <= 57 {
        Some(n - 48)
    } else if 97 <= n && n <= 102 {
        Some(n - 87)
    } else if 65 <= n && n <= 70 {
        Some(n - 55)
    } else {
        None
    }
}

fn hex_pair_value(a: char, b: char) -> (v: Option<u8>)
    ensures
        v == hex_pair(a, b),
{
    match (hex_digit_value(a), hex_digit_value(b)) {
        (Some(x), Some(y)) => Some((16 * x + y) as u8),
        _ => None,
    }
}

proof fn lemma_first_unscreened(d: Seq<char>, i: nat)
    requires
        i <= d.len(),
        forall|j: int| 0 <= j < i ==> passes_hex_screen(#[trigger] d[j]),
        i == d.len() || !passes_hex_screen(d[i as int]),
    ensures
        first_unscreened(d) == i,
    decreases i,
{
    if i > 0 {
        let t = d.drop_first();
        assert forall|j: int| 0 <= j < i - 1 implies passes_hex_screen(#[trigger] t[j]) by {
            assert(t[j] == d[j + 1]);
        }
        if i < d.len() {
            assert(t[i - 1] == d[i as int]);
        }
        lemma_first_unscreened(t, (i - 1) as nat);
        assert(passes_hex_screen(d[0]));
    }
}

proof fn lemma_digits_value_prefix(d: Seq<char>, k: int)
    requires
        0 <= k <= d.len(),
    ensures
        digits_value(d.take(k)) <= digits_value(d),
    decreases d.len(),
{
    if k < d.len() {
        lemma_digits_value_prefix(d.drop_last(), k);
        assert(d.drop_last().take(k) =~= d.take(k));
    } else {
        assert(d.take(k) =~= d);
    }
}

fn digit_char(d: usize) -> (c: char)
    requires
        d < 10,
    ensures
        c == (48 + d) as char,
{
    let b: u8 = 48 + d as u8;
    b as char
}

fn decimal_string(n: usize) -> (s: String)
    ensures
        s@ == decimal(n as nat),
    decreases n,
{
    if n < 10 {
        let mut s = String::new();
        push_char(&mut s, digit_char(n));
        assert(s@ =~= decimal(n as nat));
        s
    } else {
        let mut s = decimal_string(n / 10);
        push_char(&mut s, digit_char(n % 10));
        s
    }
}

/// Reads `v[start..end]` as a byte in decimal.
fn parse_byte(v: &Vec<char>, start: usize, end: usize) -> (res: Option<u8>)
    requires
        start <= end <= v.len(),
    ensures
        res == parse_u8(v@.subrange(start as int, end as int)),
{
    let ghost p = v@.subrange(start as int, end as int);
    let mut k = start;
    if k < end && v[k] == '+' {
        k = k + 1;
    }
    let ghost d = v@.subrange(k as int, end as int);
    proof {
        if p.len() > 0 && p[0] == '+' {
            assert(d =~= p.drop_first());
        } else {
            assert(d =~= p);
        }
    }
    if k >= end {
        return None;
    }
    let mut acc: u32 = 0;
    let mut i = k;
    while i < end
        invariant
            start <= k < i + 1,
            k <= i <= end <= v.len(),
            d == v@.subrange(k as int, end as int),
            p == v@.subrange(start as int, end as int),
            d == unsigned_digits(p),
            d.len() > 0,
            forall|m: int| 0 <= m < i - k ==> is_decimal_digit(#[trigger] d[m]),
            acc == digits_value(d.take(i - k)),
            acc <= 255,
        decreases end - i,
    {
        let c = v[i];
        let code = code_point(c);
        proof {
            assert(d[i - k] == c);
        }
        if !(48 <= code && code <= 57) {
            proof {
                assert(!is_decimal_digit(d[i - k]));
                assert(!all_decimal_digits(d));
            }
            return None;
        }
        proof {
            assert(d.take(i - k + 1).drop_last() =~= d.take(i - k));
        }
        acc = acc * 10 + (code - 48);
        if acc > 255 {
            proof {
                let t = d.take(i - k + 1);
                assert(t.last() == c);
                assert(t.drop_last() =~= d.take(i - k));
                assert(digits_value(t) == digits_value(t.drop_last()) * 10 + (t.last() as int
                    - 48) as nat);
                lemma_digits_value_prefix(d, i - k + 1);
                assert(digits_value(t) > 255);
            }
            return None;
        }
        i = i + 1;
    }
    assert(d.take(i - k) =~= d);
    Some(acc as u8)
}

fn invalid(input: &str) -> (m: String)
    ensures
        m@ == invalid_message(input@),
{
    let mut m = String::new();
    m.append("Invalid color: ");
    m.append(input);
    assert(m@ =~= invalid_message(input@));
    m
}

fn bad_value(input: &str, value: &Vec<char>) -> (m: String)
    ensures
        m@ == bad_value_message(input@, value@),
{
    let mut m = String::new();
    m.append("Invalid color: ");
    m.append(input);
    m.append("\nBad value: ");
    let ghost head = m@;
    for i in 0..value.len()
        invariant
            m@ == head + value@.take(i as int),
    {
        push_char(&mut m, value[i]);
        assert(value@.take(i + 1) =~= value@.take(i as int).push(value@[i as int]));
    }
    assert(value@.take(value.len() as int) =~= value@);
    assert(m@ =~= bad_value_message(input@, value@));
    m
}

fn bad_length(input: &str, len: usize) -> (m: String)
    ensures
        m@ == bad_length_message(input@, len as nat),
{
    let mut m = String::new();
    m.append("Invalid color: ");
    m.append(input);
    m.append("\nBad length: ");
    let digits = decimal_string(len);
    m.append(digits.as_str());
    assert(m@ =~= bad_length_message(input@, len as nat));
    m
}

fn hex_color_of(input: &str, d: &Vec<char>) -> (res: Result<Color, String>)
    ensures
        result_view(res) == hex_color(input@, d@),
{
    let n = d.len();
    for i in 0..n
        invariant
            n == d@.len(),
            forall|j: int| 0 <= j < i ==> passes_hex_screen(#[trigger] d@[j]),
    {
        if !passes_screen(d[i]) {
            proof {
                lemma_first_unscreened(d@, i as nat);
            }
            let value = vec![d[i]];
            assert(value@ =~= seq![d@[i as int]]);
            return Err(bad_value(input, &value));
        }
    }
    proof {
        lemma_first_unscreened(d@, n as nat);
    }
    if n != 3 && n != 6 {
        return Err(bad_length(input, n));
    }
    let f: Vec<char> = if n == 3 {
        vec![d[0], d[0], d[1], d[1], d[2], d[2]]
    } else {
        vec![d[0], d[1], d[2], d[3], d[4], d[5]]
    };
    assert(f@ =~= full_hex(d@));
    let r = match hex_pair_value(f[0], f[1]) {
        Some(r) => r,
        None => {
            let value = vec![f[0], f[1]];
            assert(value@ =~= seq![f@[0], f@[1]]);
            return Err(bad_value(input, &value));
        },
    };
    let g = match hex_pair_value(f[2], f[3]) {
        Some(g) => g,
        None => {
            let value = vec![f[2], f[3]];
            assert(value@ =~= seq![f@[2], f@[3]]);
            return Err(bad_value(input, &value));
        },
    };
    let b = match hex_pair_value(f[4], f[5]) {
        Some(b) => b,
        None => {
            let value = vec![f[4], f[5]];
            assert(value@ =~= seq![f@[4], f@[5]]);
            return Err(bad_value(input, &value));
        },
    };
    Ok(Color::Rgb { r, g, b })
}

#[verifier::rlimit(40)]
fn rgb_color_of(input: &str, low: &Vec<char>) -> (res: Result<Color, String>)
    ensures
        result_view(res) == rgb_color(input@, low@),
{
    let ghost l = low@;
    let i = find_from(low, 0, ',');
    assert(l.skip(0) =~= l);
    if i >= low.len() {
        return Err(invalid(input));
    }
    let j = find_from(low, i + 1, ',');
    let ghost rest = l.skip(i + 1);
    if j >= low.len() {
        return Err(invalid(input));
    }
    assert(l.take(i as int) =~= l.subrange(0, i as int));
    assert(rest.take(j - (i + 1)) =~= l.subrange(i + 1, j as int));
    assert(rest.skip(j - (i + 1) + 1) =~= l.subrange(j + 1, l.len() as int));
    let r = parse_byte(low, 0, i);
    let g = parse_byte(low, i + 1, j);
    let b = parse_byte(low, j + 1, low.len());
    match (r, g, b) {
        (Some(r), Some(g), Some(b)) => Ok(Color::Rgb { r, g, b }),
        _ => Err(invalid(input)),
    }
}

/// Reads a colour argument `input` whose lower-cased form is `lowered`: one
/// of the colour names, `#` and three or six hex digits, or `r,g,b` with
/// each part a byte in decimal. The error is the message to show.
pub fn parse_color(input: &str, lowered: &str) -> (res: Result<Color, String>)
    ensures
        result_view(res) == color_outcome(input@, lowered@),
{
    let low = chars_of(lowered);
    match named(&low) {
        Some(c) => {
            return Ok(c);
        },
        None => {},
    }
    if low.len() > 0 && low[0] == '#' {
        let mut d: Vec<char> = Vec::new();
        for k in 1..low.len()
            invariant
                low@ == lowered@,
                low@.len() > 0,
                d@ == low@.subrange(1, k as int),
        {
            d.push(low[k]);
            assert(d@ =~= low@.subrange(1, k + 1));
        }
        assert(d@ =~= low@.drop_first());
        hex_color_of(input, &d)
    } else {
        rgb_color_of(input, &low)
    }
}

/// Reads a colour argument: it is lower-cased, then read as one of the
/// colour names, `#` and three or six hex digits, or `r,g,b` in decimal.
/// The error is the message to show.
pub fn validate_color(s: &str) -> (res: Result<Color, String>)
    ensures
        result_view(res) == color_outcome(s@, spec_lowercase(s@)),
{
    let src = lowercase(s);
    parse_color(s, src.as_str())
}
} // verus!
