use pad::PadStr;
use vstd::prelude::*;

verus! {

/// The character of the decimal digit `d`.
pub open spec fn digit_char(d: nat) -> char {
    (48 + d) as char
}

/// The decimal digits of `n`, without leading zeros.
pub open spec fn decimal(n: nat) -> Seq<char>
    decreases n,
{
    if n < 10 {
        seq![digit_char(n)]
    } else {
        decimal(n / 10).push(digit_char(n % 10))
    }
}

/// Calls `usize::to_string`, which writes the number through its `Display`
/// implementation: its decimal digits, with no sign, padding or leading zero.
#[verifier::external_body]
fn usize_to_string(n: usize) -> (s: String)
    ensures
        s@ == decimal(n as nat),
{
    n.to_string()
}

/// Where a padded text stands in its field.
pub enum Align {
    Left,
    Right,
    Middle,
    MiddleRight,
}

/// Every character is printable ASCII, one column wide.
pub open spec fn printable_ascii(s: Seq<char>) -> bool {
    forall|i: int| 0 <= i < s.len() ==> ' ' <= #[trigger] s[i] <= '~'
}

/// `n` copies of `c`.
pub open spec fn repeat(c: char, n: int) -> Seq<char> {
    Seq::new(n as nat, |i: int| c)
}

/// `s` set in a field of `width` columns: a text at least as wide is kept whole, or
/// cut to the first `width` characters when `truncate`; a narrower one gets `pad_char`
/// on the side(s) that `align` leaves free (for `Middle` the odd one goes right,
/// for `MiddleRight` left).
pub open spec fn padded(s: Seq<char>, width: nat, pad_char: char, align: Align, truncate: bool) -> Seq<char> {
    if s.len() >= width {
        if truncate {
            s.take(width as int)
        } else {
            s
        }
    } else {
        let diff = width - s.len();
        let (left, right) = match align {
            Align::Left => (0, diff),
            Align::Right => (diff, 0),
            Align::Middle => (diff / 2, diff - diff / 2),
            Align::MiddleRight => (diff - diff / 2, diff / 2),
        };
        repeat(pad_char, left) + s + repeat(pad_char, right)
    }
}

/// Calls the `pad` crate's `PadStr::pad`. For text of printable ASCII characters, whose
/// width in columns is its length, the crate's source pads or truncates as `padded` says.
#[verifier::external_body]
fn pad_str(s: &str, width: usize, pad_char: char, align: Align, truncate: bool) -> (r: String)
    requires
        printable_ascii(s@),
    ensures
        r@ == padded(s@, width as nat, pad_char, align, truncate),
{
    let alignment = match align {
        Align::Left => pad::Alignment::Left,
        Align::Right => pad::Alignment::Right,
        Align::Middle => pad::Alignment::Middle,
        Align::MiddleRight => pad::Alignment::MiddleRight,
    };
    s.pad(width, pad_char, alignment, truncate)
}

proof fn lemma_decimal_printable(n: nat)
    ensures
        printable_ascii(decimal(n)),
        forall|i: int| 0 <= i < decimal(n).len() ==> '0' <= #[trigger] decimal(n)[i] <= '9',
    decreases n,
{
    if n >= 10 {
        lemma_decimal_printable(n / 10);
    }
}

/// How wide a score stands on the scoreboard.
pub const SCORE_WIDTH: usize = 7;

/// A score as the scoreboard shows it: its decimal digits set right in a field of 7
/// columns, cut to the first 7 digits if longer.
pub fn score_column(points: usize) -> (s: String)
    ensures
        s@ == padded(decimal(points as nat), SCORE_WIDTH as nat, ' ', Align::Right, true),
{
    let digits = usize_to_string(points);
    proof {
        lemma_decimal_printable(points as nat);
    }
    pad_str(digits.as_str(), SCORE_WIDTH, ' ', Align::Right, true)
}

/// The middle row of a die's picture: its face between two bars, or blank for face 0.
pub fn die_middle_row(face: u8) -> (row: String)
    ensures
        row@ == if face == 0 { "│   │"@ } else { "│ "@ + decimal(face as nat) + " │"@ },
{
    if face == 0 {
        String::from_str("│   │")
    } else {
        let mut row = String::from_str("│ ");
        let digits = usize_to_string(face as usize);
        row.append(digits.as_str());
        row.append(" │");
        row
    }
}

/// The terminal column at which the die in position `pos` is drawn.
pub fn die_column(pos: u8) -> (x: u16)
    requires
        pos * 6 + 2 <= 255,
    ensures
        x == pos * 6 + 2,
{
    ((pos * 6) + 2) as u16
}

/// The faces to draw for `n` dice not yet thrown: all blank (face 0).
pub fn draw_blank_dice(n: &u8) -> (faces: Vec<u8>)
    ensures
        faces.len() == *n,
        forall|i: int| 0 <= i < faces.len() ==> #[trigger] faces@[i] == 0,
{
    let mut faces: Vec<u8> = Vec::new();
    let mut i: u8 = 0;
    while i < *n
        invariant
            i <= *n,
            faces.len() == i,
            forall|j: int| 0 <= j < faces.len() ==> #[trigger] faces@[j] == 0,
        decreases *n - i,
    {
        faces.push(0);
        i = i + 1;
    }
    faces
}

} // verus!
