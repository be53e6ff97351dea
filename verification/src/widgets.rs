//! Text shapes for rendering cards and places in a terminal.
//!
//! Only the text itself lives here; putting it on a screen is the
//! driver's business.

use vstd::prelude::*;
use crate::mechanics::{Cards, GameState, Place};

verus! {

/// The three lines that draw a fan of `count` cards showing `val`:
/// one full card face and a squeezed edge for each card behind it,
/// or three empty lines for no cards at all.
pub open spec fn card_text(val: char, count: int) -> Seq<char> {
    if count == 0 {
        seq!['\n', '\n', '\n']
    } else {
        seq!['╒', '═', '╕'] + Seq::new((count - 1) as nat, |i: int| '╕') + seq!['\n', '│', val, '│']
            + Seq::new((count - 1) as nat, |i: int| '│') + seq!['\n', '╘', '═', '╛'] + Seq::new(
            (count - 1) as nat,
            |i: int| '╛',
        )
    }
}

/// Relies on `String::push`: appends exactly one character at the end.
#[verifier::external_body]
fn push_char(s: &mut String, c: char)
    ensures
        final(s)@ == old(s)@.push(c),
{
    s.push(c);
}

/// Draw a fan of `count` cards showing `val`, as three lines of text.
pub fn draw_card(val: char, count: usize) -> (r: String)
    ensures
        r@ == card_text(val, count as int),
{
    let mut s = String::new();
    if count == 0 {
        push_char(&mut s, '\n');
        push_char(&mut s, '\n');
        push_char(&mut s, '\n');
        proof {
            assert(s@ =~= card_text(val, 0));
        }
        return s;
    }
    push_char(&mut s, '╒');
    push_char(&mut s, '═');
    push_char(&mut s, '╕');
    let ghost row1 = seq!['╒', '═', '╕'];
    proof {
        assert(s@ =~= row1 + Seq::new(0, |i: int| '╕'));
    }
    let mut i: usize = 1;
    while i < count
        invariant
            1 <= i <= count,
            s@ == row1 + Seq::new((i - 1) as nat, |k: int| '╕'),
        decreases count - i,
    {
        push_char(&mut s, '╕');
        proof {
            assert(s@ =~= row1 + Seq::new(i as nat, |k: int| '╕'));
        }
        i = i + 1;
    }
    let ghost top = row1 + Seq::new((count - 1) as nat, |k: int| '╕');
    push_char(&mut s, '\n');
    push_char(&mut s, '│');
    push_char(&mut s, val);
    push_char(&mut s, '│');
    let ghost row2 = seq!['\n', '│', val, '│'];
    proof {
        assert(s@ =~= top + row2 + Seq::new(0, |k: int| '│'));
    }
    let mut j: usize = 1;
    while j < count
        invariant
            1 <= j <= count,
            s@ == top + row2 + Seq::new((j - 1) as nat, |k: int| '│'),
        decreases count - j,
    {
        push_char(&mut s, '│');
        proof {
            assert(s@ =~= top + row2 + Seq::new(j as nat, |k: int| '│'));
        }
        j = j + 1;
    }
    let ghost mid = top + row2 + Seq::new((count - 1) as nat, |k: int| '│');
    push_char(&mut s, '\n');
    push_char(&mut s, '╘');
    push_char(&mut s, '═');
    push_char(&mut s, '╛');
    let ghost row3 = seq!['\n', '╘', '═', '╛'];
    proof {
        assert(s@ =~= mid + row3 + Seq::new(0, |k: int| '╛'));
    }
    let mut t: usize = 1;
    while t < count
        invariant
            1 <= t <= count,
            s@ == mid + row3 + Seq::new((t - 1) as nat, |k: int| '╛'),
        decreases count - t,
    {
        push_char(&mut s, '╛');
        proof {
            assert(s@ =~= mid + row3 + Seq::new(t as nat, |k: int| '╛'));
        }
        t = t + 1;
    }
    proof {
        assert(s@ =~= card_text(val, count as int));
    }
    s
}

pub open spec fn digit_char(c: u8) -> char {
    if c == 2 {
        '2'
    } else if c == 3 {
        '3'
    } else if c == 4 {
        '4'
    } else {
        '5'
    }
}

/// The face values run from 2 to 5; no other digit is ever shown.
pub fn char_of_digit(c: u8) -> (r: char)
    requires
        2 <= c <= 5,
    ensures
        r == digit_char(c),
{
    match c {
        2 => '2',
        3 => '3',
        4 => '4',
        _ => '5',
    }
}

/// A hand of cards to draw: the cards, the game they belong to, and
/// whether they are face-down (the opponent's hand).
pub struct CardsWidget<'a>(pub &'a Cards, pub &'a GameState, pub bool);

impl<'a> CardsWidget<'a> {
    /// The area the widget needs: three columns per card, three rows.
    pub fn bounds(&self) -> (r: (u16, u16))
        requires
            self.0@.len() <= 21845,
        ensures
            r.0 == 3 * self.0@.len(),
            r.1 == 3,
    {
        (3 * (self.0.len() as u16), 3)
    }
}

/// One place to draw, and its index (which picks its colour).
pub struct PlaceWidget<'a>(pub &'a Place, pub u8);

/// Relies on `String::push_str`: appends the slice's characters.
#[verifier::external_body]
fn push_str_part(s: &mut String, t: &str)
    ensures
        final(s)@ == old(s)@ + t@,
{
    s.push_str(t);
}

/// The fixed five-line square of a place, showing its face value in
/// opposite corners.
pub open spec fn square_text(d: char) -> Seq<char> {
    seq!['╒', '═', '═', '═', '═', '═', '╕', '\n', '│', d, ' ', ' ', ' ', ' ', '│', '\n', '│', ' ',
        ' ', ' ', ' ', ' ', '│', '\n', '│', ' ', ' ', ' ', ' ', d, '│', '\n', '╘', '═', '═', '═',
        '═', '═', '╛']
}

fn square_string(d: char) -> (r: String)
    requires
        d == '2' || d == '3' || d == '4' || d == '5',
    ensures
        r@ == square_text(d),
{
    if d == '2' {
        let s = "╒═════╕\n│2    │\n│     │\n│    2│\n╘═════╛".to_owned();
        proof {
            reveal_strlit("╒═════╕\n│2    │\n│     │\n│    2│\n╘═════╛");
            assert(s@ =~= square_text('2'));
        }
        s
    } else if d == '3' {
        let s = "╒═════╕\n│3    │\n│     │\n│    3│\n╘═════╛".to_owned();
        proof {
            reveal_strlit("╒═════╕\n│3    │\n│     │\n│    3│\n╘═════╛");
            assert(s@ =~= square_text('3'));
        }
        s
    } else if d == '4' {
        let s = "╒═════╕\n│4    │\n│     │\n│    4│\n╘═════╛".to_owned();
        proof {
            reveal_strlit("╒═════╕\n│4    │\n│     │\n│    4│\n╘═════╛");
            assert(s@ =~= square_text('4'));
        }
        s
    } else {
        let s = "╒═════╕\n│5    │\n│     │\n│    5│\n╘═════╛".to_owned();
        proof {
            reveal_strlit("╒═════╕\n│5    │\n│     │\n│    5│\n╘═════╛");
            assert(s@ =~= square_text('5'));
        }
        s
    }
}

impl<'a> PlaceWidget<'a> {
    /// The full text of a place: the first player's committed cards
    /// fanned on top, the place's square, the second player's fan
    /// below.
    pub fn text(&self) -> (r: String)
        requires
            2 <= self.0.face_value <= 5,
        ensures
            r@ == card_text(digit_char(self.0.face_value), self.0.scores[0] as int) + seq!['\n']
                + square_text(digit_char(self.0.face_value)) + seq!['\n'] + card_text(
                digit_char(self.0.face_value),
                self.0.scores[1] as int,
            ),
    {
        let d = char_of_digit(self.0.face_value);
        let mut s = draw_card(d, self.0.scores[0] as usize);
        push_char(&mut s, '\n');
        let mid = square_string(d);
        push_str_part(&mut s, mid.as_str());
        push_char(&mut s, '\n');
        let bot = draw_card(d, self.0.scores[1] as usize);
        push_str_part(&mut s, bot.as_str());
        proof {
            assert(s@ =~= card_text(digit_char(self.0.face_value), self.0.scores[0] as int)
                + seq!['\n'] + square_text(digit_char(self.0.face_value)) + seq!['\n'] + card_text(
                digit_char(self.0.face_value),
                self.0.scores[1] as int,
            ));
        }
        s
    }
}

} // verus!
