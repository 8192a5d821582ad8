//! Conversions between the three coordinate systems of the board.
//!
//! * `(x, y)`, both counted from 1;
//! * the extended-linear vertex `y * EBSIZE + x`, an index into the board
//!   with its border;
//! * the board-linear vertex `(y - 1) * BSIZE + (x - 1)`, an index into the
//!   playable points only;
//!
//! and between an extended-linear vertex and its label, a column letter
//! (`I` is skipped) followed by the row number.

use vstd::prelude::*;
use vstd::string::*;
use crate::constants::{BSIZE, BVCNT, EBSIZE, EBVCNT, PASS};

verus! {

/// `v` is a playable point of the bordered board.
pub open spec fn on_board(v: int) -> bool {
    &&& 1 <= v % 11 <= 9
    &&& 1 <= v / 11 <= 9
}

/// Column letters by x coordinate; column 0 is the left border.
pub open spec fn x_label(x: int) -> char {
    if x == 0 { '@' }
    else if x == 1 { 'A' }
    else if x == 2 { 'B' }
    else if x == 3 { 'C' }
    else if x == 4 { 'D' }
    else if x == 5 { 'E' }
    else if x == 6 { 'F' }
    else if x == 7 { 'G' }
    else if x == 8 { 'H' }
    else if x == 9 { 'J' }
    else if x == 10 { 'K' }
    else if x == 11 { 'L' }
    else if x == 12 { 'M' }
    else if x == 13 { 'N' }
    else if x == 14 { 'O' }
    else if x == 15 { 'P' }
    else if x == 16 { 'Q' }
    else if x == 17 { 'R' }
    else if x == 18 { 'S' }
    else { 'T' }
}

/// The decimal digit `d` as a character.
pub open spec fn digit_char(d: int) -> char {
    if d == 0 { '0' }
    else if d == 1 { '1' }
    else if d == 2 { '2' }
    else if d == 3 { '3' }
    else if d == 4 { '4' }
    else if d == 5 { '5' }
    else if d == 6 { '6' }
    else if d == 7 { '7' }
    else if d == 8 { '8' }
    else { '9' }
}

/// Upper-case form of an ASCII letter; any other character is itself.
pub open spec fn ascii_upper(c: char) -> char {
    if 'a' <= c && c <= 'z' { ((c as u8) - 32) as char } else { c }
}

/// The characters of `s`, each in upper case.
pub open spec fn upper_seq(s: Seq<char>) -> Seq<char> {
    Seq::new(s.len(), |i: int| ascii_upper(s[i]))
}

/// The x coordinate whose column letter is `c`, if `c` is one of `A`..`T`
/// without `I`.
pub open spec fn column_of(c: char) -> Option<int> {
    if 'A' <= c && c <= 'H' {
        Some(c as int - 'A' as int + 1)
    } else if 'J' <= c && c <= 'T' {
        Some(c as int - 'A' as int)
    } else {
        None
    }
}

/// The row that the digit `c` names, if it is one of `1`..`9`.
pub open spec fn row_of(c: char) -> Option<int> {
    if '1' <= c && c <= '9' { Some(c as int - '0' as int) } else { None }
}

/// Label of a vertex: `PASS` from the pass move on, else the column letter
/// followed by the row in decimal.
pub open spec fn label_of(ev: int) -> Seq<char> {
    if ev >= 121 {
        seq!['P', 'A', 'S', 'S']
    } else if ev / 11 >= 10 {
        seq![x_label(ev % 11), '1', digit_char(ev / 11 - 10)]
    } else {
        seq![x_label(ev % 11), digit_char(ev / 11)]
    }
}

/// The vertex that a label names. `PASS` and `RESIGN` name the pass move;
/// a column letter and one digit from 1 to 9 name a point; letter case is
/// ignored. Anything else names nothing.
pub open spec fn parse_label(s: Seq<char>) -> Option<int> {
    let u = upper_seq(s);
    if u == seq!['P', 'A', 'S', 'S'] || u == seq!['R', 'E', 'S', 'I', 'G', 'N'] {
        Some(121)
    } else if u.len() == 2 && column_of(u[0]) is Some && row_of(u[1]) is Some {
        Some(row_of(u[1])->0 * 11 + column_of(u[0])->0)
    } else {
        None
    }
}

pub open spec fn spec_rv2ev(rv: int) -> int {
    if rv == 81 { 121 } else { rv % 9 + 1 + (rv / 9 + 1) * 11 }
}

pub open spec fn spec_ev2rv(ev: int) -> int {
    if ev == 121 { 81 } else { ev % 11 - 1 + (ev / 11 - 1) * 9 }
}

/// Splits an extended-linear vertex into `(x, y)`.
pub fn ev2xy(ev: usize) -> (r: (u8, u8))
    requires
        ev / 11 <= 255,
    ensures
        r.0 == ev % 11,
        r.1 == ev / 11,
{
    ((ev % EBSIZE) as u8, (ev / EBSIZE) as u8)
}

/// The extended-linear vertex of `(x, y)`.
pub fn xy2ev(x: u8, y: u8) -> (r: usize)
    ensures
        r == y * 11 + x,
{
    y as usize * EBSIZE + x as usize
}

/// Board-linear to extended-linear; `BVCNT` stands for the pass move.
pub fn rv2ev(rv: usize) -> (r: usize)
    requires
        rv <= BVCNT,
    ensures
        r == spec_rv2ev(rv as int),
        rv < BVCNT ==> on_board(r as int) && r < EBVCNT,
        rv == BVCNT ==> r == PASS,
{
    if rv == BVCNT {
        PASS
    } else {
        rv % BSIZE + 1 + (rv / BSIZE + 1) * EBSIZE
    }
}

/// Extended-linear to board-linear; the pass move becomes `BVCNT`.
pub fn ev2rv(ev: usize) -> (r: usize)
    requires
        ev == PASS || on_board(ev as int),
    ensures
        r == spec_ev2rv(ev as int),
        ev != PASS ==> r < BVCNT,
        ev == PASS ==> r == BVCNT,
{
    if ev == PASS {
        BVCNT
    } else {
        ev % EBSIZE - 1 + (ev / EBSIZE - 1) * BSIZE
    }
}

/// The four orthogonal neighbours of `v`: right, up, left, down.
pub fn neighbors(v: usize) -> (r: [usize; 4])
    requires
        11 <= v <= usize::MAX - 11,
    ensures
        r[0] == v + 1,
        r[1] == v + 11,
        r[2] == v - 1,
        r[3] == v - 11,
{
    [v + 1, v + EBSIZE, v - 1, v - EBSIZE]
}

/// The four diagonal neighbours of `v`.
pub fn diagonals(v: usize) -> (r: [usize; 4])
    requires
        12 <= v <= usize::MAX - 12,
    ensures
        r[0] == v + 12,
        r[1] == v + 10,
        r[2] == v - 12,
        r[3] == v - 10,
{
    [v + EBSIZE + 1, v + EBSIZE - 1, v - EBSIZE - 1, v - EBSIZE + 1]
}

/// `String::push` of the standard library appends one character.
pub assume_specification[ String::push ](s: &mut String, c: char)
    ensures
        final(s)@ == old(s)@.push(c),
;

/// The column letter of `x`.
fn column_label(x: usize) -> (c: char)
    ensures
        c == x_label(x as int),
{
    if x == 0 { '@' }
    else if x == 1 { 'A' }
    else if x == 2 { 'B' }
    else if x == 3 { 'C' }
    else if x == 4 { 'D' }
    else if x == 5 { 'E' }
    else if x == 6 { 'F' }
    else if x == 7 { 'G' }
    else if x == 8 { 'H' }
    else if x == 9 { 'J' }
    else if x == 10 { 'K' }
    else if x == 11 { 'L' }
    else if x == 12 { 'M' }
    else if x == 13 { 'N' }
    else if x == 14 { 'O' }
    else if x == 15 { 'P' }
    else if x == 16 { 'Q' }
    else if x == 17 { 'R' }
    else if x == 18 { 'S' }
    else { 'T' }
}

/// The character of one decimal digit.
fn digit_label(d: usize) -> (c: char)
    ensures
        c == digit_char(d as int),
{
    if d == 0 { '0' }
    else if d == 1 { '1' }
    else if d == 2 { '2' }
    else if d == 3 { '3' }
    else if d == 4 { '4' }
    else if d == 5 { '5' }
    else if d == 6 { '6' }
    else if d == 7 { '7' }
    else if d == 8 { '8' }
    else { '9' }
}

/// The label of an extended-linear vertex.
pub fn ev2str(ev: usize) -> (s: String)
    ensures
        s@ == label_of(ev as int),
{
    let mut s = String::new();
    if ev >= PASS {
        s.push('P');
        s.push('A');
        s.push('S');
        s.push('S');
    } else {
        let x: usize = ev % EBSIZE;
        let y: usize = ev / EBSIZE;
        s.push(column_label(x));
        if y >= 10 {
            s.push('1');
            s.push(digit_label(y - 10));
        } else {
            s.push(digit_label(y));
        }
    }
    assert(s@ =~= label_of(ev as int));
    s
}

/// Upper-case form of an ASCII letter.
fn to_upper(c: char) -> (r: char)
    ensures
        r == ascii_upper(c),
{
    if 'a' <= c && c <= 'z' {
        ((c as u8) - 32) as char
    } else {
        c
    }
}

/// Whether `v`, letter case ignored, spells the upper-case word `word`.
fn spells(v: &str, word: &str) -> (r: bool)
    ensures
        r == (upper_seq(v@) == word@),
{
    let n: usize = v.unicode_len();
    if n != word.unicode_len() {
        return false;
    }
    let mut i: usize = 0;
    while i < n
        invariant
            i <= n,
            n == v@.len(),
            n == word@.len(),
            forall|j: int| 0 <= j < i ==> ascii_upper(v@[j]) == word@[j],
        decreases n - i,
    {
        if to_upper(v.get_char(i)) != word.get_char(i) {
            assert(upper_seq(v@)[i as int] != word@[i as int]);
            return false;
        }
        i += 1;
    }
    assert(upper_seq(v@) =~= word@);
    true
}

/// The extended-linear vertex that a label names, or `None` where the label
/// names none.
pub fn str2ev(v: &str) -> (r: Option<usize>)
    ensures
        match r {
            Some(ev) => parse_label(v@) == Some(ev as int),
            None => parse_label(v@) is None,
        },
{
    proof {
        reveal_strlit("PASS");
        reveal_strlit("RESIGN");
    }
    assert("PASS"@ =~= seq!['P', 'A', 'S', 'S']);
    assert("RESIGN"@ =~= seq!['R', 'E', 'S', 'I', 'G', 'N']);
    if spells(v, "PASS") || spells(v, "RESIGN") {
        return Some(PASS);
    }
    if v.unicode_len() != 2 {
        return None;
    }
    let c0: char = to_upper(v.get_char(0));
    let c1: char = to_upper(v.get_char(1));
    assert(upper_seq(v@)[0] == c0);
    assert(upper_seq(v@)[1] == c1);
    let x: usize = if 'A' <= c0 && c0 <= 'H' {
        (c0 as u8 - 64) as usize
    } else if 'J' <= c0 && c0 <= 'T' {
        (c0 as u8 - 65) as usize
    } else {
        return None;
    };
    if '1' <= c1 && c1 <= '9' {
        let y: usize = (c1 as u8 - 48) as usize;
        Some(y * EBSIZE + x)
    } else {
        None
    }
}

/// Every neighbour and diagonal of a playable point lies on the bordered
/// board.
pub proof fn lemma_on_board_bounds(v: int)
    requires
        on_board(v),
    ensures
        12 <= v <= 108,
        0 <= v - 12 && v + 12 < 121,
        v != 121,
{
}

/// Going to the extended-linear vertex and back is the identity on board-linear
/// vertices, and the other way round on playable points and on the pass move.
pub proof fn lemma_rv_ev_round_trip(ev: int, rv: int)
    ensures
        on_board(ev) || ev == 121 ==> spec_rv2ev(spec_ev2rv(ev)) == ev,
        on_board(ev) ==> 0 <= spec_ev2rv(ev) < 81,
        spec_ev2rv(121) == 81,
        0 <= rv <= 81 ==> spec_ev2rv(spec_rv2ev(rv)) == rv,
        0 <= rv < 81 ==> on_board(spec_rv2ev(rv)),
{
}

/// Reading a label back gives the vertex it was written for, on every
/// playable point and on the pass move.
pub proof fn lemma_parse_of_label(ev: int)
    requires
        on_board(ev) || ev == 121,
    ensures
        parse_label(label_of(ev)) == Some(ev),
{
    let l = label_of(ev);
    let u = upper_seq(l);
    if ev == 121 {
        assert(u =~= seq!['P', 'A', 'S', 'S']);
    } else {
        assert(l.len() == 2);
        assert(u =~= l);
        assert(u != seq!['P', 'A', 'S', 'S']);
        assert(u != seq!['R', 'E', 'S', 'I', 'G', 'N']);
    }
}

/// Writing the label of the vertex that a label names gives that label back:
/// on `PASS` and on every upper-case label of a playable point.
pub proof fn lemma_label_of_parse(s: Seq<char>)
    requires
        s == seq!['P', 'A', 'S', 'S'] || (s.len() == 2 && 'A' <= s[0] <= 'J' && s[0] != 'I'
            && '1' <= s[1] <= '9'),
    ensures
        parse_label(s) is Some,
        label_of(parse_label(s)->0) == s,
        parse_label(s)->0 == 121 || on_board(parse_label(s)->0),
{
    let u = upper_seq(s);
    assert(u =~= s);
    if s == seq!['P', 'A', 'S', 'S'] {
    } else {
        assert(u != seq!['P', 'A', 'S', 'S']);
        assert(u != seq!['R', 'E', 'S', 'I', 'G', 'N']);
        let ev = parse_label(s)->0;
        assert(label_of(ev) =~= s);
    }
}

} // verus!
