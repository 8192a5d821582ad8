//! Reading the lines of the Go Text Protocol and the moves of game records.
//!
//! A command line is split into words; the first word, or the second where
//! the first is `=`, is the command and the words after it are its
//! arguments. [`interpret`] says what a command with its arguments asks for,
//! as far as that can be said without doing it.

use vstd::prelude::*;
use vstd::string::*;
use crate::board::Board;
use crate::board_model::BoardView;
use crate::constants::{BSIZE, PASS};
use crate::coord_convert::{parse_label, str2ev, xy2ev};
use crate::intersection::Color;

verus! {

/// `c` is white space.
pub open spec fn is_space(c: char) -> bool {
    let n = c as u32;
    ||| 0x09 <= n <= 0x0d
    ||| n == 0x20
    ||| n == 0x85
    ||| n == 0xa0
    ||| n == 0x1680
    ||| 0x2000 <= n <= 0x200a
    ||| n == 0x2028
    ||| n == 0x2029
    ||| n == 0x202f
    ||| n == 0x205f
    ||| n == 0x3000
}

/// `char::is_whitespace` of the standard library tells whether a character
/// has the property `White_Space`; its documentation lists the characters.
pub assume_specification[ char::is_whitespace ](c: char) -> (r: bool)
    ensures
        r == is_space(c),
;

/// Where the word that begins at `i` ends: at the next white space or at the
/// end of `s`.
pub open spec fn word_end(s: Seq<char>, i: int) -> int
    decreases s.len() - i,
{
    if i >= s.len() || is_space(s[i]) {
        i
    } else {
        word_end(s, i + 1)
    }
}

/// The words of `s` from position `i` on: the longest runs of characters
/// that are no white space.
pub open spec fn words_from(s: Seq<char>, i: int) -> Seq<Seq<char>>
    decreases s.len() - i,
{
    if i < 0 || i >= s.len() {
        Seq::empty()
    } else if is_space(s[i]) {
        words_from(s, i + 1)
    } else {
        let e = word_end(s, i);
        if i < e <= s.len() {
            seq![s.subrange(i, e)] + words_from(s, e)
        } else {
            Seq::empty()
        }
    }
}

/// The words of a line.
pub open spec fn words(s: Seq<char>) -> Seq<Seq<char>> {
    words_from(s, 0)
}

/// The place of the command among the words of a line: behind a leading
/// `=`, else in front.
pub open spec fn command_at(w: Seq<Seq<char>>) -> int {
    if w.len() > 0 && w[0] == seq!['='] { 1 } else { 0 }
}

/// The command among the words of a line, where there is one.
pub open spec fn command_of(w: Seq<Seq<char>>) -> Option<Seq<char>> {
    if command_at(w) < w.len() { Some(w[command_at(w)]) } else { None }
}

/// The arguments among the words of a line: the words behind the command.
pub open spec fn arguments_of(w: Seq<Seq<char>>) -> Seq<Seq<char>> {
    if command_at(w) + 1 <= w.len() { w.skip(command_at(w) + 1) } else { Seq::empty() }
}

/// The characters of each string of `v`.
pub open spec fn views(v: Seq<&str>) -> Seq<Seq<char>> {
    Seq::new(v.len(), |i: int| v[i]@)
}

/// A word ends behind its beginning, inside `s`, and on white space or on
/// the end of `s`; no white space lies inside it.
pub proof fn lemma_word_end(s: Seq<char>, i: int)
    requires
        0 <= i <= s.len(),
    ensures
        i <= word_end(s, i) <= s.len(),
        i < s.len() && !is_space(s[i]) ==> i < word_end(s, i),
        word_end(s, i) < s.len() ==> is_space(s[word_end(s, i)]),
        forall|j: int| i <= j < word_end(s, i) ==> !is_space(#[trigger] s[j]),
    decreases s.len() - i,
{
    if i < s.len() && !is_space(s[i]) {
        lemma_word_end(s, i + 1);
    }
}

/// The words of `line`.
pub fn split_words<'a>(line: &'a str) -> (r: Vec<&'a str>)
    ensures
        views(r@) == words(line@),
{
    let n: usize = line.unicode_len();
    let mut out: Vec<&'a str> = Vec::new();
    let mut i: usize = 0;
    assert(views(out@) + words_from(line@, 0) =~= words(line@));
    while i < n
        invariant
            i <= n,
            n == line@.len(),
            views(out@) + words_from(line@, i as int) == words(line@),
        decreases n - i,
    {
        if line.get_char(i).is_whitespace() {
            i += 1;
        } else {
            let mut e: usize = i + 1;
            while e < n && !line.get_char(e).is_whitespace()
                invariant
                    i < e <= n,
                    n == line@.len(),
                    word_end(line@, i as int) == word_end(line@, e as int),
                decreases n - e,
            {
                e += 1;
            }
            let ghost done = views(out@);
            let word: &'a str = line.substring_char(i, e);
            out.push(word);
            proof {
                assert(word_end(line@, i as int) == e);
                assert(views(out@) =~= done + seq![line@.subrange(i as int, e as int)]);
                assert(views(out@) + words_from(line@, e as int) =~= done + words_from(
                    line@,
                    i as int,
                ));
            }
            i = e;
        }
    }
    assert(views(out@) + words_from(line@, i as int) =~= views(out@));
    out
}

/// Whether the two strings hold the same characters.
pub fn same(a: &str, b: &str) -> (r: bool)
    ensures
        r == (a@ == b@),
{
    let n: usize = a.unicode_len();
    if n != b.unicode_len() {
        return false;
    }
    let mut i: usize = 0;
    while i < n
        invariant
            i <= n,
            n == a@.len(),
            n == b@.len(),
            forall|j: int| 0 <= j < i ==> a@[j] == b@[j],
        decreases n - i,
    {
        if a.get_char(i) != b.get_char(i) {
            return false;
        }
        i += 1;
    }
    assert(a@ =~= b@);
    true
}

/// Splits a command line into the command and its arguments.
pub fn parse<'a>(line: &'a str) -> (r: (Option<&'a str>, Vec<&'a str>))
    ensures
        match r.0 {
            Some(c) => command_of(words(line@)) == Some(c@),
            None => command_of(words(line@)) is None,
        },
        views(r.1@) == arguments_of(words(line@)),
{
    let all: Vec<&'a str> = split_words(line);
    let ghost w = words(line@);
    proof {
        reveal_strlit("=");
        assert("="@ =~= seq!['=']);
        if all@.len() > 0 {
            assert(views(all@)[0] == all@[0]@);
        }
    }
    let at: usize = if all.len() > 0 && same(all[0], "=") {
        1
    } else {
        0
    };
    let command: Option<&'a str> = if at < all.len() {
        assert(views(all@)[at as int] == all@[at as int]@);
        Some(all[at])
    } else {
        None
    };
    let mut args: Vec<&'a str> = Vec::new();
    let mut i: usize = at + 1;
    while i < all.len()
        invariant
            at + 1 <= i,
            at + 1 <= all@.len() ==> i <= all@.len(),
            views(all@) == w,
            i <= all@.len() ==> views(args@) == w.subrange(at + 1, i as int),
            i > all@.len() ==> args@.len() == 0,
        decreases all@.len() - i,
    {
        let ghost before = views(args@);
        args.push(all[i]);
        proof {
            assert(views(all@)[i as int] == all@[i as int]@);
            assert(views(args@) =~= before.push(all@[i as int]@));
            assert(views(args@) =~= w.subrange(at + 1, i + 1));
        }
        i += 1;
    }
    proof {
        if at + 1 <= all@.len() {
            assert(w.subrange(at + 1, all@.len() as int) =~= w.skip(at + 1));
        } else {
            assert(views(args@) =~= Seq::<Seq<char>>::empty());
        }
    }
    (command, args)
}

/// The number that decimal digits spell.
pub open spec fn decimal(s: Seq<char>) -> nat
    decreases s.len(),
{
    if s.len() == 0 {
        0
    } else {
        decimal(s.drop_last()) * 10 + (s.last() as u32 - '0' as u32) as nat
    }
}

/// `s` is a non-empty run of decimal digits.
pub open spec fn all_digits(s: Seq<char>) -> bool {
    s.len() > 0 && forall|i: int| 0 <= i < s.len() ==> '0' <= #[trigger] s[i] <= '9'
}

/// The number that `s` spells in decimal digits, where it spells one that
/// fits.
pub fn parse_number(s: &str) -> (r: Option<usize>)
    ensures
        match r {
            Some(n) => all_digits(s@) && n == decimal(s@),
            None => !all_digits(s@) || decimal(s@) > usize::MAX,
        },
{
    let n: usize = s.unicode_len();
    if n == 0 {
        return None;
    }
    let mut value: usize = 0;
    let mut i: usize = 0;
    while i < n
        invariant
            i <= n,
            n == s@.len(),
            forall|j: int| 0 <= j < i ==> '0' <= #[trigger] s@[j] <= '9',
            value == decimal(s@.subrange(0, i as int)),
        decreases n - i,
    {
        let c: char = s.get_char(i);
        if !('0' <= c && c <= '9') {
            return None;
        }
        let d: usize = (c as u32 - '0' as u32) as usize;
        proof {
            let head = s@.subrange(0, i + 1);
            assert(head.drop_last() =~= s@.subrange(0, i as int));
            assert(head.last() == c);
            assert(decimal(head) == value * 10 + d);
            lemma_decimal_grows(s@, i + 1);
        }
        if value > (usize::MAX - d) / 10 {
            assert(decimal(s@.subrange(0, i + 1)) > usize::MAX) by (nonlinear_arith)
                requires
                    decimal(s@.subrange(0, i + 1)) == value * 10 + d,
                    value > (usize::MAX - d) / 10,
            ;
            return None;
        }
        assert(value * 10 + d <= usize::MAX) by (nonlinear_arith)
            requires
                value <= (usize::MAX - d) / 10,
        ;
        value = value * 10 + d;
        i += 1;
    }
    assert(s@.subrange(0, n as int) =~= s@);
    Some(value)
}

/// A number is no smaller than what its leading digits spell.
pub proof fn lemma_decimal_grows(s: Seq<char>, i: int)
    requires
        0 <= i <= s.len(),
    ensures
        decimal(s.subrange(0, i)) <= decimal(s),
    decreases s.len() - i,
{
    if i < s.len() {
        lemma_decimal_grows(s, i + 1);
        let longer = s.subrange(0, i + 1);
        assert(longer.drop_last() =~= s.subrange(0, i));
        assert(decimal(longer) >= decimal(s.subrange(0, i))) by (nonlinear_arith)
            requires
                decimal(longer) == decimal(s.subrange(0, i)) * 10 + (longer.last() as u32
                    - '0' as u32) as nat,
        ;
    } else {
        assert(s.subrange(0, i) =~= s);
    }
}

/// What a command line asks for.
#[derive(Debug, PartialEq, Eq)]
pub enum Command {
    /// Answer with the protocol's version, `2`.
    ProtocolVersion,
    /// Answer with the engine's name.
    Name,
    /// Answer with the engine's version.
    Version,
    /// Answer with the names of the commands.
    ListCommands,
    /// The board size asked for is the engine's, or it is not.
    Boardsize(bool),
    /// A komi is asked for; the first argument is the number.
    Komi,
    /// Main time and byoyomi are set; the first two arguments are the
    /// numbers.
    TimeSettings,
    /// The time left is told; the second argument is the number.
    TimeLeft,
    ClearBoard,
    Genmove,
    /// A move is to be played, where the second argument names a vertex.
    Play(Option<usize>),
    Undo,
    /// Moves are to be played; every second argument names a vertex.
    PlaySequence,
    Showboard,
    /// A game record is to be loaded up to the given number of moves; there
    /// is no limit where `usize::MAX` is given. The first argument is the
    /// file's name.
    LoadSgf(Option<usize>),
    Quit,
    Unknown,
}

/// The vertices that the arguments at the odd places from `i` on name, or
/// `None` where one of them names none.
pub open spec fn vertices_from(args: Seq<Seq<char>>, i: int) -> Option<Seq<usize>>
    decreases args.len() + 1 - i,
{
    if i < 0 || i >= args.len() {
        Some(Seq::empty())
    } else {
        match (parse_label(args[i]), vertices_from(args, i + 2)) {
            (Some(v), Some(rest)) => Some(seq![v as usize] + rest),
            _ => None,
        }
    }
}

/// The move limit that the arguments of `loadsgf` give: none without a
/// second argument, else the number it spells.
pub open spec fn move_limit(args: Seq<Seq<char>>) -> Option<usize> {
    if args.len() < 2 {
        Some(usize::MAX)
    } else if all_digits(args[1]) && decimal(args[1]) <= usize::MAX {
        Some(decimal(args[1]) as usize)
    } else {
        None
    }
}

/// What the command `c` with the arguments `args` asks for.
pub open spec fn meaning(c: Seq<char>, args: Seq<Seq<char>>) -> Command {
    if c == "protocol_version"@ {
        Command::ProtocolVersion
    } else if c == "name"@ {
        Command::Name
    } else if c == "version"@ {
        Command::Version
    } else if c == "list_commands"@ {
        Command::ListCommands
    } else if c == "boardsize"@ {
        Command::Boardsize(args.len() > 0 && all_digits(args[0]) && decimal(args[0]) == 9)
    } else if c == "komi"@ {
        Command::Komi
    } else if c == "time_settings"@ {
        Command::TimeSettings
    } else if c == "time_left"@ {
        Command::TimeLeft
    } else if c == "clear_board"@ {
        Command::ClearBoard
    } else if c == "genmove"@ {
        Command::Genmove
    } else if c == "play"@ {
        Command::Play(
            if args.len() > 1 {
                match parse_label(args[1]) {
                    Some(v) => Some(v as usize),
                    None => None,
                }
            } else {
                None
            },
        )
    } else if c == "undo"@ {
        Command::Undo
    } else if c == "gogui-play_sequence"@ {
        Command::PlaySequence
    } else if c == "showboard"@ {
        Command::Showboard
    } else if c == "loadsgf"@ {
        Command::LoadSgf(move_limit(args))
    } else if c == "quit"@ {
        Command::Quit
    } else {
        Command::Unknown
    }
}

/// Whether the number that `s` spells is the board's size.
fn is_board_size(s: &str) -> (r: bool)
    ensures
        r == (all_digits(s@) && decimal(s@) == 9),
{
    match parse_number(s) {
        Some(n) => n == BSIZE,
        None => false,
    }
}

/// What the command `command` with the arguments `args` asks for.
pub fn interpret(command: &str, args: &Vec<&str>) -> (r: Command)
    ensures
        r == meaning(command@, views(args@)),
{
    proof {
        if args@.len() > 0 {
            assert(views(args@)[0] == args@[0]@);
        }
        if args@.len() > 1 {
            assert(views(args@)[1] == args@[1]@);
        }
    }
    if same(command, "protocol_version") {
        Command::ProtocolVersion
    } else if same(command, "name") {
        Command::Name
    } else if same(command, "version") {
        Command::Version
    } else if same(command, "list_commands") {
        Command::ListCommands
    } else if same(command, "boardsize") {
        Command::Boardsize(args.len() > 0 && is_board_size(args[0]))
    } else if same(command, "komi") {
        Command::Komi
    } else if same(command, "time_settings") {
        Command::TimeSettings
    } else if same(command, "time_left") {
        Command::TimeLeft
    } else if same(command, "clear_board") {
        Command::ClearBoard
    } else if same(command, "genmove") {
        Command::Genmove
    } else if same(command, "play") {
        Command::Play(
            if args.len() > 1 {
                str2ev(args[1])
            } else {
                None
            },
        )
    } else if same(command, "undo") {
        Command::Undo
    } else if same(command, "gogui-play_sequence") {
        Command::PlaySequence
    } else if same(command, "showboard") {
        Command::Showboard
    } else if same(command, "loadsgf") {
        Command::LoadSgf(
            if args.len() < 2 {
                Some(usize::MAX)
            } else {
                parse_number(args[1])
            },
        )
    } else if same(command, "quit") {
        Command::Quit
    } else {
        Command::Unknown
    }
}

/// The vertices that every second argument names, from the second on; or
/// `None` where one of them names no vertex.
pub fn sequence_vertices(args: &Vec<&str>) -> (r: Option<Vec<usize>>)
    ensures
        match r {
            Some(v) => vertices_from(views(args@), 1) == Some(v@),
            None => vertices_from(views(args@), 1) is None,
        },
{
    let ghost a = views(args@);
    let mut out: Vec<usize> = Vec::new();
    let mut i: usize = 1;
    assert(Seq::<usize>::empty() + vertices_from(a, 1)->0 =~= vertices_from(a, 1)->0);
    while i < args.len()
        invariant
            i % 2 == 1,
            a == views(args@),
            match vertices_from(a, i as int) {
                Some(rest) => vertices_from(a, 1) == Some(out@ + rest),
                None => vertices_from(a, 1) is None,
            },
        decreases args@.len() + 1 - i,
    {
        assert(a[i as int] == args@[i as int]@);
        match str2ev(args[i]) {
            Some(v) => {
                let ghost before = out@;
                out.push(v);
                proof {
                    match vertices_from(a, i + 2) {
                        Some(rest) => {
                            assert(before + (seq![v] + rest) =~= out@ + rest);
                        },
                        None => {},
                    }
                }
            },
            None => {
                return None;
            },
        }
        if i >= usize::MAX - 1 {
            proof {
                assert(vertices_from(a, i + 2) == Some(Seq::<usize>::empty()));
                assert(out@ + Seq::<usize>::empty() =~= out@);
            }
            return Some(out);
        }
        i += 2;
    }
    proof {
        assert(out@ + Seq::<usize>::empty() =~= out@);
    }
    Some(out)
}

/// The names of the commands, in the order in which they are listed.
pub fn command_names() -> (r: Vec<&'static str>)
    ensures
        r@.len() == 16,
        forall|i: int| 0 <= i < 16 ==> !(meaning(#[trigger] r@[i]@, Seq::empty()) is Unknown),
{
    let mut names: Vec<&'static str> = Vec::new();
    names.push("protocol_version");
    names.push("name");
    names.push("version");
    names.push("list_commands");
    names.push("boardsize");
    names.push("komi");
    names.push("time_settings");
    names.push("time_left");
    names.push("clear_board");
    names.push("genmove");
    names.push("play");
    names.push("undo");
    names.push("gogui-play_sequence");
    names.push("showboard");
    names.push("loadsgf");
    names.push("quit");
    names
}

// ----------------------------------------------------------------------
// Game records
// ----------------------------------------------------------------------
/// The coordinate that a letter of a game record names: `a` is 1; a
/// character beyond `s` names none.
pub open spec fn letter_coord(c: char) -> Option<int> {
    if 'a' <= c && c <= 's' { Some(c as u32 - 'a' as u32 + 1) } else { None }
}

/// The `(x, y)` that a point of a game record names: the first two
/// characters, where both are letters from `a` to `s`.
pub open spec fn point_xy(p: Seq<char>) -> Option<(int, int)> {
    if p.len() >= 2 && letter_coord(p[0]) is Some && letter_coord(p[1]) is Some {
        Some((letter_coord(p[0])->0, letter_coord(p[1])->0))
    } else {
        None
    }
}

/// The move that a point of a game record stands for: the vertex where the
/// point lies on the board, else the pass move.
pub open spec fn point_move(p: Seq<char>) -> usize {
    match point_xy(p) {
        Some((x, y)) => if x <= 9 && y <= 9 { (y * 11 + x) as usize } else { PASS },
        None => PASS,
    }
}

/// The `(x, y)` that the point `mov` of a game record names.
pub fn move2xy(mov: &str) -> (r: Option<(u8, u8)>)
    ensures
        match r {
            Some(xy) => point_xy(mov@) == Some((xy.0 as int, xy.1 as int)),
            None => point_xy(mov@) is None,
        },
{
    if mov.unicode_len() < 2 {
        return None;
    }
    let first: char = mov.get_char(0);
    let second: char = mov.get_char(1);
    if 'a' <= first && first <= 's' && 'a' <= second && second <= 's' {
        Some(((first as u8) - 96, (second as u8) - 96))
    } else {
        None
    }
}

/// What one node of a game record says of moves: the point of its black
/// move and the point of its white move, where it has them.
pub struct RecordNode {
    pub black: Option<String>,
    pub white: Option<String>,
}

impl RecordNode {
    /// The point of the node's move: that of Black, else that of White.
    pub open spec fn point(self) -> Option<Seq<char>> {
        match (self.black, self.white) {
            (Some(p), _) => Some(p@),
            (None, Some(p)) => Some(p@),
            (None, None) => None,
        }
    }

    /// The side to move after the node, `before` being the side to move
    /// before it.
    pub open spec fn turn_after(self, before: Color) -> Color {
        if self.black is Some {
            Color::White
        } else if self.white is Some {
            Color::Black
        } else {
            before
        }
    }
}

/// The board after the move `v` was tried: played where it is legal, else
/// left alone.
pub open spec fn tried(b: BoardView, v: usize) -> BoardView {
    if b.legal(v) { b.play(v) } else { b }
}

/// The board, the number of moves read and the side to move after the
/// nodes from `i` on were read, as long as fewer than `mn` moves have been
/// read.
pub open spec fn loaded(
    b: BoardView,
    n: nat,
    turn: Color,
    nodes: Seq<RecordNode>,
    i: int,
    mn: nat,
) -> (BoardView, Color)
    decreases nodes.len() - i,
{
    if i < 0 || i >= nodes.len() || n >= mn {
        (b, turn)
    } else {
        let node = nodes[i];
        match node.point() {
            Some(p) => loaded(
                tried(b, point_move(p)),
                n + 1,
                node.turn_after(turn),
                nodes,
                i + 1,
                mn,
            ),
            None => loaded(b, n, node.turn_after(turn), nodes, i + 1, mn),
        }
    }
}

/// Clears the board and plays the moves of the nodes of a game record on
/// it, no more than `mn` of them. A move that the board refuses is left
/// out; a point off the board is a pass. Returns the side to move
/// according to the record.
pub fn load_record(b: &mut Board, nodes: &Vec<RecordNode>, mn: usize) -> (r: Color)
    requires
        old(b)@.sg.len() == 121,
    ensures
        final(b)@ == loaded(BoardView::initial(), 0, Color::Black, nodes@, 0, mn as nat).0,
        r == loaded(BoardView::initial(), 0, Color::Black, nodes@, 0, mn as nat).1,
        final(b)@.wf(),
{
    b.clear();
    let ghost goal = loaded(BoardView::initial(), 0, Color::Black, nodes@, 0, mn as nat);
    let mut color = Color::Black;
    let mut n: usize = 0;
    let mut i: usize = 0;
    while i < nodes.len() && n < mn
        invariant
            i <= nodes@.len(),
            n <= i,
            b@.wf(),
            goal == loaded(b@, n as nat, color, nodes@, i as int, mn as nat),
        decreases nodes@.len() - i,
    {
        let node: &RecordNode = &nodes[i];
        let point: Option<&String> = match &node.black {
            Some(p) => Some(p),
            None => match &node.white {
                Some(p) => Some(p),
                None => None,
            },
        };
        if let Some(p) = point {
            let v: usize = match move2xy(p.as_str()) {
                Some(xy) => if xy.0 <= 9 && xy.1 <= 9 {
                    xy2ev(xy.0, xy.1)
                } else {
                    PASS
                },
                None => PASS,
            };
            assert(v == point_move(p@));
            let _ = b.play(v, false);
            n += 1;
        }
        if node.black.is_some() {
            color = Color::White;
        } else if node.white.is_some() {
            color = Color::Black;
        }
        i += 1;
    }
    color
}

/// Clears the board and plays the moves of `pv` on it. Returns the side to
/// move, or the reason why a move was refused; the moves before it stay
/// played.
pub fn load_pv(b: &mut Board, pv: &Vec<usize>) -> (r: Result<Color, crate::board::Error>)
    requires
        old(b)@.sg.len() == 121,
        forall|i: int| 0 <= i < pv@.len() ==> #[trigger] pv@[i] <= PASS,
    ensures
        final(b)@.wf(),
        final(b)@ == crate::board_model::replay(final(b)@.history),
        final(b)@.history.is_prefix_of(pv@),
        match r {
            Ok(c) => final(b)@.history == pv@ && c == final(b)@.turn,
            Err(e) => final(b)@.history.len() < pv@.len() && !final(b)@.legal(
                pv@[final(b)@.history.len() as int],
            ) && e == crate::board::Error::Illegal,
        },
{
    b.clear();
    let mut color = Color::Black;
    let mut i: usize = 0;
    while i < pv.len()
        invariant
            i <= pv@.len(),
            forall|j: int| 0 <= j < pv@.len() ==> #[trigger] pv@[j] <= PASS,
            b@.wf(),
            b@ == crate::board_model::replay(b@.history),
            b@.history == pv@.subrange(0, i as int),
            color == b@.turn,
        decreases pv@.len() - i,
    {
        let ghost before = b@;
        match b.play(pv[i], false) {
            Ok(_) => {
                proof {
                    crate::board_proofs::lemma_play(before, pv@[i as int]);
                    assert(b@.history =~= pv@.subrange(0, i + 1));
                }
                color = color.opponent();
            },
            Err(e) => {
                return Err(e);
            },
        }
        i += 1;
    }
    assert(pv@.subrange(0, i as int) =~= pv@);
    Ok(color)
}

} // verus!
