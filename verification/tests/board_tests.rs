use rust_pyaq::board::{Board, Error};
use rust_pyaq::constants::{EBVCNT, KOMI, PASS, VNULL};
use rust_pyaq::coord_convert::{str2ev, xy2ev};
use rust_pyaq::intersection::{Color, Intersection};

fn ev(label: &str) -> usize {
    str2ev(label).unwrap()
}

fn play_all(b: &mut Board, labels: &[&str]) {
    for l in labels {
        assert!(b.play(ev(l), false).is_ok(), "move {} was refused", l);
    }
}

#[test]
fn two_passes_on_an_empty_board() {
    let mut b = Board::new();
    assert!(b.play(PASS, false).is_ok());
    assert!(b.play(PASS, false).is_ok());
    assert_eq!(b.score(), -KOMI);
    assert_eq!(b.get_history(), &vec![PASS, PASS]);
    assert_eq!(b.get_move_cnt(), 2);
    assert_eq!(b.get_prev_move(), PASS);
}

#[test]
fn score_of_an_empty_board_is_minus_komi() {
    let b = Board::new();
    assert_eq!(b.score(), -7);
}

#[test]
fn capture_sets_the_ko_point() {
    let mut b = Board::new();
    play_all(&mut b, &["D6", "E6", "C5", "F5", "D4", "E4", "E5", "D5"]);
    assert_eq!(b.get_remove_cnt(), 1);
    assert_eq!(b.get_ko(), ev("E5"));
    assert_eq!(b.get_state(ev("E5")), Intersection::Empty);
    assert_eq!(b.get_state(ev("D5")), Intersection::Stone(Color::White));
    assert!(!b.legal(ev("E5")));
    assert_eq!(b.play(ev("E5"), false), Err(Error::Illegal));
    // after a move elsewhere the ko is lifted
    play_all(&mut b, &["A1", "A9"]);
    assert_eq!(b.get_ko(), VNULL);
    assert!(b.legal(ev("E5")));
}

#[test]
fn an_occupied_point_is_illegal() {
    let mut b = Board::new();
    play_all(&mut b, &["D5", "E5", "E4", "F5", "E6", "G5", "D4"]);
    assert_eq!(b.play(ev("D5"), false), Err(Error::Illegal));
    assert_eq!(b.get_ko(), VNULL);
    assert_eq!(b.get_remove_cnt(), 0);
    assert_eq!(b.get_move_cnt(), 7);
    assert_eq!(b.get_state(ev("E5")), Intersection::Stone(Color::White));
}

#[test]
fn exterior_vertices_are_illegal() {
    let b = Board::new();
    assert!(!b.legal(0));
    assert!(!b.legal(xy2ev(10, 5)));
    assert!(!b.legal(EBVCNT - 1));
    assert!(b.legal(PASS));
}

fn liberties_of_chain(b: &Board, v: usize) -> Vec<usize> {
    let id = b.get_id(v);
    let mut libs = Vec::new();
    for w in 0..EBVCNT {
        if b.get_state(w) != Intersection::Empty {
            continue;
        }
        let touches = [w + 1, w + 11, w - 1, w - 11].iter().any(|&u| {
            matches!(b.get_state(u), Intersection::Stone(_)) && b.get_id(u) == id
        });
        if touches {
            libs.push(w);
        }
    }
    libs
}

fn check_position(b: &Board) {
    for v in 0..EBVCNT {
        if let Intersection::Stone(c) = b.get_state(v) {
            let id = b.get_id(v);
            let g = b.get_group(id);
            assert_eq!(b.get_state(id), Intersection::Stone(c));
            // liberties on record are the empty neighbours of the chain
            let libs = liberties_of_chain(b, v);
            assert_eq!(g.get_lib_cnt(), libs.len());
            for w in 0..EBVCNT {
                assert_eq!(g.has_lib(w), libs.contains(&w));
            }
            // the ring leads back after exactly `size` steps
            let mut u = v;
            for step in 1..=g.get_size() {
                u = b.get_next(u);
                assert_eq!(b.get_id(u), id);
                assert_eq!(u == v, step == g.get_size());
            }
            // the chain has `size` stones, has a liberty and hangs together
            let members = (0..EBVCNT)
                .filter(|&u| matches!(b.get_state(u), Intersection::Stone(_)) && b.get_id(u) == id)
                .count();
            assert_eq!(members, g.get_size());
            assert!(g.get_lib_cnt() > 0);
            let mut reached = vec![v];
            let mut at = 0;
            while at < reached.len() {
                let x = reached[at];
                for &u in [x + 1, x + 11, x - 1, x - 11].iter() {
                    if b.get_state(u) == Intersection::Stone(c) {
                        // neighbouring stones of one colour are in one chain
                        assert_eq!(b.get_id(u), id);
                        if !reached.contains(&u) {
                            reached.push(u);
                        }
                    }
                }
                at += 1;
            }
            assert_eq!(reached.len(), g.get_size());
        } else {
            assert_eq!(b.get_id(v), v);
            assert_eq!(b.get_next(v), v);
        }
    }
}

#[test]
fn liberties_and_rings_stay_consistent() {
    let mut b = Board::new();
    check_position(&b);
    let moves = [
        "D5", "E5", "D4", "E4", "D6", "E6", "C5", "F5", "D3", "E3", "D7", "E7", "A1", "A2", "B1",
        "B2", "PASS", "C1", "J9", "H9", "J8", "H8", "PASS", "J7",
    ];
    for m in moves.iter() {
        assert!(b.play(ev(m), false).is_ok(), "move {} was refused", m);
        check_position(&b);
    }
    // the black corner stones at A1 and B1 were taken by C1
    assert_eq!(b.get_state(ev("A1")), Intersection::Empty);
    assert_eq!(b.get_state(ev("B1")), Intersection::Empty);
    // and the ones at J9 and J8 by J7
    assert_eq!(b.get_state(ev("J9")), Intersection::Empty);
    assert_eq!(b.get_remove_cnt(), 2);
    // one black chain of six stones in the centre
    assert_eq!(b.get_group(b.get_id(ev("D5"))).get_size(), 6);
    assert_eq!(b.get_id(ev("C5")), b.get_id(ev("D7")));
}

#[test]
fn random_games_stay_consistent() {
    for _ in 0..20 {
        let mut b = Board::new();
        for _ in 0..120 {
            let before = b.get_move_cnt();
            let mov = b.random_play();
            assert_eq!(b.get_move_cnt(), before + 1);
            assert_eq!(b.get_prev_move(), mov);
            check_position(&b);
        }
    }
}

#[test]
fn an_eye_is_not_filled() {
    let mut b = Board::new();
    // Black builds a diamond round E5, White plays far away.
    play_all(&mut b, &["D5", "A9", "F5", "B9", "E4", "C9", "E6", "D9"]);
    let e5 = ev("E5");
    assert!(b.eyeshape(e5, Color::Black));
    assert!(!b.eyeshape(e5, Color::White));
    assert!(b.legal(e5));
    assert_eq!(b.play(e5, true), Err(Error::FillEye));
    assert_eq!(b.get_move_cnt(), 8);
    assert!(b.play(e5, false).is_ok());
}

#[test]
fn two_wedges_spoil_an_eye() {
    let mut b = Board::new();
    play_all(&mut b, &["D5", "D6", "F5", "F6", "E4", "A9", "E6", "B9"]);
    // D6 and F6 are White: two opposing diagonals
    assert!(!b.eyeshape(ev("E5"), Color::Black));
    let mut c = Board::new();
    play_all(&mut c, &["D5", "D6", "F5", "A9", "E4", "B9", "E6", "C9"]);
    // one opposing diagonal only
    assert!(c.eyeshape(ev("E5"), Color::Black));
}

#[test]
fn an_eye_on_the_edge_counts_the_border_once() {
    let mut b = Board::new();
    play_all(&mut b, &["A2", "E5", "B1", "E6"]);
    // A1: both neighbours Black, three diagonals off the board, one empty
    assert!(b.eyeshape(ev("A1"), Color::Black));
    play_all(&mut b, &["PASS", "B2"]);
    // the border and the white stone on B2 make two wedges
    assert!(!b.eyeshape(ev("A1"), Color::Black));
}

#[test]
fn no_eye_beside_an_empty_point_or_an_opposing_stone() {
    let mut b = Board::new();
    play_all(&mut b, &["D5", "A9", "F5", "B9", "E4", "C9"]);
    // E6 is empty
    assert!(!b.eyeshape(ev("E5"), Color::Black));
    play_all(&mut b, &["PASS", "E6"]);
    // E6 is White
    assert!(!b.eyeshape(ev("E5"), Color::Black));
    assert!(!b.eyeshape(PASS, Color::Black));
}

#[test]
fn suicide_is_illegal() {
    let mut b = Board::new();
    // White surrounds A1.
    play_all(&mut b, &["E5", "A2", "E6", "B1"]);
    let a1 = ev("A1");
    assert!(!b.legal(a1));
    assert_eq!(b.play(a1, false), Err(Error::Illegal));
    assert_eq!(b.play(a1, true), Err(Error::Illegal));
    // for White it is an eye, and legal
    play_all(&mut b, &["PASS"]);
    assert!(b.legal(a1));
    assert_eq!(b.play(a1, true), Err(Error::FillEye));
}

#[test]
fn filling_the_last_liberty_of_the_own_chain_is_illegal() {
    let mut b = Board::new();
    play_all(&mut b, &["A1", "A2", "PASS", "B2", "PASS", "D1"]);
    // B1 joins A1, and the chain keeps the liberty C1
    assert!(b.legal(ev("B1")));
    play_all(&mut b, &["B1", "C2"]);
    // now C1 is the last liberty of the chain A1-B1 and takes nothing
    assert!(!b.legal(ev("C1")));
    assert_eq!(b.play(ev("C1"), false), Err(Error::Illegal));
}

#[test]
fn capturing_is_legal_without_liberties() {
    let mut b = Board::new();
    // White A1 in atari at B1 after Black A2; Black B1 captures.
    play_all(&mut b, &["A2", "A1", "B1"]);
    assert_eq!(b.get_remove_cnt(), 1);
    assert_eq!(b.get_state(ev("A1")), Intersection::Empty);
    // the capturing stone is part of a chain of more than one liberty: no ko
    assert_eq!(b.get_ko(), VNULL);
}

#[test]
fn score_counts_stones_and_surrounded_points() {
    let mut b = Board::new();
    play_all(&mut b, &["A2", "J9", "B1"]);
    // Black: A2, B1 and the point A1; the points A3, B2, C1 touch Black only.
    // White: J9 and the points H9 and J8.
    assert_eq!(b.score(), 6 - 3 - KOMI);
}

#[test]
fn info_lists_the_candidates() {
    let b = Board::new();
    let (hash, move_cnt, cands) = b.info();
    assert_eq!(hash, b.hash());
    assert_eq!(move_cnt, 0);
    assert_eq!(cands.len(), 82);
    assert_eq!(cands[0], 0);
    assert_eq!(cands[80], 80);
    assert_eq!(cands[81], 81);

    let mut c = Board::new();
    play_all(&mut c, &["D5", "A9", "F5", "B9", "E4", "C9", "E6", "D9"]);
    let (_, move_cnt, cands) = c.info();
    assert_eq!(move_cnt, 8);
    // eight stones and the eye at E5 are no candidates
    assert_eq!(cands.len(), 82 - 8 - 1);
    assert!(!cands.contains(&40));
    assert_eq!(*cands.last().unwrap(), 81);
}

#[test]
fn the_hash_depends_on_cells_previous_cells_and_turn() {
    let mut a = Board::new();
    let mut b = Board::new();
    assert_eq!(a.hash(), b.hash());
    play_all(&mut a, &["D5", "E5"]);
    play_all(&mut b, &["D5", "E5"]);
    assert_eq!(a.hash(), b.hash());
    // other cells
    let mut c = Board::new();
    play_all(&mut c, &["D5", "E6"]);
    assert_ne!(a.hash(), c.hash());
    // same cells, other side to move
    play_all(&mut a, &["PASS"]);
    assert_ne!(a.hash(), b.hash());
    // same cells and turn reached through other previous cells
    let mut d = Board::new();
    play_all(&mut d, &["D5", "E5", "C3", "C7"]);
    let mut e = Board::new();
    play_all(&mut e, &["C3", "C7", "D5", "E5"]);
    assert_ne!(d.hash(), e.hash());
    // ko, history and move count do not enter
    let mut f = Board::new();
    play_all(&mut f, &["PASS", "PASS"]);
    assert_eq!(f.hash(), Board::new().hash());
}

#[test]
fn features_mark_stones_history_and_turn() {
    let mut b = Board::new();
    let f = b.feature();
    assert_eq!(f.len(), 81 * 7);
    for p in 0..81 {
        assert_eq!(&f[p * 7..p * 7 + 7], &[0, 0, 0, 0, 0, 0, 1]);
    }
    play_all(&mut b, &["A1", "B1", "C1"]);
    // White to move; A1 and C1 are the opponent's, B1 its own
    let f = b.feature();
    assert_eq!(&f[0..7], &[0, 1, 0, 1, 0, 1, 0]);
    assert_eq!(&f[7..14], &[1, 0, 1, 0, 0, 0, 0]);
    assert_eq!(&f[14..21], &[0, 1, 0, 0, 0, 0, 0]);
    assert_eq!(&f[21..28], &[0, 0, 0, 0, 0, 0, 0]);
}

#[test]
fn copy_to_copies_the_whole_board() {
    let mut a = Board::new();
    play_all(&mut a, &["D6", "E6", "C5", "F5", "D4", "E4", "E5", "D5"]);
    let mut b = Board::new();
    play_all(&mut b, &["A1"]);
    a.copy_to(&mut b);
    assert_eq!(b.get_history(), a.get_history());
    assert_eq!(b.get_ko(), a.get_ko());
    assert_eq!(b.get_turn(), a.get_turn());
    assert_eq!(b.get_move_cnt(), a.get_move_cnt());
    assert_eq!(b.get_prev_move(), a.get_prev_move());
    assert_eq!(b.get_remove_cnt(), a.get_remove_cnt());
    assert_eq!(b.hash(), a.hash());
    assert_eq!(b.feature(), a.feature());
    for v in 0..EBVCNT {
        assert_eq!(b.get_state(v), a.get_state(v));
        assert_eq!(b.get_id(v), a.get_id(v));
        assert_eq!(b.get_next(v), a.get_next(v));
        assert_eq!(b.get_group(v).get_lib_cnt(), a.get_group(v).get_lib_cnt());
        assert_eq!(b.get_group(v).get_size(), a.get_group(v).get_size());
        assert_eq!(b.get_group(v).get_v_atr(), a.get_group(v).get_v_atr());
    }
    check_position(&b);
    // the copy is independent
    play_all(&mut b, &["A1"]);
    assert_eq!(a.get_move_cnt(), 8);
}

#[test]
fn replaying_the_history_gives_the_same_position() {
    let mut a = Board::new();
    for _ in 0..60 {
        a.random_play();
    }
    let mut b = Board::new();
    for &m in a.get_history().clone().iter() {
        assert!(b.play(m, false).is_ok());
    }
    assert_eq!(b.get_ko(), a.get_ko());
    assert_eq!(b.get_turn(), a.get_turn());
    assert_eq!(b.hash(), a.hash());
    for v in 0..EBVCNT {
        assert_eq!(b.get_state(v), a.get_state(v));
        assert_eq!(b.get_id(v), a.get_id(v));
        assert_eq!(b.get_next(v), a.get_next(v));
        let (g, h) = (a.get_group(v), b.get_group(v));
        assert_eq!(g.get_lib_cnt(), h.get_lib_cnt());
        assert_eq!(g.get_size(), h.get_size());
        assert_eq!(g.get_v_atr(), h.get_v_atr());
        for w in 0..EBVCNT {
            assert_eq!(g.has_lib(w), h.has_lib(w));
        }
    }
}

#[test]
fn legal_agrees_with_play() {
    let mut a = Board::new();
    for round in 0..20 {
        for v in 0..=PASS {
            let mut c = Board::new();
            a.copy_to(&mut c);
            assert_eq!(a.legal(v), c.play(v, false).is_ok(), "vertex {} in round {}", v, round);
        }
        a.random_play();
    }
}

#[test]
fn clear_resets_the_board() {
    let mut b = Board::new();
    play_all(&mut b, &["D5", "E5", "PASS"]);
    b.clear();
    assert_eq!(b.get_move_cnt(), 0);
    assert_eq!(b.get_prev_move(), VNULL);
    assert_eq!(b.get_ko(), VNULL);
    assert_eq!(b.get_turn(), Color::Black);
    assert!(b.get_history().is_empty());
    assert_eq!(b.hash(), Board::new().hash());
    assert_eq!(b.get_state(0), Intersection::Exterior);
    assert_eq!(b.get_state(12), Intersection::Empty);
    check_position(&b);
}

#[test]
fn random_play_passes_when_only_eyes_are_left() {
    let mut b = Board::new();
    let m = b.random_play();
    assert!(m != PASS);
    assert_eq!(b.get_state(m), Intersection::Stone(Color::Black));
    assert_eq!(b.get_turn(), Color::White);
}

#[test]
fn rollout_ends_with_two_passes_or_at_the_limit() {
    for _ in 0..5 {
        let mut b = Board::new();
        b.rollout();
        let h = b.get_history();
        let n = h.len();
        assert_eq!(n, b.get_move_cnt());
        assert!(n >= 2 * EBVCNT || (h[n - 1] == PASS && h[n - 2] == PASS));
        check_position(&b);
    }
}

#[test]
fn play_first_takes_the_first_accepted_move() {
    let mut b = Board::new();
    play_all(&mut b, &["D5", "A9", "F5", "B9", "E4", "C9", "E6", "D9"]);
    // D5 is occupied, E5 is an eye, G7 is free
    let order = vec![ev("D5"), ev("E5"), ev("G7"), ev("A1")];
    assert_eq!(b.play_first(&order), ev("G7"));
    assert_eq!(b.get_prev_move(), ev("G7"));
    let none = vec![ev("D5"), ev("G7")];
    assert_eq!(b.play_first(&none), PASS);
    assert_eq!(b.get_prev_move(), PASS);
}

#[test]
fn merge_and_remove_work_on_chains() {
    let mut b = Board::new();
    play_all(&mut b, &["D5", "A9", "D6", "B9", "F5"]);
    let (d5, f5) = (ev("D5"), ev("F5"));
    assert_ne!(b.get_id(d5), b.get_id(f5));
    let before = b.get_group(b.get_id(d5)).get_lib_cnt() + b.get_group(b.get_id(f5)).get_lib_cnt();
    b.merge(d5, f5);
    assert_eq!(b.get_id(d5), b.get_id(f5));
    assert_eq!(b.get_id(ev("D6")), b.get_id(f5));
    let g = b.get_group(b.get_id(d5));
    assert_eq!(g.get_size(), 3);
    // E5 is a liberty of both
    assert_eq!(g.get_lib_cnt(), before - 1);
    b.remove(d5);
    for l in ["D5", "D6", "F5"].iter() {
        assert_eq!(b.get_state(ev(l)), Intersection::Empty);
    }
    assert_eq!(b.get_remove_cnt(), 3);
    check_position(&b);
}

#[test]
fn a_wedge_about_to_be_retaken_keeps_the_eye() {
    let mut b = Board::new();
    play_all(
        &mut b,
        &["D5", "C7", "F5", "E7", "E4", "D8", "E6", "F4", "C6", "A1", "D7", "D6"],
    );
    // White D6 has taken D7 and stands alone in atari: ko at D7.
    assert_eq!(b.get_remove_cnt(), 1);
    assert_eq!(b.get_ko(), ev("D7"));
    assert_eq!(b.get_group(b.get_id(ev("D6"))).get_lib_cnt(), 1);
    assert_eq!(b.get_group(b.get_id(ev("D6"))).get_v_atr(), ev("D7"));
    // E5 has the white wedges D6 and F4; D6 is in atari on the ko point
    assert!(b.eyeshape(ev("E5"), Color::Black));
    // without the ko the two wedges spoil the eye
    play_all(&mut b, &["J9", "J1"]);
    assert_eq!(b.get_ko(), VNULL);
    assert!(!b.eyeshape(ev("E5"), Color::Black));
}
