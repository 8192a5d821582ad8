use rust_pyaq::board::Board;
use rust_pyaq::constants::{PASS, VNULL};
use rust_pyaq::coord_convert::{ev2rv, rv2ev, str2ev};
use rust_pyaq::numpy::{argmax, argsort};
use rust_pyaq::search::{
    is_poll_due, move_time_divisor, tree_cp_percent, Node, Tree, BRANCH_CNT, EXPAND_CNT,
    MAX_NODE_CNT, SWEEP_CNT,
};

fn plain_order() -> Vec<usize> {
    (0..BRANCH_CNT).collect()
}

fn pass_first() -> Vec<usize> {
    let mut order = vec![81];
    order.extend(0..81);
    order
}

fn play_all(b: &mut Board, labels: &[&str]) {
    for l in labels {
        assert!(b.play(str2ev(l).unwrap(), false).is_ok());
    }
}

fn used_slots(t: &Tree) -> Vec<usize> {
    (0..MAX_NODE_CNT)
        .filter(|&i| t.node_move_cnt(i) != usize::MAX)
        .collect()
}

#[test]
fn constants_of_the_pool() {
    assert_eq!(MAX_NODE_CNT, 16384);
    assert_eq!(EXPAND_CNT, 8);
    assert_eq!(BRANCH_CNT, 82);
    assert_eq!(SWEEP_CNT, (0.85 * MAX_NODE_CNT as f32) as usize);
}

#[test]
fn a_new_tree_is_empty() {
    let t = Tree::new();
    assert_eq!(t.get_node_cnt(), 0);
    assert_eq!(t.get_eval_cnt(), 0);
    assert_eq!(t.root_id, 0);
    assert!(t.has_free_slot());
    assert!(used_slots(&t).is_empty());
    assert_eq!(t.branch_cnt(0), 0);
    assert_eq!(t.mov(0, 0), VNULL);
    assert_eq!(t.next_id(0, 81), usize::MAX);
    assert!(!t.is_evaluated(0, 5));
}

#[test]
fn create_node_takes_the_slot_of_the_hash() {
    let mut t = Tree::new();
    let b = Board::new();
    let id = t.create_node(&b, &plain_order());
    assert_eq!(id, (b.hash() % MAX_NODE_CNT as u64) as usize);
    assert_eq!(t.get_node_cnt(), 1);
    assert_eq!(t.node_move_cnt(id), 0);
    assert_eq!(t.branch_cnt(id), 82);
    assert_eq!(t.total_cnt(id), 0);
    for br in 0..81 {
        assert_eq!(t.mov(id, br), rv2ev(br));
        assert_eq!(t.visit_cnt(id, br), 0);
        assert_eq!(t.next_id(id, br), usize::MAX);
        assert!(!t.is_evaluated(id, br));
    }
    assert_eq!(t.mov(id, 81), PASS);
    assert_eq!(used_slots(&t), vec![id]);
}

#[test]
fn create_node_finds_a_known_position() {
    let mut t = Tree::new();
    let b = Board::new();
    let id = t.create_node(&b, &plain_order());
    t.record_visit(id, 3);
    let again = t.create_node(&b, &pass_first());
    assert_eq!(again, id);
    assert_eq!(t.get_node_cnt(), 1);
    assert_eq!(t.visit_cnt(id, 3), 1);
    assert_eq!(t.mov(id, 0), rv2ev(0));
}

#[test]
fn branches_follow_the_order_and_the_candidates() {
    let mut t = Tree::new();
    let mut b = Board::new();
    play_all(&mut b, &["D5", "A9", "F5", "B9", "E4", "C9", "E6", "D9"]);
    let id = t.create_node(&b, &pass_first());
    let (_, _, cands) = b.info();
    assert_eq!(t.branch_cnt(id), cands.len());
    assert_eq!(t.mov(id, 0), PASS);
    for br in 1..t.branch_cnt(id) {
        assert_eq!(ev2rv(t.mov(id, br)), cands[br - 1]);
    }
    assert_eq!(t.mov(id, t.branch_cnt(id)), VNULL);
    // an order that leaves vertices out leaves their branches out
    let mut u = Tree::new();
    let id = u.create_node(&b, &vec![81, 0, 40]);
    assert_eq!(u.branch_cnt(id), 2);
    assert_eq!(u.mov(id, 0), PASS);
    assert_eq!(u.mov(id, 1), rv2ev(0));
}

#[test]
fn a_position_with_the_same_hash_but_another_move_count_probes_on() {
    let mut t = Tree::new();
    let mut b = Board::new();
    let first = t.create_node(&b, &plain_order());
    // two passes: the same cells, previous cells and turn, two moves later
    play_all(&mut b, &["PASS", "PASS"]);
    assert_eq!(b.hash(), Board::new().hash());
    let second = t.create_node(&b, &plain_order());
    assert_eq!(second, (first + 1) % MAX_NODE_CNT);
    assert_eq!(t.node_move_cnt(first), 0);
    assert_eq!(t.node_move_cnt(second), 2);
    assert_eq!(t.get_node_cnt(), 2);
    // the map now leads to the later node
    assert_eq!(t.create_node(&b, &plain_order()), second);
    assert_eq!(t.get_node_cnt(), 2);
}

#[test]
fn delete_node_waits_until_half_the_pool_was_created() {
    let mut t = Tree::new();
    let mut b = Board::new();
    let old = t.create_node(&b, &plain_order());
    play_all(&mut b, &["D5"]);
    t.set_root(&b, &plain_order());
    assert_eq!(t.get_root_move_cnt(), 1);
    t.delete_node();
    assert_eq!(t.node_move_cnt(old), 0);
    assert_eq!(used_slots(&t).len(), 2);
}

#[test]
fn delete_node_frees_what_lies_behind_the_root() {
    let mut t = Tree::new();
    let mut b = Board::new();
    let mut made = Vec::new();
    // random games fill more than half of the pool
    while t.get_node_cnt() < MAX_NODE_CNT / 2 {
        if b.get_move_cnt() >= 100 {
            b.clear();
        }
        b.random_play();
        let before = t.get_node_cnt();
        let id = t.create_node(&b, &plain_order());
        if t.get_node_cnt() != before {
            made.push((id, b.get_move_cnt()));
        }
    }
    b.clear();
    for _ in 0..50 {
        b.random_play();
    }
    let root = t.set_root(&b, &plain_order());
    let live_before = used_slots(&t);
    t.delete_node();
    assert!(t.has_free_slot());
    let live = used_slots(&t);
    assert!(live.contains(&root));
    for &i in live_before.iter() {
        assert_eq!(live.contains(&i), t.node_move_cnt(i) != usize::MAX);
    }
    for &i in live.iter() {
        assert!(t.node_move_cnt(i) >= 50);
    }
    assert!(live.len() < live_before.len());
    // every node still in use is found again under its hash
    b.clear();
    let mut c = Tree::new();
    c.clear();
    assert_eq!(c.get_node_cnt(), 0);
}

#[test]
fn the_map_leads_from_every_node_to_its_slot() {
    let mut t = Tree::new();
    let mut positions: Vec<(Vec<usize>, usize)> = Vec::new();
    let mut b = Board::new();
    for _ in 0..300 {
        if b.get_move_cnt() >= 60 {
            b.clear();
        }
        let m = b.random_play();
        if m == PASS {
            // passes may repeat a position at another move count
            b.clear();
            continue;
        }
        let id = t.create_node(&b, &plain_order());
        positions.push((b.get_history().clone(), id));
    }
    for (h, id) in positions.iter() {
        let mut c = Board::new();
        for &m in h.iter() {
            assert!(c.play(m, false).is_ok());
        }
        let before = t.get_node_cnt();
        assert_eq!(t.create_node(&c, &plain_order()), *id);
        assert_eq!(t.get_node_cnt(), before);
    }
}

#[test]
fn visits_are_counted() {
    let mut t = Tree::new();
    let b = Board::new();
    let id = t.create_node(&b, &plain_order());
    for _ in 0..3 {
        t.record_visit(id, 4);
    }
    t.record_visit(id, 81);
    assert_eq!(t.total_cnt(id), 4);
    assert_eq!(t.visit_cnt(id, 4), 3);
    assert_eq!(t.visit_cnt(id, 81), 1);
    let sum: usize = (0..BRANCH_CNT).map(|br| t.visit_cnt(id, br)).sum();
    assert!(t.total_cnt(id) >= sum);
}

#[test]
fn expand_links_the_child() {
    let mut t = Tree::new();
    let mut b = Board::new();
    let root = t.set_root(&b, &plain_order());
    assert!(!t.has_next(root, 40, 1));
    let (next_id, next_move, head) = t.descend(&b, root, 40);
    assert_eq!((next_id, next_move, head), (usize::MAX, rv2ev(40), true));
    assert!(b.play(next_move, false).is_ok());
    let child = t.expand(&b, root, 40, &plain_order());
    assert_eq!(t.get_eval_cnt(), 1);
    assert_eq!(t.get_node_cnt(), 2);
    assert!(t.is_evaluated(root, 40));
    assert_eq!(t.next_id(root, 40), child);
    assert_eq!(t.node_move_cnt(child), 1);
    assert_eq!(t.branch_cnt(child), 81);
    assert!(t.has_next(root, 40, 1));
    assert!(!t.has_next(root, 40, 2));
    assert!(!t.has_next(root, 41, 1));
    assert_eq!(t.total_cnt(root), 0);
    t.reset_eval_cnt();
    assert_eq!(t.get_eval_cnt(), 0);
}

#[test]
fn the_descent_ends_on_rarely_visited_branches_and_on_two_passes() {
    let mut t = Tree::new();
    let mut b = Board::new();
    let root = t.set_root(&b, &plain_order());
    let mut c = Board::new();
    assert!(c.play(rv2ev(40), false).is_ok());
    t.expand(&c, root, 40, &plain_order());
    for n in 0..EXPAND_CNT {
        assert_eq!(t.visit_cnt(root, 40), n);
        assert!(t.descend(&b, root, 40).2);
        t.record_visit(root, 40);
    }
    assert!(!t.descend(&b, root, 40).2);
    // a pass after a pass ends the descent whatever the visits
    let mut d = Board::new();
    assert!(d.play(PASS, false).is_ok());
    t.expand(&d, root, 81, &plain_order());
    for _ in 0..EXPAND_CNT {
        t.record_visit(root, 81);
    }
    assert!(!t.descend(&b, root, 81).2);
    let second = t.next_id(root, 81);
    let mut e = Board::new();
    play_all(&mut e, &["PASS", "PASS"]);
    t.expand(&e, second, 81, &plain_order());
    for _ in 0..EXPAND_CNT {
        t.record_visit(second, 81);
    }
    assert_eq!(t.mov(second, 81), PASS);
    assert!(t.has_next(second, 81, 2));
    assert!(t.descend(&d, second, 81).2);
    b.clear();
}

#[test]
fn best2_ranks_by_visits_and_then_by_index() {
    let mut t = Tree::new();
    let b = Board::new();
    t.set_root(&b, &plain_order());
    let root = t.root_id;
    assert_eq!(t.root_best2(), (0, 1));
    for _ in 0..5 {
        t.record_visit(root, 7);
    }
    for _ in 0..3 {
        t.record_visit(root, 2);
    }
    for _ in 0..3 {
        t.record_visit(root, 60);
    }
    assert_eq!(t.root_best2(), (7, 2));
    for _ in 0..2 {
        t.record_visit(root, 60);
    }
    assert_eq!(t.root_best2(), (7, 60));
    t.record_visit(root, 60);
    assert_eq!(t.root_best2(), (60, 7));
}

#[test]
fn a_node_can_be_reset() {
    let mut n = Node::new();
    n.init_branch();
    n.clear();
    let copy = n;
    let _ = (copy, n);
}

#[test]
fn a_report_shows_the_visited_branches_by_visits() {
    let mut t = Tree::new();
    let b = Board::new();
    let root = t.set_root(&b, &plain_order());
    assert_eq!(t.top_branches(root), Vec::<usize>::new());
    for (br, n) in [(5, 3), (7, 9), (2, 3), (80, 1)].iter() {
        for _ in 0..*n {
            t.record_visit(root, *br);
        }
    }
    assert_eq!(t.top_branches(root), vec![7, 2, 5, 80]);
    for br in 10..20 {
        t.record_visit(root, br);
        t.record_visit(root, br);
    }
    // nine at most
    assert_eq!(t.top_branches(root), vec![7, 2, 5, 10, 11, 12, 13, 14, 15]);
}

#[test]
fn the_clock_is_polled_every_64_playouts() {
    assert!(is_poll_due(0));
    assert!(!is_poll_due(1));
    assert!(!is_poll_due(63));
    assert!(is_poll_due(64));
    assert!(is_poll_due(6400));
}

#[test]
fn should_search_until_a_branch_stands_out() {
    let mut t = Tree::new();
    let b = Board::new();
    let root = t.set_root(&b, &plain_order());
    // few visits: always
    assert!(t.should_search(0, 1, true));
    assert!(t.should_search(0, 1, false));
    for _ in 0..5000 {
        t.record_visit(root, 0);
    }
    assert_eq!(t.total_cnt(root), 5000);
    assert!(t.should_search(0, 1, false));
    t.record_visit(root, 0);
    // now the best branch has more than a hundred times the visits of the second
    assert!(!t.should_search(0, 1, true));
    for _ in 0..50 {
        t.record_visit(root, 1);
    }
    // 5001 against 50: still more than a hundredfold
    assert!(!t.should_search(0, 1, true));
    t.record_visit(root, 1);
    // 5001 against 51: no more
    assert!(t.should_search(0, 1, true));
    assert!(!t.should_search(0, 1, false));
}

#[test]
fn the_clean_up_rule_prefers_the_second_branch_to_a_pass() {
    let mut t = Tree::new();
    let b = Board::new();
    let root = t.set_root(&b, &pass_first());
    assert_eq!(t.mov(root, 0), PASS);
    for _ in 0..10 {
        t.record_visit(root, 0);
    }
    for _ in 0..4 {
        t.record_visit(root, 5);
    }
    let (best, second) = t.root_best2();
    assert_eq!((best, second), (0, 5));
    // with the flag and values of one sign the second branch is played
    assert_eq!(t.choose_move(best, second, true, true), second);
    assert_eq!(t.mov(root, t.choose_move(best, second, true, true)), rv2ev(4));
    // without the flag the pass stays
    assert_eq!(t.choose_move(best, second, false, true), best);
    assert_eq!(t.mov(root, t.choose_move(best, second, false, true)), PASS);
    // values of different sign: passing is needed
    assert_eq!(t.choose_move(best, second, true, false), best);
    // a best move that is no pass stays
    assert_eq!(t.choose_move(second, best, true, true), second);
}

#[test]
fn begin_search_has_nothing_to_search_with_one_branch() {
    let mut t = Tree::new();
    let b = Board::new();
    assert_eq!(t.begin_search(&b, &vec![81]), None);
    assert_eq!(t.branch_cnt(t.root_id), 1);
    let mut u = Tree::new();
    assert_eq!(u.begin_search(&b, &plain_order()), Some((0, 1)));
    assert_eq!(u.get_root_move_cnt(), 0);
}

#[test]
fn best_sequence_follows_the_most_visited_branches() {
    let mut t = Tree::new();
    let b = Board::new();
    let root = t.set_root(&b, &plain_order());
    // nothing visited yet
    assert_eq!(t.best_sequence(root, rv2ev(3)), vec![rv2ev(3)]);
    // after a pass the line ends
    assert_eq!(t.best_sequence(root, PASS), vec![PASS]);
    let mut c = Board::new();
    assert!(c.play(rv2ev(40), false).is_ok());
    let child = t.expand(&c, root, 40, &plain_order());
    t.record_visit(root, 40);
    assert_eq!(t.best_sequence(root, rv2ev(3)), vec![rv2ev(3), rv2ev(40)]);
    let mut d = Board::new();
    c.copy_to(&mut d);
    assert!(d.play(rv2ev(41), false).is_ok());
    t.expand(&d, child, 41, &plain_order());
    t.record_visit(child, 41);
    t.record_visit(child, 41);
    t.record_visit(child, 2);
    assert_eq!(
        t.best_sequence(root, rv2ev(3)),
        vec![rv2ev(3), rv2ev(40), rv2ev(42)]
    );
}

#[test]
fn time_and_exploration_rules() {
    assert_eq!(move_time_divisor(0), 105);
    assert_eq!(move_time_divisor(49), 56);
    assert_eq!(move_time_divisor(50), 55);
    assert_eq!(move_time_divisor(200), 55);
    assert_eq!(tree_cp_percent(0), 1);
    assert_eq!(tree_cp_percent(7), 1);
    assert_eq!(tree_cp_percent(8), 150);
}

#[test]
fn clear_frees_every_slot() {
    let mut t = Tree::new();
    let mut b = Board::new();
    for _ in 0..20 {
        b.random_play();
        t.set_root(&b, &plain_order());
    }
    assert_eq!(used_slots(&t).len(), 20);
    t.clear();
    assert!(used_slots(&t).is_empty());
    assert_eq!(t.get_node_cnt(), 0);
    assert_eq!(t.root_id, 0);
    assert_eq!(t.get_root_move_cnt(), 0);
    // the cleared tree takes the positions again
    b.clear();
    let id = t.create_node(&b, &plain_order());
    assert_eq!(t.branch_cnt(id), 82);
    assert_eq!(t.visit_cnt(id, 0), 0);
}

// ---------------------------------------------------------------------
// A small search on the library's tree, with values kept beside it.
// ---------------------------------------------------------------------

struct Stats {
    prob: Vec<[f32; BRANCH_CNT]>,
    value: Vec<[f32; BRANCH_CNT]>,
    value_win: Vec<[f32; BRANCH_CNT]>,
    total_value: Vec<f32>,
}

struct Search<F: Fn(&Board) -> (Vec<f32>, f32)> {
    tree: Tree,
    stats: Stats,
    cp: f32,
    eval: F,
}

impl<F: Fn(&Board) -> (Vec<f32>, f32)> Search<F> {
    fn new(eval: F) -> Self {
        Search {
            tree: Tree::new(),
            stats: Stats {
                prob: vec![[0.0; BRANCH_CNT]; MAX_NODE_CNT],
                value: vec![[0.0; BRANCH_CNT]; MAX_NODE_CNT],
                value_win: vec![[0.0; BRANCH_CNT]; MAX_NODE_CNT],
                total_value: vec![0.0; MAX_NODE_CNT],
            },
            cp: 1.5,
            eval,
        }
    }

    fn write_priors(&mut self, id: usize, prob: &[f32]) {
        self.stats.prob[id] = [0.0; BRANCH_CNT];
        self.stats.value[id] = [0.0; BRANCH_CNT];
        self.stats.value_win[id] = [0.0; BRANCH_CNT];
        self.stats.total_value[id] = 0.0;
        for br in 0..self.tree.branch_cnt(id) {
            self.stats.prob[id][br] = prob[ev2rv(self.tree.mov(id, br))];
        }
    }

    fn select(&self, id: usize) -> usize {
        let total = self.tree.total_cnt(id);
        let rate = if total == 0 { 0.0 } else { self.stats.total_value[id] / total as f32 };
        let cpsv = self.cp * (total as f32).sqrt();
        let values: Vec<f32> = (0..self.tree.branch_cnt(id))
            .map(|br| {
                let c = self.tree.visit_cnt(id, br);
                let r = if c == 0 { rate } else { self.stats.value_win[id][br] / c as f32 };
                r + cpsv * self.stats.prob[id][br] / (c + 1) as f32
            })
            .collect();
        argmax(&values)
    }

    fn search_branch(&mut self, b: &mut Board, id: usize) -> f32 {
        let best = self.select(id);
        let (next_id, next_move, head) = self.tree.descend(b, id, best);
        let _ = b.play(next_move, false);
        let value = if head {
            if self.tree.is_evaluated(id, best) {
                self.stats.value[id][best]
            } else {
                let (prob, v) = (self.eval)(b);
                self.stats.value[id][best] = -v;
                let created = self.tree.get_node_cnt();
                let child = self.tree.expand(b, id, best, &argsort(&prob, true));
                if self.tree.get_node_cnt() != created {
                    self.write_priors(child, &prob);
                }
                self.stats.total_value[id] -= self.stats.value_win[id][best];
                -v
            }
        } else {
            -self.search_branch(b, next_id)
        };
        self.stats.total_value[id] += value;
        self.stats.value_win[id][best] += value;
        self.tree.record_visit(id, best);
        value
    }

    fn search(&mut self, b: &Board, playouts: usize, clean: bool) -> (usize, f32) {
        let (prob, _) = (self.eval)(b);
        let created = self.tree.get_node_cnt();
        let ranked = self.tree.begin_search(b, &argsort(&prob, true));
        let root = self.tree.root_id;
        if self.tree.get_node_cnt() != created {
            self.write_priors(root, &prob);
        }
        self.cp = tree_cp_percent(b.get_move_cnt()) as f32 / 100.0;
        if ranked.is_none() {
            return (PASS, 0.5);
        }
        let mut copy = Board::new();
        for _ in 0..playouts {
            b.copy_to(&mut copy);
            self.search_branch(&mut copy, root);
        }
        let (best, second) = self.tree.root_best2();
        let alike = self.stats.value_win[root][best] * self.stats.value_win[root][second] > 0.0;
        let chosen = self.tree.choose_move(best, second, clean, alike);
        let rate = self.stats.value_win[root][chosen]
            / self.tree.visit_cnt(root, chosen).max(1) as f32
            / 2.0
            + 0.5;
        (self.tree.mov(root, chosen), rate)
    }
}

/// Checks what holds of every node in use.
fn check_tree(t: &Tree, stats: &Stats) {
    for id in used_slots(t) {
        let sum: usize = (0..BRANCH_CNT).map(|br| t.visit_cnt(id, br)).sum();
        assert!(t.total_cnt(id) >= sum);
        for br in 0..BRANCH_CNT {
            let c = t.visit_cnt(id, br) as f32;
            assert!(stats.value_win[id][br] >= -c - 1e-3 && stats.value_win[id][br] <= c + 1e-3);
        }
    }
}

#[test]
fn the_search_finds_the_winning_move() {
    let winner = str2ev("E5").unwrap();
    // Whoever holds the centre has won: the value is for the side to move.
    let eval = move |b: &Board| {
        let held = b.get_history().iter().position(|&m| m == winner);
        let value = match held {
            Some(i) if (b.get_move_cnt() - i) % 2 == 1 => -1.0,
            Some(_) => 1.0,
            None => 0.0,
        };
        (vec![1.0 / 82.0; 82], value)
    };
    let mut s = Search::new(eval);
    let mut b = Board::new();
    play_all(&mut b, &["A1", "A9", "J1", "J9", "A5", "J5", "E1", "E9"]);
    let (mov, win_rate) = s.search(&b, 2000, false);
    assert_eq!(mov, winner);
    assert!(win_rate > 0.9, "win rate {}", win_rate);
    check_tree(&s.tree, &s.stats);
    assert!(s.tree.get_eval_cnt() > 0);
    assert!(s.tree.total_cnt(s.tree.root_id) >= 2000);
}

#[test]
fn the_search_cleans_up_only_when_asked() {
    // Black, who is to move at the root, is ahead whatever is played:
    // passing and playing on look alike.
    let eval = |b: &Board| {
        let mut prob = vec![0.5 / 81.0; 82];
        prob[81] = 0.5;
        (prob, if b.get_move_cnt() % 2 == 1 { -0.5 } else { 0.5 })
    };
    let mut b = Board::new();
    play_all(&mut b, &["E5", "E6", "D5", "D6", "F5", "F6", "C5", "C6"]);
    let mut s = Search::new(eval);
    let (mov, _) = s.search(&b, 400, false);
    assert_eq!(mov, PASS);
    let mut t = Search::new(eval);
    let (mov, _) = t.search(&b, 400, true);
    assert!(mov != PASS);
    assert!(b.legal(mov));
    check_tree(&t.tree, &t.stats);
}

#[test]
fn a_position_without_moves_is_passed() {
    let eval = |_: &Board| (vec![0.0; 82], 0.0);
    let mut s = Search::new(eval);
    let b = Board::new();
    // an order that knows the pass move only leaves one branch
    let ranked = s.tree.begin_search(&b, &vec![81]);
    assert!(ranked.is_none());
}
