use abalone_mcts::game::{Game, Move, Player, Space};
use abalone_mcts::node::{ArenaTree, Node};
use abalone_mcts::search::best_index;
use rand::rngs::StdRng;
use rand::SeedableRng;

fn visits_as_key(_wins: i32, visits: i32, _parent_visits: i32) -> u32 {
    visits as u32
}

fn wins_as_key(wins: i32, _visits: i32, _parent_visits: i32) -> u32 {
    wins as u32
}

fn rooted(game: Game) -> ArenaTree {
    let mut tree = ArenaTree { nodes: Vec::new() };
    let id = tree.new_node(game, None, None);
    assert_eq!(id, 0);
    tree
}

fn two_in_line() -> Game {
    let mut game = Game::new_game();
    game.board[3][4] = Space::Occupied(Player::White);
    game.board[4][4] = Space::Occupied(Player::White);
    game.board[4][8] = Space::Occupied(Player::Black);
    game.white_pieces = 2;
    game.black_pieces = 1;
    assert!(game.validate_state());
    game
}

#[test]
fn new_node_appends_an_unvisited_node() {
    let mut tree = rooted(Game::new_basic());
    assert_eq!(tree.nodes.len(), 1);
    let root = tree.nodes[0];
    assert!(root.parent_id.is_none());
    assert!(root.first_child_id.is_none());
    assert!(root.last_child_id.is_none());
    assert!(root.move_from_parent.is_none());
    assert_eq!(root.visits, 0);
    assert_eq!(root.wins, 0);
    let m = Move::Inline { start: (3, 0), dir: (-1, 0) };
    let next = root.game_state.make_move(&m);
    let id = tree.new_node(next, Some(0), Some(m));
    assert_eq!(id, 1);
    assert_eq!(tree.nodes.len(), 2);
    assert_eq!(tree.nodes[1].parent_id, Some(0));
    assert!(tree.nodes[1].move_from_parent.unwrap().same(&m));
    assert_eq!(tree.nodes[1].game_state.move_number, 1);
    assert_eq!(tree.nodes[1].visits, 0);
}

#[test]
fn expand_step_makes_one_child_for_each_legal_move() {
    let mut rng = StdRng::seed_from_u64(1);
    let game = two_in_line();
    let moves = game.get_legal_moves();
    assert_eq!(moves.len(), 16);
    let mut tree = rooted(game);
    let chosen = tree.expand_step(0, &mut rng);
    assert_eq!(tree.nodes.len(), 17);
    assert_eq!(tree.nodes[0].first_child_id, Some(1));
    assert_eq!(tree.nodes[0].last_child_id, Some(17));
    assert!(chosen >= 1 && chosen < 17);
    assert_eq!(tree.nodes[chosen].visits, 0);
    for (j, m) in moves.iter().enumerate() {
        let child = tree.nodes[1 + j];
        assert_eq!(child.parent_id, Some(0));
        assert!(child.first_child_id.is_none());
        assert!(child.last_child_id.is_none());
        assert_eq!(child.visits, 0);
        assert_eq!(child.wins, 0);
        assert!(child.move_from_parent.unwrap().same(m));
        assert_eq!(child.game_state.render(), game.make_move(m).render());
    }
}

#[test]
fn expand_step_does_not_resize_the_children() {
    let mut rng = StdRng::seed_from_u64(2);
    let mut tree = rooted(two_in_line());
    tree.expand_step(0, &mut rng);
    let again = tree.expand_step(0, &mut rng);
    assert_eq!(tree.nodes.len(), 17);
    assert_eq!(tree.nodes[0].first_child_id, Some(1));
    assert_eq!(tree.nodes[0].last_child_id, Some(17));
    assert!(again >= 1 && again < 17);
}

#[test]
fn expand_step_returns_only_unvisited_children() {
    let mut rng = StdRng::seed_from_u64(3);
    let mut tree = rooted(two_in_line());
    tree.expand_step(0, &mut rng);
    for child in 1..17 {
        if child != 7 {
            tree.backpropagate(child, None);
        }
    }
    for _ in 0..20 {
        assert_eq!(tree.expand_step(0, &mut rng), 7);
    }
    tree.backpropagate(7, None);
    assert_eq!(tree.expand_step(0, &mut rng), 0);
}

#[test]
fn expand_step_leaves_a_finished_game_alone() {
    let mut rng = StdRng::seed_from_u64(4);
    let mut game = Game::new_basic();
    game.game_over = true;
    let mut tree = rooted(game);
    assert_eq!(tree.expand_step(0, &mut rng), 0);
    assert_eq!(tree.nodes.len(), 1);
    assert!(tree.nodes[0].first_child_id.is_none());
}

#[test]
fn expand_step_of_a_position_without_moves_returns_the_node() {
    let mut rng = StdRng::seed_from_u64(5);
    let mut tree = rooted(Game::new_game());
    assert_eq!(tree.expand_step(0, &mut rng), 0);
    assert_eq!(tree.nodes.len(), 1);
    assert_eq!(tree.nodes[0].first_child_id, Some(1));
    assert_eq!(tree.nodes[0].last_child_id, Some(1));
    assert_eq!(tree.select_step(0, &visits_as_key), 0);
}

#[test]
fn unvisited_children_are_listed_in_order() {
    let mut rng = StdRng::seed_from_u64(6);
    let mut tree = rooted(two_in_line());
    tree.expand_step(0, &mut rng);
    assert_eq!(tree.unvisited_children(0), (1..17).collect::<Vec<usize>>());
    tree.backpropagate(1, None);
    tree.backpropagate(8, None);
    tree.backpropagate(15, None);
    let left = tree.unvisited_children(0);
    assert_eq!(left, vec![2, 3, 4, 5, 6, 7, 9, 10, 11, 12, 13, 14, 16]);
    for child in 2..17 {
        tree.backpropagate(child, None);
    }
    assert!(tree.unvisited_children(0).is_empty());
}

#[test]
fn is_leaf_node_tells_an_unvisited_child() {
    let mut rng = StdRng::seed_from_u64(7);
    let mut tree = rooted(two_in_line());
    tree.expand_step(0, &mut rng);
    assert!(tree.is_leaf_node(0));
    for child in 1..17 {
        assert!(tree.is_leaf_node(0));
        tree.backpropagate(child, None);
    }
    assert!(!tree.is_leaf_node(0));
}

#[test]
fn backpropagate_counts_up_to_the_root() {
    let mut rng = StdRng::seed_from_u64(8);
    let mut tree = rooted(two_in_line());
    tree.expand_step(0, &mut rng);
    tree.expand_step(3, &mut rng);
    let grandchild = tree.nodes[3].first_child_id.unwrap();
    assert!(matches!(tree.nodes[0].game_state.player, Player::White));
    assert!(matches!(tree.nodes[3].game_state.player, Player::Black));
    assert!(matches!(tree.nodes[grandchild].game_state.player, Player::White));

    tree.backpropagate(grandchild, Some(Player::White));
    assert_eq!((tree.nodes[grandchild].visits, tree.nodes[grandchild].wins), (1, 0));
    assert_eq!((tree.nodes[3].visits, tree.nodes[3].wins), (1, 1));
    assert_eq!((tree.nodes[0].visits, tree.nodes[0].wins), (1, 0));

    tree.backpropagate(grandchild, Some(Player::Black));
    assert_eq!((tree.nodes[grandchild].visits, tree.nodes[grandchild].wins), (2, 1));
    assert_eq!((tree.nodes[3].visits, tree.nodes[3].wins), (2, 1));
    assert_eq!((tree.nodes[0].visits, tree.nodes[0].wins), (2, 1));

    tree.backpropagate(3, None);
    assert_eq!((tree.nodes[grandchild].visits, tree.nodes[grandchild].wins), (2, 1));
    assert_eq!((tree.nodes[3].visits, tree.nodes[3].wins), (3, 1));
    assert_eq!((tree.nodes[0].visits, tree.nodes[0].wins), (3, 1));

    for other in 1..tree.nodes.len() {
        if other != 3 && other != grandchild {
            assert_eq!((tree.nodes[other].visits, tree.nodes[other].wins), (0, 0));
        }
    }
}

#[test]
fn select_step_stops_at_a_node_with_an_unvisited_child() {
    let mut rng = StdRng::seed_from_u64(9);
    let mut tree = rooted(two_in_line());
    assert_eq!(tree.select_step(0, &visits_as_key), 0);
    tree.expand_step(0, &mut rng);
    assert_eq!(tree.select_step(0, &visits_as_key), 0);
    for child in 1..16 {
        tree.backpropagate(child, None);
        assert_eq!(tree.select_step(0, &visits_as_key), 0);
    }
}

#[test]
fn select_step_goes_down_to_the_first_child_with_the_highest_key() {
    let mut rng = StdRng::seed_from_u64(10);
    let mut tree = rooted(two_in_line());
    tree.expand_step(0, &mut rng);
    for child in 1..17 {
        tree.backpropagate(child, None);
    }
    assert_eq!(tree.select_step(0, &visits_as_key), 1);
    tree.backpropagate(5, None);
    tree.backpropagate(9, None);
    assert_eq!(tree.select_step(0, &visits_as_key), 5);
    tree.backpropagate(9, Some(Player::White));
    assert_eq!(tree.select_step(0, &visits_as_key), 9);
    assert_eq!(tree.select_step(0, &wins_as_key), 9);
    assert_eq!(tree.select_step(9, &visits_as_key), 9);
}

#[test]
fn select_step_goes_down_more_than_one_level() {
    let mut rng = StdRng::seed_from_u64(11);
    let mut tree = rooted(two_in_line());
    tree.expand_step(0, &mut rng);
    for child in 1..17 {
        tree.backpropagate(child, None);
    }
    tree.expand_step(4, &mut rng);
    let first = tree.nodes[4].first_child_id.unwrap();
    let last = tree.nodes[4].last_child_id.unwrap();
    for grandchild in first..last {
        tree.backpropagate(grandchild, None);
    }
    let selected = tree.select_step(0, &visits_as_key);
    assert_eq!(selected, first);
    assert!(tree.nodes[selected].first_child_id.is_none());
}

#[test]
fn best_index_is_the_first_of_the_highest() {
    assert_eq!(best_index(&vec![]), 0);
    assert_eq!(best_index(&vec![0, 0, 0]), 0);
    assert_eq!(best_index(&vec![3, 7, 7, 1]), 1);
    assert_eq!(best_index(&vec![1, 2, 3]), 2);
    assert_eq!(best_index(&vec![9, 2, 9]), 0);
    assert_eq!(best_index(&vec![0, 0, 1]), 2);
}

#[test]
fn reccomend_is_the_last_of_the_most_visited_children() {
    let mut rng = StdRng::seed_from_u64(12);
    let mut tree = rooted(two_in_line());
    tree.expand_step(0, &mut rng);
    assert_eq!(tree.reccomend(), 16);
    tree.backpropagate(4, None);
    assert_eq!(tree.reccomend(), 4);
    tree.backpropagate(9, None);
    assert_eq!(tree.reccomend(), 9);
    tree.backpropagate(2, None);
    assert_eq!(tree.reccomend(), 9);
    tree.backpropagate(2, None);
    assert_eq!(tree.reccomend(), 2);
}

#[test]
fn reccomend_without_children_is_the_root() {
    let mut rng = StdRng::seed_from_u64(13);
    let mut tree = rooted(Game::new_game());
    tree.expand_step(0, &mut rng);
    assert_eq!(tree.reccomend(), 0);
}

#[test]
fn random_child_is_one_of_the_children() {
    let mut rng = StdRng::seed_from_u64(14);
    let mut tree = rooted(two_in_line());
    tree.expand_step(0, &mut rng);
    let mut seen = [false; 17];
    for _ in 0..400 {
        let child = tree.nodes[0].random_child(&mut rng);
        assert!(child >= 1 && child < 17);
        seen[child] = true;
    }
    assert!(seen.iter().filter(|s| **s).count() > 1);
}

#[test]
fn merge_adds_visits_and_wins() {
    let game = Game::new_basic();
    let mut a = Node {
        parent_id: Some(3),
        first_child_id: Some(7),
        last_child_id: Some(9),
        visits: 5,
        wins: 2,
        move_from_parent: None,
        game_state: game,
    };
    let b = Node {
        parent_id: None,
        first_child_id: None,
        last_child_id: None,
        visits: 11,
        wins: 4,
        move_from_parent: None,
        game_state: Game::new_game(),
    };
    assert!(a.fits_with(&b));
    let merged = a.merge(&b);
    assert_eq!((merged.visits, merged.wins), (16, 6));
    assert_eq!(merged.parent_id, Some(3));
    assert_eq!(merged.first_child_id, Some(7));
    assert_eq!(merged.last_child_id, Some(9));
    assert_eq!(merged.game_state.white_pieces, 14);
    let back = b.merge(&a);
    assert_eq!((back.visits, back.wins), (16, 6));
    assert!(back.parent_id.is_none());
    a.visits = i32::MAX;
    assert!(!a.fits_with(&b));
}

#[test]
fn merge_trees_adds_the_root_and_its_children() {
    let mut rng = StdRng::seed_from_u64(15);
    let mut a = rooted(two_in_line());
    let mut b = rooted(two_in_line());
    a.expand_step(0, &mut rng);
    b.expand_step(0, &mut rng);
    a.backpropagate(2, Some(Player::White));
    a.backpropagate(2, None);
    a.backpropagate(5, Some(Player::Black));
    b.backpropagate(2, Some(Player::White));
    b.backpropagate(7, Some(Player::White));
    a.expand_step(2, &mut rng);
    assert!(a.nodes.len() > 17);
    assert!(a.can_merge_with(&b));
    assert!(b.can_merge_with(&a));
    let ab = a.merge_trees(&b);
    let ba = b.merge_trees(&a);
    assert_eq!(ab.nodes.len(), 17);
    assert_eq!(ba.nodes.len(), 17);
    assert_eq!((ab.nodes[0].visits, ab.nodes[0].wins), (5, 1));
    assert_eq!((ab.nodes[2].visits, ab.nodes[2].wins), (3, 2));
    assert_eq!((ab.nodes[5].visits, ab.nodes[5].wins), (1, 0));
    assert_eq!((ab.nodes[7].visits, ab.nodes[7].wins), (1, 1));
    assert_eq!((ab.nodes[1].visits, ab.nodes[1].wins), (0, 0));
    for i in 0..17 {
        assert_eq!(ab.nodes[i].visits, ba.nodes[i].visits);
        assert_eq!(ab.nodes[i].wins, ba.nodes[i].wins);
        assert_eq!(ab.nodes[i].visits, a.nodes[i].visits + b.nodes[i].visits);
        assert_eq!(ab.nodes[i].wins, a.nodes[i].wins + b.nodes[i].wins);
        assert_eq!(ab.nodes[i].game_state.render(), a.nodes[i].game_state.render());
    }
    assert_eq!(ab.nodes[2].first_child_id, a.nodes[2].first_child_id);
    assert!(ba.nodes[2].first_child_id.is_none());
    assert_eq!(ab.reccomend(), 2);
    assert_eq!(ba.reccomend(), 2);
}

#[test]
fn trees_that_differ_at_the_root_do_not_merge() {
    let mut rng = StdRng::seed_from_u64(16);
    let mut a = rooted(two_in_line());
    let mut b = rooted(Game::new_basic());
    let empty = ArenaTree { nodes: Vec::new() };
    assert!(!a.can_merge_with(&b));
    a.expand_step(0, &mut rng);
    assert!(!a.can_merge_with(&b));
    assert!(!b.can_merge_with(&a));
    b.expand_step(0, &mut rng);
    assert!(!a.can_merge_with(&b));
    assert!(!a.can_merge_with(&empty));
    assert!(!empty.can_merge_with(&a));
    let mut c = rooted(two_in_line());
    c.expand_step(0, &mut rng);
    assert!(a.can_merge_with(&c));
    c.nodes[0].visits = i32::MAX;
    a.nodes[0].visits = 1;
    assert!(!a.can_merge_with(&c));
}
