use abalone_mcts::game::{Game, Move, Player, Space};
use abalone_mcts::node::ArenaTree;
use abalone_mcts::playout::PlayoutError;
use abalone_mcts::search::mcts_search;
use rand::rngs::StdRng;
use rand::SeedableRng;

fn confidence_key(wins: i32, visits: i32, parent_visits: i32) -> u32 {
    let mean = wins as f32 / visits as f32;
    let spread = (parent_visits as f32).log(2.71) / (visits as f32);
    let score = mean + 1.41 * spread.powf(0.5);
    if score > 0.0 {
        score.to_bits()
    } else {
        0
    }
}

fn well_kept(tree: &ArenaTree) {
    assert!(tree.nodes[0].parent_id.is_none());
    for (i, node) in tree.nodes.iter().enumerate() {
        assert!(0 <= node.wins && node.wins <= node.visits);
        assert!(node.game_state.is_well_formed());
        if let Some(p) = node.parent_id {
            assert!(p < i);
            assert!(node.visits <= tree.nodes[p].visits);
            let parent = tree.nodes[p];
            assert!(parent.first_child_id.unwrap() <= i && i < parent.last_child_id.unwrap());
        } else {
            assert_eq!(i, 0);
        }
        assert_eq!(node.first_child_id.is_some(), node.last_child_id.is_some());
        if let (Some(first), Some(last)) = (node.first_child_id, node.last_child_id) {
            assert!(i < first && first <= last && last <= tree.nodes.len());
            let moves = node.game_state.get_legal_moves();
            assert_eq!(moves.len(), last - first);
            for (j, m) in moves.iter().enumerate() {
                assert!(tree.nodes[first + j].move_from_parent.unwrap().same(m));
            }
        }
    }
}

fn near_the_cap(mut game: Game, number: i16) -> Game {
    game.move_number = number;
    game
}

#[test]
fn random_playout_ends_with_a_finished_game() {
    let mut rng = StdRng::seed_from_u64(1);
    let game = near_the_cap(Game::new_basic(), 900);
    for _ in 0..5 {
        let outcome = game.random_playout(&mut rng);
        assert!(outcome.is_ok());
    }
}

#[test]
fn playouts_from_the_last_move_before_the_cap_have_no_winner() {
    let mut rng = StdRng::seed_from_u64(2);
    let game = near_the_cap(Game::new_basic(), 1000);
    for _ in 0..10 {
        assert_eq!(game.random_playout(&mut rng), Ok(None));
        assert_eq!(game.greedy_playout(&mut rng), Ok(None));
    }
}

#[test]
fn playouts_of_a_position_without_moves_end_with_an_error() {
    let mut rng = StdRng::seed_from_u64(3);
    let game = Game::new_game();
    assert_eq!(game.random_playout(&mut rng), Err(PlayoutError::NoLegalMove));
    assert_eq!(game.greedy_playout(&mut rng), Err(PlayoutError::NoLegalMove));
    let mut tree = ArenaTree { nodes: Vec::new() };
    tree.new_node(game, None, None);
    assert_eq!(tree.playout(0, &mut rng), Err(PlayoutError::NoLegalMove));
    assert_eq!(tree.grow(0, &confidence_key, &mut rng), Ok(()));
    assert_eq!(tree.grow(3, &confidence_key, &mut rng), Err(PlayoutError::NoLegalMove));
    assert_eq!(tree.nodes.len(), 1);
    assert_eq!(tree.nodes[0].visits, 0);
    assert_eq!(tree.nodes[0].first_child_id, Some(1));
    assert_eq!(tree.nodes[0].last_child_id, Some(1));
    assert!(mcts_search(game, 2, &confidence_key, &mut rng).is_err());
    assert!(mcts_search(game, 0, &confidence_key, &mut rng).is_ok());
}

#[test]
fn greedy_playout_takes_the_piece_that_ends_the_game() {
    let mut rng = StdRng::seed_from_u64(4);
    let mut game = Game::new_game();
    for (x, y) in [(4, 4), (5, 4), (6, 4)] {
        game.board[x][y] = Space::Occupied(Player::White);
    }
    for (x, y) in [(7, 4), (8, 4), (0, 0), (1, 0), (2, 0), (3, 0), (4, 0), (0, 1), (1, 1)] {
        game.board[x][y] = Space::Occupied(Player::Black);
    }
    game.white_pieces = 3;
    game.black_pieces = 9;
    assert!(game.validate_state());
    let moves = game.get_legal_moves();
    let taking = game.first_taking_move(&moves).unwrap();
    assert!(moves[taking].same(&Move::Inline { start: (4, 4), dir: (1, 0) }));
    for _ in 0..10 {
        assert_eq!(game.greedy_playout(&mut rng), Ok(Some(Player::White)));
    }
}

#[test]
fn random_playout_plays_the_only_move() {
    let mut rng = StdRng::seed_from_u64(5);
    let mut game = Game::new_game();
    for x in 0..9 {
        for y in 0..9 {
            game.board[x][y] = Space::OutOfBounds;
        }
    }
    game.board[6][4] = Space::Occupied(Player::White);
    game.board[7][4] = Space::Occupied(Player::White);
    for (x, y) in [(8, 4), (0, 0), (1, 0), (2, 0), (3, 0), (4, 0), (0, 1), (1, 1), (2, 1)] {
        game.board[x][y] = Space::Occupied(Player::Black);
    }
    game.white_pieces = 2;
    game.black_pieces = 9;
    assert!(game.validate_state());
    let moves = game.get_legal_moves();
    assert_eq!(moves.len(), 1);
    assert!(moves[0].same(&Move::Inline { start: (6, 4), dir: (1, 0) }));
    for _ in 0..5 {
        assert_eq!(game.random_playout(&mut rng), Ok(Some(Player::White)));
        assert_eq!(game.greedy_playout(&mut rng), Ok(Some(Player::White)));
    }
}

#[test]
fn first_taking_move_is_none_where_no_move_takes() {
    let game = Game::new_basic();
    let moves = game.get_legal_moves();
    assert!(game.first_taking_move(&moves).is_none());
}

#[test]
fn playout_of_a_finished_game_is_its_winner() {
    let mut rng = StdRng::seed_from_u64(6);
    let mut game = Game::new_basic();
    game.game_over = true;
    game.winner = Some(Player::Black);
    let mut tree = ArenaTree { nodes: Vec::new() };
    tree.new_node(game, None, None);
    assert_eq!(tree.playout(0, &mut rng), Ok(Some(Player::Black)));
    tree.nodes[0].game_state.winner = None;
    assert_eq!(tree.playout(0, &mut rng), Ok(None));
}

#[test]
fn playout_of_an_open_game_plays_it_out() {
    let mut rng = StdRng::seed_from_u64(7);
    let mut tree = ArenaTree { nodes: Vec::new() };
    tree.new_node(near_the_cap(Game::new_basic(), 1000), None, None);
    assert_eq!(tree.playout(0, &mut rng), Ok(None));
}

#[test]
fn grow_visits_the_root_once_a_cycle() {
    let mut rng = StdRng::seed_from_u64(8);
    let mut tree = ArenaTree { nodes: Vec::new() };
    tree.new_node(near_the_cap(Game::new_basic(), 960), None, None);
    tree.grow(0, &confidence_key, &mut rng).unwrap();
    assert_eq!(tree.nodes.len(), 1);
    assert_eq!(tree.nodes[0].visits, 0);
    tree.grow(-3, &confidence_key, &mut rng).unwrap();
    assert_eq!(tree.nodes.len(), 1);
    tree.grow(1, &confidence_key, &mut rng).unwrap();
    let last = 1 + Game::new_basic().get_legal_moves().len();
    assert_eq!(tree.nodes[0].visits, 1);
    assert_eq!(tree.nodes.len(), last);
    assert_eq!(tree.nodes[0].first_child_id, Some(1));
    assert_eq!(tree.nodes[0].last_child_id, Some(last));
    tree.grow(60, &confidence_key, &mut rng).unwrap();
    assert_eq!(tree.nodes[0].visits, 61);
    assert!(tree.nodes.len() > last);
    let children: i32 = (1..last).map(|c| tree.nodes[c].visits).sum();
    assert_eq!(children, 61);
    well_kept(&tree);
}

#[test]
fn select_step_after_growth_ends_where_expansion_is_due() {
    let mut rng = StdRng::seed_from_u64(9);
    let root = near_the_cap(Game::new_belgian_daisy(), 970);
    let tree = mcts_search(root, 120, &confidence_key, &mut rng).unwrap();
    well_kept(&tree);
    let selected = tree.select_step(0, &confidence_key);
    let node = tree.nodes[selected];
    match (node.first_child_id, node.last_child_id) {
        (Some(first), Some(last)) => {
            assert!(first == last || tree.is_leaf_node(selected));
        }
        _ => {}
    }
    let mut up = selected;
    while let Some(p) = tree.nodes[up].parent_id {
        assert!(!tree.is_leaf_node(p));
        up = p;
    }
    assert_eq!(up, 0);
}

#[test]
fn mcts_search_grows_a_tree_for_the_root() {
    let mut rng = StdRng::seed_from_u64(10);
    let root = near_the_cap(Game::new_german_daisy(), 980);
    let tree = mcts_search(root, 30, &confidence_key, &mut rng).unwrap();
    assert_eq!(tree.nodes[0].visits, 30);
    assert_eq!(tree.nodes[0].game_state.render(), root.render());
    assert_eq!(tree.nodes[0].first_child_id, Some(1));
    let best = tree.reccomend();
    assert!(best >= 1 && best < tree.nodes[0].last_child_id.unwrap());
    for c in 1..tree.nodes[0].last_child_id.unwrap() {
        assert!(tree.nodes[c].visits <= tree.nodes[best].visits);
    }
    let idle = mcts_search(root, 0, &confidence_key, &mut rng).unwrap();
    assert_eq!(idle.nodes.len(), 1);
    assert_eq!(idle.nodes[0].visits, 0);
}

#[test]
fn the_same_seed_grows_the_same_tree() {
    let root = near_the_cap(Game::new_basic(), 970);
    let mut first = StdRng::seed_from_u64(2024);
    let mut second = StdRng::seed_from_u64(2024);
    let a = mcts_search(root, 80, &confidence_key, &mut first).unwrap();
    let b = mcts_search(root, 80, &confidence_key, &mut second).unwrap();
    assert_eq!(a.nodes.len(), b.nodes.len());
    for (x, y) in a.nodes.iter().zip(b.nodes.iter()) {
        assert_eq!((x.visits, x.wins), (y.visits, y.wins));
        assert_eq!(x.parent_id, y.parent_id);
        assert_eq!(x.first_child_id, y.first_child_id);
        assert_eq!(x.last_child_id, y.last_child_id);
    }
    assert_eq!(root.random_playout(&mut first), root.random_playout(&mut second));
    assert_eq!(root.greedy_playout(&mut first), root.greedy_playout(&mut second));
    assert!(root.random_playout(&mut first).is_ok());
}

#[test]
fn trees_grown_from_one_root_merge() {
    let mut rng = StdRng::seed_from_u64(11);
    let root = near_the_cap(Game::new_basic(), 985);
    let a = mcts_search(root, 25, &confidence_key, &mut rng).unwrap();
    let b = mcts_search(root, 40, &confidence_key, &mut rng).unwrap();
    assert!(a.can_merge_with(&b));
    let ab = a.merge_trees(&b);
    let ba = b.merge_trees(&a);
    assert_eq!(ab.nodes[0].visits, 65);
    assert_eq!(ba.nodes[0].visits, 65);
    let last = 1 + root.get_legal_moves().len();
    assert_eq!(ab.nodes.len(), last);
    for i in 0..last {
        assert_eq!(ab.nodes[i].visits, a.nodes[i].visits + b.nodes[i].visits);
        assert_eq!(ab.nodes[i].wins, a.nodes[i].wins + b.nodes[i].wins);
        assert_eq!(ab.nodes[i].visits, ba.nodes[i].visits);
        assert_eq!(ab.nodes[i].wins, ba.nodes[i].wins);
    }
    let c = mcts_search(root, 10, &confidence_key, &mut rng).unwrap();
    assert!(ab.can_merge_with(&c));
    let abc = ab.merge_trees(&c);
    assert_eq!(abc.nodes[0].visits, 75);
    let best = abc.reccomend();
    assert!(best >= 1 && best < last);
}

#[test]
fn playing_the_recommended_moves_ends_the_game_by_the_cap() {
    let mut rng = StdRng::seed_from_u64(12);
    for start in [Game::new_basic(), Game::new_german_daisy(), Game::new_belgian_daisy()] {
        let mut game = near_the_cap(start, 975);
        let mut plies = 0;
        while !game.game_over {
            let tree = mcts_search(game, 8, &confidence_key, &mut rng).unwrap();
            let best = tree.reccomend();
            assert!(best >= 1);
            game = tree.nodes[best].game_state;
            assert!(game.validate_state());
            plies += 1;
            assert!(plies <= 26);
        }
        assert!(game.game_over);
        assert!(game.move_number <= 1001);
    }
}

#[test]
fn playing_any_legal_moves_ends_the_game_by_the_cap() {
    let mut game = Game::new_basic();
    let mut plies = 0;
    while !game.game_over {
        let moves = game.get_legal_moves();
        assert!(moves.len() > 0);
        game = game.make_move(&moves[(plies * 7 + 3) % moves.len()]);
        assert!(game.validate_state());
        plies += 1;
        assert!(plies <= 1001);
    }
    assert!(game.move_number <= 1001);
    if game.move_number > 1000 {
        assert!(game.winner.is_none());
    } else {
        assert!(game.white_pieces == 8 || game.black_pieces == 8);
    }
}
