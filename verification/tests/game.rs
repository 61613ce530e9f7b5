use arena::game_state::play;
use arena::{set_game_state, Board, GameState, Piece};

fn piece_of(rows: &[&str]) -> Piece {
    let mut p = Piece::new(rows.len(), 6);
    for (i, r) in rows.iter().enumerate() {
        for (j, c) in r.chars().enumerate() {
            if c == '*' {
                p.piece[i][j] = Some('*');
            }
        }
    }
    p
}

fn game(board: Board, piece: Piece, current_player: i8) -> GameState {
    GameState {
        board,
        piece,
        player_one: "alice".to_string(),
        player_two: "bob".to_string(),
        current_player,
        game_id: "id".to_string(),
        data: None,
    }
}

#[test]
fn new_game_is_set_up() {
    for _ in 0..50 {
        let g = set_game_state("alice".to_string(), "bob".to_string(), 10, 5);
        assert_eq!(g.board.size, 10);
        assert_eq!(g.piece.size, 5);
        assert_eq!(g.piece.density, 6);
        assert_eq!(g.current_player, 1);
        assert_eq!(g.player_one, "alice");
        assert_eq!(g.player_two, "bob");
        assert!(g.data.is_none());
        assert_eq!(g.game_id.len(), 36);
        let ones: Vec<(usize, usize)> = (0..10)
            .flat_map(|i| (0..10).map(move |j| (i, j)))
            .filter(|&(i, j)| g.board.board[i][j] == 1)
            .collect();
        let twos: Vec<(usize, usize)> = (0..10)
            .flat_map(|i| (0..10).map(move |j| (i, j)))
            .filter(|&(i, j)| g.board.board[i][j] == 2)
            .collect();
        assert_eq!(twos.len(), 1);
        if ones.is_empty() {
            // the first player started on the middle cell, which is its own
            // mirror, and the second player took it
            assert_eq!(twos[0], (5, 5));
        } else {
            assert_eq!(ones.len(), 1);
            let (y, x) = ones[0];
            assert!(y < 9 && x < 9);
            let my = if y > 0 { 10 - y } else { 9 };
            let mx = if x > 0 { 10 - x } else { 9 };
            assert_eq!(twos[0], (my, mx));
        }
        assert!(g.piece.piece.iter().flatten().any(|c| *c == Some('*')));
    }
}

#[test]
fn play_leaves_the_board_and_lists_valid_positions() {
    let mut b = Board::new(5);
    b.set_start_position(1, 1);
    let p = piece_of(&["**", ".*"]);
    let mut g = game(b, p, 1);
    let before = g.board.board.clone();
    let positions = g.valid_positions();
    play(&mut g);
    assert_eq!(g.board.board, before);
    let data = g.data.as_ref().unwrap();
    let coords: Vec<(isize, isize)> =
        data.playable_coordinates.iter().map(|c| (c.coordinates.y, c.coordinates.x)).collect();
    assert_eq!(coords, positions);
    assert!(!coords.is_empty());
    for &(y, x) in &coords {
        assert!(g.board.is_valid_piece_coord(&g.piece, y, x, 1));
    }
    assert_eq!(data.piece_infos.cells, 3);
    assert_eq!(data.board_infos.player.len(), 9);
}

#[test]
fn play_finds_every_position_touching_the_start() {
    let mut b = Board::new(4);
    b.set_start_position(0, 0);
    let p = piece_of(&["*"]);
    let mut g = game(b, p, 1);
    play(&mut g);
    let coords: Vec<(isize, isize)> = g
        .data
        .unwrap()
        .playable_coordinates
        .iter()
        .map(|c| (c.coordinates.y, c.coordinates.x))
        .collect();
    // a single cell must land on the player's own single cell
    assert_eq!(coords, vec![(0, 0)]);
}

#[test]
fn play_of_second_player() {
    let mut b = Board::new(4);
    b.set_start_position(0, 0);
    let p = piece_of(&["*"]);
    let mut g = game(b, p, 2);
    play(&mut g);
    let d = g.data.unwrap();
    assert_eq!(d.playable_coordinates.len(), 1);
    assert_eq!(d.playable_coordinates[0].coordinates, arena::Position { y: 3, x: 3 });
    assert_eq!(d.playable_coordinates[0].sq_distances, vec![Some(18)]);
}

#[test]
fn a_move_is_tried_then_confirmed() {
    let mut b = Board::new(4);
    b.set_start_position(1, 1);
    let p = piece_of(&["**", ".."]);
    let mut g = game(b, p, 1);
    assert!(g.try_move(1, 1));
    assert_eq!(g.board.board[1][1], 1);
    assert_eq!(g.board.board[1][2], -1);
    g.confirm_move(1, 1);
    assert_eq!(g.board.board[1][2], 1);
}

#[test]
fn a_bad_move_changes_nothing() {
    let mut b = Board::new(4);
    b.set_start_position(1, 1);
    let before = b.board.clone();
    let p = piece_of(&["**", ".."]);
    let mut g = game(b, p, 1);
    assert!(!g.try_move(3, 3));
    assert!(!g.try_move(-5, 0));
    assert_eq!(g.board.board, before);
}

#[test]
fn the_turn_passes_to_the_other_player() {
    let mut b = Board::new(6);
    b.set_start_position(1, 1);
    let before = b.board.clone();
    let mut p = Piece::new(3, 6);
    p.generate_piece(1, 1, 0);
    let mut g = game(b, p, 1);
    let name = g.next_turn();
    assert_eq!(name, "bob");
    assert_eq!(g.current_player, 2);
    assert_eq!(g.board.board, before);
    assert_eq!(g.piece.size, 3);
    assert!(g.data.is_some());
    let name = g.next_turn();
    assert_eq!(name, "alice");
    assert_eq!(g.current_player, 1);
}

#[test]
fn a_new_game_starts_with_a_piece_of_two_cells_or_more() {
    for _ in 0..100 {
        let g = set_game_state("alice".to_string(), "bob".to_string(), 4, 2);
        let cells = g.piece.piece.iter().flatten().filter(|c| **c == Some('*')).count();
        assert!(cells >= 2);
    }
}

#[test]
fn a_new_turn_brings_a_piece_of_two_cells_or_more() {
    let mut b = Board::new(6);
    b.set_start_position(1, 1);
    let mut g = game(b, piece_of(&["*.", "*."]), 1);
    for _ in 0..50 {
        g.next_turn();
        let cells = g.piece.piece.iter().flatten().filter(|c| **c == Some('*')).count();
        assert!(cells >= 2);
    }
}

#[test]
fn play_for_a_player_with_no_cell_lists_nothing() {
    let mut b = Board::new(4);
    b.set_start_position(0, 0);
    let before = b.board.clone();
    let mut g = game(b, piece_of(&["*"]), i8::MIN);
    play(&mut g);
    assert_eq!(g.board.board, before);
    assert!(g.data.unwrap().playable_coordinates.is_empty());
}

#[test]
fn play_reports_what_each_position_gives_on_the_untouched_board() {
    let mut b = Board::new(6);
    b.set_start_position(1, 1);
    let p = piece_of(&["**", "*."]);
    let untouched = b.clone();
    let mut g = game(b, p.clone(), 1);
    play(&mut g);
    let data = g.data.unwrap();
    assert!(!data.playable_coordinates.is_empty());
    for pc in &data.playable_coordinates {
        let direct = untouched.compute_playable_coordinates(&p, pc.coordinates.y, pc.coordinates.x, 1);
        assert_eq!(pc.sq_distances, direct.sq_distances);
        assert_eq!(pc.contact_zone_size, direct.contact_zone_size);
        assert_eq!(pc.top_border, direct.top_border);
        assert_eq!(pc.bottom_border, direct.bottom_border);
        assert_eq!(pc.left_border, direct.left_border);
        assert_eq!(pc.right_border, direct.right_border);
    }
}
