use arena::{Board, CardinalPoints, Piece, Position};

fn piece_of(rows: &[&str]) -> Piece {
    let mut p = Piece::new(rows.len(), 6);
    for (i, r) in rows.iter().enumerate() {
        for (j, c) in r.chars().enumerate() {
            if c == '*' {
                p.piece[i][j] = Some('*');
            }
        }
    }
    p
}

fn board_of(rows: &[&str]) -> Board {
    let mut b = Board::new(rows.len());
    for (i, r) in rows.iter().enumerate() {
        for (j, c) in r.chars().enumerate() {
            b.board[i][j] = match c {
                '1' => 1,
                '2' => 2,
                '-' => -1,
                _ => 0,
            };
        }
    }
    b
}

#[test]
fn new_board_is_empty() {
    let b = Board::new(4);
    assert_eq!(b.size, 4);
    assert_eq!(b.board, vec![vec![0i8; 4]; 4]);
    let e = Board::new(0);
    assert_eq!(e.size, 0);
    assert!(e.board.is_empty());
}

#[test]
fn start_positions_face_each_other() {
    let mut b = Board::new(5);
    b.set_start_position(1, 3);
    assert_eq!(b.board[1][3], 1);
    assert_eq!(b.board[4][2], 2);
    let mut c = Board::new(5);
    c.set_start_position(0, 0);
    assert_eq!(c.board[0][0], 1);
    assert_eq!(c.board[4][4], 2);
}

#[test]
fn start_positions_can_meet() {
    // On a board of side two the cell across from (1, 1) is (1, 1) itself.
    let mut b = Board::new(2);
    b.set_start_position(1, 1);
    assert_eq!(b.board, vec![vec![0, 0], vec![0, 2]]);
}

#[test]
fn piece_must_touch_own_cell_once() {
    let b = board_of(&["....", ".1..", "....", "...2"]);
    let p = piece_of(&["**", ".."]);
    assert!(b.is_valid_piece_coord(&p, 1, 0, 1));
    assert!(b.is_valid_piece_coord(&p, 1, 1, 1));
    // no own cell under the piece
    assert!(!b.is_valid_piece_coord(&p, 0, 0, 1));
    // off the board
    assert!(!b.is_valid_piece_coord(&p, -1, 0, 1));
    assert!(!b.is_valid_piece_coord(&p, 3, 3, 2));
    // an opponent's cell under the piece
    assert!(b.is_valid_piece_coord(&p, 3, 2, 2));
    assert!(!b.is_valid_piece_coord(&p, 3, 2, 1));
}

#[test]
fn two_own_cells_under_the_piece_are_refused() {
    let b = board_of(&["11..", "....", "....", "...."]);
    let p = piece_of(&["**", "**"]);
    assert!(!b.is_valid_piece_coord(&p, 0, 0, 1));
    assert!(b.is_valid_piece_coord(&p, 0, 1, 1));
}

#[test]
fn empty_piece_is_never_valid() {
    let b = board_of(&["1.", ".."]);
    let p = piece_of(&["..", ".."]);
    assert!(!b.is_valid_piece_coord(&p, 0, 0, 1));
}

#[test]
fn set_piece_writes_only_empty_or_negative_cells() {
    let mut b = board_of(&["1-.", "2..", "..."]);
    let p = piece_of(&["**", "*."]);
    assert!(b.set_piece(&p, 0, 0, 2));
    assert_eq!(b.board, vec![vec![1, 2, 0], vec![2, 0, 0], vec![0, 0, 0]]);
}

#[test]
fn trying_and_taking_back_leaves_the_board() {
    let b0 = board_of(&["....", ".1..", "....", "...2"]);
    let p = piece_of(&["**", "*."]);
    let mut b = board_of(&["....", ".1..", "....", "...2"]);
    assert!(b.is_valid_piece_coord(&p, 1, 1, 1));
    b.set_piece(&p, 1, 1, -1);
    assert_eq!(b.board[1][1], 1);
    assert_eq!(b.board[1][2], -1);
    assert_eq!(b.board[2][1], -1);
    b.set_piece(&p, 1, 1, 0);
    assert_eq!(b.board, b0.board);
}

#[test]
fn marking_then_confirming_is_placing() {
    let p = piece_of(&["**", "*."]);
    let mut marked = board_of(&["....", ".1..", "....", "...2"]);
    marked.set_piece(&p, 1, 1, -1);
    marked.set_piece(&p, 1, 1, 1);
    let mut direct = board_of(&["....", ".1..", "....", "...2"]);
    direct.set_piece(&p, 1, 1, 1);
    assert_eq!(marked.board, direct.board);
}

#[test]
fn playable_coordinates_of_a_position() {
    let b = board_of(&["1...", "....", "..2.", "...."]);
    let p = piece_of(&["**", ".*"]);
    let pc = b.compute_playable_coordinates(&p, 0, 0, 1);
    assert_eq!(pc.coordinates, Position { y: 0, x: 0 });
    // cells (0,0), (0,1), (1,1); the opponent is at (2,2)
    assert_eq!(pc.sq_distances, vec![Some(8), Some(5), Some(2)]);
    // only (1,1) touches (2,2)
    assert_eq!(pc.contact_zone_size, 1);
    assert!(pc.top_border);
    assert!(!pc.bottom_border);
    assert!(pc.left_border);
    assert!(!pc.right_border);
}

#[test]
fn playable_coordinates_without_opponent() {
    let b = board_of(&["1..", "...", "..-"]);
    let p = piece_of(&["*"]);
    let pc = b.compute_playable_coordinates(&p, 2, 2, 1);
    assert_eq!(pc.sq_distances, vec![None]);
    assert_eq!(pc.contact_zone_size, 0);
    assert!(pc.bottom_border);
    assert!(pc.right_border);
    assert!(!pc.top_border);
    assert!(!pc.left_border);
}

#[test]
fn contact_counts_all_eight_neighbours() {
    let b = board_of(&["222", "2.2", "222"]);
    let p = piece_of(&["*"]);
    let pc = b.compute_playable_coordinates(&p, 1, 1, 1);
    assert_eq!(pc.contact_zone_size, 8);
    assert_eq!(pc.sq_distances, vec![Some(1)]);
}

#[test]
fn board_infos_by_region() {
    let b = board_of(&[
        "1.....", "......", "......", "......", "....22", "....22",
    ]);
    let infos = b.compute_board_infos(1, 2);
    assert!(!infos.fight_started);
    let names: Vec<CardinalPoints> = infos.player.iter().map(|e| e.0).collect();
    assert_eq!(
        names,
        vec![
            CardinalPoints::North,
            CardinalPoints::South,
            CardinalPoints::East,
            CardinalPoints::West,
            CardinalPoints::NorthEast,
            CardinalPoints::NorthWest,
            CardinalPoints::SouthEast,
            CardinalPoints::SouthWest,
            CardinalPoints::Center,
        ]
    );
    // the first player holds one cell of the north-west region, on its top
    // and left edges
    let nw = infos.player[5].1;
    assert_eq!(nw.occupation, 1);
    assert!(nw.top_border && nw.left_border && !nw.bottom_border && !nw.right_border);
    // the second player fills the south-east region
    let se = infos.opponent[6].1;
    assert_eq!(se.occupation, 4);
    assert!(se.top_border && se.bottom_border && se.left_border && se.right_border);
    assert_eq!(infos.opponent[5].1.occupation, 0);
}

#[test]
fn fight_starts_when_players_touch() {
    let b = board_of(&["12.", "...", "..."]);
    assert!(b.compute_board_infos(1, 2).fight_started);
    // only cells right, below, or below and right count
    assert!(!b.compute_board_infos(2, 1).fight_started);
    let d = board_of(&["1..", ".2.", "..."]);
    assert!(d.compute_board_infos(1, 2).fight_started);
}

#[test]
fn regions_of_a_small_board() {
    // a side below three leaves every third empty but the last ones
    let b = board_of(&["11", "11"]);
    let infos = b.compute_board_infos(1, 2);
    assert_eq!(infos.player[6].1.occupation, 4);
    assert_eq!(infos.player[0].1.occupation, 0);
    assert!(!infos.player[0].1.top_border);
}

#[test]
fn board_renders_row_by_row() {
    let mut b = board_of(&["1-.", "...", "..2"]);
    b.board[1][1] = -128;
    b.board[1][2] = 127;
    assert_eq!(b.render(), "1-10\n0-128127\n002\n");
    assert_eq!(Board::new(0).render(), "");
}

#[test]
fn piece_renders_with_blanks() {
    let mut p = piece_of(&["*.", ".*"]);
    p.piece[1][0] = Some('#');
    assert_eq!(p.render(), "* \n#*\n");
}

#[test]
fn a_tried_piece_changes_nothing_that_a_placement_gives() {
    let b = board_of(&["1...", ".1..", "..2.", "...2"]);
    let p = piece_of(&["**", "*."]);
    let mut tried = b.clone();
    assert!(tried.is_valid_piece_coord(&p, 1, 1, 1));
    tried.set_piece(&p, 1, 1, -1);
    assert_eq!(tried.board[1][2], -1);
    for &(y, x) in &[(0isize, 0isize), (1, 1), (2, 0), (0, 2)] {
        let a = b.compute_playable_coordinates(&p, y, x, 1);
        let c = tried.compute_playable_coordinates(&p, y, x, 1);
        assert_eq!(a.coordinates, c.coordinates);
        assert_eq!(a.sq_distances, c.sq_distances);
        assert_eq!(a.contact_zone_size, c.contact_zone_size);
        assert_eq!(a.top_border, c.top_border);
        assert_eq!(a.bottom_border, c.bottom_border);
        assert_eq!(a.left_border, c.left_border);
        assert_eq!(a.right_border, c.right_border);
    }
}
