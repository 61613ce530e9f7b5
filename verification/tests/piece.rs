use arena::Piece;

fn piece_of(rows: &[&str]) -> Piece {
    let mut p = Piece::new(rows.len(), 6);
    for (i, r) in rows.iter().enumerate() {
        for (j, c) in r.chars().enumerate() {
            if c == '*' {
                p.piece[i][j] = Some('*');
            }
        }
    }
    p
}

fn marked(p: &Piece) -> Vec<(usize, usize)> {
    let mut v = Vec::new();
    for i in 0..p.size {
        for j in 0..p.size {
            if p.piece[i][j] == Some('*') {
                v.push((i, j));
            }
        }
    }
    v
}

fn connected(p: &Piece, start: (usize, usize)) -> bool {
    let cells = marked(p);
    let mut seen = vec![start];
    let mut k = 0;
    while k < seen.len() {
        let (i, j) = seen[k];
        for &(a, b) in &cells {
            let di = a as isize - i as isize;
            let dj = b as isize - j as isize;
            if di.abs() <= 1 && dj.abs() <= 1 && !seen.contains(&(a, b)) {
                seen.push((a, b));
            }
        }
        k += 1;
    }
    seen.len() == cells.len()
}

#[test]
fn new_piece_is_empty() {
    let p = Piece::new(3, 7);
    assert_eq!(p.size, 3);
    assert_eq!(p.density, 7);
    assert_eq!(p.piece, vec![vec![None; 3]; 3]);
}

#[test]
fn generated_piece_counts_its_cells() {
    for _ in 0..200 {
        let mut p = Piece::new(5, 6);
        let n = p.generate_piece(2, 1, 0);
        assert_eq!(n, marked(&p).len());
        assert!(n >= 2);
        assert_eq!(p.piece[1][2], Some('*'));
        for row in &p.piece {
            for c in row {
                assert!(c.is_none() || *c == Some('*'));
            }
        }
    }
}

#[test]
fn generated_piece_is_connected() {
    for _ in 0..200 {
        let mut p = Piece::new(4, 2);
        p.generate_piece(0, 3, 0);
        assert!(connected(&p, (3, 0)));
    }
}

#[test]
fn generation_adds_to_the_given_size() {
    let mut p = Piece::new(3, 6);
    let n = p.generate_piece(1, 1, 10);
    assert_eq!(n, 10 + marked(&p).len());
}

#[test]
fn generation_counts_an_already_marked_start_once_more() {
    let mut p = piece_of(&["*..", "...", "..."]);
    let n = p.generate_piece(0, 0, 0);
    assert_eq!(n, marked(&p).len());
}

#[test]
fn piece_infos_of_an_l() {
    let p = piece_of(&[".....", ".*...", ".*...", ".**..", "....."]);
    let i = p.compute_piece_infos();
    assert_eq!(i.height, 3);
    assert_eq!(i.width, 2);
    assert_eq!(i.cells, 4);
    assert!(i.is_vertical);
    assert!(!i.is_horizontal);
}

#[test]
fn piece_infos_of_a_bar() {
    let p = piece_of(&["***", "...", "..."]);
    let i = p.compute_piece_infos();
    assert_eq!((i.height, i.width, i.cells), (1, 3, 3));
    assert!(i.is_horizontal && !i.is_vertical);
}

#[test]
fn piece_infos_of_a_square() {
    let p = piece_of(&["**", "**"]);
    let i = p.compute_piece_infos();
    assert_eq!((i.height, i.width, i.cells), (2, 2, 4));
    assert!(i.is_horizontal && i.is_vertical);
}

#[test]
fn piece_infos_of_an_empty_frame() {
    let p = Piece::new(0, 6);
    let i = p.compute_piece_infos();
    assert_eq!((i.height, i.width, i.cells), (1, 1, 0));
}

#[test]
fn growth_follows_the_given_draws() {
    // A draw of one spreads right of the first cell; the draws that follow
    // (all zero once the list runs out) spread nowhere else.
    let mut p = Piece::new(3, 6);
    let n = p.generate_piece_with_draws(1, 1, 0, &vec![1]);
    assert_eq!(n, 2);
    assert_eq!(marked(&p), vec![(1, 1), (1, 2)]);
}

#[test]
fn growth_tries_the_neighbours_in_order() {
    // Right of (1, 1) comes first and takes five draws of its own (below,
    // left, above, below-left, above-left); the sixth draw after it is for
    // the cell below (1, 1).
    let mut p = Piece::new(3, 6);
    let n = p.generate_piece_with_draws(1, 1, 0, &vec![0, 1]);
    assert_eq!(n, 2);
    assert_eq!(marked(&p), vec![(1, 1), (2, 1)]);
    let mut q = Piece::new(3, 6);
    let m = q.generate_piece_with_draws(1, 1, 0, &vec![1, 0, 0, 0, 0, 0, 1]);
    assert_eq!(m, 3);
    assert_eq!(marked(&q), vec![(1, 1), (1, 2), (2, 1)]);
}

#[test]
fn growth_only_spreads_on_a_draw_of_one() {
    let mut p = Piece::new(3, 6);
    let n = p.generate_piece_with_draws(1, 1, 0, &vec![2, 3, 5, 1]);
    assert_eq!(n, 2);
    assert_eq!(marked(&p), vec![(0, 1), (1, 1)]);
}

#[test]
fn growth_from_nothing_ends_with_two_cells_when_no_draw_spreads() {
    // Every draw is zero: after the last try the first empty neighbour in
    // order (right) is taken.
    let mut p = Piece::new(3, 6);
    let n = p.generate_piece_with_draws(1, 1, 0, &Vec::new());
    assert_eq!(n, 2);
    assert_eq!(marked(&p), vec![(1, 1), (1, 2)]);
    let mut q = Piece::new(3, 6);
    let m = q.generate_piece_with_draws(2, 2, 0, &Vec::new());
    assert_eq!(m, 2);
    assert_eq!(marked(&q), vec![(2, 1), (2, 2)]);
}

#[test]
fn growth_with_a_given_size_does_not_retry() {
    let mut p = Piece::new(3, 6);
    let n = p.generate_piece_with_draws(0, 0, 4, &Vec::new());
    assert_eq!(n, 5);
    assert_eq!(marked(&p), vec![(0, 0)]);
}

#[test]
fn random_growth_from_nothing_has_at_least_two_cells() {
    for _ in 0..300 {
        let mut p = Piece::new(3, 2);
        let n = p.generate_piece(1, 1, 0);
        assert!(n >= 2);
        assert_eq!(n, marked(&p).len());
        assert!(connected(&p, (1, 1)));
    }
}

#[test]
fn random_growth_with_density_one_keeps_one_cell() {
    // With a density of one every draw is zero, so nothing spreads.
    let mut p = Piece::new(4, 1);
    let n = p.generate_piece(1, 2, 3);
    assert_eq!(n, 4);
    assert_eq!(marked(&p), vec![(2, 1)]);
}
