use vstd::prelude::*;

use crate::arith::lemma_sides_add_up;
use crate::board::{
    coords_fit, describes_board, in_bounds, is_placed, is_square, is_valid_start,
    lemma_is_placed_place, lemma_mark_then_confirm, lemma_trial_keeps_playable,
    lemma_try_then_undo, mirror, on_board, place, playable, valid_piece_coord, Board, BoardInfos,
    PlayableCoordinates,
};
use crate::growth::{grow_spec, lemma_empty_frame_has_neighbour};
use crate::piece::{
    count_star, describes_piece, grown, has_star, is_star, lemma_generated_size, linked_from, Piece,
    PieceInfos,
};
use crate::random::{is_uuid_text, new_uuid_string, random_below};

verus! {

/// What the player whose turn it is gets told: the piece, every place where
/// it may go with what each would give, and who holds what of the board.
#[derive(Clone, Debug)]
pub struct GameInfos {
    pub piece_infos: PieceInfos,
    pub playable_coordinates: Vec<PlayableCoordinates>,
    pub board_infos: BoardInfos,
}

/// A game between two players.
#[derive(Clone, Debug)]
pub struct GameState {
    pub board: Board,
    pub piece: Piece,
    pub player_one: String,
    pub player_two: String,
    /// The player whose turn it is, `1` or `2`.
    pub current_player: i8,
    pub game_id: String,
    pub data: Option<GameInfos>,
}

/// The mark with which a piece of `player` is tried before it is taken back.
pub open spec fn trial_mark(player: i8) -> i8 {
    (0 - player) as i8
}

/// One position of the scan of `play`: when the piece may go at `(y, x)`,
/// it is put with the trial mark, and taken back by putting it again with
/// `0`. Gives the board after, and the board with the piece tried on it.
pub open spec fn scan_step(
    g: Seq<Seq<i8>>,
    p: Seq<Seq<Option<char>>>,
    player: i8,
    y: int,
    x: int,
) -> (Seq<Seq<i8>>, Option<Seq<Seq<i8>>>) {
    if valid_piece_coord(g, p, y, x, player) {
        let h = place(g, p, y, x, trial_mark(player));
        (place(h, p, y, x, 0), Some(h))
    } else {
        (g, None)
    }
}

/// The scan of row `y` over the columns `lo..hi`, left to right: the board
/// after, and for each position where the piece may go, the board with the
/// piece tried on it and the position.
pub open spec fn scan_row(
    g: Seq<Seq<i8>>,
    p: Seq<Seq<Option<char>>>,
    player: i8,
    y: int,
    lo: int,
    hi: int,
) -> (Seq<Seq<i8>>, Seq<(Seq<Seq<i8>>, int, int)>)
    decreases hi - lo,
{
    if hi <= lo {
        (g, seq![])
    } else {
        let (g1, t1) = scan_row(g, p, player, y, lo, hi - 1);
        let (g2, o) = scan_step(g1, p, player, y, hi - 1);
        (
            g2,
            match o {
                Some(h) => t1.push((h, y, hi - 1)),
                None => t1,
            },
        )
    }
}

/// The scan of rows `lo_y..hi_y`, top to bottom, each over the columns
/// `lo_x..hi_x`.
pub open spec fn scan_rows(
    g: Seq<Seq<i8>>,
    p: Seq<Seq<Option<char>>>,
    player: i8,
    lo_y: int,
    hi_y: int,
    lo_x: int,
    hi_x: int,
) -> (Seq<Seq<i8>>, Seq<(Seq<Seq<i8>>, int, int)>)
    decreases hi_y - lo_y,
{
    if hi_y <= lo_y {
        (g, seq![])
    } else {
        let (g1, t1) = scan_rows(g, p, player, lo_y, hi_y - 1, lo_x, hi_x);
        let (g2, t2) = scan_row(g1, p, player, hi_y - 1, lo_x, hi_x);
        (g2, t1 + t2)
    }
}

/// The scan of `play`: every position from which some cell of a piece of
/// side `m` could reach a board of side `n`.
pub open spec fn scan(g: Seq<Seq<i8>>, p: Seq<Seq<Option<char>>>, player: i8) -> (
    Seq<Seq<i8>>,
    Seq<(Seq<Seq<i8>>, int, int)>,
) {
    let m = p.len() as int;
    let n = g.len() as int;
    scan_rows(g, p, player, -m, n, -m, n)
}

/// `v` tells, for each trial of the scan in turn, what the piece gives
/// `player` there.
pub open spec fn reports_trials(
    v: Seq<PlayableCoordinates>,
    trials: Seq<(Seq<Seq<i8>>, int, int)>,
    p: Seq<Seq<Option<char>>>,
    player: i8,
) -> bool {
    &&& v.len() == trials.len()
    &&& forall|k: int|
        0 <= k < v.len() ==> playable(
            trials[k].0,
            p,
            trials[k].1,
            trials[k].2,
            player,
            #[trigger] v[k],
        )
}

/// The opponent of player `1` is `2`, and of anyone else `1`.
pub open spec fn opponent_of(player: i8) -> i8 {
    if player == 1 {
        2
    } else {
        1
    }
}

/// Works out what the player whose turn it is may do: tries the piece at
/// every position from which it could reach the board, keeps what each
/// position where it may go would give, and describes the piece and the
/// board.
pub fn play(game_state: &mut GameState)
    requires
        old(game_state).board.wf(),
        old(game_state).piece.wf(),
        old(game_state).current_player != i8::MIN || valid_positions_of(
            old(game_state).board@,
            old(game_state).piece@,
            old(game_state).current_player,
        ).len() == 0,
        old(game_state).piece.size == 0 || has_star(old(game_state).piece@),
    ensures
        final(game_state).board.wf(),
        final(game_state).board.size == old(game_state).board.size,
        final(game_state).board@ == scan(
            old(game_state).board@,
            old(game_state).piece@,
            old(game_state).current_player,
        ).0,
        final(game_state).piece == old(game_state).piece,
        final(game_state).player_one == old(game_state).player_one,
        final(game_state).player_two == old(game_state).player_two,
        final(game_state).current_player == old(game_state).current_player,
        final(game_state).game_id == old(game_state).game_id,
        final(game_state).data matches Some(d) && reports_trials(
            d.playable_coordinates@,
            scan(old(game_state).board@, old(game_state).piece@, old(game_state).current_player).1,
            old(game_state).piece@,
            old(game_state).current_player,
        ) && describes_piece(old(game_state).piece@, d.piece_infos) && describes_board(
            final(game_state).board@,
            old(game_state).current_player,
            opponent_of(old(game_state).current_player),
            d.board_infos,
        ),
{
    let ghost g0 = game_state.board@;
    let ghost p = game_state.piece@;
    let ghost piece0 = game_state.piece;
    let ghost one = game_state.player_one;
    let ghost two = game_state.player_two;
    let ghost id = game_state.game_id;
    let cp = game_state.current_player;
    let m = game_state.piece.size as isize;
    let n = game_state.board.size as isize;
    let ghost bsize = game_state.board.size;
    proof {
        lemma_sides_add_up(game_state.board.size as int, game_state.piece.size as int);
    }
    let mut playable_coordinates: Vec<PlayableCoordinates> = Vec::new();
    let mut py: isize = 0 - m;
    while py < n
        invariant
            game_state.board.wf(),
            game_state.board.size == bsize,
            n == bsize,
            game_state.piece == piece0,
            piece0.wf(),
            p == piece0@,
            m == piece0.size,
            m + n <= isize::MAX,
            cp == i8::MIN ==> game_state.board@ == g0 && valid_positions_of(g0, p, cp).len() == 0,
            game_state.current_player == cp,
            game_state.player_one == one,
            game_state.player_two == two,
            game_state.game_id == id,
            g0.len() == n,
            -m <= py <= n,
            game_state.board@ == scan_rows(g0, p, cp, -m, py as int, -m, n as int).0,
            reports_trials(
                playable_coordinates@,
                scan_rows(g0, p, cp, -m, py as int, -m, n as int).1,
                p,
                cp,
            ),
        decreases n - py,
    {
        let ghost row_start = game_state.board@;
        let ghost before = scan_rows(g0, p, cp, -m, py as int, -m, n as int).1;
        let mut px: isize = 0 - m;
        while px < n
            invariant
                game_state.board.wf(),
                game_state.board.size == bsize,
                n == bsize,
                game_state.piece == piece0,
                piece0.wf(),
                p == piece0@,
                m == piece0.size,
                m + n <= isize::MAX,
                cp == i8::MIN ==> game_state.board@ == g0 && valid_positions_of(g0, p, cp).len() == 0,
                g0.len() == n,
                game_state.current_player == cp,
                game_state.player_one == one,
                game_state.player_two == two,
                game_state.game_id == id,
                -m <= py < n,
                -m <= px <= n,
                row_start.len() == n,
                game_state.board@ == scan_row(row_start, p, cp, py as int, -m, px as int).0,
                reports_trials(
                    playable_coordinates@,
                    before + scan_row(row_start, p, cp, py as int, -m, px as int).1,
                    p,
                    cp,
                ),
            decreases n - px,
        {
            let ghost g1 = game_state.board@;
            let ghost t1 = before + scan_row(row_start, p, cp, py as int, -m, px as int).1;
            if game_state.board.is_valid_piece_coord(&game_state.piece, py, px, cp) {
                proof {
                    game_state.board.lemma_square();
                    if cp == i8::MIN {
                        lemma_valid_in_rows_has(g0, p, cp, -m, n as int, -m, n as int, py as int, px as int);
                    }
                }
                game_state.board.set_piece(&game_state.piece, py, px, -1 * cp);
                let ghost h = game_state.board@;
                proof {
                    lemma_is_placed_place(g1, h, p, py as int, px as int, trial_mark(cp));
                }
                let pc = game_state.board.compute_playable_coordinates(&game_state.piece, py, px, cp);
                playable_coordinates.push(pc);
                game_state.board.set_piece(&game_state.piece, py, px, 0);
                proof {
                    lemma_is_placed_place(h, game_state.board@, p, py as int, px as int, 0);
                    assert(before + scan_row(row_start, p, cp, py as int, -m, px + 1).1 =~= t1.push(
                        (h, py as int, px as int),
                    ));
                }
            } else {
                proof {
                    assert(before + scan_row(row_start, p, cp, py as int, -m, px + 1).1 =~= t1);
                }
            }
            px = px + 1;
        }
        proof {
            assert(scan_rows(g0, p, cp, -m, py + 1, -m, n as int).1 =~= before + scan_row(
                row_start,
                p,
                cp,
                py as int,
                -m,
                n as int,
            ).1);
        }
        py = py + 1;
    }
    let piece_infos = game_state.piece.compute_piece_infos();
    let opponent: i8 = if cp == 1 {
        2
    } else {
        1
    };
    let board_infos = game_state.board.compute_board_infos(cp, opponent);
    game_state.data = Some(GameInfos { piece_infos, playable_coordinates, board_infos });
}

/// The positions of row `y`, over the columns `lo..hi`, where the piece may
/// go, left to right.
pub open spec fn valid_in_row(
    g: Seq<Seq<i8>>,
    p: Seq<Seq<Option<char>>>,
    player: i8,
    y: int,
    lo: int,
    hi: int,
) -> Seq<(int, int)>
    decreases hi - lo,
{
    if hi <= lo {
        seq![]
    } else {
        valid_in_row(g, p, player, y, lo, hi - 1) + if valid_piece_coord(g, p, y, hi - 1, player) {
            seq![(y, hi - 1)]
        } else {
            seq![]
        }
    }
}

/// The positions of rows `lo_y..hi_y`, over the columns `lo_x..hi_x`,
/// where the piece may go, row by row.
pub open spec fn valid_in_rows(
    g: Seq<Seq<i8>>,
    p: Seq<Seq<Option<char>>>,
    player: i8,
    lo_y: int,
    hi_y: int,
    lo_x: int,
    hi_x: int,
) -> Seq<(int, int)>
    decreases hi_y - lo_y,
{
    if hi_y <= lo_y {
        seq![]
    } else {
        valid_in_rows(g, p, player, lo_y, hi_y - 1, lo_x, hi_x) + valid_in_row(
            g,
            p,
            player,
            hi_y - 1,
            lo_x,
            hi_x,
        )
    }
}

proof fn lemma_valid_in_row_has(
    g: Seq<Seq<i8>>,
    p: Seq<Seq<Option<char>>>,
    player: i8,
    y: int,
    lo: int,
    hi: int,
    x: int,
)
    requires
        lo <= x < hi,
        valid_piece_coord(g, p, y, x, player),
    ensures
        valid_in_row(g, p, player, y, lo, hi).len() > 0,
    decreases hi - lo,
{
    if x < hi - 1 {
        lemma_valid_in_row_has(g, p, player, y, lo, hi - 1, x);
    }
}

proof fn lemma_valid_in_rows_has(
    g: Seq<Seq<i8>>,
    p: Seq<Seq<Option<char>>>,
    player: i8,
    lo_y: int,
    hi_y: int,
    lo_x: int,
    hi_x: int,
    y: int,
    x: int,
)
    requires
        lo_y <= y < hi_y,
        lo_x <= x < hi_x,
        valid_piece_coord(g, p, y, x, player),
    ensures
        valid_in_rows(g, p, player, lo_y, hi_y, lo_x, hi_x).len() > 0,
    decreases hi_y - lo_y,
{
    if y < hi_y - 1 {
        lemma_valid_in_rows_has(g, p, player, lo_y, hi_y - 1, lo_x, hi_x, y, x);
    } else {
        lemma_valid_in_row_has(g, p, player, y, lo_x, hi_x, x);
    }
}

/// Every position where `player` may put piece `p` on board `g`, in the
/// order of the scan.
pub open spec fn valid_positions_of(g: Seq<Seq<i8>>, p: Seq<Seq<Option<char>>>, player: i8) -> Seq<
    (int, int),
> {
    let m = p.len() as int;
    let n = g.len() as int;
    valid_in_rows(g, p, player, -m, n, -m, n)
}

/// The trials that a scan makes on an unchanging board `g`: at each
/// position, the board with the piece tried there.
pub open spec fn trials_at(
    g: Seq<Seq<i8>>,
    p: Seq<Seq<Option<char>>>,
    player: i8,
    positions: Seq<(int, int)>,
) -> Seq<(Seq<Seq<i8>>, int, int)> {
    positions.map_values(|c: (int, int)| (place(g, p, c.0, c.1, trial_mark(player)), c.0, c.1))
}

proof fn lemma_step_keeps(g: Seq<Seq<i8>>, p: Seq<Seq<Option<char>>>, player: i8, y: int, x: int)
    requires
        is_square(g),
        player > 0,
    ensures
        scan_step(g, p, player, y, x).0 == g,
{
    if valid_piece_coord(g, p, y, x, player) {
        let h = place(g, p, y, x, trial_mark(player));
        let k = place(h, p, y, x, 0);
        assert(is_placed(g, h, p, y, x, (-player) as i8));
        assert forall|i: int| 0 <= i < h.len() implies #[trigger] h[i].len() == h.len() by {
            assert(g[i].len() == g.len());
        }
        assert(is_placed(h, k, p, y, x, 0));
        lemma_try_then_undo(g, h, k, p, y, x, player);
    }
}

proof fn lemma_scan_row_keeps(
    g: Seq<Seq<i8>>,
    p: Seq<Seq<Option<char>>>,
    player: i8,
    y: int,
    lo: int,
    hi: int,
)
    requires
        is_square(g),
        player > 0,
    ensures
        scan_row(g, p, player, y, lo, hi).0 == g,
        scan_row(g, p, player, y, lo, hi).1 == trials_at(g, p, player, valid_in_row(g, p, player, y, lo, hi)),
    decreases hi - lo,
{
    if hi > lo {
        lemma_scan_row_keeps(g, p, player, y, lo, hi - 1);
        lemma_step_keeps(g, p, player, y, hi - 1);
        let prev = valid_in_row(g, p, player, y, lo, hi - 1);
        if valid_piece_coord(g, p, y, hi - 1, player) {
            assert(trials_at(g, p, player, valid_in_row(g, p, player, y, lo, hi)) =~= trials_at(
                g,
                p,
                player,
                prev,
            ).push((place(g, p, y, hi - 1, trial_mark(player)), y, hi - 1)));
        } else {
            assert(valid_in_row(g, p, player, y, lo, hi) =~= prev);
        }
    } else {
        assert(trials_at(g, p, player, seq![]) =~= seq![]);
    }
}

proof fn lemma_scan_rows_keeps(
    g: Seq<Seq<i8>>,
    p: Seq<Seq<Option<char>>>,
    player: i8,
    lo_y: int,
    hi_y: int,
    lo_x: int,
    hi_x: int,
)
    requires
        is_square(g),
        player > 0,
    ensures
        scan_rows(g, p, player, lo_y, hi_y, lo_x, hi_x).0 == g,
        scan_rows(g, p, player, lo_y, hi_y, lo_x, hi_x).1 == trials_at(
            g,
            p,
            player,
            valid_in_rows(g, p, player, lo_y, hi_y, lo_x, hi_x),
        ),
    decreases hi_y - lo_y,
{
    if hi_y > lo_y {
        lemma_scan_rows_keeps(g, p, player, lo_y, hi_y - 1, lo_x, hi_x);
        lemma_scan_row_keeps(g, p, player, hi_y - 1, lo_x, hi_x);
        assert(trials_at(g, p, player, valid_in_rows(g, p, player, lo_y, hi_y, lo_x, hi_x)) =~= trials_at(
            g,
            p,
            player,
            valid_in_rows(g, p, player, lo_y, hi_y - 1, lo_x, hi_x),
        ) + trials_at(g, p, player, valid_in_row(g, p, player, hi_y - 1, lo_x, hi_x)));
    } else {
        assert(trials_at(g, p, player, seq![]) =~= seq![]);
    }
}

/// For a positive player, the scan of `play` leaves the board as it was,
/// and tries the piece exactly at the positions where it may go, each on
/// the first board.
pub proof fn lemma_scan_keeps_board(g: Seq<Seq<i8>>, p: Seq<Seq<Option<char>>>, player: i8)
    requires
        is_square(g),
        player > 0,
    ensures
        scan(g, p, player).0 == g,
        scan(g, p, player).1 == trials_at(g, p, player, valid_positions_of(g, p, player)),
{
    let m = p.len() as int;
    let n = g.len() as int;
    lemma_scan_rows_keeps(g, p, player, -m, n, -m, n);
}

/// What `play` reports for a positive player is what each position where
/// the piece may go gives on the board as it stands: the trial mark under
/// which each is worked out changes none of it.
pub proof fn lemma_play_reports_board_as_is(
    g: Seq<Seq<i8>>,
    p: Seq<Seq<Option<char>>>,
    player: i8,
    v: Seq<PlayableCoordinates>,
)
    requires
        is_square(g),
        player > 0,
        reports_trials(v, scan(g, p, player).1, p, player),
    ensures
        v.len() == valid_positions_of(g, p, player).len(),
        forall|k: int|
            0 <= k < v.len() ==> playable(
                g,
                p,
                valid_positions_of(g, p, player)[k].0,
                valid_positions_of(g, p, player)[k].1,
                player,
                #[trigger] v[k],
            ),
{
    lemma_scan_keeps_board(g, p, player);
    let pos = valid_positions_of(g, p, player);
    let t = scan(g, p, player).1;
    assert forall|k: int| 0 <= k < v.len() implies playable(g, p, pos[k].0, pos[k].1, player, #[trigger] v[k]) by {
        let c = pos[k];
        let h = place(g, p, c.0, c.1, trial_mark(player));
        assert(t[k] == (h, c.0, c.1));
        assert(playable(t[k].0, p, t[k].1, t[k].2, player, v[k]));
        assert(is_placed(g, h, p, c.0, c.1, trial_mark(player)));
        lemma_trial_keeps_playable(g, h, p, c.0, c.1, trial_mark(player), p, c.0, c.1, player, v[k]);
    }
}

/// The frame of side `m` with no cell marked.
pub open spec fn empty_frame(m: int) -> Seq<Seq<Option<char>>> {
    Seq::new(m as nat, |i: int| Seq::new(m as nat, |j: int| None))
}

/// Piece `p` was grown in an empty frame of side `m` from a cell
/// `(y, x)`: that cell is marked, every other marked cell is joined to it
/// through touching marked cells, and all other cells are empty.
pub open spec fn grown_in_frame(p: Seq<Seq<Option<char>>>, m: int) -> bool {
    exists|y: int, x: int|
        0 <= y < m && 0 <= x < m && #[trigger] grown(
            empty_frame(m).update(y, empty_frame(m)[y].update(x, Some('*'))),
            p,
        ) && linked_from(empty_frame(m), p, y, x)
}

/// Piece `p` is what `grow_spec` grows in an empty frame of side `m` from
/// some first cell, a size of zero, and some draws below `density`.
pub open spec fn drawn_piece(p: Seq<Seq<Option<char>>>, m: int, density: int) -> bool {
    exists|y: int, x: int, d: Seq<int>|
        0 <= y < m && 0 <= x < m && (forall|i: int| 0 <= i < d.len() ==> 0 <= #[trigger] d[i] < density)
            && #[trigger] grow_spec(empty_frame(m), x, y, m, 0, d).0 == p
}

/// The number of a player, without its sign.
pub open spec fn unsigned_player(player: i8) -> i8 {
    if player < 0 {
        (0 - player) as i8
    } else {
        player
    }
}

/// `b` is `a` but for its board.
pub open spec fn same_but_board(a: GameState, b: GameState) -> bool {
    &&& b.piece == a.piece
    &&& b.player_one == a.player_one
    &&& b.player_two == a.player_two
    &&& b.current_player == a.current_player
    &&& b.game_id == a.game_id
    &&& b.data == a.data
}

/// The density with which new pieces are grown.
pub const PIECE_DENSITY: u32 = 6;

/// Starts a game between `player_one` and `player_two` on an empty board of
/// side `board_size`, with a first random piece in a frame of side
/// `piece_size`. The first player starts at a random cell off the last row
/// and column, the second across from it, and the first player moves first.
#[verifier::spinoff_prover]
#[verifier::rlimit(40)]
pub fn set_game_state(player_one: String, player_two: String, board_size: usize, piece_size: usize) -> (r:
    GameState)
    requires
        board_size >= 2,
        piece_size >= 2,
        board_size * board_size <= usize::MAX,
        piece_size * piece_size < usize::MAX,
    ensures
        r.board.wf(),
        r.board.size == board_size,
        exists|y: int, x: int|
            0 <= y < board_size - 1 && 0 <= x < board_size - 1 && #[trigger] is_valid_start(
                r.board@,
                y,
                x,
            ),
        r.piece.wf(),
        r.piece.size == piece_size,
        r.piece.density == PIECE_DENSITY,
        grown_in_frame(r.piece@, piece_size as int),
        count_star(r.piece@) >= 2,
        drawn_piece(r.piece@, piece_size as int, PIECE_DENSITY as int),
        r.player_one == player_one,
        r.player_two == player_two,
        r.current_player == 1,
        is_uuid_text(r.game_id@),
        r.data is None,
{
    let mut piece = Piece::new(piece_size, PIECE_DENSITY);
    let ghost e = piece@;
    proof {
        assert(e =~= empty_frame(piece_size as int)) by {
            assert forall|i: int| 0 <= i < piece_size implies #[trigger] e[i] =~= empty_frame(
                piece_size as int,
            )[i] by {
                assert(e[i].len() == piece_size);
            }
        }
    }
    let px = random_below(piece_size);
    let py = random_below(piece_size);
    proof {
        lemma_empty_frame_has_neighbour(e, px as int, py as int, piece_size as int);
    }
    let count = piece.generate_piece(px, py, 0);
    proof {
        lemma_generated_size(e, piece@, py as int, px as int, count as int);
        let d = choose|d: Seq<int>|
            (forall|i: int| 0 <= i < d.len() ==> 0 <= #[trigger] d[i] && (PIECE_DENSITY >= 1 ==> d[i]
                < PIECE_DENSITY)) && #[trigger] grow_spec(e, px as int, py as int, piece_size as int, 0, d).0
                == piece@ && grow_spec(e, px as int, py as int, piece_size as int, 0, d).1 == count;
        assert(grow_spec(empty_frame(piece_size as int), px as int, py as int, piece_size as int, 0, d).0 == piece@);
    }
    let mut board = Board::new(board_size);
    let ghost b0 = board@;
    let sy = random_below(board_size - 1);
    let sx = random_below(board_size - 1);
    board.set_start_position(sy, sx);
    proof {
        board.lemma_square();
        let n = board_size as int;
        assert forall|i: int, j: int| in_bounds(n, i, j) implies #[trigger] board@[i][j] == if i == mirror(
            n,
            sy as int,
        ) && j == mirror(n, sx as int) {
            2i8
        } else if i == sy && j == sx {
            1i8
        } else {
            0i8
        } by {
            assert(b0[i][j] == 0);
            assert(b0[i].len() == n);
        }
        assert(is_valid_start(board@, sy as int, sx as int));
    }
    let game_id = new_uuid_string();
    let r = GameState {
        board,
        piece,
        player_one,
        player_two,
        current_player: 1,
        game_id,
        data: None,
    };
    assert(is_valid_start(r.board@, sy as int, sx as int));
    r
}

impl GameState {
    /// The positions where the player whose turn it is may put the piece,
    /// in the order in which `play` tries them.
    pub fn valid_positions(&self) -> (r: Vec<(isize, isize)>)
        requires
            self.board.wf(),
            self.piece.wf(),
        ensures
            r@.len() == valid_positions_of(self.board@, self.piece@, self.current_player).len(),
            forall|k: int|
                0 <= k < r@.len() ==> {
                    let c = valid_positions_of(self.board@, self.piece@, self.current_player)[k];
                    &&& (#[trigger] r@[k]).0 == c.0
                    &&& r@[k].1 == c.1
                },
    {
        let ghost g = self.board@;
        let ghost p = self.piece@;
        let cp = self.current_player;
        let m = self.piece.size as isize;
        let n = self.board.size as isize;
        let mut r: Vec<(isize, isize)> = Vec::new();
        proof {
            lemma_sides_add_up(self.board.size as int, self.piece.size as int);
        }
        let mut py: isize = 0 - m;
        while py < n
            invariant
                self.board.wf(),
                self.piece.wf(),
                g == self.board@,
                p == self.piece@,
                cp == self.current_player,
                m == self.piece.size,
                n == self.board.size,
                m + n <= isize::MAX,
                -m <= py <= n,
                r@.len() == valid_in_rows(g, p, cp, -m, py as int, -m, n as int).len(),
                forall|k: int|
                    0 <= k < r@.len() ==> {
                        let c = valid_in_rows(g, p, cp, -m, py as int, -m, n as int)[k];
                        &&& (#[trigger] r@[k]).0 == c.0
                        &&& r@[k].1 == c.1
                    },
            decreases n - py,
        {
            let ghost before = valid_in_rows(g, p, cp, -m, py as int, -m, n as int);
            let mut px: isize = 0 - m;
            while px < n
                invariant
                    self.board.wf(),
                    self.piece.wf(),
                    g == self.board@,
                    p == self.piece@,
                    cp == self.current_player,
                    m == self.piece.size,
                    n == self.board.size,
                    m + n <= isize::MAX,
                    -m <= py < n,
                    -m <= px <= n,
                    r@.len() == (before + valid_in_row(g, p, cp, py as int, -m, px as int)).len(),
                    forall|k: int|
                        0 <= k < r@.len() ==> {
                            let c = (before + valid_in_row(g, p, cp, py as int, -m, px as int))[k];
                            &&& (#[trigger] r@[k]).0 == c.0
                            &&& r@[k].1 == c.1
                        },
                decreases n - px,
            {
                let ghost prev = before + valid_in_row(g, p, cp, py as int, -m, px as int);
                if self.board.is_valid_piece_coord(&self.piece, py, px, cp) {
                    r.push((py, px));
                    proof {
                        assert(before + valid_in_row(g, p, cp, py as int, -m, px + 1) =~= prev.push(
                            (py as int, px as int),
                        ));
                    }
                } else {
                    proof {
                        assert(before + valid_in_row(g, p, cp, py as int, -m, px + 1) =~= prev);
                    }
                }
                px = px + 1;
            }
            proof {
                assert(valid_in_rows(g, p, cp, -m, py + 1, -m, n as int) =~= before + valid_in_row(
                    g,
                    p,
                    cp,
                    py as int,
                    -m,
                    n as int,
                ));
            }
            py = py + 1;
        }
        r
    }

    /// Tries the move `(y, x)` of the player whose turn it is: when the
    /// piece may go there for that player, it is put with the trial mark so
    /// that it shows apart from the rest. Returns whether it may.
    pub fn try_move(&mut self, y: isize, x: isize) -> (r: bool)
        requires
            old(self).board.wf(),
            old(self).piece.wf(),
            old(self).current_player != i8::MIN,
            coords_fit(old(self).piece@, y as int, x as int),
        ensures
            final(self).board.wf(),
            final(self).board.size == old(self).board.size,
            same_but_board(*old(self), *final(self)),
            r == valid_piece_coord(
                old(self).board@,
                old(self).piece@,
                y as int,
                x as int,
                unsigned_player(old(self).current_player),
            ),
            r ==> is_placed(
                old(self).board@,
                final(self).board@,
                old(self).piece@,
                y as int,
                x as int,
                trial_mark(old(self).current_player),
            ),
            !r ==> final(self).board@ == old(self).board@,
    {
        let cp = self.current_player;
        assert(cp != i8::MIN);
        let mark: i8 = -1 * cp;
        let who = if cp < 0 {
            -cp
        } else {
            cp
        };
        if self.board.is_valid_piece_coord(&self.piece, y, x, who) {
            self.board.set_piece(&self.piece, y, x, mark);
            true
        } else {
            false
        }
    }

    /// Puts the piece at `(y, x)` for good, with the number of the player
    /// whose turn it is.
    pub fn confirm_move(&mut self, y: isize, x: isize)
        requires
            old(self).board.wf(),
            old(self).piece.wf(),
            on_board(old(self).board@, old(self).piece@, y as int, x as int),
        ensures
            final(self).board.wf(),
            final(self).board.size == old(self).board.size,
            same_but_board(*old(self), *final(self)),
            is_placed(
                old(self).board@,
                final(self).board@,
                old(self).piece@,
                y as int,
                x as int,
                old(self).current_player,
            ),
    {
        self.board.set_piece(&self.piece, y, x, self.current_player);
    }

    /// Hands the turn to the other player with a new random piece of the
    /// same size and density, and works out what that player may do (see
    /// `play`). Returns the name of the player whose turn it now is.
    pub fn next_turn(&mut self) -> (name: String)
        requires
            old(self).board.wf(),
            old(self).piece.wf(),
            old(self).piece.size >= 2,
            old(self).piece.density >= 2,
            old(self).piece.size * old(self).piece.size < usize::MAX,
        ensures
            name == if old(self).current_player == 1 {
                old(self).player_two
            } else {
                old(self).player_one
            },
            final(self).current_player == opponent_of(old(self).current_player),
            final(self).board.wf(),
            final(self).board.size == old(self).board.size,
            final(self).board@ == old(self).board@,
            final(self).piece.wf(),
            final(self).piece.size == old(self).piece.size,
            final(self).piece.density == old(self).piece.density,
            grown_in_frame(final(self).piece@, old(self).piece.size as int),
            count_star(final(self).piece@) >= 2,
            drawn_piece(final(self).piece@, old(self).piece.size as int, old(self).piece.density as int),
            final(self).player_one == old(self).player_one,
            final(self).player_two == old(self).player_two,
            final(self).game_id == old(self).game_id,
            final(self).data matches Some(d) && reports_trials(
                d.playable_coordinates@,
                trials_at(
                    old(self).board@,
                    final(self).piece@,
                    final(self).current_player,
                    valid_positions_of(old(self).board@, final(self).piece@, final(self).current_player),
                ),
                final(self).piece@,
                final(self).current_player,
            ) && describes_piece(final(self).piece@, d.piece_infos) && describes_board(
                old(self).board@,
                final(self).current_player,
                opponent_of(final(self).current_player),
                d.board_infos,
            ),
    {
        let name = if self.current_player == 1 {
            self.current_player = 2;
            self.player_two.clone()
        } else {
            self.current_player = 1;
            self.player_one.clone()
        };
        let size = self.piece.size;
        let mut piece = Piece::new(size, self.piece.density);
        let ghost e = piece@;
        proof {
            assert(e =~= empty_frame(size as int)) by {
                assert forall|i: int| 0 <= i < size implies #[trigger] e[i] =~= empty_frame(size as int)[i] by {
                    assert(e[i].len() == size);
                }
            }
        }
        let px = random_below(size);
        let py = random_below(size);
        proof {
            lemma_empty_frame_has_neighbour(e, px as int, py as int, size as int);
        }
        let count = piece.generate_piece(px, py, 0);
        proof {
            lemma_generated_size(e, piece@, py as int, px as int, count as int);
            let dens = piece.density;
            let d = choose|d: Seq<int>|
                (forall|i: int| 0 <= i < d.len() ==> 0 <= #[trigger] d[i] && (dens >= 1 ==> d[i] < dens))
                    && #[trigger] grow_spec(e, px as int, py as int, size as int, 0, d).0 == piece@ && grow_spec(
                    e,
                    px as int,
                    py as int,
                    size as int,
                    0,
                    d,
                ).1 == count;
            assert(grow_spec(empty_frame(size as int), px as int, py as int, size as int, 0, d).0 == piece@);
            let g1 = e.update(py as int, e[py as int].update(px as int, Some('*')));
            assert(g1[py as int][px as int] == Some('*'));
            assert(piece@[py as int][px as int] == Some('*'));
            assert(is_star(piece@, py as int, px as int));
            self.board.lemma_square();
            lemma_scan_keeps_board(self.board@, piece@, self.current_player);
        }
        self.piece = piece;
        play(self);
        name
    }

}

/// Turns alternate: the opponent of the opponent of player `1` or `2` is
/// that player again.
pub proof fn lemma_turns_alternate(player: i8)
    requires
        player == 1 || player == 2,
    ensures
        opponent_of(opponent_of(player)) == player,
        opponent_of(player) != player,
{
}

/// A move of a positive player that `try_move` accepts and `confirm_move`
/// then confirms puts the piece on the board with the player's number, as
/// if it had been put at once.
pub proof fn lemma_move_places_piece(
    a: Seq<Seq<i8>>,
    b: Seq<Seq<i8>>,
    c: Seq<Seq<i8>>,
    p: Seq<Seq<Option<char>>>,
    y: int,
    x: int,
    player: i8,
)
    requires
        is_square(a),
        player > 0,
        valid_piece_coord(a, p, y, x, unsigned_player(player)),
        is_placed(a, b, p, y, x, trial_mark(player)),
        is_placed(b, c, p, y, x, player),
    ensures
        is_placed(a, c, p, y, x, player),
{
    lemma_mark_then_confirm(a, b, c, p, y, x, player);
}

} // verus!
