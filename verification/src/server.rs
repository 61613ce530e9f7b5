use vstd::prelude::*;
use vstd::string::StrSliceExecFns;

use crate::random::{is_uuid_text, new_uuid_string};

verus! {

/// Who a client of the server is.
#[derive(Clone, Copy, Debug, PartialEq, Eq, Structural)]
pub enum ClientType {
    Player,
    Spectator,
}

/// What the server does with a message from a client.
#[derive(Clone, Copy, Debug, PartialEq, Eq, Structural)]
pub enum Route {
    /// Record a new player and tell the spectators who plays.
    RegisterPlayer,
    /// Record a new spectator and tell the spectators who plays.
    RegisterSpectator,
    /// Start a game between the two players that a spectator names.
    StartGame,
    /// Play the move that a player sends.
    GameMove,
    /// A known message from a client that may not send it: nothing happens.
    Ignore,
    /// A message of a type that the server does not know.
    Unknown,
}

/// The side of the board of a game that a spectator starts.
pub const GAME_BOARD_SIZE: usize = 10;

/// The side of the frame of the pieces of a game that a spectator starts.
pub const GAME_PIECE_SIZE: usize = 5;

/// Where a message of type `message_type` from a client of type
/// `client_type` goes.
pub open spec fn route_of(message_type: Seq<char>, client_type: ClientType) -> Route {
    if message_type == "register"@ {
        match client_type {
            ClientType::Player => Route::RegisterPlayer,
            ClientType::Spectator => Route::RegisterSpectator,
        }
    } else if message_type == "start_game"@ {
        match client_type {
            ClientType::Spectator => Route::StartGame,
            ClientType::Player => Route::Ignore,
        }
    } else if message_type == "game_move"@ {
        match client_type {
            ClientType::Player => Route::GameMove,
            ClientType::Spectator => Route::Ignore,
        }
    } else {
        Route::Unknown
    }
}

/// Whether two strings hold the same characters.
fn str_equals(a: &str, b: &str) -> (r: bool)
    ensures
        r == (a@ == b@),
{
    let la = a.unicode_len();
    let lb = b.unicode_len();
    if la != lb {
        return false;
    }
    let mut i: usize = 0;
    while i < la
        invariant
            la == a@.len(),
            lb == b@.len(),
            la == lb,
            i <= la,
            forall|k: int| 0 <= k < i ==> a@[k] == b@[k],
        decreases la - i,
    {
        if a.get_char(i) != b.get_char(i) {
            return false;
        }
        i = i + 1;
    }
    proof {
        assert(a@ =~= b@);
    }
    true
}

/// Where a message of type `message_type` from a client of type
/// `client_type` goes.
pub fn route(message_type: &str, client_type: ClientType) -> (r: Route)
    ensures
        r == route_of(message_type@, client_type),
{
    if str_equals(message_type, "register") {
        match client_type {
            ClientType::Player => Route::RegisterPlayer,
            ClientType::Spectator => Route::RegisterSpectator,
        }
    } else if str_equals(message_type, "start_game") {
        match client_type {
            ClientType::Spectator => Route::StartGame,
            ClientType::Player => Route::Ignore,
        }
    } else if str_equals(message_type, "game_move") {
        match client_type {
            ClientType::Player => Route::GameMove,
            ClientType::Spectator => Route::Ignore,
        }
    } else {
        Route::Unknown
    }
}

/// A fresh identifier for a client or a game.
pub fn generate_client_id() -> (id: String)
    ensures
        is_uuid_text(id@),
{
    new_uuid_string()
}

} // verus!
