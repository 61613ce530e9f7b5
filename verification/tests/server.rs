use arena::{generate_client_id, route, ClientType, Route};

#[test]
fn messages_are_routed() {
    assert_eq!(route("register", ClientType::Player), Route::RegisterPlayer);
    assert_eq!(route("register", ClientType::Spectator), Route::RegisterSpectator);
    assert_eq!(route("start_game", ClientType::Spectator), Route::StartGame);
    assert_eq!(route("start_game", ClientType::Player), Route::Ignore);
    assert_eq!(route("game_move", ClientType::Player), Route::GameMove);
    assert_eq!(route("game_move", ClientType::Spectator), Route::Ignore);
    assert_eq!(route("hello", ClientType::Player), Route::Unknown);
    assert_eq!(route("registe", ClientType::Player), Route::Unknown);
    assert_eq!(route("", ClientType::Spectator), Route::Unknown);
}

#[test]
fn client_ids_are_hyphenated_and_fresh() {
    let a = generate_client_id();
    let b = generate_client_id();
    assert_ne!(a, b);
    assert_eq!(a.len(), 36);
    for (i, c) in a.chars().enumerate() {
        if i == 8 || i == 13 || i == 18 || i == 23 {
            assert_eq!(c, '-');
        } else {
            assert!(c.is_ascii_hexdigit() && !c.is_ascii_uppercase());
        }
    }
}

#[test]
fn client_ids_carry_the_version_and_variant_digits() {
    for _ in 0..100 {
        let id: Vec<char> = generate_client_id().chars().collect();
        assert_eq!(id[14], '4');
        assert!(matches!(id[19], '8' | '9' | 'a' | 'b'));
    }
}
