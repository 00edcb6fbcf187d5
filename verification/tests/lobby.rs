use rogue_swarm::lobby::Lobby;

#[test]
fn first_client_becomes_active() {
    let mut lobby = Lobby::new();
    let id = lobby.connect();
    assert_eq!(id, 0);
    assert_eq!(lobby.active_player_id(), 0);
    assert_eq!(lobby.client_ids(), vec![0]);
}

#[test]
fn later_clients_spectate() {
    let mut lobby = Lobby::new();
    let a = lobby.connect();
    let b = lobby.connect();
    let c = lobby.connect();
    assert_eq!((a, b, c), (0, 1, 2));
    assert_eq!(lobby.active_player_id(), 0);
    assert_eq!(lobby.client_ids(), vec![0, 1, 2]);
    assert_eq!(lobby.next_player_id(), 3);
}

#[test]
fn spectator_input_is_refused() {
    let mut lobby = Lobby::new();
    lobby.connect();
    lobby.connect();
    lobby.connect();
    lobby.disconnect(0);
    // Player 1 now steers; player 2 only watches.
    assert_eq!(lobby.active_player_id(), 1);
    assert!(lobby.accepts_input(1));
    assert!(!lobby.accepts_input(2));
    // A client that has left steers nothing.
    assert!(!lobby.accepts_input(0));
}

#[test]
fn only_the_active_connection_steers() {
    let mut lobby = Lobby::new();
    let first = lobby.connect();
    let second = lobby.connect();
    assert!(lobby.accepts_input(first));
    assert!(!lobby.accepts_input(second));
    assert!(!lobby.accepts_input(99));
}

#[test]
fn nobody_steers_an_empty_lobby() {
    let mut lobby = Lobby::new();
    assert!(!lobby.accepts_input(0));
    let id = lobby.connect();
    lobby.disconnect(id);
    assert!(!lobby.accepts_input(id));
}

#[test]
fn ids_increase_and_list_keeps_join_order_over_a_run() {
    let mut lobby = Lobby::new();
    let mut issued = Vec::new();
    for step in 0..10u64 {
        issued.push(lobby.connect());
        if step % 3 == 2 {
            lobby.disconnect(step - 1);
        }
    }
    assert_eq!(issued, (0..10).collect::<Vec<u64>>());
    assert_eq!(lobby.client_ids(), vec![0, 2, 3, 5, 6, 8, 9]);
    assert_eq!(lobby.active_player_id(), 0);
    assert_eq!(lobby.next_player_id(), 10);
}

#[test]
fn active_leaves_longest_connected_takes_over() {
    let mut lobby = Lobby::new();
    for _ in 0..4 {
        lobby.connect();
    }
    lobby.disconnect(2);
    assert_eq!(lobby.active_player_id(), 0);
    lobby.disconnect(0);
    assert_eq!(lobby.client_ids(), vec![1, 3]);
    assert_eq!(lobby.active_player_id(), 1);
}

#[test]
fn spectator_leaving_keeps_active() {
    let mut lobby = Lobby::new();
    lobby.connect();
    lobby.connect();
    lobby.disconnect(1);
    assert_eq!(lobby.active_player_id(), 0);
    assert_eq!(lobby.client_ids(), vec![0]);
}

#[test]
fn last_client_leaving_keeps_old_active_id_until_next_connect() {
    let mut lobby = Lobby::new();
    lobby.connect();
    lobby.disconnect(0);
    assert!(lobby.client_ids().is_empty());
    assert_eq!(lobby.active_player_id(), 0);
    let id = lobby.connect();
    assert_eq!(id, 1);
    assert_eq!(lobby.active_player_id(), 1);
}

#[test]
fn connect_then_disconnect_restores_clients() {
    let mut lobby = Lobby::new();
    lobby.connect();
    lobby.connect();
    let before = lobby.client_ids();
    let active = lobby.active_player_id();
    let id = lobby.connect();
    lobby.disconnect(id);
    assert_eq!(lobby.client_ids(), before);
    assert_eq!(lobby.active_player_id(), active);
    assert_eq!(lobby.next_player_id(), 3);
}

#[test]
fn ids_are_never_reused() {
    let mut lobby = Lobby::new();
    let a = lobby.connect();
    lobby.disconnect(a);
    let b = lobby.connect();
    assert_ne!(a, b);
}

#[test]
fn disconnecting_unknown_client_changes_nothing() {
    let mut lobby = Lobby::new();
    lobby.connect();
    lobby.connect();
    lobby.disconnect(7);
    assert_eq!(lobby.client_ids(), vec![0, 1]);
    assert_eq!(lobby.active_player_id(), 0);
}
