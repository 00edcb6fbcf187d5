use rogue_swarm::hud::{decimal_string, hud_text};

#[test]
fn writes_decimal_numbers() {
    assert_eq!(decimal_string(0), "0");
    assert_eq!(decimal_string(7), "7");
    assert_eq!(decimal_string(10), "10");
    assert_eq!(decimal_string(120), "120");
    assert_eq!(decimal_string(u64::MAX), "18446744073709551615");
}

#[test]
fn active_player_sees_steering_status() {
    let hud = hud_text(1, 0, 3, Some(3));
    assert!(hud.is_active);
    assert_eq!(hud.wave_text, "Wave: 1");
    assert_eq!(hud.score_text, "Score: 0");
    assert_eq!(hud.status_text, "ACTIVE PLAYER (WASD to move, Mouse to direct swarm)");
    assert_eq!(hud.status_style, "color: #00ffaa; font-weight: bold;");
}

#[test]
fn spectator_sees_who_steers() {
    let hud = hud_text(4, 1250, 12, Some(3));
    assert!(!hud.is_active);
    assert_eq!(hud.wave_text, "Wave: 4");
    assert_eq!(hud.score_text, "Score: 1250");
    assert_eq!(hud.status_text, "SPECTATING (Player 12 is active)");
    assert_eq!(hud.status_style, "color: #aaa;");
}

#[test]
fn client_without_id_spectates() {
    let hud = hud_text(2, 5, 0, None);
    assert!(!hud.is_active);
    assert_eq!(hud.status_text, "SPECTATING (Player 0 is active)");
}
