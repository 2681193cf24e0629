use wsrelay::context::{ConnectionEvent, MainContext, FIRST_AUTH_TOKEN};
use wsrelay::input::{Button, ButtonState, InputState};
use wsrelay::level::{Level, LEVEL_CELLS, LEVEL_SIZE};
use wsrelay::math::Vec2i;
use wsrelay::packet::Packet;

#[test]
fn vec2i_constructors() {
    assert_eq!(Vec2i::new(3, -4), Vec2i { x: 3, y: -4 });
    assert_eq!(Vec2i::zero(), Vec2i { x: 0, y: 0 });
}

#[test]
fn new_level_has_no_walls() {
    let level = Level::new();
    assert_eq!(LEVEL_SIZE * LEVEL_SIZE, LEVEL_CELLS);
    assert_eq!(level.wall_layout.len(), LEVEL_CELLS);
    assert!(level.wall_layout.iter().all(|w| !w));
    assert!(!level.get_wall_cell(Vec2i::new(0, 0)));
    assert!(!level.get_wall_cell(Vec2i::new(31, 31)));
}

#[test]
fn level_bounds() {
    assert!(Level::in_bounds(Vec2i::new(0, 0)));
    assert!(Level::in_bounds(Vec2i::new(31, 0)));
    assert!(Level::in_bounds(Vec2i::new(0, 31)));
    assert!(Level::in_bounds(Vec2i::new(31, 31)));
    assert!(!Level::in_bounds(Vec2i::new(32, 0)));
    assert!(!Level::in_bounds(Vec2i::new(0, 32)));
    assert!(!Level::in_bounds(Vec2i::new(-1, 0)));
    assert!(!Level::in_bounds(Vec2i::new(0, -1)));
    assert!(!Level::in_bounds(Vec2i::new(i32::MAX, i32::MAX)));
    assert!(!Level::in_bounds(Vec2i::new(i32::MIN, i32::MIN)));
}

#[test]
fn level_cells_are_stored_row_after_row() {
    let mut level = Level::new();
    level.set_wall_cell(Vec2i::new(15, 16), true);
    assert!(level.get_wall_cell(Vec2i::new(15, 16)));
    assert!(!level.get_wall_cell(Vec2i::new(16, 15)));
    assert!(level.wall_layout[15 + 16 * 32]);
    assert_eq!(level.wall_layout.iter().filter(|w| **w).count(), 1);
    level.set_wall_cell(Vec2i::new(31, 31), true);
    assert!(level.wall_layout[1023]);
    level.set_wall_cell(Vec2i::new(15, 16), false);
    assert!(!level.get_wall_cell(Vec2i::new(15, 16)));
    assert!(level.get_wall_cell(Vec2i::new(31, 31)));
}

#[test]
fn level_ignores_cells_outside() {
    let mut level = Level::new();
    level.set_wall_cell(Vec2i::new(32, 0), true);
    level.set_wall_cell(Vec2i::new(-1, 5), true);
    level.set_wall_cell(Vec2i::new(0, 32), true);
    level.set_wall_cell(Vec2i::new(i32::MAX, i32::MAX), true);
    assert!(level.wall_layout.iter().all(|w| !w));
    assert!(!level.get_wall_cell(Vec2i::new(32, 0)));
    assert!(!level.get_wall_cell(Vec2i::new(-1, 5)));
    assert!(!level.get_wall_cell(Vec2i::new(i32::MIN, 0)));
}

#[test]
fn new_input_state_is_at_rest() {
    let input = InputState::new();
    assert!(input.buttons.iter().all(|b| *b == ButtonState::Up));
    assert_eq!(input.mouse_delta, Vec2i::zero());
    assert!(!input.touch_enabled);
    assert!(!input.is_mouse_captured());
    assert!(!input.is_button_down(Button::LeftMouse));
    assert!(!input.is_button_pressed(Button::Ascii('w')));
}

#[test]
fn key_goes_through_its_states() {
    let mut input = InputState::new();
    let w = Button::Ascii('w');
    input.on_key_down(w);
    assert_eq!(input.buttons['w' as usize], ButtonState::Pressed);
    assert!(input.is_button_pressed(w));
    assert!(input.is_button_down(w));
    input.flag_new_frame();
    assert_eq!(input.buttons['w' as usize], ButtonState::Down);
    assert!(!input.is_button_pressed(w));
    assert!(input.is_button_down(w));
    input.flag_new_frame();
    assert_eq!(input.buttons['w' as usize], ButtonState::Down);
    input.on_key_up(w);
    assert_eq!(input.buttons['w' as usize], ButtonState::Released);
    assert!(!input.is_button_down(w));
    input.flag_new_frame();
    assert_eq!(input.buttons['w' as usize], ButtonState::Up);
    assert!(!input.is_button_down(w));
}

#[test]
fn named_keys_have_fixed_places() {
    let mut input = InputState::new();
    input.on_key_down(Button::Backspace);
    input.on_key_down(Button::Escape);
    input.on_key_down(Button::Shift);
    input.on_key_down(Button::Enter);
    input.on_key_down(Button::Tab);
    for i in 1..=5 {
        assert_eq!(input.buttons[i], ButtonState::Pressed);
    }
    assert_eq!(input.buttons[0], ButtonState::Up);
    assert_eq!(input.buttons[6], ButtonState::Up);
    input.on_key_down(Button::LeftMouse);
    assert_eq!(input.buttons[0], ButtonState::Pressed);
    input.on_key_down(Button::Ascii('\u{ff}'));
    assert_eq!(input.buttons[255], ButtonState::Pressed);
}

#[test]
fn only_characters_below_256_are_tracked() {
    assert!(Button::Ascii('a').is_tracked());
    assert!(Button::Ascii('\u{ff}').is_tracked());
    assert!(!Button::Ascii('\u{100}').is_tracked());
    assert!(!Button::Ascii('\u{1f600}').is_tracked());
    assert!(Button::Tab.is_tracked());
    assert!(Button::LeftMouse.is_tracked());
}

#[test]
fn only_the_left_mouse_button_counts() {
    let mut input = InputState::new();
    input.on_mouse_down(10, 20, 1);
    input.on_mouse_down(10, 20, 2);
    assert!(!input.is_button_down(Button::LeftMouse));
    input.on_mouse_down(10, 20, 0);
    assert!(input.is_button_pressed(Button::LeftMouse));
    input.on_mouse_up(10, 20, 1);
    assert!(input.is_button_pressed(Button::LeftMouse));
    input.on_mouse_up(10, 20, 0);
    assert_eq!(input.buttons[0], ButtonState::Released);
}

#[test]
fn free_mouse_reports_the_way_since_the_last_frame() {
    let mut input = InputState::new();
    assert!(input.can_move(5, 7, 100, 100));
    input.on_mouse_move(5, 7, 100, 100);
    assert_eq!(input.mouse_delta, Vec2i::new(5, 7));
    input.on_mouse_move(8, 3, 100, 100);
    assert_eq!(input.mouse_delta, Vec2i::new(8, 3));
    input.flag_new_frame();
    assert_eq!(input.mouse_delta, Vec2i::zero());
    input.on_mouse_move(10, 4, 0, 0);
    assert_eq!(input.mouse_delta, Vec2i::new(2, 1));
}

#[test]
fn captured_mouse_adds_up_the_deltas() {
    let mut input = InputState::new();
    input.on_capture_state_change(true);
    assert!(input.is_mouse_captured());
    input.on_mouse_move(500, 500, 3, -2);
    input.on_mouse_move(0, 0, 4, -1);
    assert_eq!(input.mouse_delta, Vec2i::new(7, -3));
    input.flag_new_frame();
    assert_eq!(input.mouse_delta, Vec2i::zero());
    input.on_capture_state_change(false);
    // The position was not followed while the mouse was captured.
    input.on_mouse_move(9, 9, 0, 0);
    assert_eq!(input.mouse_delta, Vec2i::new(9, 9));
}

#[test]
fn movements_that_do_not_fit_are_told_apart() {
    let mut input = InputState::new();
    assert!(input.can_move(i32::MAX, i32::MIN, 0, 0));
    input.on_mouse_move(-1, 0, 0, 0);
    input.flag_new_frame();
    assert!(!input.can_move(i32::MAX, 0, 0, 0));
    assert!(input.can_move(i32::MAX - 1, 0, 0, 0));
    input.on_capture_state_change(true);
    input.on_mouse_move(0, 0, i32::MAX, i32::MIN);
    assert!(!input.can_move(0, 0, 1, 0));
    assert!(!input.can_move(0, 0, 0, -1));
    assert!(input.can_move(0, 0, -1, 1));
}

#[test]
fn client_submits_its_token_on_connect() {
    let mut client = MainContext::new();
    assert_eq!(client.auth_token(), None);
    assert_eq!(FIRST_AUTH_TOKEN, 123);
    assert_eq!(client.on_connect(), Packet::AttemptAuthSession(123));
    client.on_disconnect();
    assert_eq!(client.auth_token(), None);
}

#[test]
fn client_processes_events_then_packets() {
    let mut client = MainContext::new();
    let out = client.process_packets(
        &[ConnectionEvent::Disconnect, ConnectionEvent::Connect],
        &[
            Packet::NewSession(5),
            Packet::AuthFail,
            Packet::AuthSuccessful(77),
            Packet::Debug(String::from("x")),
        ],
    );
    assert_eq!(out, vec![Packet::AttemptAuthSession(123), Packet::RequestDownloadWorld]);
    assert_eq!(client.auth_token(), Some(77));
    let out = client.process_packets(&[], &[Packet::AuthFail]);
    assert!(out.is_empty());
    assert_eq!(client.auth_token(), Some(77));
    let out = client.process_packets(&[], &[Packet::AuthSuccessful(1), Packet::AuthSuccessful(2)]);
    assert_eq!(out, vec![Packet::RequestDownloadWorld, Packet::RequestDownloadWorld]);
    assert_eq!(client.auth_token(), Some(2));
}
