//! The state of the player's input devices between two frames.

use crate::math::Vec2i;
use vstd::array::array_fill_for_copy_types;
use vstd::prelude::*;

verus! {

/// Where a button stands: `Pressed` and `Released` last for one frame.
#[derive(Debug, Copy, Clone, PartialEq, Eq, Structural)]
pub enum ButtonState {
    Up,
    Pressed,
    Down,
    Released,
}

#[derive(Debug, Copy, Clone)]
pub enum Button {
    Ascii(char),
    Backspace,
    Escape,
    Shift,
    Enter,
    Tab,
    LeftMouse,
}

pub struct InputState {
    click_start_pos: Vec2i,
    is_dragging: bool,
    prev_mouse_pos: Vec2i,
    mouse_pos: Vec2i,
    mouse_captured: bool,
    pub buttons: [ButtonState; 256],
    pub mouse_delta: Vec2i,
    pub touch_enabled: bool,
}

/// The mathematical content of an [`InputState`].
pub struct InputModel {
    pub click_start_pos: Vec2i,
    pub is_dragging: bool,
    pub prev_mouse_pos: Vec2i,
    pub mouse_pos: Vec2i,
    pub mouse_captured: bool,
    pub buttons: Seq<ButtonState>,
    pub mouse_delta: Vec2i,
    pub touch_enabled: bool,
}

impl Button {
    /// The place of the button among the 256 button states: a character
    /// stands at its code point, the named keys at one to five, the left
    /// mouse button at zero.
    pub open spec fn slot(self) -> int {
        match self {
            Button::Ascii(ch) => ch as int,
            Button::Backspace => 1,
            Button::Escape => 2,
            Button::Shift => 3,
            Button::Enter => 4,
            Button::Tab => 5,
            Button::LeftMouse => 0,
        }
    }

    /// The button has a place: its character is below 256.
    pub open spec fn tracked_button(self) -> bool {
        self.slot() < 256
    }

    /// Tells whether the button has a place among the button states.
    pub fn is_tracked(self) -> (r: bool)
        ensures
            r == self.tracked_button(),
    {
        match self {
            Button::Ascii(ch) => (ch as u32) < 256,
            _ => true,
        }
    }

    fn index(self) -> (i: usize)
        requires
            self.tracked_button(),
        ensures
            i == self.slot(),
    {
        match self {
            Button::Ascii(ch) => ch as u32 as usize,
            Button::Backspace => 1,
            Button::Escape => 2,
            Button::Shift => 3,
            Button::Enter => 4,
            Button::Tab => 5,
            Button::LeftMouse => 0,
        }
    }
}

impl ButtonState {
    /// The state in the next frame if nothing happens to the button.
    pub open spec fn settled(self) -> ButtonState {
        match self {
            ButtonState::Up => ButtonState::Up,
            ButtonState::Released => ButtonState::Up,
            ButtonState::Down => ButtonState::Down,
            ButtonState::Pressed => ButtonState::Down,
        }
    }

    /// Held down, whether since this frame or longer.
    pub open spec fn held(self) -> bool {
        self == ButtonState::Pressed || self == ButtonState::Down
    }
}

impl InputModel {
    pub open spec fn with_button(self, button: Button, state: ButtonState) -> InputModel {
        InputModel { buttons: self.buttons.update(button.slot(), state), ..self }
    }

    /// The mouse movement that `on_mouse_move` records: while captured the
    /// deltas add up; otherwise it is the way from the position of the last
    /// frame to the new one.
    pub open spec fn moved_delta(self, x: i32, y: i32, dx: i32, dy: i32) -> (int, int) {
        if self.mouse_captured {
            (self.mouse_delta.x + dx, self.mouse_delta.y + dy)
        } else {
            (x - self.prev_mouse_pos.x, y - self.prev_mouse_pos.y)
        }
    }

    /// That movement fits the coordinates of a vector.
    pub open spec fn move_fits(self, x: i32, y: i32, dx: i32, dy: i32) -> bool {
        let d = self.moved_delta(x, y, dx, dy);
        i32::MIN <= d.0 <= i32::MAX && i32::MIN <= d.1 <= i32::MAX
    }

    pub open spec fn after_move(self, x: i32, y: i32, dx: i32, dy: i32) -> InputModel {
        let d = self.moved_delta(x, y, dx, dy);
        InputModel {
            mouse_pos: if self.mouse_captured {
                self.mouse_pos
            } else {
                Vec2i { x, y }
            },
            mouse_delta: Vec2i { x: d.0 as i32, y: d.1 as i32 },
            ..self
        }
    }
}

impl View for InputState {
    type V = InputModel;

    closed spec fn view(&self) -> InputModel {
        InputModel {
            click_start_pos: self.click_start_pos,
            is_dragging: self.is_dragging,
            prev_mouse_pos: self.prev_mouse_pos,
            mouse_pos: self.mouse_pos,
            mouse_captured: self.mouse_captured,
            buttons: self.buttons@,
            mouse_delta: self.mouse_delta,
            touch_enabled: self.touch_enabled,
        }
    }
}

impl InputState {
    pub fn new() -> (s: InputState)
        ensures
            s@.buttons.len() == 256,
            forall|i: int| 0 <= i < 256 ==> s@.buttons[i] == ButtonState::Up,
            s@.click_start_pos == (Vec2i { x: 0, y: 0 }),
            s@.prev_mouse_pos == (Vec2i { x: 0, y: 0 }),
            s@.mouse_pos == (Vec2i { x: 0, y: 0 }),
            s@.mouse_delta == (Vec2i { x: 0, y: 0 }),
            !s@.is_dragging,
            !s@.mouse_captured,
            !s@.touch_enabled,
    {
        InputState {
            click_start_pos: Vec2i::zero(),
            is_dragging: false,
            prev_mouse_pos: Vec2i::zero(),
            mouse_pos: Vec2i::zero(),
            mouse_captured: false,
            buttons: array_fill_for_copy_types(ButtonState::Up),
            mouse_delta: Vec2i::zero(),
            touch_enabled: false,
        }
    }

    /// Starts a new frame: buttons pressed in the last frame are now down,
    /// buttons released are now up, and the mouse has not moved yet.
    pub fn flag_new_frame(&mut self)
        ensures
            final(self)@.buttons.len() == 256,
            forall|i: int|
                0 <= i < 256 ==> (#[trigger] final(self)@.buttons[i]) == old(
                    self,
                )@.buttons[i].settled(),
            final(self)@.prev_mouse_pos == old(self)@.mouse_pos,
            final(self)@.mouse_delta == (Vec2i { x: 0, y: 0 }),
            final(self)@.mouse_pos == old(self)@.mouse_pos,
            final(self)@.click_start_pos == old(self)@.click_start_pos,
            final(self)@.is_dragging == old(self)@.is_dragging,
            final(self)@.mouse_captured == old(self)@.mouse_captured,
            final(self)@.touch_enabled == old(self)@.touch_enabled,
    {
        let mut i: usize = 0;
        while i < 256
            invariant
                i <= 256,
                self.buttons@.len() == 256,
                forall|j: int| 0 <= j < i ==> self.buttons@[j] == old(self).buttons@[j].settled(),
                forall|j: int| i <= j < 256 ==> self.buttons@[j] == old(self).buttons@[j],
                self.mouse_pos == old(self).mouse_pos,
                self.click_start_pos == old(self).click_start_pos,
                self.is_dragging == old(self).is_dragging,
                self.mouse_captured == old(self).mouse_captured,
                self.touch_enabled == old(self).touch_enabled,
            decreases 256 - i,
        {
            let next = match self.buttons[i] {
                ButtonState::Up => ButtonState::Up,
                ButtonState::Released => ButtonState::Up,
                ButtonState::Down => ButtonState::Down,
                ButtonState::Pressed => ButtonState::Down,
            };
            self.buttons[i] = next;
            i += 1;
        }
        self.prev_mouse_pos = self.mouse_pos;
        self.mouse_delta = Vec2i::zero();
    }

    pub fn is_mouse_captured(&self) -> (r: bool)
        ensures
            r == self@.mouse_captured,
    {
        self.mouse_captured
    }

    fn set_button_state(&mut self, button: Button, state: ButtonState)
        requires
            button.tracked_button(),
        ensures
            final(self)@ == old(self)@.with_button(button, state),
    {
        let i: usize = button.index();
        self.buttons[i] = state;
    }

    fn get_button_state(&self, button: Button) -> (s: ButtonState)
        requires
            button.tracked_button(),
        ensures
            s == self@.buttons[button.slot()],
    {
        let i: usize = button.index();
        self.buttons[i]
    }

    pub fn is_button_down(&self, button: Button) -> (r: bool)
        requires
            button.tracked_button(),
        ensures
            r == self@.buttons[button.slot()].held(),
    {
        match self.get_button_state(button) {
            ButtonState::Pressed => true,
            ButtonState::Down => true,
            _ => false,
        }
    }

    pub fn is_button_pressed(&self, button: Button) -> (r: bool)
        requires
            button.tracked_button(),
        ensures
            r == (self@.buttons[button.slot()] == ButtonState::Pressed),
    {
        match self.get_button_state(button) {
            ButtonState::Pressed => true,
            _ => false,
        }
    }

    pub fn on_capture_state_change(&mut self, active: bool)
        ensures
            final(self)@ == (InputModel { mouse_captured: active, ..old(self)@ }),
    {
        self.mouse_captured = active;
    }

    /// Only the left button, numbered zero, is followed.
    pub fn on_mouse_down(&mut self, x: i32, y: i32, button: u16)
        ensures
            final(self)@ == if button == 0 {
                InputModel {
                    click_start_pos: Vec2i { x, y },
                    ..old(self)@.with_button(Button::LeftMouse, ButtonState::Pressed)
                }
            } else {
                old(self)@
            },
    {
        if button != 0 {
            return ;
        }
        self.set_button_state(Button::LeftMouse, ButtonState::Pressed);
        self.click_start_pos = Vec2i::new(x, y);
    }

    /// Only the left button, numbered zero, is followed.
    pub fn on_mouse_up(&mut self, x: i32, y: i32, button: u16)
        ensures
            final(self)@ == if button == 0 {
                InputModel {
                    is_dragging: false,
                    ..old(self)@.with_button(Button::LeftMouse, ButtonState::Released)
                }
            } else {
                old(self)@
            },
    {
        if button != 0 {
            return ;
        }
        self.set_button_state(Button::LeftMouse, ButtonState::Released);
        self.is_dragging = false;
    }

    /// Tells whether `on_mouse_move` can record this movement.
    pub fn can_move(&self, x: i32, y: i32, dx: i32, dy: i32) -> (r: bool)
        ensures
            r == self@.move_fits(x, y, dx, dy),
    {
        if self.mouse_captured {
            self.mouse_delta.x.checked_add(dx).is_some() && self.mouse_delta.y.checked_add(
                dy,
            ).is_some()
        } else {
            x.checked_sub(self.prev_mouse_pos.x).is_some() && y.checked_sub(
                self.prev_mouse_pos.y,
            ).is_some()
        }
    }

    pub fn on_mouse_move(&mut self, x: i32, y: i32, dx: i32, dy: i32)
        requires
            old(self)@.move_fits(x, y, dx, dy),
        ensures
            final(self)@ == old(self)@.after_move(x, y, dx, dy),
    {
        if self.mouse_captured {
            self.mouse_delta = Vec2i::new(self.mouse_delta.x + dx, self.mouse_delta.y + dy);
        } else {
            self.mouse_pos = Vec2i::new(x, y);
            self.mouse_delta = Vec2i::new(x - self.prev_mouse_pos.x, y - self.prev_mouse_pos.y);
        }
    }

    pub fn on_key_down(&mut self, button: Button)
        requires
            button.tracked_button(),
        ensures
            final(self)@ == old(self)@.with_button(button, ButtonState::Pressed),
    {
        self.set_button_state(button, ButtonState::Pressed);
    }

    pub fn on_key_up(&mut self, button: Button)
        requires
            button.tracked_button(),
        ensures
            final(self)@ == old(self)@.with_button(button, ButtonState::Released),
    {
        self.set_button_state(button, ButtonState::Released);
    }
}

} // verus!
