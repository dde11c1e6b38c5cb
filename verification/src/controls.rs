//! The keys and buttons that steer a flying camera: which of them are held
//! down, and what an event asks of the camera.
//!
//! The controller keeps no camera. An event that turns the camera yields the
//! movement of the mouse, and `update` yields the steps that the keys held
//! down ask for; the camera scales both by its speeds.

use vstd::prelude::*;

verus! {

/// A key of the keyboard, as far as the camera has a use for it.
#[derive(Copy, Clone, PartialEq, Eq, Structural, Debug)]
pub enum Key {
    W,
    A,
    S,
    D,
    LShift,
    LControl,
    Space,
    Other,
}

/// A button of the mouse.
#[derive(Copy, Clone, PartialEq, Eq, Structural, Debug)]
pub enum Button {
    Left,
    Right,
    Other,
}

/// An event of the window.
#[derive(Copy, Clone, PartialEq, Eq, Structural, Debug)]
pub enum Input {
    /// The mouse has moved to the given position.
    MouseMoved { x: i32, y: i32 },
    /// A key went down (`pressed`) or up.
    Key { pressed: bool, key: Key },
    /// A button of the mouse went down (`pressed`) or up.
    Button { pressed: bool, button: Button },
    /// Anything else.
    Other,
}

/// A movement of the mouse that turns the camera, in pixels.
#[derive(Copy, Clone, PartialEq, Eq, Structural, Debug)]
pub struct Turn {
    pub dx: i64,
    pub dy: i64,
}

/// A step of the camera along the axes of its own frame: each component is
/// -1, 0 or 1.
#[derive(Copy, Clone, PartialEq, Eq, Structural, Debug)]
pub struct Step {
    pub x: i8,
    pub y: i8,
    pub z: i8,
}

/// The steps that the keys held down ask for, in the order in which the
/// camera takes them, and whether the camera is to take them fast.
pub struct Steps {
    pub fast: bool,
    pub steps: Vec<Step>,
}

/// What the controller knows of keyboard and mouse.
#[derive(Copy, Clone, PartialEq, Eq, Structural, Debug)]
pub struct FlyCamController {
    pub last_mouse_x: i32,
    pub last_mouse_y: i32,
    pub shift_down: bool,
    pub w_down: bool,
    pub a_down: bool,
    pub s_down: bool,
    pub d_down: bool,
    pub ctrl_down: bool,
    pub space_down: bool,
    pub left_mouse_button_down: bool,
    pub right_mouse_button_down: bool,
}

/// The steps for one key, after those in `so_far`.
pub open spec fn with_step(so_far: Seq<Step>, down: bool, step: Step) -> Seq<Step> {
    if down {
        so_far.push(step)
    } else {
        so_far
    }
}

impl FlyCamController {
    /// The controller with the key `key` down (`pressed`) or up.
    pub open spec fn with_key(self, pressed: bool, key: Key) -> Self {
        match key {
            Key::W => FlyCamController { w_down: pressed, ..self },
            Key::A => FlyCamController { a_down: pressed, ..self },
            Key::S => FlyCamController { s_down: pressed, ..self },
            Key::D => FlyCamController { d_down: pressed, ..self },
            Key::LShift => FlyCamController { shift_down: pressed, ..self },
            Key::LControl => FlyCamController { ctrl_down: pressed, ..self },
            Key::Space => FlyCamController { space_down: pressed, ..self },
            Key::Other => self,
        }
    }

    /// The controller with the button `button` down (`pressed`) or up.
    pub open spec fn with_button(self, pressed: bool, button: Button) -> Self {
        match button {
            Button::Left => FlyCamController { left_mouse_button_down: pressed, ..self },
            Button::Right => FlyCamController { right_mouse_button_down: pressed, ..self },
            Button::Other => self,
        }
    }

    /// The controller after an event.
    pub open spec fn after(self, event: Input) -> Self {
        match event {
            Input::MouseMoved { x, y } => FlyCamController {
                last_mouse_x: x,
                last_mouse_y: y,
                ..self
            },
            Input::Key { pressed, key } => self.with_key(pressed, key),
            Input::Button { pressed, button } => self.with_button(pressed, button),
            Input::Other => self,
        }
    }

    /// What an event asks of the camera: to turn by the movement of the
    /// mouse, where the mouse moves with its left button down.
    pub open spec fn turn(self, event: Input) -> Option<Turn> {
        match event {
            Input::MouseMoved { x, y } => if self.left_mouse_button_down {
                Some(Turn { dx: (x - self.last_mouse_x) as i64, dy: (y - self.last_mouse_y) as i64 })
            } else {
                None
            },
            _ => None,
        }
    }

    /// The steps that the keys held down ask for: back, forth, left, right,
    /// up and down, in this order.
    pub open spec fn spec_steps(self) -> Seq<Step> {
        let s = with_step(Seq::empty(), self.s_down, Step { x: 0, y: 0, z: 1 });
        let s = with_step(s, self.w_down, Step { x: 0, y: 0, z: (-1) as i8 });
        let s = with_step(s, self.a_down, Step { x: (-1) as i8, y: 0, z: 0 });
        let s = with_step(s, self.d_down, Step { x: 1, y: 0, z: 0 });
        let s = with_step(s, self.space_down, Step { x: 0, y: 1, z: 0 });
        with_step(s, self.ctrl_down, Step { x: 0, y: (-1) as i8, z: 0 })
    }

    /// A controller with nothing held down and the mouse at the origin.
    pub fn new() -> (r: Self)
        ensures
            r == (FlyCamController {
                last_mouse_x: 0,
                last_mouse_y: 0,
                shift_down: false,
                w_down: false,
                a_down: false,
                s_down: false,
                d_down: false,
                ctrl_down: false,
                space_down: false,
                left_mouse_button_down: false,
                right_mouse_button_down: false,
            }),
    {
        FlyCamController {
            last_mouse_x: 0,
            last_mouse_y: 0,
            shift_down: false,
            w_down: false,
            a_down: false,
            s_down: false,
            d_down: false,
            ctrl_down: false,
            space_down: false,
            left_mouse_button_down: false,
            right_mouse_button_down: false,
        }
    }

    /// Takes note of an event, and tells what it asks of the camera.
    pub fn process_event(&mut self, event: Input) -> (r: Option<Turn>)
        ensures
            *final(self) == old(self).after(event),
            r == old(self).turn(event),
    {
        match event {
            Input::MouseMoved { x, y } => {
                let dx: i64 = (x as i64) - (self.last_mouse_x as i64);
                let dy: i64 = (y as i64) - (self.last_mouse_y as i64);
                self.last_mouse_x = x;
                self.last_mouse_y = y;
                if self.left_mouse_button_down {
                    Some(Turn { dx: dx, dy: dy })
                } else {
                    None
                }
            },
            Input::Key { pressed, key } => {
                match key {
                    Key::W => {
                        self.w_down = pressed;
                    },
                    Key::A => {
                        self.a_down = pressed;
                    },
                    Key::S => {
                        self.s_down = pressed;
                    },
                    Key::D => {
                        self.d_down = pressed;
                    },
                    Key::LShift => {
                        self.shift_down = pressed;
                    },
                    Key::LControl => {
                        self.ctrl_down = pressed;
                    },
                    Key::Space => {
                        self.space_down = pressed;
                    },
                    Key::Other => {},
                }
                None
            },
            Input::Button { pressed, button } => {
                match button {
                    Button::Left => {
                        self.left_mouse_button_down = pressed;
                    },
                    Button::Right => {
                        self.right_mouse_button_down = pressed;
                    },
                    Button::Other => {},
                }
                None
            },
            Input::Other => None,
        }
    }

    /// The steps that the keys held down ask of the camera, fast with the
    /// shift key down.
    pub fn update(&self) -> (r: Steps)
        ensures
            r.fast == self.shift_down,
            r.steps@ == self.spec_steps(),
    {
        let mut steps: Vec<Step> = Vec::new();
        if self.s_down {
            steps.push(Step { x: 0, y: 0, z: 1 });
        }
        if self.w_down {
            steps.push(Step { x: 0, y: 0, z: -1 });
        }
        if self.a_down {
            steps.push(Step { x: -1, y: 0, z: 0 });
        }
        if self.d_down {
            steps.push(Step { x: 1, y: 0, z: 0 });
        }
        if self.space_down {
            steps.push(Step { x: 0, y: 1, z: 0 });
        }
        if self.ctrl_down {
            steps.push(Step { x: 0, y: -1, z: 0 });
        }
        Steps { fast: self.shift_down, steps: steps }
    }
}

} // verus!
