use boxtree::controls::{Button, Input, Key, Step, Turn};
use boxtree::FlyCamController;

#[test]
fn a_new_controller_holds_nothing_down() {
    let c = FlyCamController::new();
    assert_eq!((c.last_mouse_x, c.last_mouse_y), (0, 0));
    assert!(!c.shift_down && !c.w_down && !c.a_down && !c.s_down && !c.d_down);
    assert!(!c.ctrl_down && !c.space_down);
    assert!(!c.left_mouse_button_down && !c.right_mouse_button_down);
    let steps = c.update();
    assert!(!steps.fast);
    assert!(steps.steps.is_empty());
}

#[test]
fn keys_go_down_and_up() {
    let mut c = FlyCamController::new();
    let keys = [Key::W, Key::A, Key::S, Key::D, Key::LShift, Key::LControl, Key::Space];
    for &key in keys.iter() {
        assert_eq!(c.process_event(Input::Key { pressed: true, key }), None);
    }
    assert!(c.w_down && c.a_down && c.s_down && c.d_down);
    assert!(c.shift_down && c.ctrl_down && c.space_down);
    assert_eq!(c.process_event(Input::Key { pressed: false, key: Key::A }), None);
    assert!(!c.a_down && c.w_down);
    let before = c;
    assert_eq!(c.process_event(Input::Key { pressed: true, key: Key::Other }), None);
    assert_eq!(c.process_event(Input::Other), None);
    assert_eq!(c, before);
}

#[test]
fn the_mouse_turns_the_camera_with_the_left_button_down() {
    let mut c = FlyCamController::new();
    assert_eq!(c.process_event(Input::MouseMoved { x: 10, y: 20 }), None);
    assert_eq!((c.last_mouse_x, c.last_mouse_y), (10, 20));
    assert_eq!(c.process_event(Input::Button { pressed: true, button: Button::Right }), None);
    assert!(c.right_mouse_button_down);
    assert_eq!(c.process_event(Input::MouseMoved { x: 11, y: 20 }), None);
    assert_eq!(c.process_event(Input::Button { pressed: true, button: Button::Left }), None);
    assert_eq!(c.process_event(Input::Button { pressed: true, button: Button::Other }), None);
    assert_eq!(
        c.process_event(Input::MouseMoved { x: 15, y: 13 }),
        Some(Turn { dx: 4, dy: -7 })
    );
    assert_eq!((c.last_mouse_x, c.last_mouse_y), (15, 13));
    assert_eq!(
        c.process_event(Input::MouseMoved { x: i32::MIN, y: i32::MAX }),
        Some(Turn { dx: i32::MIN as i64 - 15, dy: i32::MAX as i64 - 13 })
    );
    assert_eq!(
        c.process_event(Input::MouseMoved { x: i32::MAX, y: i32::MIN }),
        Some(Turn { dx: 0xffff_ffff, dy: -0xffff_ffff })
    );
    assert_eq!(c.process_event(Input::Button { pressed: false, button: Button::Left }), None);
    assert_eq!(c.process_event(Input::MouseMoved { x: 0, y: 0 }), None);
    assert_eq!((c.last_mouse_x, c.last_mouse_y), (0, 0));
}

#[test]
fn update_lists_the_steps_in_order() {
    let mut c = FlyCamController::new();
    c.process_event(Input::Key { pressed: true, key: Key::Space });
    c.process_event(Input::Key { pressed: true, key: Key::W });
    c.process_event(Input::Key { pressed: true, key: Key::D });
    let steps = c.update();
    assert!(!steps.fast);
    assert_eq!(
        steps.steps,
        vec![Step { x: 0, y: 0, z: -1 }, Step { x: 1, y: 0, z: 0 }, Step { x: 0, y: 1, z: 0 }]
    );
    c.process_event(Input::Key { pressed: true, key: Key::LShift });
    c.process_event(Input::Key { pressed: true, key: Key::S });
    c.process_event(Input::Key { pressed: true, key: Key::A });
    c.process_event(Input::Key { pressed: true, key: Key::LControl });
    let steps = c.update();
    assert!(steps.fast);
    assert_eq!(
        steps.steps,
        vec![
            Step { x: 0, y: 0, z: 1 },
            Step { x: 0, y: 0, z: -1 },
            Step { x: -1, y: 0, z: 0 },
            Step { x: 1, y: 0, z: 0 },
            Step { x: 0, y: 1, z: 0 },
            Step { x: 0, y: -1, z: 0 },
        ]
    );
}
