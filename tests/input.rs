use wasm_physics::input::{convert_key, Event, Key};

#[test]
fn convert_known_keys() {
    assert_eq!(convert_key(String::from("ArrowLeft")), Some(Key::ArrowLeft));
    assert_eq!(convert_key(String::from("ArrowRight")), Some(Key::ArrowRight));
    assert_eq!(convert_key(String::from("ArrowUp")), Some(Key::ArrowUp));
    assert_eq!(convert_key(String::from("ArrowDown")), Some(Key::ArrowDown));
    assert_eq!(convert_key(String::from(" ")), Some(Key::Space));
}

#[test]
fn convert_unknown_keys() {
    assert_eq!(convert_key(String::from("")), None);
    assert_eq!(convert_key(String::from("arrowleft")), None);
    assert_eq!(convert_key(String::from("Space")), None);
    assert_eq!(convert_key(String::from("ArrowLeft ")), None);
}

#[test]
fn events_carry_their_values() {
    let e = Event::KeyDown(Key::Space);
    assert_eq!(e, Event::KeyDown(Key::Space));
    assert_ne!(e, Event::KeyUp(Key::Space));
    assert_eq!(Event::MouseDown(3, -4), Event::MouseDown(3, -4));
}
