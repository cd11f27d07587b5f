use vstd::prelude::*;

verus! {

/// The keys that steer the game.
#[derive(Debug, Clone, Copy, PartialEq, Eq, Structural)]
pub enum Key {
    ArrowLeft,
    ArrowRight,
    ArrowUp,
    ArrowDown,
    Space,
}

/// An input event handed to the game.
#[derive(Debug, Clone, Copy, PartialEq, Eq, Structural)]
pub enum Event {
    MouseDown(i32, i32),
    KeyDown(Key),
    KeyUp(Key),
}

/// The key that a browser key name stands for.
pub open spec fn key_named(name: Seq<char>) -> Option<Key> {
    if name == "ArrowLeft"@ {
        Some(Key::ArrowLeft)
    } else if name == "ArrowRight"@ {
        Some(Key::ArrowRight)
    } else if name == "ArrowUp"@ {
        Some(Key::ArrowUp)
    } else if name == "ArrowDown"@ {
        Some(Key::ArrowDown)
    } else if name == " "@ {
        Some(Key::Space)
    } else {
        None
    }
}

/// Maps a browser key name to a key; `None` for any other name.
pub fn convert_key(key: String) -> (r: Option<Key>)
    ensures
        r == key_named(key@),
{
    if key == "ArrowLeft".to_owned() {
        Some(Key::ArrowLeft)
    } else if key == "ArrowRight".to_owned() {
        Some(Key::ArrowRight)
    } else if key == "ArrowUp".to_owned() {
        Some(Key::ArrowUp)
    } else if key == "ArrowDown".to_owned() {
        Some(Key::ArrowDown)
    } else if key == " ".to_owned() {
        Some(Key::Space)
    } else {
        None
    }
}

} // verus!
