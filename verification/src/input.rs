use std::collections::HashSet;
use vstd::prelude::*;

verus! {

broadcast use vstd::std_specs::hash::group_hash_axioms;

/// Key codes: the position of the key in the windowing library's list of
/// virtual key codes.
pub const KEY_A: u32 = 10;
/// The `R` key.
pub const KEY_R: u32 = 27;
/// The `Z` key.
pub const KEY_Z: u32 = 35;
/// The `Escape` key.
pub const KEY_ESCAPE: u32 = 36;
/// The left arrow key.
pub const KEY_LEFT: u32 = 70;
/// The right arrow key.
pub const KEY_RIGHT: u32 = 72;
/// The backspace key.
pub const KEY_BACK: u32 = 74;
/// The return key.
pub const KEY_RETURN: u32 = 75;
/// The space bar.
pub const KEY_SPACE: u32 = 76;

/// Whether a key went down or came up.
#[derive(Clone, Copy, PartialEq, Eq, Structural, Debug)]
pub enum KeyState {
    Pressed,
    Released,
}

/// The keyboard as the game sees it: the keys held down, and the keys that
/// went down since the last frame and have not been asked about yet.
pub struct InputState {
    pressed_keys: HashSet<u32>,
    just_pressed: HashSet<u32>,
}

/// The keys held down and the fresh presses after key `key` goes to
/// `state`: a press of a key that was up also counts as a fresh press; a
/// repeated press of a key already down does not.
pub open spec fn after_key(view: (Set<u32>, Set<u32>), key: u32, state: KeyState) -> (Set<u32>, Set<u32>) {
    match state {
        KeyState::Pressed => (
            view.0.insert(key),
            if view.0.contains(key) {
                view.1
            } else {
                view.1.insert(key)
            },
        ),
        KeyState::Released => (view.0.remove(key), view.1),
    }
}

impl View for InputState {
    type V = (Set<u32>, Set<u32>);

    closed spec fn view(&self) -> (Set<u32>, Set<u32>) {
        (self.pressed_keys@, self.just_pressed@)
    }
}

impl InputState {
    /// No key down, no fresh press.
    pub fn new() -> (r: Self)
        ensures
            r@ == (Set::<u32>::empty(), Set::<u32>::empty()),
    {
        InputState { pressed_keys: HashSet::new(), just_pressed: HashSet::new() }
    }

    /// Records that `key` went down or came up (see `after_key`).
    pub fn update(&mut self, key: u32, state: KeyState)
        ensures
            final(self)@ == after_key(old(self)@, key, state),
    {
        match state {
            KeyState::Pressed => {
                if !self.pressed_keys.contains(&key) {
                    self.just_pressed.insert(key);
                }
                self.pressed_keys.insert(key);
            },
            KeyState::Released => {
                self.pressed_keys.remove(&key);
            },
        }
    }

    /// Whether `key` is held down.
    pub fn is_key_down(&self, key: u32) -> (r: bool)
        ensures
            r == self@.0.contains(key),
    {
        self.pressed_keys.contains(&key)
    }

    /// Whether `key` went down since the last frame; the press is used up,
    /// so asking again gives `false`.
    pub fn was_key_pressed(&mut self, key: u32) -> (r: bool)
        ensures
            r == old(self)@.1.contains(key),
            final(self)@ == (old(self)@.0, old(self)@.1.remove(key)),
    {
        self.just_pressed.remove(&key)
    }

    /// Forgets the fresh presses; the keys held down stay down.
    pub fn clear_just_pressed(&mut self)
        ensures
            final(self)@ == (old(self)@.0, Set::<u32>::empty()),
    {
        self.just_pressed.clear();
    }
}

/// A key press is reported once: pressing a key that is up makes it a fresh
/// press, and asking about it uses the press up, while holding the key
/// (more presses without a release) adds no fresh press.
pub proof fn lemma_press_reported_once(view: (Set<u32>, Set<u32>), key: u32)
    requires
        !view.0.contains(key),
        !view.1.contains(key),
    ensures
        after_key(view, key, KeyState::Pressed).1.contains(key),
        after_key(view, key, KeyState::Pressed).0.contains(key),
        !after_key(
            (after_key(view, key, KeyState::Pressed).0, after_key(view, key, KeyState::Pressed).1.remove(key)),
            key,
            KeyState::Pressed,
        ).1.contains(key),
{
}

/// Keys are independent: an event for one key leaves the state of every
/// other key as it was.
pub proof fn lemma_keys_independent(view: (Set<u32>, Set<u32>), key: u32, other: u32, state: KeyState)
    requires
        key != other,
    ensures
        after_key(view, key, state).0.contains(other) == view.0.contains(other),
        after_key(view, key, state).1.contains(other) == view.1.contains(other),
{
}

} // verus!
