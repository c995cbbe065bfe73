use std::collections::HashSet;
use vstd::prelude::*;

verus! {

broadcast use vstd::std_specs::hash::group_hash_axioms;

/// A keyboard key, independent of the windowing library that reports it.
#[derive(Debug, Clone, Copy, PartialEq, Eq, Hash, Structural)]
pub enum Key {
    A,
    B,
    C,
    D,
    E,
    F,
    G,
    H,
    I,
    J,
    K,
    L,
    M,
    N,
    O,
    P,
    Q,
    R,
    S,
    T,
    U,
    V,
    W,
    X,
    Y,
    Z,
    Num0,
    Num1,
    Num2,
    Num3,
    Num4,
    Num5,
    Num6,
    Num7,
    Num8,
    Num9,
    Up,
    Down,
    Left,
    Right,
    Space,
    Enter,
    Escape,
    Shift,
    Control,
    Alt,
    Tab,
    Unknown,
}

/// The number that stands for a key inside the keyboard's sets.
pub open spec fn key_code(k: Key) -> u8 {
    match k {
        Key::A => 0,
        Key::B => 1,
        Key::C => 2,
        Key::D => 3,
        Key::E => 4,
        Key::F => 5,
        Key::G => 6,
        Key::H => 7,
        Key::I => 8,
        Key::J => 9,
        Key::K => 10,
        Key::L => 11,
        Key::M => 12,
        Key::N => 13,
        Key::O => 14,
        Key::P => 15,
        Key::Q => 16,
        Key::R => 17,
        Key::S => 18,
        Key::T => 19,
        Key::U => 20,
        Key::V => 21,
        Key::W => 22,
        Key::X => 23,
        Key::Y => 24,
        Key::Z => 25,
        Key::Num0 => 26,
        Key::Num1 => 27,
        Key::Num2 => 28,
        Key::Num3 => 29,
        Key::Num4 => 30,
        Key::Num5 => 31,
        Key::Num6 => 32,
        Key::Num7 => 33,
        Key::Num8 => 34,
        Key::Num9 => 35,
        Key::Up => 36,
        Key::Down => 37,
        Key::Left => 38,
        Key::Right => 39,
        Key::Space => 40,
        Key::Enter => 41,
        Key::Escape => 42,
        Key::Shift => 43,
        Key::Control => 44,
        Key::Alt => 45,
        Key::Tab => 46,
        Key::Unknown => 47,
    }
}

/// The key that a code stands for (every code past the last key stands for `Unknown`).
pub open spec fn key_of_code(c: u8) -> Key {
    match c {
        0 => Key::A,
        1 => Key::B,
        2 => Key::C,
        3 => Key::D,
        4 => Key::E,
        5 => Key::F,
        6 => Key::G,
        7 => Key::H,
        8 => Key::I,
        9 => Key::J,
        10 => Key::K,
        11 => Key::L,
        12 => Key::M,
        13 => Key::N,
        14 => Key::O,
        15 => Key::P,
        16 => Key::Q,
        17 => Key::R,
        18 => Key::S,
        19 => Key::T,
        20 => Key::U,
        21 => Key::V,
        22 => Key::W,
        23 => Key::X,
        24 => Key::Y,
        25 => Key::Z,
        26 => Key::Num0,
        27 => Key::Num1,
        28 => Key::Num2,
        29 => Key::Num3,
        30 => Key::Num4,
        31 => Key::Num5,
        32 => Key::Num6,
        33 => Key::Num7,
        34 => Key::Num8,
        35 => Key::Num9,
        36 => Key::Up,
        37 => Key::Down,
        38 => Key::Left,
        39 => Key::Right,
        40 => Key::Space,
        41 => Key::Enter,
        42 => Key::Escape,
        43 => Key::Shift,
        44 => Key::Control,
        45 => Key::Alt,
        46 => Key::Tab,
        _ => Key::Unknown,
    }
}

/// Decoding a key's code gives the key back, so distinct keys have distinct codes.
pub proof fn lemma_key_code_injective(k: Key)
    ensures
        key_of_code(key_code(k)) == k,
{
}

impl Key {
    /// The code of this key (see [`key_code`]).
    pub fn code(&self) -> (c: u8)
        ensures
            c == key_code(*self),
    {
        match self {
            Key::A => 0,
            Key::B => 1,
            Key::C => 2,
            Key::D => 3,
            Key::E => 4,
            Key::F => 5,
            Key::G => 6,
            Key::H => 7,
            Key::I => 8,
            Key::J => 9,
            Key::K => 10,
            Key::L => 11,
            Key::M => 12,
            Key::N => 13,
            Key::O => 14,
            Key::P => 15,
            Key::Q => 16,
            Key::R => 17,
            Key::S => 18,
            Key::T => 19,
            Key::U => 20,
            Key::V => 21,
            Key::W => 22,
            Key::X => 23,
            Key::Y => 24,
            Key::Z => 25,
            Key::Num0 => 26,
            Key::Num1 => 27,
            Key::Num2 => 28,
            Key::Num3 => 29,
            Key::Num4 => 30,
            Key::Num5 => 31,
            Key::Num6 => 32,
            Key::Num7 => 33,
            Key::Num8 => 34,
            Key::Num9 => 35,
            Key::Up => 36,
            Key::Down => 37,
            Key::Left => 38,
            Key::Right => 39,
            Key::Space => 40,
            Key::Enter => 41,
            Key::Escape => 42,
            Key::Shift => 43,
            Key::Control => 44,
            Key::Alt => 45,
            Key::Tab => 46,
            Key::Unknown => 47,
        }
    }
}


/// The abstract state of a keyboard during one frame.
pub struct KeyStates {
    /// Keys held down right now.
    pub down: Set<Key>,
    /// Keys that went down during the current frame.
    pub pressed: Set<Key>,
    /// Keys that went up during the current frame.
    pub released: Set<Key>,
}

/// The state of a keyboard before any event.
pub open spec fn initial_states() -> KeyStates {
    KeyStates { down: Set::empty(), pressed: Set::empty(), released: Set::empty() }
}

/// Starting a new frame forgets the events of the previous one; held keys stay held.
pub open spec fn begin_frame_states(s: KeyStates) -> KeyStates {
    KeyStates { down: s.down, pressed: Set::empty(), released: Set::empty() }
}

/// A key goes down: only a key that was not already held counts as pressed.
pub open spec fn press_states(s: KeyStates, k: Key) -> KeyStates {
    if s.down.contains(k) {
        s
    } else {
        KeyStates { down: s.down.insert(k), pressed: s.pressed.insert(k), released: s.released }
    }
}

/// A key goes up: only a key that was held counts as released.
pub open spec fn release_states(s: KeyStates, k: Key) -> KeyStates {
    if s.down.contains(k) {
        KeyStates { down: s.down.remove(k), pressed: s.pressed, released: s.released.insert(k) }
    } else {
        s
    }
}

/// The keys whose codes a set of codes holds.
pub open spec fn keys_of(codes: Set<u8>) -> Set<Key> {
    Set::new(|k: Key| codes.contains(key_code(k)))
}

/// Tracks the keyboard frame by frame: which keys are held, and which went
/// down or up during the current frame.
pub struct KeyboardManager {
    keys_down: HashSet<u8>,
    keys_pressed: HashSet<u8>,
    keys_released: HashSet<u8>,
}

impl KeyboardManager {
    /// The abstract state of this keyboard.
    pub closed spec fn states(&self) -> KeyStates {
        KeyStates {
            down: keys_of(self.keys_down@),
            pressed: keys_of(self.keys_pressed@),
            released: keys_of(self.keys_released@),
        }
    }

    /// A keyboard with no key held and no event.
    pub fn new() -> (r: Self)
        ensures
            r.states() == initial_states(),
    {
        let r = KeyboardManager {
            keys_down: HashSet::new(),
            keys_pressed: HashSet::new(),
            keys_released: HashSet::new(),
        };
        assert(r.states().down =~= Set::empty());
        assert(r.states().pressed =~= Set::empty());
        assert(r.states().released =~= Set::empty());
        r
    }

    /// Forgets the events of the previous frame (call at the start of each update).
    pub fn begin_frame(&mut self)
        ensures
            final(self).states() == begin_frame_states(old(self).states()),
    {
        self.keys_pressed.clear();
        self.keys_released.clear();
        assert(self.states().pressed =~= Set::empty());
        assert(self.states().released =~= Set::empty());
    }

    /// Records that a key went down.
    pub fn register_press(&mut self, key: Key)
        ensures
            final(self).states() == press_states(old(self).states(), key),
    {
        let code = key.code();
        if !self.keys_down.contains(&code) {
            self.keys_down.insert(code);
            self.keys_pressed.insert(code);
            proof {
                lemma_key_code_injective(key);
                assert forall|k: Key| self.states().down.contains(k) == old(self).states().down.insert(key).contains(k) by {
                    lemma_key_code_injective(k);
                }
                assert forall|k: Key| self.states().pressed.contains(k) == old(self).states().pressed.insert(key).contains(k) by {
                    lemma_key_code_injective(k);
                }
                assert(self.states().down =~= old(self).states().down.insert(key));
                assert(self.states().pressed =~= old(self).states().pressed.insert(key));
            }
        }
    }

    /// Records that a key went up.
    pub fn register_release(&mut self, key: Key)
        ensures
            final(self).states() == release_states(old(self).states(), key),
    {
        let code = key.code();
        if self.keys_down.remove(&code) {
            self.keys_released.insert(code);
            proof {
                lemma_key_code_injective(key);
                assert forall|k: Key| self.states().down.contains(k) == old(self).states().down.remove(key).contains(k) by {
                    lemma_key_code_injective(k);
                }
                assert forall|k: Key| self.states().released.contains(k) == old(self).states().released.insert(key).contains(k) by {
                    lemma_key_code_injective(k);
                }
                assert(self.states().down =~= old(self).states().down.remove(key));
                assert(self.states().released =~= old(self).states().released.insert(key));
            }
        } else {
            assert(self.keys_down@ == old(self).keys_down@);
        }
    }

    /// Records a key event reported by the window: events of keys that the
    /// window could not map (`Key::Unknown`) are ignored.
    pub fn register_event(&mut self, key: Key, pressed: bool)
        ensures
            final(self).states() == (if key == Key::Unknown {
                old(self).states()
            } else if pressed {
                press_states(old(self).states(), key)
            } else {
                release_states(old(self).states(), key)
            }),
    {
        if key != Key::Unknown {
            if pressed {
                self.register_press(key);
            } else {
                self.register_release(key);
            }
        }
    }

    /// Whether the key is held down.
    pub fn is_key_down(&self, key: Key) -> (r: bool)
        ensures
            r == self.states().down.contains(key),
    {
        self.keys_down.contains(&key.code())
    }

    /// Whether the key went down during the current frame.
    pub fn is_key_pressed(&self, key: Key) -> (r: bool)
        ensures
            r == self.states().pressed.contains(key),
    {
        self.keys_pressed.contains(&key.code())
    }

    /// Whether the key went up during the current frame.
    pub fn is_key_released(&self, key: Key) -> (r: bool)
        ensures
            r == self.states().released.contains(key),
    {
        self.keys_released.contains(&key.code())
    }
}


/// Every key reported as pressed in this frame is held, or was released after
/// being pressed in this frame.
pub open spec fn events_consistent(s: KeyStates) -> bool {
    forall|k: Key| #[trigger] s.pressed.contains(k) ==> s.down.contains(k) || s.released.contains(k)
}

/// The consistency of frame events holds at the start and is kept by every operation.
pub proof fn lemma_events_consistent_kept(s: KeyStates, k: Key)
    requires
        events_consistent(s),
    ensures
        events_consistent(initial_states()),
        events_consistent(begin_frame_states(s)),
        events_consistent(press_states(s, k)),
        events_consistent(release_states(s, k)),
{
}

/// Pressing a key that is not held and then releasing it leaves the held keys as they were.
pub proof fn lemma_press_release_restores_held(s: KeyStates, k: Key)
    requires
        !s.down.contains(k),
    ensures
        release_states(press_states(s, k), k).down == s.down,
        release_states(press_states(s, k), k).pressed.contains(k),
        release_states(press_states(s, k), k).released.contains(k),
{
    assert(s.down.insert(k).remove(k) =~= s.down);
}

/// A second press (or release) of the same key changes nothing: the key repeat of
/// the operating system is not reported as a new press.
pub proof fn lemma_press_release_idempotent(s: KeyStates, k: Key)
    ensures
        press_states(press_states(s, k), k) == press_states(s, k),
        release_states(release_states(s, k), k) == release_states(s, k),
{
}

/// A key is reported as pressed only in the frame in which it went down: a key that
/// stays held into a new frame is down but not pressed, whatever presses are
/// registered for it.
pub proof fn lemma_pressed_only_first_frame(s: KeyStates, k: Key)
    requires
        s.down.contains(k),
    ensures
        begin_frame_states(s).down.contains(k),
        !begin_frame_states(s).pressed.contains(k),
        !press_states(begin_frame_states(s), k).pressed.contains(k),
        press_states(begin_frame_states(s), k).down.contains(k),
{
}

/// A key is reported as released only in the frame in which it went up.
pub proof fn lemma_released_only_one_frame(s: KeyStates, k: Key)
    requires
        !s.down.contains(k),
    ensures
        !begin_frame_states(s).released.contains(k),
        !release_states(begin_frame_states(s), k).released.contains(k),
{
}


/// One call on a keyboard: [`KeyboardManager::register_press`],
/// [`KeyboardManager::register_release`] or [`KeyboardManager::begin_frame`].
pub enum KeyEvent {
    Press(Key),
    Release(Key),
    BeginFrame,
}

/// The state after one call.
pub open spec fn apply_event(s: KeyStates, e: KeyEvent) -> KeyStates {
    match e {
        KeyEvent::Press(k) => press_states(s, k),
        KeyEvent::Release(k) => release_states(s, k),
        KeyEvent::BeginFrame => begin_frame_states(s),
    }
}

/// The state of a new keyboard after the calls `events`, in order.
pub open spec fn run_events(events: Seq<KeyEvent>) -> KeyStates
    decreases events.len(),
{
    if events.len() == 0 {
        initial_states()
    } else {
        apply_event(run_events(events.drop_last()), events.last())
    }
}

/// Whether the last press or release of `k` among `events` was a press
/// (`None` when there was neither).
pub open spec fn last_press_or_release(events: Seq<KeyEvent>, k: Key) -> Option<bool>
    decreases events.len(),
{
    if events.len() == 0 {
        None
    } else {
        match events.last() {
            KeyEvent::Press(j) => if j == k { Some(true) } else { last_press_or_release(events.drop_last(), k) },
            KeyEvent::Release(j) => if j == k { Some(false) } else { last_press_or_release(events.drop_last(), k) },
            KeyEvent::BeginFrame => last_press_or_release(events.drop_last(), k),
        }
    }
}

/// The index of the first call of the current frame: the one after the last
/// `BeginFrame` (0 when there was none).
pub open spec fn frame_start(events: Seq<KeyEvent>) -> int
    decreases events.len(),
{
    if events.len() == 0 {
        0
    } else if events.last() is BeginFrame {
        events.len() as int
    } else {
        frame_start(events.drop_last())
    }
}

/// Whether call `i` of `events` pressed `k` and found it up.
pub open spec fn press_found_up(events: Seq<KeyEvent>, i: int, k: Key) -> bool {
    events[i] == KeyEvent::Press(k) && !run_events(events.take(i)).down.contains(k)
}

/// Whether call `i` of `events` released `k` and found it down.
pub open spec fn release_found_down(events: Seq<KeyEvent>, i: int, k: Key) -> bool {
    events[i] == KeyEvent::Release(k) && run_events(events.take(i)).down.contains(k)
}

proof fn lemma_frame_start_bounds(events: Seq<KeyEvent>)
    ensures
        0 <= frame_start(events) <= events.len(),
    decreases events.len(),
{
    if events.len() > 0 {
        lemma_frame_start_bounds(events.drop_last());
    }
}

/// The calls before the last one see the same history in `events` as in `events.drop_last()`.
proof fn lemma_prefix_history(events: Seq<KeyEvent>, k: Key)
    requires
        events.len() > 0,
    ensures
        forall|i: int| 0 <= i < events.len() - 1 ==>
            #[trigger] press_found_up(events, i, k) == press_found_up(events.drop_last(), i, k),
        forall|i: int| 0 <= i < events.len() - 1 ==>
            #[trigger] release_found_down(events, i, k) == release_found_down(events.drop_last(), i, k),
        events.take(events.len() - 1) == events.drop_last(),
{
    let prev = events.drop_last();
    assert forall|i: int| 0 <= i < events.len() - 1 implies events.take(i) == prev.take(i) && events[i] == prev[i] by {
        assert(events.take(i) =~= prev.take(i));
    }
    assert(events.take(events.len() - 1) =~= prev);
}

/// A key is down exactly when its last press or release was a press: calls for
/// other keys and the start of a frame never change it.
pub proof fn lemma_history_down(events: Seq<KeyEvent>, k: Key)
    ensures
        run_events(events).down.contains(k) <==> last_press_or_release(events, k) == Some(true),
    decreases events.len(),
{
    if events.len() > 0 {
        lemma_history_down(events.drop_last(), k);
    }
}

/// A key counts as pressed exactly when, since the start of the frame, a press
/// of it found it up.
pub proof fn lemma_history_pressed(events: Seq<KeyEvent>, k: Key)
    ensures
        run_events(events).pressed.contains(k) <==> exists|i: int|
            frame_start(events) <= i < events.len() && #[trigger] press_found_up(events, i, k),
    decreases events.len(),
{
    if events.len() > 0 {
        let prev = events.drop_last();
        let n = events.len() - 1;
        lemma_history_pressed(prev, k);
        lemma_prefix_history(events, k);
        lemma_frame_start_bounds(prev);
        if run_events(events).pressed.contains(k) {
            if !(events.last() == KeyEvent::Press(k) && !run_events(prev).down.contains(k)) {
                let i = choose|i: int| frame_start(prev) <= i < prev.len() && #[trigger] press_found_up(prev, i, k);
                assert(press_found_up(events, i, k));
            } else {
                assert(press_found_up(events, n, k));
            }
        }
        if exists|i: int| frame_start(events) <= i < events.len() && #[trigger] press_found_up(events, i, k) {
            let i = choose|i: int| frame_start(events) <= i < events.len() && #[trigger] press_found_up(events, i, k);
            if i < n {
                assert(press_found_up(prev, i, k));
            }
        }
    }
}

/// A key counts as released exactly when, since the start of the frame, a
/// release of it found it down.
pub proof fn lemma_history_released(events: Seq<KeyEvent>, k: Key)
    ensures
        run_events(events).released.contains(k) <==> exists|i: int|
            frame_start(events) <= i < events.len() && #[trigger] release_found_down(events, i, k),
    decreases events.len(),
{
    if events.len() > 0 {
        let prev = events.drop_last();
        let n = events.len() - 1;
        lemma_history_released(prev, k);
        lemma_prefix_history(events, k);
        lemma_frame_start_bounds(prev);
        if run_events(events).released.contains(k) {
            if !(events.last() == KeyEvent::Release(k) && run_events(prev).down.contains(k)) {
                let i = choose|i: int| frame_start(prev) <= i < prev.len() && #[trigger] release_found_down(prev, i, k);
                assert(release_found_down(events, i, k));
            } else {
                assert(release_found_down(events, n, k));
            }
        }
        if exists|i: int| frame_start(events) <= i < events.len() && #[trigger] release_found_down(events, i, k) {
            let i = choose|i: int| frame_start(events) <= i < events.len() && #[trigger] release_found_down(events, i, k);
            if i < n {
                assert(release_found_down(prev, i, k));
            }
        }
    }
}

} // verus!
