//! Keyboard handling of the route-recording mode: which movement keys are
//! held, and which key presses drop or undo a waypoint, or end the recording.
use vstd::prelude::*;

verus! {

/// The keys the recording mode tells apart; every other physical key is
/// `Other` with the caller's code for it.
#[derive(Clone, Copy, Debug, PartialEq, Eq, Structural)]
pub enum Key {
    W,
    A,
    S,
    D,
    Space,
    ControlLeft,
    ControlRight,
    ShiftLeft,
    ShiftRight,
    F,
    Z,
    Enter,
    Escape,
    Other(u32),
}

/// What a key press asks of the recorder.
#[derive(Clone, Copy, Debug, PartialEq, Eq, Structural)]
pub enum RecordingAction {
    Nothing,
    /// `F`: drop a waypoint at the camera.
    DropWaypoint,
    /// `Z`: remove the last waypoint.
    UndoWaypoint,
    /// `Enter`: stop and save the route.
    SaveAndExit,
    /// `Escape`: stop without saving.
    Cancel,
}

/// The action of a first press of `k`.
pub open spec fn press_action(k: Key) -> RecordingAction {
    match k {
        Key::F => RecordingAction::DropWaypoint,
        Key::Z => RecordingAction::UndoWaypoint,
        Key::Enter => RecordingAction::SaveAndExit,
        Key::Escape => RecordingAction::Cancel,
        _ => RecordingAction::Nothing,
    }
}

/// Keys whose press ends the recording; they are never recorded as held.
pub open spec fn ends_recording(k: Key) -> bool {
    k == Key::Enter || k == Key::Escape
}

/// Which way the camera is asked to move, from the keys held.
#[derive(Clone, Copy, Debug, PartialEq, Eq, Structural)]
pub struct Movement {
    pub forward: bool,
    pub back: bool,
    pub left: bool,
    pub right: bool,
    pub up: bool,
    pub down: bool,
    /// Either shift key: three times the speed.
    pub fast: bool,
}

/// The movement that a set of held keys asks for.
pub open spec fn movement_of(held: Set<Key>) -> Movement {
    Movement {
        forward: held.contains(Key::W),
        back: held.contains(Key::S),
        left: held.contains(Key::A),
        right: held.contains(Key::D),
        up: held.contains(Key::Space),
        down: held.contains(Key::ControlLeft) || held.contains(Key::ControlRight),
        fast: held.contains(Key::ShiftLeft) || held.contains(Key::ShiftRight),
    }
}

/// The keys currently held down, as a list with no key twice rather than a
/// `HashSet<Key>`: vstd specifies `HashSet` only for elements whose hashing it
/// models, which a derived `Hash` on `Key` is not, so the press and release
/// laws could not be stated over one.
pub struct HeldKeys {
    keys: Vec<Key>,
}

impl View for HeldKeys {
    type V = Set<Key>;

    closed spec fn view(&self) -> Set<Key> {
        Set::new(|k: Key| self.keys@.contains(k))
    }
}

impl HeldKeys {
    /// No key held.
    pub fn new() -> (h: Self)
        ensures
            h@ == Set::<Key>::empty(),
    {
        let h = HeldKeys { keys: Vec::new() };
        assert(h@ =~= Set::<Key>::empty());
        h
    }

    /// Whether `k` is held.
    pub fn is_held(&self, k: Key) -> (b: bool)
        ensures
            b == self@.contains(k),
    {
        let mut i: usize = 0;
        while i < self.keys.len()
            invariant
                i <= self.keys@.len(),
                forall|j: int| 0 <= j < i ==> self.keys@[j] != k,
            decreases self.keys@.len() - i,
        {
            if self.keys[i] == k {
                assert(self.keys@.contains(k));
                return true;
            }
            i = i + 1;
        }
        false
    }

    /// A key went down. A press of a key already held (auto-repeat) asks for
    /// nothing; a first press asks for the key's action and, unless it ends
    /// the recording, marks the key as held.
    pub fn press(&mut self, k: Key) -> (a: RecordingAction)
        ensures
            old(self)@.contains(k) ==> a == RecordingAction::Nothing && final(self)@ == old(self)@,
            !old(self)@.contains(k) ==> a == press_action(k),
            !old(self)@.contains(k) && ends_recording(k) ==> final(self)@ == old(self)@,
            !old(self)@.contains(k) && !ends_recording(k) ==> final(self)@ == old(self)@.insert(k),
    {
        if self.is_held(k) {
            return RecordingAction::Nothing;
        }
        let action = match k {
            Key::F => RecordingAction::DropWaypoint,
            Key::Z => RecordingAction::UndoWaypoint,
            Key::Enter => RecordingAction::SaveAndExit,
            Key::Escape => RecordingAction::Cancel,
            _ => RecordingAction::Nothing,
        };
        if k == Key::Enter || k == Key::Escape {
            return action;
        }
        let ghost before = self.keys@;
        self.keys.push(k);
        proof {
            assert forall|x: Key| self.keys@.contains(x) <==> (before.contains(x) || x == k) by {
                if self.keys@.contains(x) {
                    let j = choose|j: int| 0 <= j < self.keys@.len() && self.keys@[j] == x;
                    if j < before.len() {
                        assert(before[j] == x);
                    }
                }
                if before.contains(x) {
                    let j = choose|j: int| 0 <= j < before.len() && before[j] == x;
                    assert(self.keys@[j] == x);
                }
                if x == k {
                    assert(self.keys@[before.len() as int] == k);
                }
            }
            assert(self@ =~= old(self)@.insert(k));
        }
        action
    }

    /// A key went up: it is no longer held.
    pub fn release(&mut self, k: Key)
        ensures
            final(self)@ == old(self)@.remove(k),
    {
        let ghost before = self.keys@;
        let mut kept: Vec<Key> = Vec::new();
        let mut i: usize = 0;
        while i < self.keys.len()
            invariant
                before == self.keys@,
                i <= before.len(),
                forall|x: Key| kept@.contains(x) <==> (before.take(i as int).contains(x) && x != k),
            decreases before.len() - i,
        {
            let x = self.keys[i];
            let ghost kept0 = kept@;
            proof {
                assert(before.take(i + 1) =~= before.take(i as int).push(x));
                assert forall|y: Key| before.take(i + 1).contains(y) <==> (before.take(i as int).contains(y) || y == x) by {
                    let t = before.take(i as int);
                    let t1 = before.take(i + 1);
                    if t1.contains(y) {
                        let j = choose|j: int| 0 <= j < t1.len() && t1[j] == y;
                        if j < i {
                            assert(t[j] == y);
                        }
                    }
                    if t.contains(y) {
                        let j = choose|j: int| 0 <= j < t.len() && t[j] == y;
                        assert(t1[j] == y);
                    }
                    if y == x {
                        assert(t1[i as int] == x);
                    }
                }
            }
            if x != k {
                let ghost old_kept = kept@;
                kept.push(x);
                proof {
                    assert forall|y: Key| kept@.contains(y) <==> (old_kept.contains(y) || y == x) by {
                        if kept@.contains(y) {
                            let j = choose|j: int| 0 <= j < kept@.len() && kept@[j] == y;
                            if j < old_kept.len() {
                                assert(old_kept[j] == y);
                            }
                        }
                        if old_kept.contains(y) {
                            let j = choose|j: int| 0 <= j < old_kept.len() && old_kept[j] == y;
                            assert(kept@[j] == y);
                        }
                        if y == x {
                            assert(kept@[old_kept.len() as int] == x);
                        }
                    }
                }
            }
            proof {
                assert forall|y: Key| kept@.contains(y) <==> (before.take(i + 1).contains(y) && y != k) by {
                    assert(before.take(i + 1).contains(y) <==> (before.take(i as int).contains(y) || y == x));
                    assert(kept0.contains(y) <==> (before.take(i as int).contains(y) && y != k));
                    if x != k {
                        assert(kept@.contains(y) <==> (kept0.contains(y) || y == x));
                    } else {
                        assert(kept@ == kept0);
                    }
                }
            }
            i = i + 1;
        }
        assert(before.take(before.len() as int) =~= before);
        self.keys = kept;
        assert(self@ =~= old(self)@.remove(k));
    }

    /// The movement the held keys ask for.
    pub fn movement(&self) -> (m: Movement)
        ensures
            m == movement_of(self@),
    {
        let forward = self.is_held(Key::W);
        let back = self.is_held(Key::S);
        let left = self.is_held(Key::A);
        let right = self.is_held(Key::D);
        let up = self.is_held(Key::Space);
        let ctrl_l = self.is_held(Key::ControlLeft);
        let ctrl_r = self.is_held(Key::ControlRight);
        let shift_l = self.is_held(Key::ShiftLeft);
        let shift_r = self.is_held(Key::ShiftRight);
        Movement { forward, back, left, right, up, down: ctrl_l || ctrl_r, fast: shift_l || shift_r }
    }
}

/// Pressing a key that does not end the recording and releasing it again
/// leaves the held keys as they were, whatever its action.
pub proof fn law_press_release_restores(held: Set<Key>, k: Key)
    requires
        !held.contains(k),
        !ends_recording(k),
    ensures
        held.insert(k).remove(k) == held,
{
    assert(held.insert(k).remove(k) =~= held);
}

/// A key's press or release leaves every other key as it was.
pub proof fn law_other_keys_unchanged(held: Set<Key>, k: Key, other: Key)
    requires
        other != k,
    ensures
        held.insert(k).contains(other) == held.contains(other),
        held.remove(k).contains(other) == held.contains(other),
{
}

} // verus!
