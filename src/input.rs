//! The input snapshot: which keys and mouse buttons are held.
use vstd::prelude::*;

verus! {

/// A physical key, by its code in the windowing backend's key table.
#[derive(PartialEq, Eq, Structural, Clone, Copy, Debug, Hash)]
pub struct KeyCode(pub u32);

/// A mouse button.
#[derive(PartialEq, Eq, Structural, Clone, Copy, Debug, Hash)]
pub enum MouseButton {
    Left,
    Middle,
    Right,
    Unknown,
}

/// The keys and mouse buttons held at the moment.
pub struct Input {
    pressed_keys: Vec<KeyCode>,
    pressed_buttons: Vec<MouseButton>,
}

impl Input {
    /// The keys held.
    pub closed spec fn keys(&self) -> Set<KeyCode> {
        self.pressed_keys@.to_set()
    }

    /// The mouse buttons held.
    pub closed spec fn buttons(&self) -> Set<MouseButton> {
        self.pressed_buttons@.to_set()
    }

    /// Each key and each button is listed at most once.
    pub closed spec fn wf(&self) -> bool {
        self.pressed_keys@.no_duplicates() && self.pressed_buttons@.no_duplicates()
    }

    /// Nothing is held.
    pub fn new() -> (r: Input)
        ensures
            r.wf(),
            r.keys() == Set::<KeyCode>::empty(),
            r.buttons() == Set::<MouseButton>::empty(),
    {
        let r = Input { pressed_keys: Vec::new(), pressed_buttons: Vec::new() };
        assert(r.pressed_keys@.to_set() =~= Set::<KeyCode>::empty());
        assert(r.pressed_buttons@.to_set() =~= Set::<MouseButton>::empty());
        r
    }

    /// Whether `key` is held.
    pub fn is_key_down(&self, key: KeyCode) -> (r: bool)
        ensures
            r == self.keys().contains(key),
    {
        let mut i: usize = 0;
        while i < self.pressed_keys.len()
            invariant
                i <= self.pressed_keys@.len(),
                forall|k: int| 0 <= k < i ==> self.pressed_keys@[k] != key,
            decreases self.pressed_keys@.len() - i,
        {
            if self.pressed_keys[i] == key {
                assert(self.pressed_keys@.contains(key));
                return true;
            }
            i = i + 1;
        }
        false
    }

    /// Whether `button` is held.
    pub fn is_mouse_button_down(&self, button: MouseButton) -> (r: bool)
        ensures
            r == self.buttons().contains(button),
    {
        let mut i: usize = 0;
        while i < self.pressed_buttons.len()
            invariant
                i <= self.pressed_buttons@.len(),
                forall|k: int| 0 <= k < i ==> self.pressed_buttons@[k] != button,
            decreases self.pressed_buttons@.len() - i,
        {
            if self.pressed_buttons[i] == button {
                assert(self.pressed_buttons@.contains(button));
                return true;
            }
            i = i + 1;
        }
        false
    }

    /// Records `key` as held or released.
    pub fn set_key_pressed(&mut self, key: KeyCode, is_pressed: bool)
        requires
            old(self).wf(),
        ensures
            final(self).wf(),
            final(self).keys() == if is_pressed {
                old(self).keys().insert(key)
            } else {
                old(self).keys().remove(key)
            },
            final(self).buttons() == old(self).buttons(),
    {
        let mut i: usize = 0;
        while i < self.pressed_keys.len()
            invariant
                i <= self.pressed_keys@.len(),
                forall|k: int| 0 <= k < i ==> self.pressed_keys@[k] != key,
            ensures
                i <= self.pressed_keys@.len(),
                forall|k: int| 0 <= k < i ==> self.pressed_keys@[k] != key,
                i < self.pressed_keys@.len() ==> self.pressed_keys@[i as int] == key,
            decreases self.pressed_keys@.len() - i,
        {
            if self.pressed_keys[i] == key {
                break;
            }
            i = i + 1;
        }
        let ghost before = self.pressed_keys@;
        if i < self.pressed_keys.len() {
            if !is_pressed {
                self.pressed_keys.swap_remove(i);
                proof {
                    lemma_swap_remove_set(before, i as int);
                }
            } else {
                assert(before[i as int] == key);
                assert(before.to_set() =~= before.to_set().insert(key));
            }
        } else {
            assert(!before.contains(key));
            if is_pressed {
                self.pressed_keys.push(key);
                proof {
                    lemma_push_set(before, key);
                }
            } else {
                assert(before.to_set() =~= before.to_set().remove(key));
            }
        }
    }

    /// Records `button` as held or released.
    pub fn set_mouse_button_pressed(&mut self, button: MouseButton, is_pressed: bool)
        requires
            old(self).wf(),
        ensures
            final(self).wf(),
            final(self).buttons() == if is_pressed {
                old(self).buttons().insert(button)
            } else {
                old(self).buttons().remove(button)
            },
            final(self).keys() == old(self).keys(),
    {
        let mut i: usize = 0;
        while i < self.pressed_buttons.len()
            invariant
                i <= self.pressed_buttons@.len(),
                forall|k: int| 0 <= k < i ==> self.pressed_buttons@[k] != button,
            ensures
                i <= self.pressed_buttons@.len(),
                forall|k: int| 0 <= k < i ==> self.pressed_buttons@[k] != button,
                i < self.pressed_buttons@.len() ==> self.pressed_buttons@[i as int] == button,
            decreases self.pressed_buttons@.len() - i,
        {
            if self.pressed_buttons[i] == button {
                break;
            }
            i = i + 1;
        }
        let ghost before = self.pressed_buttons@;
        if i < self.pressed_buttons.len() {
            if !is_pressed {
                self.pressed_buttons.swap_remove(i);
                proof {
                    lemma_swap_remove_set(before, i as int);
                }
            } else {
                assert(before[i as int] == button);
                assert(before.to_set() =~= before.to_set().insert(button));
            }
        } else {
            assert(!before.contains(button));
            if is_pressed {
                self.pressed_buttons.push(button);
                proof {
                    lemma_push_set(before, button);
                }
            } else {
                assert(before.to_set() =~= before.to_set().remove(button));
            }
        }
    }
}

proof fn lemma_push_set<T>(s: Seq<T>, x: T)
    requires
        s.no_duplicates(),
        !s.contains(x),
    ensures
        s.push(x).no_duplicates(),
        s.push(x).to_set() == s.to_set().insert(x),
{
    assert forall|i: int, j: int| 0 <= i < j < s.push(x).len() implies s.push(x)[i] != s.push(x)[j] by {
        if j == s.len() {
            assert(s.contains(s[i]));
        }
    }
    assert forall|y: T| s.push(x).contains(y) <==> s.to_set().insert(x).contains(y) by {
        if s.contains(y) {
            let k = choose|k: int| 0 <= k < s.len() && s[k] == y;
            assert(s.push(x)[k] == y);
        }
        if y == x {
            assert(s.push(x)[s.len() as int] == x);
        }
        if s.push(x).contains(y) {
            let k = choose|k: int| 0 <= k < s.push(x).len() && s.push(x)[k] == y;
            if k < s.len() {
                assert(s[k] == y);
            }
        }
    }
    assert(s.push(x).to_set() =~= s.to_set().insert(x));
}

proof fn lemma_swap_remove_set<T>(s: Seq<T>, i: int)
    requires
        s.no_duplicates(),
        0 <= i < s.len(),
    ensures
        s.update(i, s.last()).drop_last().no_duplicates(),
        s.update(i, s.last()).drop_last().to_set() == s.to_set().remove(s[i]),
{
    let t = s.update(i, s.last()).drop_last();
    assert forall|a: int, b: int| 0 <= a < b < t.len() implies t[a] != t[b] by {
        if a == i {
            assert(s[s.len() - 1] != s[b]);
        } else if b == i {
            assert(s[a] != s[s.len() - 1]);
        }
    }
    assert forall|y: T| t.contains(y) <==> s.to_set().remove(s[i]).contains(y) by {
        if t.contains(y) {
            let k = choose|k: int| 0 <= k < t.len() && t[k] == y;
            if k == i {
                assert(s[s.len() - 1] == y);
                assert(s.len() - 1 != i);
            } else {
                assert(s[k] == y);
            }
        }
        if s.contains(y) && y != s[i] {
            let k = choose|k: int| 0 <= k < s.len() && s[k] == y;
            if k == s.len() - 1 {
                assert(t[i] == y);
            } else {
                assert(k != i);
                assert(t[k] == y);
            }
        }
    }
    assert(t.to_set() =~= s.to_set().remove(s[i]));
}

} // verus!
