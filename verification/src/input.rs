//! Keyboard state for the current frame.
//!
//! The terminal's input queue is polled outside the library; each polled
//! key event is fed to `apply_key_event`, which keeps the pressed-key set
//! and says whether the event is a discrete press the caller should react
//! to.

use vstd::prelude::*;

verus! {

/// A key, reduced to what the engine reads.
#[derive(Clone, Copy, Debug, PartialEq, Eq, Structural)]
pub enum KeyCode {
    Char(char),
    F(u8),
    Up,
    Down,
    Left,
    Right,
    Esc,
    Enter,
    Backspace,
    Tab,
    Delete,
    Insert,
    Home,
    End,
    PageUp,
    PageDown,
}

/// What kind of key event the terminal reported.
#[derive(Clone, Copy, Debug, PartialEq, Eq, Structural)]
pub enum KeyEventKind {
    Press,
    Repeat,
    Release,
}

/// A snapshot of the currently pressed keys.
#[derive(Clone, Debug)]
pub struct InputState {
    pressed: Vec<KeyCode>,
}

impl InputState {
    /// The pressed keys, as a set.
    pub closed spec fn pressed_set(self) -> Set<KeyCode> {
        self.pressed@.to_set()
    }

    /// The backing list holds each pressed key exactly once.
    pub closed spec fn wf(self) -> bool {
        forall|i: int, j: int|
            0 <= i < j < self.pressed@.len() ==> self.pressed@[i] != self.pressed@[j]
    }

    /// An empty snapshot: no key pressed.
    pub fn new() -> (s: InputState)
        ensures
            s.wf(),
            s.pressed_set() == Set::<KeyCode>::empty(),
    {
        let s = InputState { pressed: Vec::new() };
        proof {
            assert(s.pressed_set() =~= Set::<KeyCode>::empty());
        }
        s
    }

    /// Whether `key` is currently held down.
    pub fn is_key_pressed(&self, key: KeyCode) -> (r: bool)
        ensures
            r == self.pressed_set().contains(key),
    {
        let n = self.pressed.len();
        let mut i: usize = 0;
        while i < n
            invariant
                i <= n,
                n == self.pressed@.len(),
                forall|k: int| 0 <= k < i ==> self.pressed@[k] != key,
            decreases n - i,
        {
            if self.pressed[i] == key {
                proof {
                    assert(self.pressed@.to_set().contains(key));
                }
                return true;
            }
            i = i + 1;
        }
        proof {
            assert(!self.pressed@.to_set().contains(key));
        }
        false
    }

    /// Marks `key` pressed or released.
    pub fn set_key_pressed(&mut self, key: KeyCode, pressed: bool)
        requires
            old(self).wf(),
        ensures
            final(self).wf(),
            final(self).pressed_set() == if pressed {
                old(self).pressed_set().insert(key)
            } else {
                old(self).pressed_set().remove(key)
            },
    {
        if pressed {
            if !self.is_key_pressed(key) {
                self.pressed.push(key);
                proof {
                    lemma_to_set_push(old(self).pressed@, key);
                    assert(old(self).pressed@ == self.pressed@.drop_last());
                    assert(forall|a: int|
                        0 <= a < self.pressed@.len() - 1 ==> self.pressed@[a] == old(
                            self,
                        ).pressed@[a]);
                    assert(!old(self).pressed@.to_set().contains(key));
                }
            } else {
                proof {
                    assert(self.pressed@.to_set() =~= old(self).pressed@.to_set().insert(key));
                }
            }
        } else {
            let n = self.pressed.len();
            let mut i: usize = 0;
            while i < n
                invariant
                    !pressed,
                    i <= n,
                    n == self.pressed@.len(),
                    old(self).wf(),
                    *self == *old(self),
                    forall|k: int| 0 <= k < i ==> self.pressed@[k] != key,
                decreases n - i,
            {
                if self.pressed[i] == key {
                    proof {
                        assert(forall|a: int, b: int|
                            0 <= a < b < old(self).pressed@.len() ==> old(self).pressed@[a] != old(
                                self,
                            ).pressed@[b]);
                    }
                    self.pressed.remove(i);
                    proof {
                        assert forall|c: KeyCode|
                            self.pressed@.to_set().contains(c) <==> old(
                                self,
                            ).pressed@.to_set().remove(key).contains(c) by {
                            lemma_remove_membership(old(self).pressed@, i as int, c);
                            assert(old(self).pressed@[i as int] == key);
                        }
                        assert(self.pressed@.to_set() =~= old(self).pressed@.to_set().remove(key));
                        assert(forall|a: int|
                            0 <= a < self.pressed@.len() ==> self.pressed@[a] == if a < i as int {
                                old(self).pressed@[a]
                            } else {
                                old(self).pressed@[a + 1]
                            });
                    }
                    return ;
                }
                i = i + 1;
            }
            proof {
                assert(!old(self).pressed@.to_set().contains(key));
                assert(self.pressed@.to_set() =~= old(self).pressed@.to_set().remove(key));
            }
        }
    }

    /// Applies one polled key event: a press or repeat marks the key held,
    /// a release clears it.  Returns whether the event is a discrete press
    /// the caller should react to this cycle.
    pub fn apply_key_event(&mut self, key: KeyCode, kind: KeyEventKind) -> (discrete: bool)
        requires
            old(self).wf(),
        ensures
            final(self).wf(),
            discrete == (kind == KeyEventKind::Press),
            final(self).pressed_set() == if kind == KeyEventKind::Release {
                old(self).pressed_set().remove(key)
            } else {
                old(self).pressed_set().insert(key)
            },
    {
        match kind {
            KeyEventKind::Press => {
                self.set_key_pressed(key, true);
                true
            },
            KeyEventKind::Repeat => {
                self.set_key_pressed(key, true);
                false
            },
            KeyEventKind::Release => {
                self.set_key_pressed(key, false);
                false
            },
        }
    }

    /// Forgets every pressed key.
    pub fn clear(&mut self)
        ensures
            final(self).wf(),
            final(self).pressed_set() == Set::<KeyCode>::empty(),
    {
        self.pressed.clear();
        proof {
            assert(self.pressed_set() =~= Set::<KeyCode>::empty());
        }
    }
}

/// Appending one key adds exactly that key to the sequence's set.
proof fn lemma_to_set_push(s: Seq<KeyCode>, v: KeyCode)
    ensures
        s.push(v).to_set() == s.to_set().insert(v),
{
    let p = s.push(v);
    assert forall|c: KeyCode| p.to_set().contains(c) implies s.to_set().insert(v).contains(c) by {
        let k = choose|k: int| 0 <= k < p.len() && p[k] == c;
        if k < s.len() {
            assert(s[k] == c);
        }
    }
    assert forall|c: KeyCode| s.to_set().insert(v).contains(c) implies p.to_set().contains(c) by {
        if c == v {
            assert(p[s.len() as int] == c);
        } else {
            let k = choose|k: int| 0 <= k < s.len() && s[k] == c;
            assert(p[k] == c);
        }
    }
    assert(p.to_set() =~= s.to_set().insert(v));
}

/// After removing index `i` from `s`, a value is in the remainder's set
/// exactly when it is in `s`'s set minus `s[i]`, provided `s` has no
/// duplicates.
proof fn lemma_remove_membership(s: Seq<KeyCode>, i: int, c: KeyCode)
    requires
        0 <= i < s.len(),
        forall|a: int, b: int| 0 <= a < b < s.len() ==> s[a] != s[b],
    ensures
        s.remove(i).to_set().contains(c) <==> (s.to_set().contains(c) && c != s[i]),
{
    let r = s.remove(i);
    if r.to_set().contains(c) {
        let k = choose|k: int| 0 <= k < r.len() && r[k] == c;
        if k < i {
            assert(s[k] == c);
        } else {
            assert(s[k + 1] == c);
        }
        assert(s.to_set().contains(c));
        assert(c != s[i]);
    }
    if s.to_set().contains(c) && c != s[i] {
        let k = choose|k: int| 0 <= k < s.len() && s[k] == c;
        if k < i {
            assert(r[k] == c);
        } else {
            assert(r[k - 1] == c);
        }
        assert(r.to_set().contains(c));
    }
}

} // verus!
