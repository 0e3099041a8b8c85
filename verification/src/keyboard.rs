//! The 16-key hexadecimal keypad: current state plus the snapshot the
//! wait-for-keypress instruction uses for edge detection.

use vstd::prelude::*;

verus! {

/// The lowest index at or above `i` whose key is held down.
pub open spec fn first_down_from(keys: Seq<VKey>, i: int) -> Option<int>
    recommends
        0 <= i <= 16,
        keys.len() == 16,
    decreases 16 - i,
{
    if i < 0 || i >= 16 {
        None
    } else if keys[i] is Down {
        Some(i)
    } else {
        first_down_from(keys, i + 1)
    }
}

/// The lowest-numbered key currently held down, if any.
pub open spec fn first_down_key(keys: Seq<VKey>) -> Option<int> {
    first_down_from(keys, 0)
}

/// The state of one logical key.
#[derive(Clone, Copy, PartialEq, Eq, Structural, Debug)]
pub enum VKey {
    Up,
    Down,
}

/// Current key state (written by the frontend) and the previous snapshot
/// (written only by the wait-for-keypress instruction, right after it
/// samples `keys`, so a held key is reported as freshly pressed once).
#[derive(Debug)]
pub struct Keyboard {
    pub keys: Vec<VKey>,
    pub prev_keys: Vec<VKey>,
}

impl Keyboard {
    /// Sixteen entries in each vector.
    pub open spec fn wf(&self) -> bool {
        &&& self.keys@.len() == 16
        &&& self.prev_keys@.len() == 16
    }

    /// Finds the lowest-numbered key currently held down.
    pub fn first_down(&self) -> (r: Option<u8>)
        requires
            self.wf(),
        ensures
            match r {
                None => first_down_key(self.keys@) is None,
                Some(k) => k < 16 && first_down_key(self.keys@) == Some(k as int),
            },
    {
        let mut k: usize = 0;
        while k < 16
            invariant
                self.wf(),
                k <= 16,
                first_down_from(self.keys@, 0) == first_down_from(self.keys@, k as int),
            decreases 16 - k,
        {
            if matches!(self.keys[k], VKey::Down) {
                return Some(k as u8);
            }
            k += 1;
        }
        None
    }
}

impl Default for Keyboard {
    /// All sixteen keys up, in both the live and the snapshot state.
    fn default() -> (k: Keyboard)
        ensures
            k.wf(),
            forall|j: int| 0 <= j < 16 ==> k.keys@[j] is Up,
            forall|j: int| 0 <= j < 16 ==> k.prev_keys@[j] is Up,
    {
        let mut keys: Vec<VKey> = Vec::new();
        let mut prev_keys: Vec<VKey> = Vec::new();
        let mut j: usize = 0;
        while j < 16
            invariant
                j <= 16,
                keys@.len() == j,
                prev_keys@.len() == j,
                forall|i: int| 0 <= i < j ==> keys@[i] is Up,
                forall|i: int| 0 <= i < j ==> prev_keys@[i] is Up,
            decreases 16 - j,
        {
            keys.push(VKey::Up);
            prev_keys.push(VKey::Up);
            j += 1;
        }
        Keyboard { keys, prev_keys }
    }
}

} // verus!
