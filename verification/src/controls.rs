use vstd::prelude::*;

verus! {

/// The movement keys held down in a frame.
#[derive(Clone, Copy, PartialEq, Eq, Structural, Debug, Default)]
pub struct MovementKeys {
    /// W
    pub forward: bool,
    /// S
    pub back: bool,
    /// A
    pub left: bool,
    /// D
    pub right: bool,
    /// Space
    pub up: bool,
    /// Left shift
    pub down: bool,
}

/// Direction of movement along each axis of the player's frame, each `-1`,
/// `0` or `1` (forward is `-z`, right is `+x`, up is `+y`).
#[derive(Clone, Copy, PartialEq, Eq, Structural, Debug)]
pub struct MoveAxes {
    pub x: i8,
    pub y: i8,
    pub z: i8,
}

/// `1` when `b` holds, else `0`.
pub open spec fn held(b: bool) -> int {
    if b {
        1
    } else {
        0
    }
}

/// The direction the held keys ask for: opposite keys cancel, and the descend
/// key counts only where descending is allowed.
pub fn movement_axes(keys: &MovementKeys, descend_allowed: bool) -> (axes: MoveAxes)
    ensures
        axes.x == held(keys.right) - held(keys.left),
        axes.y == held(keys.up) - held(keys.down && descend_allowed),
        axes.z == held(keys.back) - held(keys.forward),
{
    let mut axes = MoveAxes { x: 0, y: 0, z: 0 };
    if keys.forward {
        axes.z = axes.z - 1;
    }
    if keys.back {
        axes.z = axes.z + 1;
    }
    if keys.left {
        axes.x = axes.x - 1;
    }
    if keys.right {
        axes.x = axes.x + 1;
    }
    if keys.up {
        axes.y = axes.y + 1;
    }
    if keys.down && descend_allowed {
        axes.y = axes.y - 1;
    }
    axes
}

/// What to do with the cursor.
#[derive(Clone, Copy, PartialEq, Eq, Structural, Debug)]
pub enum CursorAction {
    /// Grab and hide the cursor.
    Lock,
    /// Release and show the cursor.
    Unlock,
}

/// The new flag and the action after Escape, from the current flag.
pub open spec fn escape_outcome(released: bool) -> (bool, CursorAction) {
    (!released, if !released {
        CursorAction::Unlock
    } else {
        CursorAction::Lock
    })
}

/// Escape toggles the cursor: the flag `released` (false at start, when the
/// cursor is locked) flips, and the cursor is unlocked when the flag is now
/// set and locked again when it is now clear. Returns the new flag and the
/// action.
pub fn cursor_escape_pressed(released: bool) -> (r: (bool, CursorAction))
    ensures
        r == escape_outcome(released),
{
    let now = !released;
    if now {
        (now, CursorAction::Unlock)
    } else {
        (now, CursorAction::Lock)
    }
}

/// Two presses of Escape bring the flag back to where it was, and their
/// actions differ: one locks and the other unlocks the cursor.
pub proof fn lemma_escape_twice(released: bool)
    ensures
        escape_outcome(escape_outcome(released).0).0 == released,
        escape_outcome(escape_outcome(released).0).1 != escape_outcome(released).1,
{
}

/// The flag after `n` presses of Escape, starting from `released`.
pub open spec fn flag_after_presses(released: bool, n: nat) -> bool
    decreases n,
{
    if n == 0 {
        released
    } else {
        escape_outcome(flag_after_presses(released, (n - 1) as nat)).0
    }
}

/// Starting with the cursor locked (flag clear), after any number `n` of
/// presses the flag is set exactly when `n` is odd; press number `n + 1`
/// unlocks the cursor when `n` is even and locks it when `n` is odd.
pub proof fn lemma_escape_parity(n: nat)
    ensures
        flag_after_presses(false, n) == (n % 2 == 1),
        escape_outcome(flag_after_presses(false, n)).1 == (if n % 2 == 0 {
            CursorAction::Unlock
        } else {
            CursorAction::Lock
        }),
    decreases n,
{
    if n > 0 {
        lemma_escape_parity((n - 1) as nat);
    }
}

} // verus!
