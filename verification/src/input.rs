use vstd::prelude::*;

verus! {

/// How many screen pixels one console pixel spans, each way.
pub const SCALE: usize = 4;

/// The keys that the console's screens react to; `Other` carries the code of any other key.
#[derive(PartialEq, Eq, Structural, Clone, Copy, Debug)]
pub enum Key {
    Tab,
    Left,
    Right,
    Up,
    Down,
    Back,
    Return,
    LShift,
    RShift,
    LControl,
    RControl,
    A,
    C,
    R,
    S,
    V,
    X,
    Z,
    Escape,
    Other(u32),
}

/// Whether a key went down or came up.
#[derive(PartialEq, Eq, Structural, Clone, Copy, Debug)]
pub enum ElementState {
    Pressed,
    Released,
}

/// A mouse button.
#[derive(PartialEq, Eq, Structural, Clone, Copy, Debug)]
pub enum MouseButton {
    Left,
    Right,
    Middle,
    Other(u16),
}

/// The keys held down, and those that went down since the screen last read
/// its input; each a set, kept in the order the keys were added.
pub struct Keyboard {
    pub keys_pressed: Vec<Key>,
    pub keys_just_pressed: Vec<Key>,
}

impl Keyboard {
    /// No key is held or was just pressed.
    pub fn new() -> (k: Keyboard)
        ensures
            k@.0 == Seq::<Key>::empty(),
            k@.1 == Seq::<Key>::empty(),
            k.wf(),
    {
        Keyboard { keys_pressed: Vec::new(), keys_just_pressed: Vec::new() }
    }

    /// Each of the two sets holds a key at most once.
    pub open spec fn wf(&self) -> bool {
        self.keys_pressed@.no_duplicates() && self.keys_just_pressed@.no_duplicates()
    }

    /// The held keys and the just-pressed keys.
    pub open spec fn view(&self) -> (Seq<Key>, Seq<Key>) {
        (self.keys_pressed@, self.keys_just_pressed@)
    }
}

/// `s` with `k` added at the end unless it holds it already.
pub open spec fn set_insert(s: Seq<Key>, k: Key) -> Seq<Key> {
    if s.contains(k) {
        s
    } else {
        s.push(k)
    }
}

/// `s` without `k`.
pub open spec fn set_remove(s: Seq<Key>, k: Key) -> Seq<Key>
    decreases s.len(),
{
    if s.len() == 0 {
        s
    } else if s.last() != k {
        set_remove(s.drop_last(), k).push(s.last())
    } else {
        set_remove(s.drop_last(), k)
    }
}

/// Removing a key that a set does not hold leaves it as it is.
proof fn lemma_remove_absent(s: Seq<Key>, k: Key)
    requires
        !s.contains(k),
    ensures
        set_remove(s, k) == s,
    decreases s.len(),
{
    if s.len() > 0 {
        assert(!s.drop_last().contains(k)) by {
            if s.drop_last().contains(k) {
                let i = choose|i: int| 0 <= i < s.drop_last().len() && s.drop_last()[i] == k;
                assert(s[i] == k);
            }
        }
        lemma_remove_absent(s.drop_last(), k);
        assert(s[s.len() - 1] != k);
        assert(s.drop_last().push(s.last()) =~= s);
    }
}

/// Pressing a key that is not held and releasing it again leaves the held
/// keys as they were.
pub proof fn law_press_then_release(held: Seq<Key>, k: Key)
    requires
        !held.contains(k),
    ensures
        set_insert(held, k).contains(k),
        set_remove(set_insert(held, k), k) == held,
{
    assert(set_insert(held, k) == held.push(k));
    assert(held.push(k)[held.len() as int] == k);
    assert(held.push(k).drop_last() =~= held);
    lemma_remove_absent(held, k);
}

/// Whether `s` holds `k`.
pub fn contains_key(s: &Vec<Key>, k: Key) -> (r: bool)
    ensures
        r == s@.contains(k),
{
    let mut i: usize = 0;
    while i < s.len()
        invariant
            i <= s@.len(),
            forall|j: int| 0 <= j < i ==> s@[j] != k,
        decreases s@.len() - i,
    {
        if s[i] == k {
            return true;
        }
        i += 1;
    }
    false
}

/// Adds `k` to the set `s` (see `set_insert`).
fn insert_key(s: &mut Vec<Key>, k: Key)
    requires
        old(s)@.no_duplicates(),
    ensures
        final(s)@ == set_insert(old(s)@, k),
        final(s)@.no_duplicates(),
{
    if !contains_key(s, k) {
        s.push(k);
    }
}

/// Takes `k` out of the set `s` (see `set_remove`).
fn remove_key(s: &mut Vec<Key>, k: Key)
    requires
        old(s)@.no_duplicates(),
    ensures
        final(s)@ == set_remove(old(s)@, k),
        final(s)@.no_duplicates(),
{
    let mut out: Vec<Key> = Vec::new();
    let mut i: usize = 0;
    while i < s.len()
        invariant
            i <= s@.len(),
            s@.no_duplicates(),
            out@ == set_remove(s@.take(i as int), k),
            forall|a: int, b: int| 0 <= a < b < out@.len() ==> out@[a] != out@[b],
            forall|a: int| 0 <= a < out@.len() ==> s@.take(i as int).contains(#[trigger] out@[a]),
        decreases s@.len() - i,
    {
        let x = s[i];
        proof {
            assert(s@.take(i + 1).drop_last() =~= s@.take(i as int));
        }
        if x != k {
            assert forall|a: int| 0 <= a < out@.len() implies out@[a] != x by {
                let j = choose|j: int| 0 <= j < i && s@[j] == out@[a];
                assert(s@.take(i as int)[j] == s@[j]);
            }
            out.push(x);
        }
        assert forall|a: int| 0 <= a < out@.len() implies s@.take(i + 1).contains(#[trigger] out@[a]) by {
            if a < out@.len() - 1 || x == k {
                let j = choose|j: int| 0 <= j < i && s@.take(i as int)[j] == out@[a];
                assert(s@.take(i + 1)[j] == out@[a]);
            } else {
                assert(s@.take(i + 1)[i as int] == x);
            }
        }
        i += 1;
    }
    assert(s@.take(s@.len() as int) =~= s@);
    assert(out@.no_duplicates());
    *s = out;
}

/// Records a key going down or up: going down adds it to the held keys, and
/// to the just-pressed keys when it was not held already; coming up removes
/// it from the held keys.
pub fn bind_keyboard(keyboard: &mut Keyboard, state: ElementState, keycode: Key)
    requires
        old(keyboard).wf(),
    ensures
        final(keyboard).wf(),
        match state {
            ElementState::Pressed => {
                &&& final(keyboard)@.0 == set_insert(old(keyboard)@.0, keycode)
                &&& final(keyboard)@.1 == if old(keyboard)@.0.contains(keycode) {
                    old(keyboard)@.1
                } else {
                    set_insert(old(keyboard)@.1, keycode)
                }
            },
            ElementState::Released => {
                &&& final(keyboard)@.0 == set_remove(old(keyboard)@.0, keycode)
                &&& final(keyboard)@.1 == old(keyboard)@.1
            },
        },
{
    match state {
        ElementState::Pressed => {
            if !contains_key(&keyboard.keys_pressed, keycode) {
                insert_key(&mut keyboard.keys_just_pressed, keycode);
            }
            insert_key(&mut keyboard.keys_pressed, keycode);
        },
        ElementState::Released => {
            remove_key(&mut keyboard.keys_pressed, keycode);
        },
    }
}

/// Mouse state as one screen sees it: a position in that screen's own pixels
/// (`-1, -1` when the pointer is elsewhere) and the left button's state.
pub struct MousePress {
    pub x: i32,
    pub y: i32,
    pub pressed: bool,
    pub just_pressed: bool,
}

impl MousePress {
    /// Pointer at the origin, button up.
    pub fn new() -> (m: MousePress)
        ensures
            m.x == 0 && m.y == 0 && !m.pressed && !m.just_pressed,
    {
        MousePress { x: 0, y: 0, pressed: false, just_pressed: false }
    }
}

/// Records a mouse button going down or up; only the left button counts.
pub fn bind_mouse_input(mouse: &mut MousePress, button: MouseButton, state: ElementState)
    ensures
        final(mouse).x == old(mouse).x,
        final(mouse).y == old(mouse).y,
        button == MouseButton::Left ==> final(mouse).pressed == (state == ElementState::Pressed)
            && final(mouse).just_pressed == (state == ElementState::Pressed),
        button != MouseButton::Left ==> final(mouse).pressed == old(mouse).pressed
            && final(mouse).just_pressed == old(mouse).just_pressed,
{
    if button == MouseButton::Left {
        match state {
            ElementState::Pressed => {
                mouse.pressed = true;
                mouse.just_pressed = true;
            },
            ElementState::Released => {
                mouse.pressed = false;
                mouse.just_pressed = false;
            },
        }
    }
}

/// Whether the point `(x, y)`, each coordinate taken as an unsigned number,
/// lies outside the rectangle at `(start_x, start_y)` of `width` by `height`,
/// borders included.
pub open spec fn out_of_bounds(x: i32, y: i32, start_x: usize, start_y: usize, width: usize, height: usize) -> bool {
    let cx = x as usize;
    let cy = y as usize;
    cx < start_x || cx > start_x + width || cy < start_y || cy > start_y + height
}

/// Moves the pointer off a screen when it lies outside the screen's
/// rectangle: position `-1, -1` and button up; says whether it did.
pub fn check_mouse_bounds(mouse: &mut MousePress, start_x: usize, start_y: usize, width: usize, height: usize) -> (r: bool)
    requires
        start_x + width <= usize::MAX,
        start_y + height <= usize::MAX,
    ensures
        r == out_of_bounds(old(mouse).x, old(mouse).y, start_x, start_y, width, height),
        r ==> final(mouse).x == -1 && final(mouse).y == -1 && !final(mouse).pressed
            && !final(mouse).just_pressed,
        !r ==> *final(mouse) == *old(mouse),
{
    let cur_x = mouse.x as usize;
    let cur_y = mouse.y as usize;
    if cur_x < start_x || cur_x > start_x + width || cur_y < start_y || cur_y > start_y + height {
        mouse.pressed = false;
        mouse.just_pressed = false;
        mouse.x = -1;
        mouse.y = -1;
        return true;
    }
    false
}

/// A negative coordinate taken as an unsigned number lies past any rectangle
/// that ends within the range of `i32`.
proof fn lemma_negative_as_usize(x: i32)
    ensures
        x < 0 ==> x as usize > 0x7fff_ffffusize,
        x >= 0 ==> x as usize == x,
{
    assert(x < 0 ==> x as usize > 0x7fff_ffffusize) by (bit_vector);
}

/// Places the pointer on a screen from its position `(x, y)` in the window
/// (in logical pixels): inside the screen's rectangle, relative to its
/// corner and in console pixels; outside it, `-1, -1` with the button up.
pub fn bind_mouse_move(mouse: &mut MousePress, x: i32, y: i32, start_x: usize, start_y: usize, width: usize, height: usize)
    requires
        start_x + width <= i32::MAX,
        start_y + height <= i32::MAX,
    ensures
        out_of_bounds(x, y, start_x, start_y, width, height) ==> final(mouse).x == -1
            && final(mouse).y == -1 && !final(mouse).pressed && !final(mouse).just_pressed,
        !out_of_bounds(x, y, start_x, start_y, width, height) ==> {
            &&& final(mouse).x == (x - start_x) / (SCALE as int)
            &&& final(mouse).y == (y - start_y) / (SCALE as int)
            &&& final(mouse).pressed == old(mouse).pressed
            &&& final(mouse).just_pressed == old(mouse).just_pressed
        },
{
    mouse.x = x;
    mouse.y = y;
    if !check_mouse_bounds(mouse, start_x, start_y, width, height) {
        proof {
            lemma_negative_as_usize(x);
            lemma_negative_as_usize(y);
        }
        mouse.x = mouse.x - start_x as i32;
        mouse.y = mouse.y - start_y as i32;
        mouse.x = mouse.x / SCALE as i32;
        mouse.y = mouse.y / SCALE as i32;
    }
}

} // verus!
