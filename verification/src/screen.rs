use vstd::prelude::*;

use crate::input::{ElementState, Key, MouseButton, SCALE};

verus! {

/// The console's screen is this many console pixels wide.
pub const SCREEN_SIZE: usize = 128;

/// The navigation bar's height, in console pixels.
pub const NAV_BAR_HEIGHT: usize = 8;

/// The window's width, in window pixels.
pub const WINDOW_WIDTH: usize = 512;

/// A pixel's red, green, blue and alpha bytes.
pub type Rgba = (u8, u8, u8, u8);

/// Channel `c` (0 red, 1 green, 2 blue, 3 alpha) of a pixel.
pub open spec fn channel(p: Rgba, c: int) -> u8 {
    if c == 0 {
        p.0
    } else if c == 1 {
        p.1
    } else if c == 2 {
        p.2
    } else {
        p.3
    }
}

/// The bytes of output row `y` of a screen `width` pixels wide, each pixel
/// `SCALE` times across, four bytes each; a pixel missing from a short row
/// leaves zeros.
pub open spec fn scaled_row(pixels: Seq<Seq<Rgba>>, width: nat, y: int) -> Seq<u8> {
    Seq::new(
        width * 16,
        |i: int|
            {
                let row = pixels[y / 4];
                let x = i / 16;
                if x < row.len() {
                    channel(row[x], i % 4)
                } else {
                    0u8
                }
            },
    )
}

/// Where output row `y` starts in a window buffer, for a screen placed at
/// `(start_x, start_y)` in window pixels.
pub open spec fn row_start(start_x: int, start_y: int, y: int) -> int {
    ((start_y + y) * 512 + start_x) * 4
}

/// The buffer after the first `n` output rows were copied in, each over
/// what was there.
pub open spec fn blitted(buf: Seq<u8>, pixels: Seq<Seq<Rgba>>, width: nat, start_x: int, start_y: int, n: int) -> Seq<u8>
    decreases n,
{
    if n <= 0 {
        buf
    } else {
        let b = blitted(buf, pixels, width, start_x, start_y, n - 1);
        let d = row_start(start_x, start_y, n - 1);
        b.take(d) + scaled_row(pixels, width, n - 1) + b.skip(d + width * 16)
    }
}

/// The bytes of output row `out_y` of the screen `pixels`, `width` pixels wide.
pub fn scale_row(pixels: &Vec<Vec<Rgba>>, width: usize, out_y: usize) -> (r: Vec<u8>)
    requires
        out_y / 4 < pixels@.len(),
        width * 16 <= usize::MAX,
    ensures
        r@ == scaled_row(Seq::new(pixels@.len(), |k: int| pixels@[k]@), width as nat, out_y as int),
{
    let ghost ps = Seq::new(pixels@.len(), |k: int| pixels@[k]@);
    let row = &pixels[out_y / SCALE];
    let mut r: Vec<u8> = Vec::new();
    let mut x: usize = 0;
    while x < width
        invariant
            x <= width,
            width * 16 <= usize::MAX,
            out_y / 4 < pixels@.len(),
            row@ == ps[(out_y / 4) as int],
            ps == Seq::new(pixels@.len(), |k: int| pixels@[k]@),
            r@ == scaled_row(ps, width as nat, out_y as int).take(x * 16),
        decreases width - x,
    {
        let p: Rgba = if x < row.len() {
            row[x]
        } else {
            (0u8, 0u8, 0u8, 0u8)
        };
        let mut dx: usize = 0;
        while dx < SCALE
            invariant
                x < width,
                width * 16 <= usize::MAX,
                dx <= 4,
                out_y / 4 < pixels@.len(),
                row@ == ps[(out_y / 4) as int],
                x < row@.len() ==> p == row@[x as int],
                x >= row@.len() ==> p == (0u8, 0u8, 0u8, 0u8),
                r@ == scaled_row(ps, width as nat, out_y as int).take(x * 16 + dx * 4),
            decreases 4 - dx,
        {
            let ghost base = x * 16 + dx * 4;
            proof {
                assert({
                    &&& base / 16 == x && base % 4 == 0
                    &&& (base + 1) / 16 == x && (base + 1) % 4 == 1
                    &&& (base + 2) / 16 == x && (base + 2) % 4 == 2
                    &&& (base + 3) / 16 == x && (base + 3) % 4 == 3
                }) by (nonlinear_arith)
                    requires
                        base == x * 16 + dx * 4,
                        0 <= dx < 4,
                ;
            }
            r.push(p.0);
            r.push(p.1);
            r.push(p.2);
            r.push(p.3);
            dx += 1;
            assert(r@ =~= scaled_row(ps, width as nat, out_y as int).take(x * 16 + dx * 4));
        }
        x += 1;
    }
    assert(scaled_row(ps, width as nat, out_y as int).take(width * 16) =~= scaled_row(
        ps,
        width as nat,
        out_y as int,
    ));
    r
}

/// Copies a screen into the window buffer at `(start_x, start_y)`: each
/// console pixel becomes `SCALE` by `SCALE` window pixels, row after row.
/// The screen's width is that of its first row.
pub fn copy_pixels_into_buffer(pixels: &Vec<Vec<Rgba>>, buffer: &mut Vec<u8>, start_x: usize, start_y: usize)
    requires
        pixels@.len() > 0,
        pixels@.len() * 4 > 0 ==> row_start(start_x as int, start_y as int, pixels@.len() * 4 - 1)
            + pixels@[0]@.len() * 16 <= old(buffer)@.len(),
    ensures
        final(buffer)@ == blitted(
            old(buffer)@,
            Seq::new(pixels@.len(), |k: int| pixels@[k]@),
            pixels@[0]@.len(),
            start_x as int,
            start_y as int,
            (pixels@.len() * 4) as int,
        ),
{
    let ghost ps = Seq::new(pixels@.len(), |k: int| pixels@[k]@);
    let height = pixels.len();
    let width = pixels[0].len();
    let ghost blen = old(buffer)@.len();
    let buffer_len = buffer.len();
    proof {
        let l0 = row_start(start_x as int, start_y as int, height * 4 - 1);
        assert(height * 4 <= usize::MAX) by (nonlinear_arith)
            requires
                l0 == ((start_y + height * 4 - 1) * 512 + start_x) * 4,
                l0 + width * 16 <= blen,
                blen <= usize::MAX,
                height >= 1,
                start_x >= 0,
                start_y >= 0,
                width >= 0,
        ;
    }
    let rows = height * SCALE;
    let ghost last = row_start(start_x as int, start_y as int, rows - 1);
    proof {
        assert(last >= 0) by (nonlinear_arith)
            requires
                last == ((start_y + rows - 1) * 512 + start_x) * 4,
                rows >= 1,
                start_x >= 0,
                start_y >= 0,
        ;
        assert(width * 16 <= usize::MAX) by (nonlinear_arith)
            requires
                last + width * 16 <= blen,
                last >= 0,
                blen <= usize::MAX,
        {
        }
    }
    let mut y: usize = 0;
    while y < rows
        invariant
            rows == height * 4,
            height == pixels@.len(),
            width == pixels@[0]@.len(),
            ps == Seq::new(pixels@.len(), |k: int| pixels@[k]@),
            y <= rows,
            width * 16 <= usize::MAX,
            row_start(start_x as int, start_y as int, rows - 1) + width * 16 <= blen,
            blen == old(buffer)@.len(),
            blen <= usize::MAX,
            buffer@.len() == blen,
            buffer@ == blitted(old(buffer)@, ps, width as nat, start_x as int, start_y as int, y as int),
        decreases rows - y,
    {
        let ghost d = row_start(start_x as int, start_y as int, y as int);
        proof {
            let lst = row_start(start_x as int, start_y as int, rows - 1);
            assert(0 <= d && d + width * 16 <= blen) by (nonlinear_arith)
                requires
                    d == ((start_y + y) * 512 + start_x) * 4,
                    y <= rows - 1,
                    lst == ((start_y + rows - 1) * 512 + start_x) * 4,
                    lst + width * 16 <= blen,
                    start_x >= 0,
                    start_y >= 0,
                    y >= 0,
            {
            }
        }
        let dst = ((start_y + y) * WINDOW_WIDTH + start_x) * 4;
        let bytes = scale_row(pixels, width, y);
        let ghost before = buffer@;
        let mut i: usize = 0;
        while i < bytes.len()
            invariant
                bytes@.len() == width * 16,
                dst == d,
                d + width * 16 <= before.len(),
                before.len() == blen,
                blen <= usize::MAX,
                buffer@.len() == before.len(),
                i <= bytes@.len(),
                buffer@ == before.take(d) + bytes@.take(i as int) + before.skip(d + i),
            decreases bytes@.len() - i,
        {
            buffer.set(dst + i, bytes[i]);
            i += 1;
            assert(buffer@ =~= before.take(d) + bytes@.take(i as int) + before.skip(d + i));
        }
        assert(bytes@.take(bytes@.len() as int) =~= bytes@);
        y += 1;
    }
    buffer.len();
}

// ---------------------------------------------------------------------------
// Where the window's input goes
// ---------------------------------------------------------------------------

/// The console's screens, one shown at a time.
#[derive(PartialEq, Eq, Structural, Clone, Copy, Debug)]
pub enum Screen {
    Game,
    Sprite,
    Ide,
    Terminal,
}

/// What receives a piece of input.
#[derive(PartialEq, Eq, Structural, Clone, Copy, Debug)]
pub enum Target {
    Nav,
    GameScript,
    GameConsole,
    Sprite,
    Ide,
    Terminal,
}

/// A rectangle of the window: `(start_x, start_y, width, height)` in window pixels.
pub type Rect = (usize, usize, usize, usize);

/// Whether `c` is a control character (general category Cc).
pub open spec fn is_control(c: char) -> bool {
    (c as u32) <= 0x1f || (0x7f <= (c as u32) && (c as u32) <= 0x9f)
}

/// Where a typed character goes: to the editor or the terminal when one
/// is shown, unless it is a control character.
pub open spec fn char_target_of(selected: Screen, c: char) -> Option<Target> {
    if is_control(c) {
        None
    } else {
        match selected {
            Screen::Terminal => Some(Target::Terminal),
            Screen::Ide => Some(Target::Ide),
            _ => None,
        }
    }
}

/// Where a typed character goes.
pub fn char_target(selected: Screen, c: char) -> (r: Option<Target>)
    ensures
        r == char_target_of(selected, c),
{
    let u = c as u32;
    if u <= 0x1f || (0x7f <= u && u <= 0x9f) {
        return None;
    }
    match selected {
        Screen::Terminal => Some(Target::Terminal),
        Screen::Ide => Some(Target::Ide),
        _ => None,
    }
}

/// Which keyboard a key goes to: the shown screen's (the game's script's
/// for the game).
pub fn key_target(selected: Screen) -> (r: Target)
    ensures
        r == match selected {
            Screen::Game => Target::GameScript,
            Screen::Sprite => Target::Sprite,
            Screen::Terminal => Target::Terminal,
            Screen::Ide => Target::Ide,
        },
{
    match selected {
        Screen::Game => Target::GameScript,
        Screen::Sprite => Target::Sprite,
        Screen::Terminal => Target::Terminal,
        Screen::Ide => Target::Ide,
    }
}

/// Whether a key closes the console: escape does.
pub fn exits_on(key: Key) -> (r: bool)
    ensures
        r == (key == Key::Escape),
{
    key == Key::Escape
}

/// Which mice a button goes to: the navigation bar's, then the shown
/// screen's (the game's script and console both; none for the editor and
/// the terminal).
pub fn button_targets(selected: Screen) -> (r: Vec<Target>)
    ensures
        r@ == match selected {
            Screen::Game => seq![Target::Nav, Target::GameScript, Target::GameConsole],
            Screen::Sprite => seq![Target::Nav, Target::Sprite],
            _ => seq![Target::Nav],
        },
{
    let mut r: Vec<Target> = Vec::new();
    r.push(Target::Nav);
    match selected {
        Screen::Game => {
            r.push(Target::GameScript);
            r.push(Target::GameConsole);
        },
        Screen::Sprite => {
            r.push(Target::Sprite);
        },
        _ => {},
    }
    assert(r@ =~= match selected {
        Screen::Game => seq![Target::Nav, Target::GameScript, Target::GameConsole],
        Screen::Sprite => seq![Target::Nav, Target::Sprite],
        _ => seq![Target::Nav],
    });
    r
}

/// Which mice the pointer's position goes to, each with the rectangle it
/// covers: the navigation bar across the top; under it the game's script
/// screen with its console below, or the taller sprite editor.
pub fn pointer_targets(selected: Screen) -> (r: Vec<(Target, Rect)>)
    ensures
        r@ == match selected {
            Screen::Game => seq![
                (Target::Nav, (0usize, 0usize, 512usize, 32usize)),
                (Target::GameScript, (0usize, 32usize, 512usize, 512usize)),
                (Target::GameConsole, (0usize, 544usize, 512usize, 512usize)),
            ],
            Screen::Sprite => seq![
                (Target::Nav, (0usize, 0usize, 512usize, 32usize)),
                (Target::Sprite, (0usize, 32usize, 512usize, 1024usize)),
            ],
            _ => seq![(Target::Nav, (0usize, 0usize, 512usize, 32usize))],
        },
{
    let nav_height = NAV_BAR_HEIGHT * SCALE;
    let mut r: Vec<(Target, Rect)> = Vec::new();
    r.push((Target::Nav, (0, 0, WINDOW_WIDTH, nav_height)));
    match selected {
        Screen::Game => {
            r.push((Target::GameScript, (0, nav_height, WINDOW_WIDTH, WINDOW_WIDTH)));
            r.push((Target::GameConsole, (0, nav_height + WINDOW_WIDTH, WINDOW_WIDTH, WINDOW_WIDTH)));
        },
        Screen::Sprite => {
            r.push((Target::Sprite, (0, nav_height, WINDOW_WIDTH, WINDOW_WIDTH * 2)));
        },
        _ => {},
    }
    assert(r@ =~= match selected {
        Screen::Game => seq![
            (Target::Nav, (0usize, 0usize, 512usize, 32usize)),
            (Target::GameScript, (0usize, 32usize, 512usize, 512usize)),
            (Target::GameConsole, (0usize, 544usize, 512usize, 512usize)),
        ],
        Screen::Sprite => seq![
            (Target::Nav, (0usize, 0usize, 512usize, 32usize)),
            (Target::Sprite, (0usize, 32usize, 512usize, 1024usize)),
        ],
        _ => seq![(Target::Nav, (0usize, 0usize, 512usize, 32usize))],
    });
    r
}

} // verus!
