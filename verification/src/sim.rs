//! The per-frame simulation: rockets, the pixel grid, and frame compositing.

use vstd::prelude::*;
use vstd::pervasive::VecAdditionalExecFns;
use crate::darken::{spec_darken_color, darken_color, lemma_darken_decreases, lemma_darken_monotone};

verus! {

/// The fading trail behind a base color: darkening by one percent over and
/// over, keeping every intermediate color, ends at black and stops there.
pub open spec fn spec_trail(c: nat) -> Seq<u32>
    recommends
        c <= 0xFFFFFF,
    decreases c
        via spec_trail_decreases
{
    if c == 0 || c > 0xFFFFFF {
        Seq::empty()
    } else {
        seq![spec_darken_color(c, 1) as u32] + spec_trail(spec_darken_color(c, 1))
    }
}

#[via_fn]
proof fn spec_trail_decreases(c: nat) {
    if 1 <= c <= 0xFFFFFF {
        lemma_darken_decreases(c, 1);
        lemma_darken_monotone(c, 1);
    }
}

/// A trail is never longer than the packed value of its base color, and it
/// always ends exactly at black: repeated darkening terminates.
pub proof fn lemma_trail_reaches_black(c: nat)
    requires
        c <= 0xFFFFFF,
    ensures
        spec_trail(c).len() <= c,
        c > 0 ==> spec_trail(c).last() == 0,
        spec_trail(c).len() > 0 <==> c > 0,
    decreases c,
{
    if c > 0 {
        lemma_darken_decreases(c, 1);
        lemma_darken_monotone(c, 1);
        let d = spec_darken_color(c, 1);
        lemma_trail_reaches_black(d);
        if d > 0 {
            assert(spec_trail(c).last() == spec_trail(d).last());
        }
    }
}

/// A moving rocket: a head position, a base color, and the precomputed
/// fading trail drawn behind the head.
pub struct Rocket {
    /// Head column.
    pub x: usize,
    /// Head row.
    pub y: usize,
    /// Base color, packed `0xRRGGBB`.
    pub color: u32,
    /// Trail colors, nearest to the head first.
    pub trails: Vec<u32>,
}

/// A rocket is well formed when its base color is 24-bit and its trail is
/// exactly the fade-out of that base color.
pub open spec fn rocket_ok(rk: Rocket) -> bool {
    rk.color <= 0xFFFFFF && rk.trails@ == spec_trail(rk.color as nat)
}

impl Rocket {
    /// Builds a rocket at a position from a given base color, darkening the
    /// color by one percent per step until black to form the trail. The trail
    /// is nonempty exactly when the base color is not already black.
    pub fn with_color(x: usize, y: usize, color: u32) -> (rk: Rocket)
        requires
            color <= 0xFFFFFF,
        ensures
            rk.x == x,
            rk.y == y,
            rk.color == color,
            rocket_ok(rk),
            rk.trails@.len() > 0 <==> color > 0,
    {
        let mut trails: Vec<u32> = Vec::new();
        let mut trail_color: u32 = color;
        while trail_color > 0
            invariant
                color <= 0xFFFFFF,
                trail_color <= 0xFFFFFF,
                spec_trail(color as nat) =~= trails@ + spec_trail(trail_color as nat),
            decreases trail_color,
        {
            proof {
                lemma_darken_decreases(trail_color as nat, 1);
                lemma_darken_monotone(trail_color as nat, 1);
            }
            let next = darken_color(trail_color, 1);
            trails.push(next);
            proof {
                assert(spec_trail(color as nat) =~= trails@ + spec_trail(next as nat));
            }
            trail_color = next;
        }
        proof {
            assert(spec_trail(color as nat) =~= trails@);
            if color > 0 {
                lemma_trail_reaches_black(color as nat);
            }
        }
        Rocket { x, y, color, trails }
    }

    /// Spawns a rocket at a position with a fresh random base color.
    pub fn new(x: usize, y: usize) -> (rk: Rocket)
        ensures
            rk.x == x,
            rk.y == y,
            rocket_ok(rk),
    {
        let color = crate::color::random_rgb_color();
        Rocket::with_color(x, y, color)
    }
}

/// A grid is well formed as a `height`-row, `width`-column matrix.
pub open spec fn grid_ok(g: Seq<Vec<u32>>, width: nat, height: nat) -> bool {
    g.len() == height && forall|j: int| 0 <= j < height ==> (#[trigger] g[j])@.len() == width
}

/// Builds one all-black row.
fn make_row(width: usize) -> (row: Vec<u32>)
    ensures
        row@.len() == width,
        forall|i: int| 0 <= i < width ==> row@[i] == 0,
{
    let mut row: Vec<u32> = Vec::new();
    while row.len() < width
        invariant
            row@.len() <= width,
            forall|i: int| 0 <= i < row@.len() ==> row@[i] == 0,
        decreases width - row.len(),
    {
        row.push(0);
    }
    row
}

/// Builds an all-black grid: the frame starts from a cleared render target.
pub fn make_grid(width: usize, height: usize) -> (g: Vec<Vec<u32>>)
    ensures
        grid_ok(g@, width as nat, height as nat),
        forall|j: int, i: int|
            0 <= j < height && 0 <= i < width ==> (#[trigger] g@[j]@[i]) == 0,
{
    let mut g: Vec<Vec<u32>> = Vec::new();
    while g.len() < height
        invariant
            g@.len() <= height,
            forall|j: int| 0 <= j < g@.len() ==> (#[trigger] g@[j])@.len() == width,
            forall|j: int, i: int|
                0 <= j < g@.len() && 0 <= i < width ==> (#[trigger] g@[j]@[i]) == 0,
        decreases height - g.len(),
    {
        let row = make_row(width);
        g.push(row);
    }
    g
}

/// Writes one cell of the grid, leaving every other cell alone.
pub fn set_cell(grid: &mut Vec<Vec<u32>>, row: usize, col: usize, v: u32)
    requires
        row < old(grid)@.len(),
        col < old(grid)@[row as int]@.len(),
    ensures
        final(grid)@.len() == old(grid)@.len(),
        final(grid)@[row as int]@ =~= old(grid)@[row as int]@.update(col as int, v),
        forall|j: int|
            0 <= j < final(grid)@.len() && j != row ==> final(grid)@[j] == old(grid)@[j],
{
    let mut r: Vec<u32> = Vec::new();
    grid.set_and_swap(row, &mut r);
    r.set(col, v);
    grid.set_and_swap(row, &mut r);
}

/// The cross-hair color shown while the left mouse button is held.
pub const CROSS_LEFT: u32 = 0xffffff;

/// The cross-hair color shown while the middle mouse button is held.
pub const CROSS_MIDDLE: u32 = 0xff0000;

/// The cross-hair color shown while the right mouse button is held.
pub const CROSS_RIGHT: u32 = 0x0000ff;

/// The default light-gray cross-hair color when no button is held.
pub const CROSS_DEFAULT: u32 = 0xa0a0a0;

/// The cross-hair overlay color for a mouse-button state, with precedence
/// left > middle > right > none.
pub open spec fn spec_cross_color(left: bool, middle: bool, right: bool) -> u32 {
    if left {
        CROSS_LEFT
    } else if middle {
        CROSS_MIDDLE
    } else if right {
        CROSS_RIGHT
    } else {
        CROSS_DEFAULT
    }
}

/// Selects the cross-hair overlay color from the mouse-button state, with
/// precedence left > middle > right > none.
pub fn cross_color(left: bool, middle: bool, right: bool) -> (c: u32)
    ensures
        c == spec_cross_color(left, middle, right),
        left ==> c == CROSS_LEFT,
        !left && middle ==> c == CROSS_MIDDLE,
        !left && !middle && right ==> c == CROSS_RIGHT,
        !left && !middle && !right ==> c == CROSS_DEFAULT,
{
    if left {
        CROSS_LEFT
    } else if middle {
        CROSS_MIDDLE
    } else if right {
        CROSS_RIGHT
    } else {
        CROSS_DEFAULT
    }
}

/// The frame loop keeps running until the window is gone or the exit key is
/// held; this is the `Running -> Exiting` transition test.
pub fn should_exit(window_open: bool, exit_key_down: bool) -> (b: bool)
    ensures
        b == (!window_open || exit_key_down),
{
    !window_open || exit_key_down
}

/// Draws the cross-hair overlay at the cursor cell: every cell of the
/// cursor's row and every cell of the cursor's column take the overlay
/// color, and no other cell changes.
pub fn show_cross(
    grid: &mut Vec<Vec<u32>>,
    size: (usize, usize),
    mouse_coord: (usize, usize),
    color: u32,
)
    requires
        grid_ok(old(grid)@, size.0 as nat, size.1 as nat),
        mouse_coord.0 < size.0,
        mouse_coord.1 < size.1,
    ensures
        grid_ok(final(grid)@, size.0 as nat, size.1 as nat),
        forall|i: int|
            0 <= i < size.0 ==> (#[trigger] final(grid)@[mouse_coord.1 as int]@[i]) == color,
        forall|j: int|
            0 <= j < size.1 ==> (#[trigger] final(grid)@[j]@[mouse_coord.0 as int]) == color,
        forall|j: int, i: int|
            0 <= j < size.1 && 0 <= i < size.0 && j != mouse_coord.1 && i != mouse_coord.0
                ==> (#[trigger] final(grid)@[j]@[i]) == old(grid)@[j]@[i],
{
    let (width, height) = size;
    let (mouse_x, mouse_y) = mouse_coord;
    let ghost g0 = old(grid)@;
    let mut i: usize = 0;
    while i < width
        invariant
            grid_ok(grid@, width as nat, height as nat),
            mouse_x < width,
            mouse_y < height,
            i <= width,
            forall|j: int| 0 <= j < height && j != mouse_y ==> grid@[j] == g0[j],
            grid_ok(g0, width as nat, height as nat),
            forall|k: int| 0 <= k < i ==> (#[trigger] grid@[mouse_y as int]@[k]) == color,
            forall|k: int|
                i <= k < width ==> (#[trigger] grid@[mouse_y as int]@[k]) == g0[mouse_y as int]@[k],
        decreases width - i,
    {
        set_cell(grid, mouse_y, i, color);
        i = i + 1;
    }
    let ghost g1 = grid@;
    let mut j: usize = 0;
    while j < height
        invariant
            grid_ok(grid@, width as nat, height as nat),
            grid_ok(g1, width as nat, height as nat),
            mouse_x < width,
            mouse_y < height,
            j <= height,
            forall|jj: int| j <= jj < height ==> grid@[jj] == g1[jj],
            forall|jj: int| 0 <= jj < j ==> (#[trigger] grid@[jj]@[mouse_x as int]) == color,
            forall|jj: int, k: int|
                0 <= jj < j && 0 <= k < width && k != mouse_x
                    ==> (#[trigger] grid@[jj]@[k]) == g1[jj]@[k],
        decreases height - j,
    {
        set_cell(grid, j, mouse_x, color);
        j = j + 1;
    }
}

/// The paint one rocket puts on a cell once its head and the first `k` trail
/// entries are drawn: the base color at the head, the `t`-th trail color
/// `t + 1` columns left of the head, nothing elsewhere. Trail pixels left of
/// the grid are skipped silently.
pub open spec fn rocket_paint_upto(rk: Rocket, row: int, col: int, k: int) -> Option<u32> {
    if row != rk.y {
        Option::None
    } else if col == rk.x {
        Option::Some(rk.color)
    } else if 0 <= col < rk.x && rk.x - col - 1 < k && rk.x - col - 1 < rk.trails@.len() {
        Option::Some(rk.trails@[rk.x - col - 1])
    } else {
        Option::None
    }
}

/// The paint one rocket puts on a cell, head and full trail.
pub open spec fn rocket_paint(rk: Rocket, row: int, col: int) -> Option<u32> {
    rocket_paint_upto(rk, row, col, rk.trails@.len() as int)
}

/// The painter's fold over a rocket list: the last rocket in collection
/// order that covers a cell decides its color; a cell nobody covers keeps
/// `base`.
pub open spec fn painted(rockets: Seq<Rocket>, row: int, col: int, base: u32) -> u32
    decreases rockets.len(),
{
    if rockets.len() == 0 {
        base
    } else {
        match rocket_paint(rockets.last(), row, col) {
            Option::Some(v) => v,
            Option::None => painted(rockets.drop_last(), row, col, base),
        }
    }
}

/// The cell color while rocket `r` is partially drawn: its own paint up to
/// trail entry `k` wins, otherwise whatever the first `r` rockets left.
pub open spec fn partial_cell(
    rockets: Seq<Rocket>,
    r: int,
    k: int,
    row: int,
    col: int,
    base: u32,
) -> u32 {
    match rocket_paint_upto(rockets[r], row, col, k) {
        Option::Some(v) => v,
        Option::None => painted(rockets.take(r), row, col, base),
    }
}

/// If the rocket at index `hi` covers a cell and every later rocket leaves
/// that cell alone, the cell holds rocket `hi`'s paint: later rockets win
/// at every overlap.
pub proof fn lemma_later_rocket_wins(
    rockets: Seq<Rocket>,
    row: int,
    col: int,
    base: u32,
    hi: int,
)
    requires
        0 <= hi < rockets.len(),
        rocket_paint(rockets[hi], row, col) is Some,
        forall|k: int| hi < k < rockets.len() ==> rocket_paint(#[trigger] rockets[k], row, col) is None,
    ensures
        painted(rockets, row, col, base) == rocket_paint(rockets[hi], row, col).unwrap(),
    decreases rockets.len(),
{
    if hi == rockets.len() - 1 {
    } else {
        assert(rocket_paint(rockets.last(), row, col) is None);
        lemma_later_rocket_wins(rockets.drop_last(), row, col, base, hi);
    }
}

/// Every rocket head and row must be inside the grid to rasterize.
pub open spec fn rockets_in_bounds(rockets: Seq<Rocket>, width: nat, height: nat) -> bool {
    forall|i: int|
        0 <= i < rockets.len() ==> (#[trigger] rockets[i]).x < width && rockets[i].y < height
}

/// Rasterizes every rocket in collection order: head pixel first, then the
/// trail one column at a time to the left, skipping columns left of the
/// grid; later rockets overpaint earlier ones wherever they collide.
pub fn rasterize(grid: &mut Vec<Vec<u32>>, rockets: &Vec<Rocket>, size: (usize, usize))
    requires
        grid_ok(old(grid)@, size.0 as nat, size.1 as nat),
        rockets_in_bounds(rockets@, size.0 as nat, size.1 as nat),
    ensures
        grid_ok(final(grid)@, size.0 as nat, size.1 as nat),
        forall|j: int, i: int|
            0 <= j < size.1 && 0 <= i < size.0
                ==> (#[trigger] final(grid)@[j]@[i]) == painted(
                    rockets@, j, i, old(grid)@[j]@[i]),
{
    let (width, height) = size;
    let ghost g0 = old(grid)@;
    let mut r: usize = 0;
    while r < rockets.len()
        invariant
            grid_ok(grid@, width as nat, height as nat),
            grid_ok(g0, width as nat, height as nat),
            rockets_in_bounds(rockets@, width as nat, height as nat),
            r <= rockets@.len(),
            forall|j: int, i: int|
                0 <= j < height && 0 <= i < width
                    ==> (#[trigger] grid@[j]@[i]) == painted(
                        rockets@.take(r as int), j, i, g0[j]@[i]),
        decreases rockets@.len() - r,
    {
        let rk = &rockets[r];
        let x = rk.x;
        let y = rk.y;
        set_cell(grid, y, x, rk.color);
        let mut k: usize = 0;
        while k < rk.trails.len()
            invariant
                grid_ok(grid@, width as nat, height as nat),
                grid_ok(g0, width as nat, height as nat),
                rockets_in_bounds(rockets@, width as nat, height as nat),
                r < rockets@.len(),
                k <= rk.trails@.len(),
                rk == rockets@[r as int],
                x == rk.x && y == rk.y,
                x < width && y < height,
                forall|j: int, i: int|
                    0 <= j < height && 0 <= i < width
                        ==> (#[trigger] grid@[j]@[i]) == partial_cell(
                            rockets@, r as int, k as int, j, i, g0[j]@[i]),
            decreases rk.trails@.len() - k,
        {
            if k + 1 <= x {
                set_cell(grid, y, x - 1 - k, rk.trails[k]);
            }
            k = k + 1;
        }
        proof {
            assert(rockets@.take(r as int + 1).drop_last() =~= rockets@.take(r as int));
            assert(rockets@.take(r as int + 1).last() == rockets@[r as int]);
            assert forall|j: int, i: int|
                0 <= j < height && 0 <= i < width implies (#[trigger] grid@[j]@[i]) == painted(
                rockets@.take(r as int + 1), j, i, g0[j]@[i]) by {
                assert(grid@[j]@[i] == partial_cell(
                    rockets@, r as int, rk.trails@.len() as int, j, i, g0[j]@[i]));
            }
        }
        r = r + 1;
    }
    proof {
        assert(rockets@.take(rockets@.len() as int) =~= rockets@);
    }
}

/// Flattens the grid into one pixel buffer in row-major order.
pub fn flatten(grid: &Vec<Vec<u32>>, size: (usize, usize)) -> (buf: Vec<u32>)
    requires
        grid_ok(grid@, size.0 as nat, size.1 as nat),
        size.0 * size.1 <= usize::MAX,
    ensures
        buf@.len() == size.0 * size.1,
        forall|j: int, i: int|
            0 <= j < size.1 && 0 <= i < size.0 ==> buf@[j * size.0 + i] == (#[trigger] grid@[
                j]@[i]),
{
    let (width, height) = size;
    let mut buf: Vec<u32> = Vec::new();
    let mut j: usize = 0;
    while j < height
        invariant
            grid_ok(grid@, width as nat, height as nat),
            j <= height,
            width * height <= usize::MAX,
            buf@.len() == j * width,
            forall|jj: int, i: int|
                0 <= jj < j && 0 <= i < width ==> buf@[jj * width + i] == (#[trigger] grid@[
                    jj]@[i]),
        decreases height - j,
    {
        proof {
            assert((j + 1) * width <= height * width) by (nonlinear_arith)
                requires
                    j + 1 <= height,
            ;
            assert(height * width == width * height) by (nonlinear_arith);
            assert((j + 1) * width == j * width + width) by (nonlinear_arith);
        }
        let mut i: usize = 0;
        while i < width
            invariant
                grid_ok(grid@, width as nat, height as nat),
                j < height,
                i <= width,
                width * height <= usize::MAX,
                (j + 1) * width <= width * height,
                (j + 1) * width == j * width + width,
                buf@.len() == j * width + i,
                forall|jj: int, ii: int|
                    0 <= jj < j && 0 <= ii < width ==> buf@[jj * width + ii] == (#[trigger] grid@[
                        jj]@[ii]),
                forall|ii: int|
                    0 <= ii < i ==> buf@[j * width + ii] == (#[trigger] grid@[j as int]@[ii]),
            decreases width - i,
        {
            let row: &Vec<u32> = &grid[j];
            let v: u32 = row[i];
            buf.push(v);
            i = i + 1;
            proof {
                assert forall|jj: int, ii: int|
                    0 <= jj < j && 0 <= ii < width implies buf@[jj * width + ii] == (
                #[trigger] grid@[jj]@[ii]) by {
                    assert((jj + 1) * width <= j * width) by (nonlinear_arith)
                        requires
                            jj + 1 <= j,
                    ;
                    assert((jj + 1) * width == jj * width + width) by (nonlinear_arith);
                }
            }
        }
        j = j + 1;
        proof {
            assert(j * width == (j - 1) * width + width) by (nonlinear_arith);
            assert forall|jj: int, ii: int|
                0 <= jj < j && 0 <= ii < width implies buf@[jj * width + ii] == (
            #[trigger] grid@[jj]@[ii]) by {
                assert((jj + 1) * width <= j * width) by (nonlinear_arith)
                    requires
                        jj + 1 <= j,
                ;
                assert((jj + 1) * width == jj * width + width) by (nonlinear_arith);
            }
        }
    }
    proof {
        assert(height * width == width * height) by (nonlinear_arith);
    }
    buf
}

/// One frame of movement: every rocket shifts two columns to the right, and
/// any rocket whose new column reaches the grid width is silently dropped.
pub open spec fn spec_advance(rockets: Seq<Rocket>, width: nat) -> Seq<Rocket>
    decreases rockets.len(),
{
    if rockets.len() == 0 {
        Seq::empty()
    } else {
        let moved = Rocket { x: (rockets.first().x + 2) as usize, ..rockets.first() };
        let rest = spec_advance(rockets.drop_first(), width);
        if (moved.x as nat) < width {
            seq![moved] + rest
        } else {
            rest
        }
    }
}

/// Advances the rocket collection in place.
pub fn advance_rockets(rockets: &mut Vec<Rocket>, width: usize)
    requires
        width <= usize::MAX - 2,
        forall|i: int| 0 <= i < old(rockets)@.len() ==> (#[trigger] old(rockets)@[i]).x < width,
    ensures
        final(rockets)@ == spec_advance(old(rockets)@, width as nat),
{
    let mut src: Vec<Rocket> = Vec::new();
    core::mem::swap(rockets, &mut src);
    let ghost all = src@;
    while src.len() > 0
        invariant
            forall|i: int| 0 <= i < src@.len() ==> (#[trigger] src@[i]).x < width,
            width <= usize::MAX - 2,
            spec_advance(all, width as nat) == rockets@ + spec_advance(src@, width as nat),
        decreases src@.len(),
    {
        let ghost pre = src@;
        let rk = src.remove(0);
        proof {
            assert(src@ =~= pre.drop_first());
            assert(pre.first() == rk);
        }
        let nx = rk.x + 2;
        let ghost moved_spec = Rocket { x: (pre.first().x + 2) as usize, ..pre.first() };
        if nx < width {
            let moved = Rocket { x: nx, y: rk.y, color: rk.color, trails: rk.trails };
            proof {
                assert(moved == moved_spec);
            }
            rockets.push(moved);
            proof {
                assert(rockets@ + spec_advance(src@, width as nat) =~= spec_advance(
                    all, width as nat));
            }
        } else {
            proof {
                assert(rockets@ + spec_advance(src@, width as nat) =~= spec_advance(
                    all, width as nat));
            }
        }
    }
    proof {
        assert(rockets@ + spec_advance(src@, width as nat) =~= rockets@);
    }
}

/// `n` advances in a row, with no spawns in between.
pub open spec fn spec_advance_n(rockets: Seq<Rocket>, width: nat, n: nat) -> Seq<Rocket>
    decreases n,
{
    if n == 0 {
        rockets
    } else {
        spec_advance_n(spec_advance(rockets, width), width, (n - 1) as nat)
    }
}

/// Advancing an empty collection any number of times stays empty.
pub proof fn lemma_advance_n_empty(width: nat, n: nat)
    ensures
        spec_advance_n(Seq::<Rocket>::empty(), width, n) == Seq::<Rocket>::empty(),
    decreases n,
{
    if n > 0 {
        lemma_advance_n_empty(width, (n - 1) as nat);
    }
}

/// A single rocket's course: with no spawns, after `n` steps its head column
/// is exactly its start plus `2 n` while that stays left of the width, and
/// the first step that would reach or pass the width removes it for good.
pub proof fn lemma_single_rocket_course(rk: Rocket, width: nat, n: nat)
    requires
        (rk.x as nat) < width,
        rk.x + 2 * n <= usize::MAX,
    ensures
        rk.x + 2 * n < width ==> spec_advance_n(seq![rk], width, n) == seq![
            Rocket { x: (rk.x + 2 * n) as usize, ..rk },
        ],
        rk.x + 2 * n >= width ==> spec_advance_n(seq![rk], width, n) == Seq::<Rocket>::empty(),
    decreases n,
{
    if n == 0 {
        assert(seq![Rocket { x: (rk.x + 2 * 0) as usize, ..rk }] =~= seq![rk]);
    } else {
        let moved = Rocket { x: (rk.x + 2) as usize, ..rk };
        assert(seq![rk].first() == rk);
        assert(seq![rk].drop_first() =~= Seq::<Rocket>::empty());
        assert(spec_advance(seq![rk].drop_first(), width) == Seq::<Rocket>::empty());
        assert(seq![moved] + Seq::<Rocket>::empty() =~= seq![moved]);
        if (moved.x as nat) < width {
            assert(spec_advance(seq![rk], width) =~= seq![moved]);
            lemma_single_rocket_course(moved, width, (n - 1) as nat);
            assert(moved.x + 2 * (n - 1) == rk.x + 2 * n);
        } else {
            assert(spec_advance(seq![rk], width) =~= Seq::<Rocket>::empty());
            lemma_advance_n_empty(width, (n - 1) as nat);
        }
    }
}

/// One frame of input, as plain values polled by the host windowing layer.
pub struct FrameInput {
    /// The spawn key went down this frame (edge-triggered, no auto-repeat).
    pub spawn_key: bool,
    /// The cursor cell, when the cursor is over the window.
    pub mouse_pos: Option<(usize, usize)>,
    /// The left mouse button is held.
    pub left_down: bool,
    /// The middle mouse button is held.
    pub middle_down: bool,
    /// The right mouse button is held.
    pub right_down: bool,
}

/// The cursor cell after bounds filtering: a position outside the grid is
/// discarded rather than clamped.
pub open spec fn spec_mouse_in(input: FrameInput, width: nat, height: nat) -> Option<(usize, usize)> {
    match input.mouse_pos {
        Option::Some(p) => if p.0 < width && p.1 < height {
            Option::Some(p)
        } else {
            Option::None
        },
        Option::None => Option::None,
    }
}

/// The rockets a frame spawns: one keyboard spawn at column zero on some
/// in-range row, then one mouse spawn exactly at the cursor cell, each
/// present exactly when its trigger fired.
pub open spec fn spawn_shape(
    spawned: Seq<Rocket>,
    input: FrameInput,
    width: nat,
    height: nat,
) -> bool {
    let key: int = if input.spawn_key { 1 } else { 0 };
    let cell = spec_mouse_in(input, width, height);
    let mouse: int = if input.left_down && cell is Some { 1 } else { 0 };
    &&& spawned.len() == key + mouse
    &&& (forall|i: int|
        0 <= i < spawned.len() ==> rocket_ok(#[trigger] spawned[i]) && (
        spawned[i].x as nat) < width && (spawned[i].y as nat) < height)
    &&& (input.spawn_key ==> spawned[0].x == 0)
    &&& (input.left_down && cell is Some ==> spawned.last().x == cell.unwrap().0
        && spawned.last().y == cell.unwrap().1)
}

/// The finished frame at a cell: this frame's rockets painted over black,
/// with the cross-hair overlay on the cursor's row and column when the
/// cursor is on the grid.
pub open spec fn spec_frame_pixel(
    rockets: Seq<Rocket>,
    input: FrameInput,
    width: nat,
    height: nat,
    row: int,
    col: int,
) -> u32 {
    let under = painted(rockets, row, col, 0);
    match spec_mouse_in(input, width, height) {
        Option::Some(p) => if row == p.1 || col == p.0 {
            spec_cross_color(input.left_down, input.middle_down, input.right_down)
        } else {
            under
        },
        Option::None => under,
    }
}

/// Runs one whole frame: clears the grid, spawns rockets for this frame's
/// triggers, rasterizes every rocket in collection order, overlays the
/// cross-hair, flattens the grid into a row-major pixel buffer for the
/// presentation layer, and finally advances the rockets, dropping the ones
/// that leave the grid. The spawned rockets' colors (and the keyboard spawn
/// row) are drawn at random, so they are only constrained, not determined.
pub fn draw_cycle(
    grid: &mut Vec<Vec<u32>>,
    rockets: &mut Vec<Rocket>,
    input: FrameInput,
    size: (usize, usize),
) -> (buf: Vec<u32>)
    requires
        size.0 == crate::WIDTH,
        size.1 == crate::HEIGHT,
        forall|i: int|
            0 <= i < old(rockets)@.len() ==> rocket_ok(#[trigger] old(rockets)@[i]) && (old(
            rockets)@[i].x as nat) < size.0 && (old(rockets)@[i].y as nat) < size.1,
    ensures
        grid_ok(final(grid)@, size.0 as nat, size.1 as nat),
        forall|i: int|
            0 <= i < final(rockets)@.len() ==> rocket_ok(#[trigger] final(rockets)@[i]) && (final(
            rockets)@[i].x as nat) < size.0 && (final(rockets)@[i].y as nat) < size.1,
        buf@.len() == size.0 * size.1,
        forall|j: int, i: int|
            0 <= j < size.1 && 0 <= i < size.0 ==> buf@[j * size.0 + i] == (#[trigger] final(
            grid)@[j]@[i]),
        exists|spawned: Seq<Rocket>|
            {
                &&& #[trigger] spawn_shape(spawned, input, size.0 as nat, size.1 as nat)
                &&& final(rockets)@ == spec_advance(
                    old(rockets)@ + spawned, size.0 as nat)
                &&& forall|j: int, i: int|
                    0 <= j < size.1 && 0 <= i < size.0 ==> (#[trigger] buf@[j * size.0 + i])
                        == spec_frame_pixel(
                        old(rockets)@ + spawned, input, size.0 as nat, size.1 as nat, j, i)
            },
{
    let (width, height) = size;
    let ghost rockets0 = rockets@;
    *grid = make_grid(width, height);
    if input.spawn_key {
        let row = crate::color::random_y_index();
        let rk = Rocket::new(0, row);
        rockets.push(rk);
    }
    let mouse: Option<(usize, usize)> = match input.mouse_pos {
        Option::Some((mx, my)) => if mx < width && my < height {
            Option::Some((mx, my))
        } else {
            Option::None
        },
        Option::None => Option::None,
    };
    proof {
        assert(mouse == spec_mouse_in(input, width as nat, height as nat));
    }
    if input.left_down {
        if let Option::Some((mx, my)) = mouse {
            let rk = Rocket::new(mx, my);
            rockets.push(rk);
        }
    }
    let ghost spawned = rockets@.skip(rockets0.len() as int);
    proof {
        assert(rockets0 + spawned =~= rockets@);
        assert(spawn_shape(spawned, input, width as nat, height as nat));
    }
    rasterize(grid, rockets, size);
    let cc = cross_color(input.left_down, input.middle_down, input.right_down);
    if let Option::Some((mx, my)) = mouse {
        show_cross(grid, size, (mx, my), cc);
    }
    let buf = flatten(grid, size);
    proof {
        assert forall|j: int, i: int|
            0 <= j < height && 0 <= i < width implies (#[trigger] buf@[j * width + i])
            == spec_frame_pixel(
            rockets0 + spawned, input, width as nat, height as nat, j, i) by {
            assert(buf@[j * width + i] == grid@[j]@[i]);
            assert(painted(rockets@, j, i, 0) == painted(rockets0 + spawned, j, i, 0));
            match spec_mouse_in(input, width as nat, height as nat) {
                Option::Some(p) => {
                    if j == p.1 || i == p.0 {
                        assert(grid@[j]@[i] == cc);
                    } else {
                        assert(grid@[j]@[i] == painted(rockets@, j, i, 0));
                    }
                },
                Option::None => {
                    assert(grid@[j]@[i] == painted(rockets@, j, i, 0));
                },
            }
        }
    }
    let ghost mid = rockets@;
    advance_rockets(rockets, width);
    proof {
        lemma_advance_preserves(mid, width as nat, height as nat);
        assert(rockets@ == spec_advance(rockets0 + spawned, width as nat));
    }
    buf
}

/// Advancing keeps every surviving rocket well formed and inside the grid.
pub proof fn lemma_advance_preserves(rockets: Seq<Rocket>, width: nat, height: nat)
    requires
        forall|i: int|
            0 <= i < rockets.len() ==> rocket_ok(#[trigger] rockets[i]) && (
            rockets[i].y as nat) < height && (rockets[i].x as nat) < width,
        width <= usize::MAX - 2,
    ensures
        forall|i: int|
            0 <= i < spec_advance(rockets, width).len() ==> rocket_ok(
                #[trigger] spec_advance(rockets, width)[i]) && (spec_advance(
                rockets, width)[i].x as nat) < width && (spec_advance(
                rockets, width)[i].y as nat) < height,
    decreases rockets.len(),
{
    if rockets.len() > 0 {
        lemma_advance_preserves(rockets.drop_first(), width, height);
        let moved = Rocket { x: (rockets.first().x + 2) as usize, ..rockets.first() };
        let rest = spec_advance(rockets.drop_first(), width);
        if (moved.x as nat) < width {
            assert(spec_advance(rockets, width) == seq![moved] + rest);
            assert(rocket_ok(moved));
            assert forall|i: int|
                0 <= i < spec_advance(rockets, width).len() implies rocket_ok(
                #[trigger] spec_advance(rockets, width)[i]) && (spec_advance(
                rockets, width)[i].x as nat) < width && (spec_advance(
                rockets, width)[i].y as nat) < height by {
                if i == 0 {
                } else {
                    assert(spec_advance(rockets, width)[i] == rest[i - 1]);
                }
            }
        }
    }
}

} // verus!
