//! The RNA renderer: a color bucket, a turtle-style cursor, a stack
//! of bitmaps, line drawing, flood fill and composition, driven by
//! 7-base instructions.

use vstd::prelude::*;

use crate::base::Base;

verus! {

/// A point on the 600 by 600 grid.
#[derive(Debug, PartialEq, Eq, Hash, Copy, Clone, Structural)]
pub struct Position(pub u32, pub u32);

pub open spec fn pos_wf(p: Position) -> bool {
    p.0 < 600 && p.1 < 600
}

#[derive(Debug, PartialEq, Eq, Copy, Clone, Structural)]
pub enum Direction {
    Up,
    Right,
    Down,
    Left,
}

pub open spec fn spec_turn_ccw(d: Direction) -> Direction {
    match d {
        Direction::Up => Direction::Left,
        Direction::Right => Direction::Up,
        Direction::Down => Direction::Right,
        Direction::Left => Direction::Down,
    }
}

pub open spec fn spec_turn_cw(d: Direction) -> Direction {
    match d {
        Direction::Up => Direction::Right,
        Direction::Right => Direction::Down,
        Direction::Down => Direction::Left,
        Direction::Left => Direction::Up,
    }
}

impl Direction {
    pub fn turn_ccw(&self) -> (r: Direction)
        ensures
            r == spec_turn_ccw(*self),
    {
        match self {
            Direction::Up => Direction::Left,
            Direction::Right => Direction::Up,
            Direction::Down => Direction::Right,
            Direction::Left => Direction::Down,
        }
    }

    pub fn turn_cw(&self) -> (r: Direction)
        ensures
            r == spec_turn_cw(*self),
    {
        match self {
            Direction::Up => Direction::Right,
            Direction::Right => Direction::Down,
            Direction::Down => Direction::Left,
            Direction::Left => Direction::Up,
        }
    }
}

/// One step in a direction; both axes wrap modulo 600.
pub open spec fn spec_move(p: Position, dir: Direction) -> Position {
    match dir {
        Direction::Up => Position(
            p.0,
            if p.1 == 0 {
                599
            } else {
                (p.1 - 1) as u32
            },
        ),
        Direction::Right => Position(
            if p.0 == 599 {
                0
            } else {
                (p.0 + 1) as u32
            },
            p.1,
        ),
        Direction::Down => Position(
            p.0,
            if p.1 == 599 {
                0
            } else {
                (p.1 + 1) as u32
            },
        ),
        Direction::Left => Position(
            if p.0 == 0 {
                599
            } else {
                (p.0 - 1) as u32
            },
            p.1,
        ),
    }
}

impl Position {
    pub fn move_(&self, dir: Direction) -> (r: Position)
        requires
            pos_wf(*self),
        ensures
            pos_wf(r),
            r == spec_move(*self, dir),
    {
        let Position(x, y) = *self;
        match dir {
            Direction::Up => Position(
                x,
                if y == 0 {
                    599
                } else {
                    y - 1
                },
            ),
            Direction::Right => Position(
                if x == 599 {
                    0
                } else {
                    x + 1
                },
                y,
            ),
            Direction::Down => Position(
                x,
                if y == 599 {
                    0
                } else {
                    y + 1
                },
            ),
            Direction::Left => Position(
                if x == 0 {
                    599
                } else {
                    x - 1
                },
                y,
            ),
        }
    }
}

#[derive(Debug, PartialEq, Eq, Copy, Clone, Structural)]
pub struct RGB(pub u8, pub u8, pub u8);

/// A pixel; its color channels are premultiplied by the alpha after
/// bucket averaging.
#[derive(Debug, PartialEq, Eq, Copy, Clone, Structural)]
pub struct Pixel {
    pub rgb: RGB,
    pub a: u8,
}

/// One sample in the color bucket: an opaque color or a transparency.
#[derive(Debug, PartialEq, Eq, Copy, Clone, Structural)]
pub enum Color {
    RGB(RGB),
    Transparency(u8),
}

/// The channel totals and sample counts a bucket reduces to.
#[verifier::ext_equal]
pub struct BucketSums {
    pub rgb_n: nat,
    pub r: nat,
    pub g: nat,
    pub b: nat,
    pub t_n: nat,
    pub a: nat,
}

pub open spec fn color_sums(c: Color) -> BucketSums {
    match c {
        Color::RGB(rgb) => BucketSums {
            rgb_n: 1,
            r: rgb.0 as nat,
            g: rgb.1 as nat,
            b: rgb.2 as nat,
            t_n: 0,
            a: 0,
        },
        Color::Transparency(a) => BucketSums { rgb_n: 0, r: 0, g: 0, b: 0, t_n: 1, a: a as nat },
    }
}

pub open spec fn add_sums(x: BucketSums, y: BucketSums) -> BucketSums {
    BucketSums {
        rgb_n: x.rgb_n + y.rgb_n,
        r: x.r + y.r,
        g: x.g + y.g,
        b: x.b + y.b,
        t_n: x.t_n + y.t_n,
        a: x.a + y.a,
    }
}

pub open spec fn zero_sums() -> BucketSums {
    BucketSums { rgb_n: 0, r: 0, g: 0, b: 0, t_n: 0, a: 0 }
}

/// All contributions of a sample list, summed before any division.
pub open spec fn sums(s: Seq<Color>) -> BucketSums
    decreases s.len(),
{
    if s.len() == 0 {
        zero_sums()
    } else {
        add_sums(sums(s.drop_last()), color_sums(s.last()))
    }
}

/// Integer average, truncating toward zero, with a default for the
/// empty case.
pub open spec fn avg(sum: nat, count: nat, default: nat) -> nat {
    if count == 0 {
        default
    } else {
        sum / count
    }
}

/// The single pixel a sample list reduces to: channel-wise averages
/// (default black, default opaque), then premultiplied by the alpha.
pub open spec fn bucket_pixel(s: Seq<Color>) -> Pixel {
    let m = sums(s);
    let r = avg(m.r, m.rgb_n, 0);
    let g = avg(m.g, m.rgb_n, 0);
    let b = avg(m.b, m.rgb_n, 0);
    let a = avg(m.a, m.t_n, 255);
    Pixel {
        rgb: RGB(((r * a) / 255) as u8, ((g * a) / 255) as u8, ((b * a) / 255) as u8),
        a: a as u8,
    }
}

/// Removing one sample removes exactly its contribution.
proof fn lemma_sums_remove(s: Seq<Color>, j: int)
    requires
        0 <= j < s.len(),
    ensures
        sums(s) == add_sums(sums(s.remove(j)), color_sums(s[j])),
    decreases s.len(),
{
    if j == s.len() - 1 {
        assert(s.remove(j) =~= s.drop_last());
    } else {
        assert(s.remove(j).drop_last() =~= s.drop_last().remove(j));
        assert(s.remove(j).last() == s.last());
        lemma_sums_remove(s.drop_last(), j);
        assert(s.drop_last()[j] == s[j]);
    }
}

proof fn lemma_sums_permutation(s1: Seq<Color>, s2: Seq<Color>)
    requires
        s1.to_multiset() == s2.to_multiset(),
    ensures
        sums(s1) == sums(s2),
    decreases s1.len(),
{
    broadcast use vstd::seq_lib::group_to_multiset_ensures;

    if s1.len() == 0 {
        assert(s2.to_multiset().len() == 0);
        assert(s2.len() == 0);
    } else {
        let c = s1.last();
        assert(s1.contains(c));
        assert(s1.to_multiset().count(c) > 0);
        assert(s2.to_multiset().count(c) > 0);
        assert(s2.contains(c));
        let j = choose|j: int| 0 <= j < s2.len() && s2[j] == c;
        let s1d = s1.drop_last();
        let s2r = s2.remove(j);
        assert(s1.remove(s1.len() - 1) =~= s1d);
        assert(s1d.to_multiset() =~= s1.to_multiset().remove(c));
        assert(s2r.to_multiset() =~= s2.to_multiset().remove(c));
        lemma_sums_permutation(s1d, s2r);
        lemma_sums_remove(s2, j);
    }
}

/// The bucket's averaged pixel does not depend on the order in which
/// samples were added: all contributions are summed before dividing.
pub proof fn lemma_bucket_order_invariant(s1: Seq<Color>, s2: Seq<Color>)
    requires
        s1.to_multiset() == s2.to_multiset(),
    ensures
        bucket_pixel(s1) == bucket_pixel(s2),
{
    lemma_sums_permutation(s1, s2);
}

/// The byte at offset `m` of the row-major red, green, blue
/// flattening of a grid.
pub open spec fn rgb_byte(g: Seq<Pixel>, m: int) -> u8 {
    if m % 3 == 0 {
        g[m / 3].rgb.0
    } else if m % 3 == 1 {
        g[m / 3].rgb.1
    } else {
        g[m / 3].rgb.2
    }
}

pub open spec fn transparent_pixel() -> Pixel {
    Pixel { rgb: RGB(0, 0, 0), a: 0 }
}

/// The index of a position in the row-major grid.
pub open spec fn pos_idx(x: int, y: int) -> int {
    y * 600 + x
}

/// One channel of the Porter-Duff "over": the top contribution plus
/// the underlying one scaled by what the top lets through, reduced to
/// a byte as a register would.
pub open spec fn over_channel(c0: u8, c1: u8, a0: u8) -> u8 {
    (((c0 + (c1 * (255 - a0)) / 255)) % 256) as u8
}

/// "Over" composition of one pixel of the top layer onto the one
/// beneath it; both are premultiplied.
pub open spec fn compose_pixel(p0: Pixel, p1: Pixel) -> Pixel {
    Pixel {
        rgb: RGB(
            over_channel(p0.rgb.0, p1.rgb.0, p0.a),
            over_channel(p0.rgb.1, p1.rgb.1, p0.a),
            over_channel(p0.rgb.2, p1.rgb.2, p0.a),
        ),
        a: over_channel(p0.a, p1.a, p0.a),
    }
}

pub open spec fn compose_grids(top: Seq<Pixel>, under: Seq<Pixel>) -> Seq<Pixel> {
    Seq::new(under.len(), |i: int| compose_pixel(top[i], under[i]))
}

pub open spec fn clip_channel(c1: u8, a0: u8) -> u8 {
    ((c1 * a0) / 255) as u8
}

/// Clipping one pixel by the mask's alpha.
pub open spec fn clip_pixel(mask: Pixel, p1: Pixel) -> Pixel {
    Pixel {
        rgb: RGB(
            clip_channel(p1.rgb.0, mask.a),
            clip_channel(p1.rgb.1, mask.a),
            clip_channel(p1.rgb.2, mask.a),
        ),
        a: clip_channel(p1.a, mask.a),
    }
}

pub open spec fn clip_grids(mask: Seq<Pixel>, under: Seq<Pixel>) -> Seq<Pixel> {
    Seq::new(under.len(), |i: int| clip_pixel(mask[i], under[i]))
}

/// Composing a fully transparent bitmap over any bitmap yields the
/// original bitmap.
pub proof fn lemma_compose_transparent_identity(top: Seq<Pixel>, under: Seq<Pixel>)
    requires
        top.len() == under.len(),
        forall|i: int| 0 <= i < top.len() ==> top[i] == transparent_pixel(),
    ensures
        compose_grids(top, under) == under,
{
    assert forall|i: int| 0 <= i < under.len() implies compose_grids(top, under)[i] == under[i] by {
        let p1 = under[i];
        vstd::arithmetic::div_mod::lemma_div_multiples_vanish(p1.rgb.0 as int, 255);
        vstd::arithmetic::div_mod::lemma_div_multiples_vanish(p1.rgb.1 as int, 255);
        vstd::arithmetic::div_mod::lemma_div_multiples_vanish(p1.rgb.2 as int, 255);
        vstd::arithmetic::div_mod::lemma_div_multiples_vanish(p1.a as int, 255);
        assert(p1.rgb.0 as int * 255 == 255 * p1.rgb.0 as int);
        assert(compose_pixel(transparent_pixel(), p1) == p1);
    }
    assert(compose_grids(top, under) =~= under);
}

/// Composing a fully opaque bitmap over any bitmap yields the opaque
/// bitmap.
pub proof fn lemma_compose_opaque_identity(top: Seq<Pixel>, under: Seq<Pixel>)
    requires
        top.len() == under.len(),
        forall|i: int| 0 <= i < top.len() ==> #[trigger] top[i].a == 255,
    ensures
        compose_grids(top, under) == top,
{
    assert forall|i: int| 0 <= i < under.len() implies compose_grids(top, under)[i] == top[i] by {
        let p0 = top[i];
        let p1 = under[i];
        assert(p0.a == 255);
        assert((p1.rgb.0 as int * 0) / 255 == 0);
        assert(compose_pixel(p0, p1) == p0);
    }
    assert(compose_grids(top, under) =~= top);
}

/// Clipping by a fully opaque mask changes nothing.
pub proof fn lemma_clip_opaque_identity(mask: Seq<Pixel>, under: Seq<Pixel>)
    requires
        mask.len() == under.len(),
        forall|i: int| 0 <= i < mask.len() ==> #[trigger] mask[i].a == 255,
    ensures
        clip_grids(mask, under) == under,
{
    assert forall|i: int| 0 <= i < under.len() implies clip_grids(mask, under)[i] == under[i] by {
        let p1 = under[i];
        vstd::arithmetic::div_mod::lemma_div_multiples_vanish(p1.rgb.0 as int, 255);
        vstd::arithmetic::div_mod::lemma_div_multiples_vanish(p1.rgb.1 as int, 255);
        vstd::arithmetic::div_mod::lemma_div_multiples_vanish(p1.rgb.2 as int, 255);
        vstd::arithmetic::div_mod::lemma_div_multiples_vanish(p1.a as int, 255);
        assert(p1.rgb.0 as int * 255 == 255 * p1.rgb.0 as int);
        assert(clip_pixel(mask[i], p1) == p1);
    }
    assert(clip_grids(mask, under) =~= under);
}

/// Clipping by a fully transparent mask zeroes every channel.
pub proof fn lemma_clip_transparent_zero(mask: Seq<Pixel>, under: Seq<Pixel>)
    requires
        mask.len() == under.len(),
        forall|i: int| 0 <= i < mask.len() ==> #[trigger] mask[i].a == 0,
    ensures
        clip_grids(mask, under) == Seq::new(under.len(), |i: int| transparent_pixel()),
{
    assert forall|i: int| 0 <= i < under.len() implies clip_grids(mask, under)[i]
        == transparent_pixel() by {
        let p1 = under[i];
        assert((p1.rgb.0 as int * 0) / 255 == 0);
        assert(clip_pixel(mask[i], p1) == transparent_pixel());
    }
    assert(clip_grids(mask, under) =~= Seq::new(under.len(), |i: int| transparent_pixel()));
}

fn over_channel_x(c0: u8, c1: u8, a0: u8) -> (r: u8)
    ensures
        r == over_channel(c0, c1, a0),
{
    proof {
        assert((c1 as int) * (255 - a0 as int) <= 255 * 255) by (nonlinear_arith)
            requires
                c1 <= 255,
                a0 <= 255,
        ;
    }
    let prod: u32 = (c1 as u32) * (255 - a0 as u32);
    let v: u32 = (c0 as u32 + prod / 255) % 256;
    v as u8
}

fn clip_channel_x(c1: u8, a0: u8) -> (r: u8)
    ensures
        r == clip_channel(c1, a0),
{
    proof {
        assert((c1 as int) * (a0 as int) <= 255 * 255) by (nonlinear_arith)
            requires
                c1 <= 255,
                a0 <= 255,
        ;
        vstd::arithmetic::div_mod::lemma_div_is_ordered((c1 as int) * (a0 as int), 255int * 255, 255int);
    }
    let prod: u32 = (c1 as u32) * (a0 as u32);
    (prod / 255) as u8
}

/// A 600 by 600 grid of pixels, row-major.
#[derive(Debug)]
pub struct Bitmap {
    pub data: Vec<Pixel>,
}

impl View for Bitmap {
    type V = Seq<Pixel>;

    open spec fn view(&self) -> Seq<Pixel> {
        self.data@
    }
}

impl Clone for Bitmap {
    fn clone(&self) -> (r: Self)
        ensures
            r@ == self@,
    {
        let mut data: Vec<Pixel> = Vec::new();
        let mut i: usize = 0;
        while i < self.data.len()
            invariant
                i <= self.data@.len(),
                data@ == self.data@.take(i as int),
            decreases self.data@.len() - i,
        {
            data.push(self.data[i]);
            i = i + 1;
        }
        proof {
            assert(self.data@.take(self.data@.len() as int) =~= self.data@);
        }
        Bitmap { data }
    }
}

impl Bitmap {
    pub open spec fn wf(self) -> bool {
        self.data@.len() == 360000
    }

    /// The all-transparent bitmap every layer starts as.
    pub fn transparent() -> (r: Self)
        ensures
            r.wf(),
            forall|i: int| 0 <= i < 360000 ==> r@[i] == transparent_pixel(),
    {
        let mut data: Vec<Pixel> = Vec::new();
        let mut i: usize = 0;
        while i < 360000
            invariant
                i <= 360000,
                data@.len() == i,
                forall|j: int| 0 <= j < i ==> data@[j] == transparent_pixel(),
            decreases 360000 - i,
        {
            data.push(Pixel { rgb: RGB(0, 0, 0), a: 0 });
            i = i + 1;
        }
        Bitmap { data }
    }

    pub fn get(&self, pos: Position) -> (r: Pixel)
        requires
            self.wf(),
            pos_wf(pos),
        ensures
            r == self@[pos_idx(pos.0 as int, pos.1 as int)],
    {
        let Position(x, y) = pos;
        self.data[(y * 600 + x) as usize]
    }

    pub fn set(&mut self, pos: Position, pixel: Pixel)
        requires
            old(self).wf(),
            pos_wf(pos),
        ensures
            final(self).wf(),
            final(self)@ == old(self)@.update(pos_idx(pos.0 as int, pos.1 as int), pixel),
    {
        let Position(x, y) = pos;
        self.data.set((y * 600 + x) as usize, pixel);
    }

    /// Draws the deterministic rasterized line from `p0` to `p1`:
    /// `d` fixed-point steps, then the endpoint exactly.
    #[verifier::spinoff_prover]
    #[verifier::rlimit(60)]
    pub fn draw_line(&mut self, p0: Position, p1: Position, pixel: Pixel)
        requires
            old(self).wf(),
            pos_wf(p0),
            pos_wf(p1),
        ensures
            final(self).wf(),
            final(self)@ == paint(old(self)@, line_pixels(p0, p1), pixel),
    {
        let ghost g0 = self@;
        let Position(x0, y0) = p0;
        let Position(x1, y1) = p1;
        let dx: i32 = x1 as i32 - x0 as i32;
        let dy: i32 = y1 as i32 - y0 as i32;
        let adx: i32 = if dx < 0 {
            -dx
        } else {
            dx
        };
        let ady: i32 = if dy < 0 {
            -dy
        } else {
            dy
        };
        let d: i32 = if adx > ady {
            adx
        } else {
            ady
        };
        proof {
            assert(d == line_d(p0, p1));
            assert((dx as int) * (dy as int) <= 599 * 599 && (dx as int) * (dy as int) >= -(599
                * 599)) by (nonlinear_arith)
                requires
                    -599 <= dx <= 599,
                    -599 <= dy <= 599,
            ;
        }
        let prod: i32 = dx * dy;
        let c: i32 = if prod <= 0 {
            1
        } else {
            0
        };
        proof {
            assert(c == line_c(p0, p1));
        }
        if d > 0 {
            proof {
                assert((x0 as int) * (d as int) <= 599 * 599 && (x0 as int) * (d as int) >= 0)
                    by (nonlinear_arith)
                    requires
                        0 <= x0 <= 599,
                        0 < d <= 599,
                ;
                assert((y0 as int) * (d as int) <= 599 * 599 && (y0 as int) * (d as int) >= 0)
                    by (nonlinear_arith)
                    requires
                        0 <= y0 <= 599,
                        0 < d <= 599,
                ;
            }
            let mut x: i32 = x0 as i32 * d + (d - c) / 2;
            let mut y: i32 = y0 as i32 * d + (d - c) / 2;
            let mut t: i32 = 0;
            proof {
                assert(line_points(p0, p1).take(0) =~= Seq::<(int, int)>::empty());
                assert((x0 as int) * (d as int) + (d - c) / 2 < 600 * d && 0 <= (x0 as int) * (
                d as int) + (d - c) / 2) by (nonlinear_arith)
                    requires
                        0 <= x0 <= 599,
                        0 < d <= 599,
                        0 <= c <= 1,
                ;
                assert((y0 as int) * (d as int) + (d - c) / 2 < 600 * d && 0 <= (y0 as int) * (
                d as int) + (d - c) / 2) by (nonlinear_arith)
                    requires
                        0 <= y0 <= 599,
                        0 < d <= 599,
                        0 <= c <= 1,
                ;
            }
            while t < d
                invariant
                    self.wf(),
                    g0.len() == 360000,
                    pos_wf(p0),
                    pos_wf(p1),
                    p0.0 == x0 && p0.1 == y0 && p1.0 == x1 && p1.1 == y1,
                    dx == x1 - x0,
                    dy == y1 - y0,
                    d == line_d(p0, p1),
                    c == line_c(p0, p1),
                    0 < d <= 599,
                    0 <= c <= 1,
                    0 <= t <= d,
                    x as int == x0 * d + (d - c) / 2 + t * dx,
                    y as int == y0 * d + (d - c) / 2 + t * dy,
                    0 <= x < 600 * d,
                    0 <= y < 600 * d,
                    self@ == paint(g0, line_points(p0, p1).take(t as int), pixel),
                decreases d - t,
            {
                let qx: u32 = (x as u32) / (d as u32);
                let qy: u32 = (y as u32) / (d as u32);
                proof {
                    vstd::arithmetic::div_mod::lemma_div_pos_is_pos(x as int, d as int);
                    vstd::arithmetic::div_mod::lemma_div_pos_is_pos(y as int, d as int);
                    vstd::arithmetic::div_mod::lemma_div_is_ordered(
                        x as int,
                        600 * d - 1,
                        d as int,
                    );
                    vstd::arithmetic::div_mod::lemma_div_is_ordered(
                        y as int,
                        600 * d - 1,
                        d as int,
                    );
                    vstd::arithmetic::div_mod::lemma_fundamental_div_mod_converse(
                        600 * d - 1,
                        d as int,
                        599,
                        d - 1,
                    );
                    assert(qx < 600);
                    assert(qy < 600);
                    assert((qx as int, qy as int) == line_points(p0, p1)[t as int]);
                    assert(line_points(p0, p1).take(t + 1) =~= line_points(p0, p1).take(
                        t as int,
                    ).push(line_points(p0, p1)[t as int]));
                    lemma_paint_push(
                        g0,
                        line_points(p0, p1).take(t as int),
                        line_points(p0, p1)[t as int],
                        pixel,
                    );
                }
                self.set(Position(qx, qy), pixel);
                proof {
                    assert((t + 1) * (dx as int) == t * (dx as int) + dx) by (nonlinear_arith);
                    assert((t + 1) * (dy as int) == t * (dy as int) + dy) by (nonlinear_arith);
                    if dx >= 0 {
                        assert((t + 1) * (dx as int) <= (d as int) * (dx as int) && 0 <= (t + 1) * (
                        dx as int)) by (nonlinear_arith)
                            requires
                                0 <= t + 1 <= d,
                                dx >= 0,
                        ;
                        assert((x0 as int) * d + (d as int) * (dx as int) == (x1 as int) * d)
                            by (nonlinear_arith)
                            requires
                                dx == x1 - x0,
                        ;
                        assert((x1 as int) * d + (d - c) / 2 < 600 * d) by (nonlinear_arith)
                            requires
                                0 <= x1 <= 599,
                                0 < d,
                                0 <= c <= 1,
                        ;
                    } else {
                        assert((t + 1) * (dx as int) >= (d as int) * (dx as int) && (t + 1) * (
                        dx as int) <= 0) by (nonlinear_arith)
                            requires
                                0 <= t + 1 <= d,
                                dx < 0,
                        ;
                        assert((x0 as int) * d + (d as int) * (dx as int) == (x1 as int) * d)
                            by (nonlinear_arith)
                            requires
                                dx == x1 - x0,
                        ;
                        assert((x0 as int) * d + (d - c) / 2 < 600 * d) by (nonlinear_arith)
                            requires
                                0 <= x0 <= 599,
                                0 < d,
                                0 <= c <= 1,
                        ;
                    }
                    if dy >= 0 {
                        assert((t + 1) * (dy as int) <= (d as int) * (dy as int) && 0 <= (t + 1) * (
                        dy as int)) by (nonlinear_arith)
                            requires
                                0 <= t + 1 <= d,
                                dy >= 0,
                        ;
                        assert((y0 as int) * d + (d as int) * (dy as int) == (y1 as int) * d)
                            by (nonlinear_arith)
                            requires
                                dy == y1 - y0,
                        ;
                        assert((y1 as int) * d + (d - c) / 2 < 600 * d) by (nonlinear_arith)
                            requires
                                0 <= y1 <= 599,
                                0 < d,
                                0 <= c <= 1,
                        ;
                    } else {
                        assert((t + 1) * (dy as int) >= (d as int) * (dy as int) && (t + 1) * (
                        dy as int) <= 0) by (nonlinear_arith)
                            requires
                                0 <= t + 1 <= d,
                                dy < 0,
                        ;
                        assert((y0 as int) * d + (d as int) * (dy as int) == (y1 as int) * d)
                            by (nonlinear_arith)
                            requires
                                dy == y1 - y0,
                        ;
                        assert((y0 as int) * d + (d - c) / 2 < 600 * d) by (nonlinear_arith)
                            requires
                                0 <= y0 <= 599,
                                0 < d,
                                0 <= c <= 1,
                        ;
                    }
                }
                x = x + dx;
                y = y + dy;
                t = t + 1;
            }
            proof {
                assert(line_points(p0, p1).take(d as int) =~= line_points(p0, p1));
            }
        } else {
            proof {
                assert(line_points(p0, p1) =~= Seq::<(int, int)>::empty());
                assert(paint(g0, line_points(p0, p1), pixel) == g0);
            }
        }
        proof {
            lemma_paint_push(g0, line_points(p0, p1), (p1.0 as int, p1.1 as int), pixel);
        }
        self.set(p1, pixel);
    }

    /// Four-connected flood fill from `pos`: a breadth-first
    /// traversal over a scheduled-set, painting as it goes; a no-op
    /// when the seed already has the fill color.
    #[verifier::spinoff_prover]
    #[verifier::rlimit(60)]
    pub fn fill(&mut self, pos: Position, new_px: Pixel)
        requires
            old(self).wf(),
            pos_wf(pos),
        ensures
            final(self).wf(),
            final(self)@ == spec_fill(old(self)@, pos, new_px),
    {
        let ghost g0 = self@;
        let old_px = self.get(pos);
        if old_px == new_px {
            return ;
        }
        let mut queue: std::collections::VecDeque<Position> =
            std::collections::VecDeque::new();
        let mut visited: Vec<bool> = Vec::new();
        let mut i: usize = 0;
        while i < 360000
            invariant
                i <= 360000,
                visited@.len() == i,
                forall|j: int| 0 <= j < i ==> !visited@[j],
            decreases 360000 - i,
        {
            visited.push(false);
            i = i + 1;
        }
        let seed_idx = (pos.1 * 600 + pos.0) as usize;
        visited.set(seed_idx, true);
        queue.push_back(pos);
        proof {
            assert(visited@ =~= init_vis(pos));
            assert(qview(queue@) =~= seq![(pos.0 as int, pos.1 as int)]);
        }
        let ghost q0 = qview(queue@);
        let ghost v0 = visited@;
        loop
            invariant
                self.wf(),
                g0 == old(self)@,
                g0.len() == 360000,
                pos_wf(pos),
                old_px == g0[pos_idx(pos.0 as int, pos.1 as int)],
                old_px != new_px,
                q0 == seq![(pos.0 as int, pos.1 as int)],
                v0 == init_vis(pos),
                visited@.len() == 360000,
                forall|k: int| 0 <= k < queue@.len() ==> pos_wf(#[trigger] queue@[k]),
                fill_bfs(qview(queue@), visited@, self@, old_px, new_px) == fill_bfs(
                    q0,
                    v0,
                    g0,
                    old_px,
                    new_px,
                ),
            ensures
                self.wf(),
                self@ == fill_bfs(q0, v0, g0, old_px, new_px),
            decreases num_false(visited@), queue@.len(),
        {
            let ghost qcur = qview(queue@);
            let ghost vcur = visited@;
            let ghost gcur = self@;
            match queue.pop_front() {
                None => {
                    proof {
                        assert(qcur.len() == 0);
                        assert(fill_bfs(qcur, vcur, gcur, old_px, new_px) == gcur);
                    }
                    break ;
                },
                Some(p) => {
                    let ghost pi = (p.0 as int, p.1 as int);
                    proof {
                        assert(qcur[0] == pi);
                        assert(qview(queue@) =~= qcur.drop_first());
                    }
                    self.set(p, new_px);
                    let ghost g2 = self@;
                    let ghost qr = qview(queue@);
                    let ghost s1 = fill_try(qr, vcur, g2, old_px, (pi.0 - 1, pi.1));
                    let ghost s2 = fill_try(s1.0, s1.1, g2, old_px, (pi.0 + 1, pi.1));
                    let ghost s3 = fill_try(s2.0, s2.1, g2, old_px, (pi.0, pi.1 - 1));
                    let ghost s4 = fill_try(s3.0, s3.1, g2, old_px, (pi.0, pi.1 + 1));
                    proof {
                        lemma_fill_try_effect(qr, vcur, g2, old_px, (pi.0 - 1, pi.1));
                        lemma_fill_try_effect(s1.0, s1.1, g2, old_px, (pi.0 + 1, pi.1));
                        lemma_fill_try_effect(s2.0, s2.1, g2, old_px, (pi.0, pi.1 - 1));
                        lemma_fill_try_effect(s3.0, s3.1, g2, old_px, (pi.0, pi.1 + 1));
                        assert(fill_bfs(qcur, vcur, gcur, old_px, new_px) == fill_bfs(
                            s4.0,
                            s4.1,
                            g2,
                            old_px,
                            new_px,
                        ));
                    }
                    if p.0 > 0 {
                        fill_try_push(
                            &*self,
                            &mut queue,
                            &mut visited,
                            old_px,
                            Position(p.0 - 1, p.1),
                        );
                    } else {
                        proof {
                            assert(!in_board((pi.0 - 1, pi.1)));
                        }
                    }
                    proof {
                        assert(qview(queue@) == s1.0 && visited@ == s1.1);
                    }
                    if p.0 < 599 {
                        fill_try_push(
                            &*self,
                            &mut queue,
                            &mut visited,
                            old_px,
                            Position(p.0 + 1, p.1),
                        );
                    } else {
                        proof {
                            assert(!in_board((pi.0 + 1, pi.1)));
                        }
                    }
                    proof {
                        assert(qview(queue@) == s2.0 && visited@ == s2.1);
                    }
                    if p.1 > 0 {
                        fill_try_push(
                            &*self,
                            &mut queue,
                            &mut visited,
                            old_px,
                            Position(p.0, p.1 - 1),
                        );
                    } else {
                        proof {
                            assert(!in_board((pi.0, pi.1 - 1)));
                        }
                    }
                    proof {
                        assert(qview(queue@) == s3.0 && visited@ == s3.1);
                    }
                    if p.1 < 599 {
                        fill_try_push(
                            &*self,
                            &mut queue,
                            &mut visited,
                            old_px,
                            Position(p.0, p.1 + 1),
                        );
                    } else {
                        proof {
                            assert(!in_board((pi.0, pi.1 + 1)));
                        }
                    }
                    proof {
                        assert(qview(queue@) == s4.0 && visited@ == s4.1);
                        assert(forall|k: int|
                            0 <= k < queue@.len() ==> pos_wf(#[trigger] queue@[k]));
                    }
                },
            }
        }
    }

    /// Porter-Duff "over": draws `other` onto this bitmap, pixel by
    /// pixel.
    pub fn compose_with(&mut self, other: Self)
        requires
            old(self).wf(),
            other.wf(),
        ensures
            final(self).wf(),
            final(self)@ == compose_grids(other@, old(self)@),
    {
        let ghost g0 = self@;
        let mut idx: usize = 0;
        while idx < 360000
            invariant
                self.wf(),
                other.wf(),
                g0.len() == 360000,
                idx <= 360000,
                self@.len() == 360000,
                forall|i: int| 0 <= i < idx ==> self@[i] == compose_grids(other@, g0)[i],
                forall|i: int| idx <= i < 360000 ==> self@[i] == g0[i],
            decreases 360000 - idx,
        {
            let p0 = other.data[idx];
            let p1 = self.data[idx];
            let combined = Pixel {
                rgb: RGB(
                    over_channel_x(p0.rgb.0, p1.rgb.0, p0.a),
                    over_channel_x(p0.rgb.1, p1.rgb.1, p0.a),
                    over_channel_x(p0.rgb.2, p1.rgb.2, p0.a),
                ),
                a: over_channel_x(p0.a, p1.a, p0.a),
            };
            proof {
                assert(combined == compose_pixel(other@[idx as int], g0[idx as int]));
            }
            self.data.set(idx, combined);
            idx = idx + 1;
        }
        proof {
            assert(self@ =~= compose_grids(other@, g0));
        }
    }

    /// Clips this bitmap by the alpha channel of `other`.
    pub fn clip_with(&mut self, other: Self)
        requires
            old(self).wf(),
            other.wf(),
        ensures
            final(self).wf(),
            final(self)@ == clip_grids(other@, old(self)@),
    {
        let ghost g0 = self@;
        let mut idx: usize = 0;
        while idx < 360000
            invariant
                self.wf(),
                other.wf(),
                g0.len() == 360000,
                idx <= 360000,
                self@.len() == 360000,
                forall|i: int| 0 <= i < idx ==> self@[i] == clip_grids(other@, g0)[i],
                forall|i: int| idx <= i < 360000 ==> self@[i] == g0[i],
            decreases 360000 - idx,
        {
            let p0 = other.data[idx];
            let p1 = self.data[idx];
            let combined = Pixel {
                rgb: RGB(
                    clip_channel_x(p1.rgb.0, p0.a),
                    clip_channel_x(p1.rgb.1, p0.a),
                    clip_channel_x(p1.rgb.2, p0.a),
                ),
                a: clip_channel_x(p1.a, p0.a),
            };
            proof {
                assert(combined == clip_pixel(other@[idx as int], g0[idx as int]));
            }
            self.data.set(idx, combined);
            idx = idx + 1;
        }
        proof {
            assert(self@ =~= clip_grids(other@, g0));
        }
    }

    /// The grid flattened to red, green, blue bytes in row-major
    /// order, as an image encoder consumes it.
    pub fn to_rgb_bytes(&self) -> (r: Vec<u8>)
        requires
            self.wf(),
        ensures
            r@.len() == 3 * 360000,
            forall|m: int| 0 <= m < 3 * 360000 ==> r@[m] == rgb_byte(self@, m),
    {
        let mut out: Vec<u8> = Vec::new();
        let mut i: usize = 0;
        while i < 360000
            invariant
                self.wf(),
                i <= 360000,
                out@.len() == 3 * i,
                forall|m: int| 0 <= m < 3 * i ==> out@[m] == rgb_byte(self@, m),
            decreases 360000 - i,
        {
            let p = self.data[i];
            let ghost out0 = out@;
            out.push(p.rgb.0);
            out.push(p.rgb.1);
            out.push(p.rgb.2);
            proof {
                assert(out@.len() == 3 * i + 3);
                assert forall|m: int| 0 <= m < 3 * i + 3 implies out@[m] == rgb_byte(self@, m) by {
                    if m < 3 * i {
                        assert(out@[m] == out0[m]);
                    } else {
                        assert(m / 3 == i && (m % 3 == 0 || m % 3 == 1 || m % 3 == 2));
                        if m == 3 * i {
                            assert(out@[m] == p.rgb.0);
                        } else if m == 3 * i + 1 {
                            assert(out@[m] == p.rgb.1);
                        } else {
                            assert(out@[m] == p.rgb.2);
                        }
                    }
                }
            }
            i = i + 1;
        }
        out
    }
}

pub open spec fn iabs(x: int) -> int {
    if x < 0 {
        -x
    } else {
        x
    }
}

pub open spec fn imax(a: int, b: int) -> int {
    if a > b {
        a
    } else {
        b
    }
}

/// The number of fixed-point steps of the line rasterizer.
pub open spec fn line_d(p0: Position, p1: Position) -> int {
    imax(iabs(p1.0 - p0.0), iabs(p1.1 - p0.1))
}

/// The half-step correction: one when the deltas have opposite signs
/// or either is zero.
pub open spec fn line_c(p0: Position, p1: Position) -> int {
    if (p1.0 - p0.0) * (p1.1 - p0.1) <= 0 {
        1
    } else {
        0
    }
}

/// The grid points the rasterizer paints before the final endpoint:
/// step `t` sits at the fixed-point position `start + t * delta`, in
/// units of one over `d`.
pub open spec fn line_points(p0: Position, p1: Position) -> Seq<(int, int)> {
    let dx = p1.0 - p0.0;
    let dy = p1.1 - p0.1;
    let d = line_d(p0, p1);
    let c = line_c(p0, p1);
    Seq::new(
        d as nat,
        |t: int|
            (
                (p0.0 * d + (d - c) / 2 + t * dx) / d,
                (p0.1 * d + (d - c) / 2 + t * dy) / d,
            ),
    )
}

/// Every point a line paints: the rasterized steps and then, always,
/// the exact endpoint.
pub open spec fn line_pixels(p0: Position, p1: Position) -> Seq<(int, int)> {
    line_points(p0, p1).push((p1.0 as int, p1.1 as int))
}

/// The grid after painting each listed point with one pixel value.
pub open spec fn paint(g: Seq<Pixel>, pts: Seq<(int, int)>, px: Pixel) -> Seq<Pixel>
    decreases pts.len(),
{
    if pts.len() == 0 {
        g
    } else {
        paint(g, pts.drop_last(), px).update(pos_idx(pts.last().0, pts.last().1), px)
    }
}

pub proof fn lemma_paint_push(g: Seq<Pixel>, pts: Seq<(int, int)>, p: (int, int), px: Pixel)
    ensures
        paint(g, pts.push(p), px) == paint(g, pts, px).update(pos_idx(p.0, p.1), px),
{
    assert(pts.push(p).drop_last() =~= pts);
    assert(pts.push(p).last() == p);
}

pub open spec fn in_board(p: (int, int)) -> bool {
    0 <= p.0 < 600 && 0 <= p.1 < 600
}

/// How many cells a visited map still leaves unvisited; the measure
/// that bounds a flood fill.
pub open spec fn num_false(s: Seq<bool>) -> nat
    decreases s.len(),
{
    if s.len() == 0 {
        0
    } else {
        num_false(s.drop_last()) + if s.last() {
            0nat
        } else {
            1nat
        }
    }
}

proof fn lemma_num_false_update(s: Seq<bool>, i: int)
    requires
        0 <= i < s.len(),
        !s[i],
    ensures
        num_false(s.update(i, true)) + 1 == num_false(s),
    decreases s.len(),
{
    if i == s.len() - 1 {
        assert(s.update(i, true).drop_last() =~= s.drop_last());
        assert(s.update(i, true).last());
    } else {
        assert(s.update(i, true).drop_last() =~= s.drop_last().update(i, true));
        assert(s.update(i, true).last() == s.last());
        lemma_num_false_update(s.drop_last(), i);
    }
}

/// One neighbor examination of the flood fill: schedule the cell when
/// it lies on the board, is not yet scheduled, and still has the
/// original color.
pub open spec fn fill_try(
    q: Seq<(int, int)>,
    vis: Seq<bool>,
    g: Seq<Pixel>,
    old_px: Pixel,
    np: (int, int),
) -> (Seq<(int, int)>, Seq<bool>) {
    if in_board(np) && !vis[pos_idx(np.0, np.1)] && g[pos_idx(np.0, np.1)] == old_px {
        (q.push(np), vis.update(pos_idx(np.0, np.1), true))
    } else {
        (q, vis)
    }
}

proof fn lemma_fill_try_effect(
    q: Seq<(int, int)>,
    vis: Seq<bool>,
    g: Seq<Pixel>,
    old_px: Pixel,
    np: (int, int),
)
    requires
        vis.len() == 360000,
    ensures
        ({
            let r = fill_try(q, vis, g, old_px, np);
            &&& r.1.len() == 360000
            &&& num_false(r.1) <= num_false(vis)
            &&& (r.0.len() == q.len() || r.0.len() == q.len() + 1)
            &&& (r.0.len() == q.len() + 1 ==> num_false(r.1) < num_false(vis))
            &&& (r.0.len() == q.len() ==> r.0 == q && r.1 == vis)
        }),
{
    if in_board(np) && !vis[pos_idx(np.0, np.1)] && g[pos_idx(np.0, np.1)] == old_px {
        lemma_num_false_update(vis, pos_idx(np.0, np.1));
    }
}

/// The four-connected flood fill as a breadth-first traversal: paint
/// the front of the queue, schedule its unvisited same-colored
/// neighbors (left, right, up, down), repeat until the queue drains.
pub open spec fn fill_bfs(
    q: Seq<(int, int)>,
    vis: Seq<bool>,
    g: Seq<Pixel>,
    old_px: Pixel,
    new_px: Pixel,
) -> Seq<Pixel>
    decreases num_false(vis), q.len(),
    when vis.len() == 360000
    via fill_bfs_dec
{
    if q.len() == 0 {
        g
    } else {
        let p = q.first();
        let g2 = g.update(pos_idx(p.0, p.1), new_px);
        let qr = q.drop_first();
        let s1 = fill_try(qr, vis, g2, old_px, (p.0 - 1, p.1));
        let s2 = fill_try(s1.0, s1.1, g2, old_px, (p.0 + 1, p.1));
        let s3 = fill_try(s2.0, s2.1, g2, old_px, (p.0, p.1 - 1));
        let s4 = fill_try(s3.0, s3.1, g2, old_px, (p.0, p.1 + 1));
        fill_bfs(s4.0, s4.1, g2, old_px, new_px)
    }
}

#[via_fn]
proof fn fill_bfs_dec(
    q: Seq<(int, int)>,
    vis: Seq<bool>,
    g: Seq<Pixel>,
    old_px: Pixel,
    new_px: Pixel,
) {
    if vis.len() == 360000 && q.len() > 0 {
        let p = q.first();
        let g2 = g.update(pos_idx(p.0, p.1), new_px);
        let qr = q.drop_first();
        let s1 = fill_try(qr, vis, g2, old_px, (p.0 - 1, p.1));
        let s2 = fill_try(s1.0, s1.1, g2, old_px, (p.0 + 1, p.1));
        let s3 = fill_try(s2.0, s2.1, g2, old_px, (p.0, p.1 - 1));
        let s4 = fill_try(s3.0, s3.1, g2, old_px, (p.0, p.1 + 1));
        lemma_fill_try_effect(qr, vis, g2, old_px, (p.0 - 1, p.1));
        lemma_fill_try_effect(s1.0, s1.1, g2, old_px, (p.0 + 1, p.1));
        lemma_fill_try_effect(s2.0, s2.1, g2, old_px, (p.0, p.1 - 1));
        lemma_fill_try_effect(s3.0, s3.1, g2, old_px, (p.0, p.1 + 1));
    }
}

/// Positions as plain coordinate pairs.
pub open spec fn qview(s: Seq<Position>) -> Seq<(int, int)> {
    s.map_values(|p: Position| (p.0 as int, p.1 as int))
}

/// The visited map a fill starts from: only the seed is scheduled.
pub open spec fn init_vis(pos: Position) -> Seq<bool> {
    Seq::new(360000, |i: int| i == pos_idx(pos.0 as int, pos.1 as int))
}

/// What a flood fill leaves on the grid: nothing when the seed
/// already has the fill color, else the breadth-first traversal from
/// the seed.
pub open spec fn spec_fill(g: Seq<Pixel>, pos: Position, new_px: Pixel) -> Seq<Pixel> {
    let old_px = g[pos_idx(pos.0 as int, pos.1 as int)];
    if old_px == new_px {
        g
    } else {
        fill_bfs(seq![(pos.0 as int, pos.1 as int)], init_vis(pos), g, old_px, new_px)
    }
}

fn fill_try_push(
    bm: &Bitmap,
    queue: &mut std::collections::VecDeque<Position>,
    visited: &mut Vec<bool>,
    old_px: Pixel,
    np: Position,
)
    requires
        bm.wf(),
        pos_wf(np),
        old(visited)@.len() == 360000,
    ensures
        ({
            let r = fill_try(
                qview(old(queue)@),
                old(visited)@,
                bm@,
                old_px,
                (np.0 as int, np.1 as int),
            );
            &&& qview(final(queue)@) == r.0
            &&& final(visited)@ == r.1
            &&& final(queue)@.len() >= old(queue)@.len()
            &&& forall|k: int|
                0 <= k < final(queue)@.len() ==> final(queue)@[k] == if k < old(queue)@.len() {
                    old(queue)@[k]
                } else {
                    np
                }
        }),
{
    let idx = (np.1 * 600 + np.0) as usize;
    if !visited[idx] {
        let cur = bm.get(np);
        if cur == old_px {
            visited.set(idx, true);
            queue.push_back(np);
            proof {
                assert(qview(queue@) =~= qview(old(queue)@).push((np.0 as int, np.1 as int)));
            }
            return ;
        }
    }
}

/// The renderer's bucket: the samples added so far and the memoized
/// averaged pixel, dropped on any mutation.
pub struct Bucket {
    pub bucket: Vec<Color>,
    pub current: Option<Pixel>,
}

impl Bucket {
    /// The memo, when present, holds the averaged pixel.
    pub open spec fn wf(self) -> bool {
        match self.current {
            None => true,
            Some(p) => p == bucket_pixel(self.bucket@),
        }
    }

    pub fn new() -> (r: Self)
        ensures
            r.wf(),
            r.bucket@.len() == 0,
            r.current is None,
    {
        Bucket { bucket: Vec::new(), current: None }
    }

    pub fn clear(&mut self)
        ensures
            final(self).wf(),
            final(self).bucket@.len() == 0,
            final(self).current is None,
    {
        self.bucket.clear();
        self.current = None;
    }

    pub fn add_color(&mut self, color: Color)
        ensures
            final(self).wf(),
            final(self).bucket@ == old(self).bucket@.push(color),
            final(self).current is None,
    {
        self.bucket.push(color);
        self.current = None;
    }

    /// The averaged pixel, recomputed when no memo is held.
    pub fn current_pixel(&mut self) -> (r: Pixel)
        requires
            old(self).wf(),
        ensures
            final(self).wf(),
            final(self).bucket@ == old(self).bucket@,
            r == bucket_pixel(old(self).bucket@),
    {
        if let Some(p) = self.current {
            return p;
        }
        let ghost sv = self.bucket@;
        let mut rgb_n: usize = 0;
        let mut t_n: usize = 0;
        let mut r_sum: u128 = 0;
        let mut g_sum: u128 = 0;
        let mut b_sum: u128 = 0;
        let mut a_sum: u128 = 0;
        let mut i: usize = 0;
        proof {
            assert(sv.take(0) =~= Seq::<Color>::empty());
        }
        while i < self.bucket.len()
            invariant
                sv == self.bucket@,
                i <= sv.len(),
                rgb_n as nat == sums(sv.take(i as int)).rgb_n,
                t_n as nat == sums(sv.take(i as int)).t_n,
                r_sum as nat == sums(sv.take(i as int)).r,
                g_sum as nat == sums(sv.take(i as int)).g,
                b_sum as nat == sums(sv.take(i as int)).b,
                a_sum as nat == sums(sv.take(i as int)).a,
                rgb_n + t_n == i,
                r_sum <= 255 * rgb_n as u128,
                g_sum <= 255 * rgb_n as u128,
                b_sum <= 255 * rgb_n as u128,
                a_sum <= 255 * t_n as u128,
            decreases sv.len() - i,
        {
            let c = self.bucket[i];
            proof {
                assert(sv.take(i + 1).drop_last() =~= sv.take(i as int));
                assert(sv.take(i + 1).last() == sv[i as int]);
            }
            match c {
                Color::RGB(rgb) => {
                    rgb_n = rgb_n + 1;
                    r_sum = r_sum + rgb.0 as u128;
                    g_sum = g_sum + rgb.1 as u128;
                    b_sum = b_sum + rgb.2 as u128;
                },
                Color::Transparency(a) => {
                    t_n = t_n + 1;
                    a_sum = a_sum + a as u128;
                },
            }
            i = i + 1;
        }
        proof {
            assert(sv.take(sv.len() as int) =~= sv);
        }
        let r = if rgb_n == 0 {
            0u128
        } else {
            r_sum / rgb_n as u128
        };
        let g = if rgb_n == 0 {
            0u128
        } else {
            g_sum / rgb_n as u128
        };
        let b = if rgb_n == 0 {
            0u128
        } else {
            b_sum / rgb_n as u128
        };
        let a = if t_n == 0 {
            255u128
        } else {
            a_sum / t_n as u128
        };
        proof {
            let m = sums(sv);
            if rgb_n != 0 {
                vstd::arithmetic::div_mod::lemma_div_is_ordered(
                    r_sum as int,
                    255 * rgb_n as int,
                    rgb_n as int,
                );
                vstd::arithmetic::div_mod::lemma_div_multiples_vanish(255, rgb_n as int);
                vstd::arithmetic::div_mod::lemma_div_is_ordered(
                    g_sum as int,
                    255 * rgb_n as int,
                    rgb_n as int,
                );
                vstd::arithmetic::div_mod::lemma_div_is_ordered(
                    b_sum as int,
                    255 * rgb_n as int,
                    rgb_n as int,
                );
            }
            if t_n != 0 {
                vstd::arithmetic::div_mod::lemma_div_is_ordered(
                    a_sum as int,
                    255 * t_n as int,
                    t_n as int,
                );
                vstd::arithmetic::div_mod::lemma_div_multiples_vanish(255, t_n as int);
            }
            assert(r <= 255);
            assert(g <= 255);
            assert(b <= 255);
            assert(a <= 255);
            assert(r * a <= 255 * 255) by (nonlinear_arith)
                requires
                    r <= 255,
                    a <= 255,
            ;
            assert(g * a <= 255 * 255) by (nonlinear_arith)
                requires
                    g <= 255,
                    a <= 255,
            ;
            assert(b * a <= 255 * 255) by (nonlinear_arith)
                requires
                    b <= 255,
                    a <= 255,
            ;
        }
        let pixel = Pixel {
            rgb: RGB(
                ((r * a) / 255) as u8,
                ((g * a) / 255) as u8,
                ((b * a) / 255) as u8,
            ),
            a: a as u8,
        };
        proof {
            assert(pixel == bucket_pixel(sv));
        }
        self.current = Some(pixel);
        pixel
    }
}

/// One decoded 7-base instruction.
#[derive(Debug, PartialEq)]
pub enum Command {
    AddBlack,
    AddRed,
    AddGreen,
    AddYellow,
    AddBlue,
    AddMagenta,
    AddCyan,
    AddWhite,
    AddTransparent,
    AddOpaque,
    ClearBucket,
    Move,
    TurnCcw,
    TurnCw,
    Mark,
    DrawLine,
    Fill,
    AddLayer,
    Compose,
    Clip,
    Unknown(Vec<Base>),
}

/// The mathematical shape of a command.
pub enum Cmd {
    AddBlack,
    AddRed,
    AddGreen,
    AddYellow,
    AddBlue,
    AddMagenta,
    AddCyan,
    AddWhite,
    AddTransparent,
    AddOpaque,
    ClearBucket,
    Move,
    TurnCcw,
    TurnCw,
    Mark,
    DrawLine,
    Fill,
    AddLayer,
    Compose,
    Clip,
    Unknown(Seq<Base>),
}

impl View for Command {
    type V = Cmd;

    open spec fn view(&self) -> Cmd {
        match self {
            Command::AddBlack => Cmd::AddBlack,
            Command::AddRed => Cmd::AddRed,
            Command::AddGreen => Cmd::AddGreen,
            Command::AddYellow => Cmd::AddYellow,
            Command::AddBlue => Cmd::AddBlue,
            Command::AddMagenta => Cmd::AddMagenta,
            Command::AddCyan => Cmd::AddCyan,
            Command::AddWhite => Cmd::AddWhite,
            Command::AddTransparent => Cmd::AddTransparent,
            Command::AddOpaque => Cmd::AddOpaque,
            Command::ClearBucket => Cmd::ClearBucket,
            Command::Move => Cmd::Move,
            Command::TurnCcw => Cmd::TurnCcw,
            Command::TurnCw => Cmd::TurnCw,
            Command::Mark => Cmd::Mark,
            Command::DrawLine => Cmd::DrawLine,
            Command::Fill => Cmd::Fill,
            Command::AddLayer => Cmd::AddLayer,
            Command::Compose => Cmd::Compose,
            Command::Clip => Cmd::Clip,
            Command::Unknown(v) => Cmd::Unknown(v@),
        }
    }
}

/// The full opcode table: what one 7-base packet means. Anything not
/// listed is a no-op.
pub open spec fn spec_decode(op: Seq<Base>) -> Cmd {
    if op == seq![Base::P, Base::I, Base::P, Base::I, Base::I, Base::I, Base::C] {
        Cmd::AddBlack
    } else if op == seq![Base::P, Base::I, Base::P, Base::I, Base::I, Base::I, Base::P] {
        Cmd::AddRed
    } else if op == seq![Base::P, Base::I, Base::P, Base::I, Base::I, Base::C, Base::C] {
        Cmd::AddGreen
    } else if op == seq![Base::P, Base::I, Base::P, Base::I, Base::I, Base::C, Base::F] {
        Cmd::AddYellow
    } else if op == seq![Base::P, Base::I, Base::P, Base::I, Base::I, Base::C, Base::P] {
        Cmd::AddBlue
    } else if op == seq![Base::P, Base::I, Base::P, Base::I, Base::I, Base::F, Base::C] {
        Cmd::AddMagenta
    } else if op == seq![Base::P, Base::I, Base::P, Base::I, Base::I, Base::F, Base::F] {
        Cmd::AddCyan
    } else if op == seq![Base::P, Base::I, Base::P, Base::I, Base::I, Base::P, Base::C] {
        Cmd::AddWhite
    } else if op == seq![Base::P, Base::I, Base::P, Base::I, Base::I, Base::P, Base::F] {
        Cmd::AddTransparent
    } else if op == seq![Base::P, Base::I, Base::P, Base::I, Base::I, Base::P, Base::P] {
        Cmd::AddOpaque
    } else if op == seq![Base::P, Base::I, Base::I, Base::P, Base::I, Base::C, Base::P] {
        Cmd::ClearBucket
    } else if op == seq![Base::P, Base::I, Base::I, Base::I, Base::I, Base::I, Base::P] {
        Cmd::Move
    } else if op == seq![Base::P, Base::C, Base::C, Base::C, Base::C, Base::C, Base::P] {
        Cmd::TurnCcw
    } else if op == seq![Base::P, Base::F, Base::F, Base::F, Base::F, Base::F, Base::P] {
        Cmd::TurnCw
    } else if op == seq![Base::P, Base::C, Base::C, Base::I, Base::F, Base::F, Base::P] {
        Cmd::Mark
    } else if op == seq![Base::P, Base::F, Base::F, Base::I, Base::C, Base::C, Base::P] {
        Cmd::DrawLine
    } else if op == seq![Base::P, Base::I, Base::I, Base::P, Base::I, Base::I, Base::P] {
        Cmd::Fill
    } else if op == seq![Base::P, Base::C, Base::C, Base::P, Base::F, Base::F, Base::P] {
        Cmd::AddLayer
    } else if op == seq![Base::P, Base::F, Base::F, Base::P, Base::C, Base::C, Base::P] {
        Cmd::Compose
    } else if op == seq![Base::P, Base::F, Base::F, Base::I, Base::C, Base::C, Base::F] {
        Cmd::Clip
    } else {
        Cmd::Unknown(op)
    }
}

/// The instruction stream as commands: whole 7-base packets decoded
/// in order, a trailing shorter remainder dropped.
pub open spec fn spec_decode_all(s: Seq<Base>) -> Seq<Cmd>
    decreases s.len(),
{
    if s.len() < 7 {
        Seq::empty()
    } else {
        seq![spec_decode(s.take(7))] + spec_decode_all(s.skip(7))
    }
}

/// The renderer state a build step acts on.
#[verifier::ext_equal]
pub struct RState {
    pub bucket: Seq<Color>,
    pub pos: Position,
    pub mark: Position,
    pub dir: Direction,
    pub layers: Seq<Seq<Pixel>>,
}

pub open spec fn transparent_grid() -> Seq<Pixel> {
    Seq::new(360000, |i: int| transparent_pixel())
}

pub open spec fn init_rstate() -> RState {
    RState {
        bucket: Seq::empty(),
        pos: Position(0, 0),
        mark: Position(0, 0),
        dir: Direction::Right,
        layers: seq![transparent_grid()],
    }
}

/// What one command does to the renderer state.
pub open spec fn apply_cmd(s: RState, c: Cmd) -> RState {
    match c {
        Cmd::AddBlack => RState { bucket: s.bucket.push(Color::RGB(RGB(0, 0, 0))), ..s },
        Cmd::AddRed => RState { bucket: s.bucket.push(Color::RGB(RGB(255, 0, 0))), ..s },
        Cmd::AddGreen => RState { bucket: s.bucket.push(Color::RGB(RGB(0, 255, 0))), ..s },
        Cmd::AddYellow => RState { bucket: s.bucket.push(Color::RGB(RGB(255, 255, 0))), ..s },
        Cmd::AddBlue => RState { bucket: s.bucket.push(Color::RGB(RGB(0, 0, 255))), ..s },
        Cmd::AddMagenta => RState { bucket: s.bucket.push(Color::RGB(RGB(255, 0, 255))), ..s },
        Cmd::AddCyan => RState { bucket: s.bucket.push(Color::RGB(RGB(0, 255, 255))), ..s },
        Cmd::AddWhite => RState { bucket: s.bucket.push(Color::RGB(RGB(255, 255, 255))), ..s },
        Cmd::AddTransparent => RState { bucket: s.bucket.push(Color::Transparency(0)), ..s },
        Cmd::AddOpaque => RState { bucket: s.bucket.push(Color::Transparency(255)), ..s },
        Cmd::ClearBucket => RState { bucket: Seq::empty(), ..s },
        Cmd::Move => RState { pos: spec_move(s.pos, s.dir), ..s },
        Cmd::TurnCcw => RState { dir: spec_turn_ccw(s.dir), ..s },
        Cmd::TurnCw => RState { dir: spec_turn_cw(s.dir), ..s },
        Cmd::Mark => RState { mark: s.pos, ..s },
        Cmd::DrawLine => RState {
            layers: s.layers.update(
                s.layers.len() - 1,
                paint(s.layers.last(), line_pixels(s.pos, s.mark), bucket_pixel(s.bucket)),
            ),
            ..s
        },
        Cmd::Fill => RState {
            layers: s.layers.update(
                s.layers.len() - 1,
                spec_fill(s.layers.last(), s.pos, bucket_pixel(s.bucket)),
            ),
            ..s
        },
        Cmd::AddLayer => if s.layers.len() < 10 {
            RState { layers: s.layers.push(transparent_grid()), ..s }
        } else {
            s
        },
        Cmd::Compose => if s.layers.len() > 1 {
            RState {
                layers: s.layers.drop_last().update(
                    s.layers.len() - 2,
                    compose_grids(s.layers.last(), s.layers[s.layers.len() - 2]),
                ),
                ..s
            }
        } else {
            s
        },
        Cmd::Clip => if s.layers.len() > 1 {
            RState {
                layers: s.layers.drop_last().update(
                    s.layers.len() - 2,
                    clip_grids(s.layers.last(), s.layers[s.layers.len() - 2]),
                ),
                ..s
            }
        } else {
            s
        },
        Cmd::Unknown(_) => s,
    }
}

/// The state after a whole command list.
pub open spec fn run_cmds(s: RState, cs: Seq<Cmd>) -> RState
    decreases cs.len(),
{
    if cs.len() == 0 {
        s
    } else {
        apply_cmd(run_cmds(s, cs.drop_last()), cs.last())
    }
}

/// The drawing virtual machine: the bucket, the cursor and mark, the
/// direction, the layer stack, and the instructions left to run.
pub struct BuilderState {
    pub bucket: Bucket,
    pub pos: Position,
    pub mark: Position,
    pub dir: Direction,
    pub bitmaps: Vec<Bitmap>,
    pub commands: Vec<Command>,
    pub iteration: usize,
}

/// Decodes a run of bases into commands, 7 at a time.
#[verifier::rlimit(60)]
pub fn convert_rna_to_commands(rna: &[Base]) -> (r: Vec<Command>)
    ensures
        r@.map_values(|c: Command| c@) == spec_decode_all(rna@),
{
    let mut commands: Vec<Command> = Vec::new();
    let mut off: usize = 0;
    proof {
        assert(rna@.skip(0) =~= rna@);
        assert(commands@.map_values(|c: Command| c@) + spec_decode_all(rna@) =~= spec_decode_all(
            rna@,
        ));
    }
    while rna.len() - off >= 7
        invariant
            off <= rna@.len(),
            spec_decode_all(rna@) == commands@.map_values(|c: Command| c@) + spec_decode_all(
                rna@.skip(off as int),
            ),
        decreases rna@.len() - off,
    {
        let ghost cur = rna@.skip(off as int);
        let ghost done = commands@.map_values(|c: Command| c@);
        let b0 = rna[off];
        let b1 = rna[off + 1];
        let b2 = rna[off + 2];
        let b3 = rna[off + 3];
        let b4 = rna[off + 4];
        let b5 = rna[off + 5];
        let b6 = rna[off + 6];
        let ghost op = cur.take(7);
        proof {
            assert(op =~= seq![b0, b1, b2, b3, b4, b5, b6]);
            assert(cur.skip(7) =~= rna@.skip(off as int + 7));
        }
        let cmd = match (b0, b1, b2, b3, b4, b5, b6) {
            (Base::P, Base::I, Base::P, Base::I, Base::I, Base::I, Base::C) => Command::AddBlack,
            (Base::P, Base::I, Base::P, Base::I, Base::I, Base::I, Base::P) => Command::AddRed,
            (Base::P, Base::I, Base::P, Base::I, Base::I, Base::C, Base::C) => Command::AddGreen,
            (Base::P, Base::I, Base::P, Base::I, Base::I, Base::C, Base::F) => Command::AddYellow,
            (Base::P, Base::I, Base::P, Base::I, Base::I, Base::C, Base::P) => Command::AddBlue,
            (Base::P, Base::I, Base::P, Base::I, Base::I, Base::F, Base::C) => Command::AddMagenta,
            (Base::P, Base::I, Base::P, Base::I, Base::I, Base::F, Base::F) => Command::AddCyan,
            (Base::P, Base::I, Base::P, Base::I, Base::I, Base::P, Base::C) => Command::AddWhite,
            (
                Base::P,
                Base::I,
                Base::P,
                Base::I,
                Base::I,
                Base::P,
                Base::F,
            ) => Command::AddTransparent,
            (Base::P, Base::I, Base::P, Base::I, Base::I, Base::P, Base::P) => Command::AddOpaque,
            (Base::P, Base::I, Base::I, Base::P, Base::I, Base::C, Base::P) => Command::ClearBucket,
            (Base::P, Base::I, Base::I, Base::I, Base::I, Base::I, Base::P) => Command::Move,
            (Base::P, Base::C, Base::C, Base::C, Base::C, Base::C, Base::P) => Command::TurnCcw,
            (Base::P, Base::F, Base::F, Base::F, Base::F, Base::F, Base::P) => Command::TurnCw,
            (Base::P, Base::C, Base::C, Base::I, Base::F, Base::F, Base::P) => Command::Mark,
            (Base::P, Base::F, Base::F, Base::I, Base::C, Base::C, Base::P) => Command::DrawLine,
            (Base::P, Base::I, Base::I, Base::P, Base::I, Base::I, Base::P) => Command::Fill,
            (Base::P, Base::C, Base::C, Base::P, Base::F, Base::F, Base::P) => Command::AddLayer,
            (Base::P, Base::F, Base::F, Base::P, Base::C, Base::C, Base::P) => Command::Compose,
            (Base::P, Base::F, Base::F, Base::I, Base::C, Base::C, Base::F) => Command::Clip,
            _ => {
                let mut v: Vec<Base> = Vec::new();
                v.push(b0);
                v.push(b1);
                v.push(b2);
                v.push(b3);
                v.push(b4);
                v.push(b5);
                v.push(b6);
                proof {
                    assert(v@ =~= op);
                }
                Command::Unknown(v)
            },
        };
        proof {
            assert(cmd@ == spec_decode(op));
        }
        commands.push(cmd);
        proof {
            assert(commands@.map_values(|c: Command| c@) =~= done.push(spec_decode(op)));
            assert(done.push(spec_decode(op)) + spec_decode_all(rna@.skip(off as int + 7))
                =~= done + (seq![spec_decode(op)] + spec_decode_all(rna@.skip(off as int + 7))));
        }
        off = off + 7;
    }
    proof {
        assert(spec_decode_all(rna@.skip(off as int)).len() == 0);
        assert(commands@.map_values(|c: Command| c@) + spec_decode_all(rna@.skip(off as int))
            =~= commands@.map_values(|c: Command| c@));
    }
    commands
}

impl BuilderState {
    /// The mathematical renderer state.
    pub open spec fn rstate(self) -> RState {
        RState {
            bucket: self.bucket.bucket@,
            pos: self.pos,
            mark: self.mark,
            dir: self.dir,
            layers: self.bitmaps@.map_values(|b: Bitmap| b@),
        }
    }

    pub open spec fn wf(self) -> bool {
        &&& self.bucket.wf()
        &&& pos_wf(self.pos)
        &&& pos_wf(self.mark)
        &&& 1 <= self.bitmaps@.len() <= 10
        &&& forall|i: int| 0 <= i < self.bitmaps@.len() ==> (#[trigger] self.bitmaps@[i]).wf()
    }

    /// The initial build state: an empty bucket, cursor and mark at
    /// the origin, facing right, one transparent layer.
    pub fn new(rna: &[Base]) -> (r: Self)
        ensures
            r.wf(),
            r.rstate() == init_rstate(),
            r.commands@.map_values(|c: Command| c@) == spec_decode_all(rna@),
            r.iteration == 0,
    {
        let bm = Bitmap::transparent();
        let mut bitmaps: Vec<Bitmap> = Vec::new();
        bitmaps.push(bm);
        let r = BuilderState {
            bucket: Bucket::new(),
            pos: Position(0, 0),
            mark: Position(0, 0),
            dir: Direction::Right,
            bitmaps,
            commands: convert_rna_to_commands(rna),
            iteration: 0,
        };
        proof {
            assert(bm@ =~= transparent_grid());
            assert(r.bitmaps@.map_values(|b: Bitmap| b@) =~= seq![transparent_grid()]);
            assert(r.rstate() =~= init_rstate());
        }
        r
    }

    /// Appends further instructions to run.
    pub fn extend(&mut self, rna: &[Base])
        requires
            old(self).wf(),
        ensures
            final(self).wf(),
            final(self).rstate() == old(self).rstate(),
            final(self).iteration == old(self).iteration,
            final(self).commands@.map_values(|c: Command| c@) == old(self).commands@.map_values(
                |c: Command| c@,
            ) + spec_decode_all(rna@),
    {
        let mut more = convert_rna_to_commands(rna);
        let ghost before = self.commands@.map_values(|c: Command| c@);
        let ghost morev = more@.map_values(|c: Command| c@);
        self.commands.append(&mut more);
        proof {
            assert(self.commands@.map_values(|c: Command| c@) =~= before + morev);
        }
    }

    /// Runs the next instruction against the state.
    #[verifier::spinoff_prover]
    #[verifier::rlimit(60)]
    pub fn step(&mut self)
        requires
            old(self).wf(),
            old(self).iteration < old(self).commands@.len(),
        ensures
            final(self).wf(),
            final(self).commands@ == old(self).commands@,
            final(self).iteration == old(self).iteration + 1,
            final(self).rstate() == apply_cmd(
                old(self).rstate(),
                old(self).commands@[old(self).iteration as int]@,
            ),
    {
        let ghost s0 = self.rstate();
        let ghost cv = self.commands@[self.iteration as int]@;
        let n_cmds = self.commands.len();
        match &self.commands[self.iteration] {
            Command::AddBlack => {
                self.bucket.add_color(Color::RGB(RGB(0, 0, 0)));
                proof {
                    assert(self.rstate() =~= apply_cmd(s0, cv));
                }
            },
            Command::AddRed => {
                self.bucket.add_color(Color::RGB(RGB(255, 0, 0)));
                proof {
                    assert(self.rstate() =~= apply_cmd(s0, cv));
                }
            },
            Command::AddGreen => {
                self.bucket.add_color(Color::RGB(RGB(0, 255, 0)));
                proof {
                    assert(self.rstate() =~= apply_cmd(s0, cv));
                }
            },
            Command::AddYellow => {
                self.bucket.add_color(Color::RGB(RGB(255, 255, 0)));
                proof {
                    assert(self.rstate() =~= apply_cmd(s0, cv));
                }
            },
            Command::AddBlue => {
                self.bucket.add_color(Color::RGB(RGB(0, 0, 255)));
                proof {
                    assert(self.rstate() =~= apply_cmd(s0, cv));
                }
            },
            Command::AddMagenta => {
                self.bucket.add_color(Color::RGB(RGB(255, 0, 255)));
                proof {
                    assert(self.rstate() =~= apply_cmd(s0, cv));
                }
            },
            Command::AddCyan => {
                self.bucket.add_color(Color::RGB(RGB(0, 255, 255)));
                proof {
                    assert(self.rstate() =~= apply_cmd(s0, cv));
                }
            },
            Command::AddWhite => {
                self.bucket.add_color(Color::RGB(RGB(255, 255, 255)));
                proof {
                    assert(self.rstate() =~= apply_cmd(s0, cv));
                }
            },
            Command::AddTransparent => {
                self.bucket.add_color(Color::Transparency(0));
                proof {
                    assert(self.rstate() =~= apply_cmd(s0, cv));
                }
            },
            Command::AddOpaque => {
                self.bucket.add_color(Color::Transparency(255));
                proof {
                    assert(self.rstate() =~= apply_cmd(s0, cv));
                }
            },
            Command::ClearBucket => {
                self.bucket.clear();
                proof {
                    assert(self.rstate() =~= apply_cmd(s0, cv));
                }
            },
            Command::Move => {
                self.pos = self.pos.move_(self.dir);
                proof {
                    assert(self.rstate() =~= apply_cmd(s0, cv));
                }
            },
            Command::TurnCcw => {
                self.dir = self.dir.turn_ccw();
                proof {
                    assert(self.rstate() =~= apply_cmd(s0, cv));
                }
            },
            Command::TurnCw => {
                self.dir = self.dir.turn_cw();
                proof {
                    assert(self.rstate() =~= apply_cmd(s0, cv));
                }
            },
            Command::Mark => {
                self.mark = self.pos;
                proof {
                    assert(self.rstate() =~= apply_cmd(s0, cv));
                }
            },
            Command::DrawLine => {
                let px = self.bucket.current_pixel();
                let mut bm = match self.bitmaps.pop() {
                    Some(b) => b,
                    None => vstd::pervasive::unreached(),
                };
                bm.draw_line(self.pos, self.mark, px);
                self.bitmaps.push(bm);
                proof {
                    assert(self.bitmaps@.map_values(|b: Bitmap| b@) =~= s0.layers.update(
                        s0.layers.len() - 1,
                        paint(s0.layers.last(), line_pixels(s0.pos, s0.mark), bucket_pixel(
                            s0.bucket,
                        )),
                    ));
                    assert(self.rstate() =~= apply_cmd(s0, cv));
                }
            },
            Command::Fill => {
                let px = self.bucket.current_pixel();
                let mut bm = match self.bitmaps.pop() {
                    Some(b) => b,
                    None => vstd::pervasive::unreached(),
                };
                bm.fill(self.pos, px);
                self.bitmaps.push(bm);
                proof {
                    assert(self.bitmaps@.map_values(|b: Bitmap| b@) =~= s0.layers.update(
                        s0.layers.len() - 1,
                        spec_fill(s0.layers.last(), s0.pos, bucket_pixel(s0.bucket)),
                    ));
                    assert(self.rstate() =~= apply_cmd(s0, cv));
                }
            },
            Command::AddLayer => {
                if self.bitmaps.len() < 10 {
                    let bm = Bitmap::transparent();
                    proof {
                        assert(bm@ =~= transparent_grid());
                    }
                    self.bitmaps.push(bm);
                    proof {
                        assert(self.bitmaps@.map_values(|b: Bitmap| b@) =~= s0.layers.push(
                            transparent_grid(),
                        ));
                        assert(self.rstate() =~= apply_cmd(s0, cv));
                    }
                } else {
                    proof {
                        assert(self.rstate() =~= apply_cmd(s0, cv));
                    }
                }
            },
            Command::Compose => {
                if self.bitmaps.len() > 1 {
                    let top = match self.bitmaps.pop() {
                        Some(b) => b,
                        None => vstd::pervasive::unreached(),
                    };
                    let mut under = match self.bitmaps.pop() {
                        Some(b) => b,
                        None => vstd::pervasive::unreached(),
                    };
                    under.compose_with(top);
                    self.bitmaps.push(under);
                    proof {
                        assert(self.bitmaps@.map_values(|b: Bitmap| b@) =~= s0.layers.drop_last()
                            .update(
                            s0.layers.len() - 2,
                            compose_grids(s0.layers.last(), s0.layers[s0.layers.len() - 2]),
                        ));
                        assert(self.rstate() =~= apply_cmd(s0, cv));
                    }
                } else {
                    proof {
                        assert(self.rstate() =~= apply_cmd(s0, cv));
                    }
                }
            },
            Command::Clip => {
                if self.bitmaps.len() > 1 {
                    let top = match self.bitmaps.pop() {
                        Some(b) => b,
                        None => vstd::pervasive::unreached(),
                    };
                    let mut under = match self.bitmaps.pop() {
                        Some(b) => b,
                        None => vstd::pervasive::unreached(),
                    };
                    under.clip_with(top);
                    self.bitmaps.push(under);
                    proof {
                        assert(self.bitmaps@.map_values(|b: Bitmap| b@) =~= s0.layers.drop_last()
                            .update(
                            s0.layers.len() - 2,
                            clip_grids(s0.layers.last(), s0.layers[s0.layers.len() - 2]),
                        ));
                        assert(self.rstate() =~= apply_cmd(s0, cv));
                    }
                } else {
                    proof {
                        assert(self.rstate() =~= apply_cmd(s0, cv));
                    }
                }
            },
            Command::Unknown(_) => {
                proof {
                    assert(self.rstate() =~= apply_cmd(s0, cv));
                }
            },
        }
        self.iteration = self.iteration + 1;
    }

    /// The topmost layer, the one instructions act on.
    pub fn last_bitmap(&self) -> (r: &Bitmap)
        requires
            self.wf(),
        ensures
            r@ == self.rstate().layers.last(),
    {
        &self.bitmaps[self.bitmaps.len() - 1]
    }
}

/// Runs a whole instruction stream read as ASCII bases and returns
/// the bitmap at the bottom of the layer stack.
pub fn build(rna: &[u8]) -> (r: Bitmap)
    requires
        forall|i: int| 0 <= i < rna@.len() ==> crate::base::byte_is_base(rna@[i]),
    ensures
        r.wf(),
        r@ == run_cmds(
            init_rstate(),
            spec_decode_all(rna@.map_values(|c: u8| crate::base::byte_to_base(c))),
        ).layers[0],
{
    let bases = crate::base::to_base_vec(rna);
    let mut builder = BuilderState::new(bases.as_slice());
    let ghost cmds = spec_decode_all(rna@.map_values(|c: u8| crate::base::byte_to_base(c)));
    let n = builder.commands.len();
    let mut k: usize = 0;
    proof {
        assert(cmds.take(0) =~= Seq::<Cmd>::empty());
    }
    while k < n
        invariant
            builder.wf(),
            n == builder.commands@.len(),
            k <= n,
            builder.iteration == k,
            cmds == builder.commands@.map_values(|c: Command| c@),
            builder.rstate() == run_cmds(init_rstate(), cmds.take(k as int)),
        decreases n - k,
    {
        proof {
            assert(cmds.take(k + 1).drop_last() =~= cmds.take(k as int));
            assert(cmds.take(k + 1).last() == cmds[k as int]);
        }
        builder.step();
        k = k + 1;
    }
    proof {
        assert(cmds.take(n as int) =~= cmds);
    }
    let ghost layers_fin = builder.rstate().layers;
    let r = builder.bitmaps.remove(0);
    proof {
        assert(r@ == layers_fin[0]);
    }
    r
}

} // verus!
