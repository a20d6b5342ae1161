use vstd::prelude::*;

use crate::params::Transform;

verus! {

/// A decoded image: `width * height` pixels of four bytes (red, green, blue,
/// alpha), row by row from the top left.
#[derive(Clone, Debug)]
pub struct Pixels {
    pub width: u32,
    pub height: u32,
    pub rgba: Vec<u8>,
}

impl Pixels {
    pub open spec fn wf(&self) -> bool {
        self.rgba@.len() == 4 * (self.width as int * self.height as int)
    }

    /// Channel `c` of the pixel in column `x`, row `y`.
    pub open spec fn at(&self, x: int, y: int, c: int) -> u8 {
        self.rgba@[4 * (y * self.width as int + x) + c]
    }

    /// Whether the buffer holds exactly `width * height` pixels and the
    /// image is at least one pixel wide and high.
    pub fn is_usable(&self) -> (r: bool)
        ensures
            r == (self.wf() && self.width >= 1 && self.height >= 1),
    {
        assert((self.width as int) * (self.height as int) <= 4294967295 * 4294967295) by (nonlinear_arith)
            requires
                0 <= self.width as int <= 4294967295,
                0 <= self.height as int <= 4294967295,
        ;
        let area = (self.width as u64) * (self.height as u64);
        let len = self.rgba.len();
        self.width >= 1 && self.height >= 1 && len % 4 == 0 && (len / 4) as u64 == area
    }

    pub fn new(width: u32, height: u32, rgba: Vec<u8>) -> (r: Option<Pixels>)
        ensures
            r is Some <==> rgba@.len() == 4 * (width as int * height as int),
            r matches Some(p) ==> p.width == width && p.height == height && p.rgba@ == rgba@,
    {
        assert((width as int) * (height as int) <= 4294967295 * 4294967295) by (nonlinear_arith)
            requires
                0 <= width as int <= 4294967295,
                0 <= height as int <= 4294967295,
        ;
        let area = (width as u64) * (height as u64);
        let len = rgba.len();
        if len % 4 == 0 && (len / 4) as u64 == area {
            Some(Pixels { width, height, rgba })
        } else {
            None
        }
    }
}

/// Width of the image that `t` makes out of a `w` by `h` one.
pub open spec fn transformed_width(t: Transform, w: int, h: int) -> int {
    if t.quarter_turns % 2 == 0 {
        w
    } else {
        h
    }
}

pub open spec fn transformed_height(t: Transform, w: int, h: int) -> int {
    if t.quarter_turns % 2 == 0 {
        h
    } else {
        w
    }
}

/// Source column and row in a `w` by `h` image of the pixel at (`x`, `y`)
/// after `k` clockwise quarter turns.
pub open spec fn rotated_source(k: nat, w: int, h: int, x: int, y: int) -> (int, int)
    decreases k,
{
    if k == 0 {
        (x, y)
    } else {
        let prev_h = if (k - 1) % 2 == 0 {
            h
        } else {
            w
        };
        rotated_source((k - 1) as nat, w, h, y, prev_h - 1 - x)
    }
}

/// Source column and row of the pixel at (`x`, `y`) after `t`.
pub open spec fn transform_source(t: Transform, w: int, h: int, x: int, y: int) -> (int, int) {
    let tw = transformed_width(t, w, h);
    if t.mirrored {
        rotated_source(t.quarter_turns as nat, w, h, tw - 1 - x, y)
    } else {
        rotated_source(t.quarter_turns as nat, w, h, x, y)
    }
}

/// `q` is `p` rotated by `k` quarter turns, then mirrored if `mirrored`.
pub open spec fn is_transformed(q: Pixels, p: Pixels, t: Transform) -> bool {
    &&& q.wf()
    &&& q.width == transformed_width(t, p.width as int, p.height as int)
    &&& q.height == transformed_height(t, p.width as int, p.height as int)
    &&& forall|x: int, y: int, c: int|
        0 <= x < q.width && 0 <= y < q.height && 0 <= c < 4 ==> #[trigger] q.at(x, y, c) == p.at(
            transform_source(t, p.width as int, p.height as int, x, y).0,
            transform_source(t, p.width as int, p.height as int, x, y).1,
            c,
        )
}

/// Relies on image::imageops::rotate90: the image turned a quarter clockwise,
/// so that the top row becomes the right column.
#[verifier::external_body]
fn rotate90(p: &Pixels) -> (r: Pixels)
    requires
        p.wf(),
    ensures
        r.wf(),
        r.width == p.height,
        r.height == p.width,
        forall|x: int, y: int, c: int|
            0 <= x < r.width && 0 <= y < r.height && 0 <= c < 4 ==> #[trigger] r.at(x, y, c) == p.at(
                y,
                p.height - 1 - x,
                c,
            ),
{
    let img = image::RgbaImage::from_raw(p.width, p.height, p.rgba.clone()).unwrap();
    let out = image::imageops::rotate90(&img);
    Pixels { width: out.width(), height: out.height(), rgba: out.into_raw() }
}

/// Relies on image::imageops::flip_horizontal: each row reversed.
#[verifier::external_body]
fn flip_horizontal(p: &Pixels) -> (r: Pixels)
    requires
        p.wf(),
    ensures
        r.wf(),
        r.width == p.width,
        r.height == p.height,
        forall|x: int, y: int, c: int|
            0 <= x < r.width && 0 <= y < r.height && 0 <= c < 4 ==> #[trigger] r.at(x, y, c) == p.at(
                p.width - 1 - x,
                y,
                c,
            ),
{
    let img = image::RgbaImage::from_raw(p.width, p.height, p.rgba.clone()).unwrap();
    let out = image::imageops::flip_horizontal(&img);
    Pixels { width: out.width(), height: out.height(), rgba: out.into_raw() }
}

/// `p` under the rotation and mirror that `t` stands for.
pub fn apply_transform(p: &Pixels, t: Transform) -> (r: Pixels)
    requires
        p.wf(),
        t.wf(),
    ensures
        is_transformed(r, *p, t),
{
    let ghost w = p.width as int;
    let ghost h = p.height as int;
    let mut cur = Pixels { width: p.width, height: p.height, rgba: p.rgba.clone() };
    let mut k: u8 = 0;
    let ghost t0 = Transform { quarter_turns: 0, mirrored: false };
    assert(cur.rgba@ == p.rgba@);
    assert(is_transformed(cur, *p, t0));
    while k < t.quarter_turns
        invariant
            p.wf(),
            t.wf(),
            k <= t.quarter_turns,
            w == p.width,
            h == p.height,
            is_transformed(cur, *p, Transform { quarter_turns: k, mirrored: false }),
        decreases t.quarter_turns - k,
    {
        let next = rotate90(&cur);
        proof {
            let tk = Transform { quarter_turns: k, mirrored: false };
            let tn = Transform { quarter_turns: (k + 1) as u8, mirrored: false };
            assert forall|x: int, y: int, c: int|
                0 <= x < next.width && 0 <= y < next.height && 0 <= c < 4 implies #[trigger] next.at(x, y, c)
                == p.at(transform_source(tn, w, h, x, y).0, transform_source(tn, w, h, x, y).1, c) by {
                assert(next.at(x, y, c) == cur.at(y, cur.height - 1 - x, c));
                assert(cur.at(y, cur.height - 1 - x, c) == p.at(
                    transform_source(tk, w, h, y, cur.height - 1 - x).0,
                    transform_source(tk, w, h, y, cur.height - 1 - x).1,
                    c,
                ));
            }
        }
        cur = next;
        k = k + 1;
    }
    if t.mirrored {
        let next = flip_horizontal(&cur);
        proof {
            let tk = Transform { quarter_turns: t.quarter_turns, mirrored: false };
            assert forall|x: int, y: int, c: int|
                0 <= x < next.width && 0 <= y < next.height && 0 <= c < 4 implies #[trigger] next.at(x, y, c)
                == p.at(transform_source(t, w, h, x, y).0, transform_source(t, w, h, x, y).1, c) by {
                assert(next.at(x, y, c) == cur.at(cur.width - 1 - x, y, c));
                assert(cur.at(cur.width - 1 - x, y, c) == p.at(
                    transform_source(tk, w, h, cur.width - 1 - x, y).0,
                    transform_source(tk, w, h, cur.width - 1 - x, y).1,
                    c,
                ));
            }
        }
        cur = next;
    } else {
        assert(t == Transform { quarter_turns: t.quarter_turns, mirrored: false });
    }
    cur
}

} // verus!
