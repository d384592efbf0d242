//! The pixel buffer: linear fixed-point colors quantized to 8-bit
//! RGBA bytes.

use crate::fixed::{div_floor, floor_div, SCALE};
use crate::vec3::{Vec3, V3};
use vstd::prelude::*;

verus! {

/// A linear-space pixel.
pub enum Pixel {
    RGB8(Vec3),
}

impl View for Pixel {
    type V = V3;

    open spec fn view(&self) -> V3 {
        match *self {
            Pixel::RGB8(v) => v@,
        }
    }
}

/// An 8-bit channel: `floor(x * 255 / SCALE)`, clamped to `[0, 255]`.
pub open spec fn quant(x: int) -> int {
    let q = div_floor(x * 255, SCALE as int);
    if q < 0 {
        0
    } else if q > 255 {
        255
    } else {
        q
    }
}

/// The four bytes of one pixel: the three quantized channels and a
/// fully opaque alpha.
pub open spec fn pixel_bytes(v: V3) -> Seq<u8> {
    seq![quant(v.x) as u8, quant(v.y) as u8, quant(v.z) as u8, 255u8]
}

/// The byte stream of a pixel sequence, in order.
pub open spec fn buffer_spec(ps: Seq<V3>) -> Seq<u8>
    decreases ps.len(),
{
    if ps.len() == 0 {
        Seq::empty()
    } else {
        buffer_spec(ps.drop_last()) + pixel_bytes(ps.last())
    }
}

/// The pixel buffer.
pub struct Pixels {
    data: Vec<Pixel>,
}

impl View for Pixels {
    type V = Seq<V3>;

    closed spec fn view(&self) -> Seq<V3> {
        self.data@.map_values(|p: Pixel| p@)
    }
}

/// One quantized channel.
fn quant_channel(x: i64) -> (b: u8)
    ensures
        b == quant(x as int),
{
    let q = floor_div((x as i128) * 255, SCALE as i128);
    proof {
        crate::fixed::lemma_abs_mul_bound(
            x as int,
            255,
            0x8000000000000000,
            255,
        );
    }
    if q < 0 {
        0
    } else if q > 255 {
        255
    } else {
        q as u8
    }
}

impl Pixels {
    pub fn new() -> (p: Pixels)
        ensures
            p@ == Seq::<V3>::empty(),
    {
        let p = Pixels { data: Vec::new() };
        proof {
            assert(p@ =~= Seq::<V3>::empty());
        }
        p
    }

    pub fn push(&mut self, pixel: Pixel)
        ensures
            final(self)@ == old(self)@.push(pixel@),
    {
        let ghost pre = self@;
        self.data.push(pixel);
        proof {
            assert(self@ =~= pre.push(pixel@));
        }
    }

    pub fn len(&self) -> (n: usize)
        ensures
            n == self@.len(),
    {
        self.data.len()
    }

    /// Flatten to RGBA8 bytes, four per pixel.
    pub fn create_buffer(self) -> (buf: Vec<u8>)
        ensures
            buf@ == buffer_spec(self@),
            buf@.len() == 4 * self@.len(),
    {
        let ghost all = self@;
        let mut buf: Vec<u8> = Vec::new();
        let mut i: usize = 0;
        proof {
            assert(buffer_spec(all.take(0)) =~= Seq::<u8>::empty());
            assert(buf@ =~= buffer_spec(all.take(0)));
        }
        while i < self.data.len()
            invariant
                0 <= i <= self.data.len(),
                all == self.data@.map_values(|p: Pixel| p@),
                all.len() == self.data@.len(),
                buf@ == buffer_spec(all.take(i as int)),
                buf@.len() == 4 * i,
            decreases self.data.len() - i,
        {
            let v = match &self.data[i] {
                Pixel::RGB8(v) => *v,
            };
            proof {
                assert(all[i as int] == v@);
            }
            buf.push(quant_channel(v.x));
            buf.push(quant_channel(v.y));
            buf.push(quant_channel(v.z));
            buf.push(255);
            proof {
                assert(all.take(i as int + 1).drop_last() =~= all.take(i as int));
                assert(all.take(i as int + 1).last() == all[i as int]);
                assert(buf@ =~= buffer_spec(all.take(i as int + 1)));
            }
            i = i + 1;
        }
        proof {
            assert(all.take(all.len() as int) =~= all);
        }
        buf
    }
}

} // verus!
