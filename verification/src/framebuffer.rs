//! Streaming writes into the window's RGBA8 framebuffer.
//!
//! The window drains batches of finished pixels from the render channel and
//! copies each one into a flat byte buffer at offset `(y * width + x) * 4`.
//! The functions here perform those writes and are specified against a
//! mathematical replay of the batch, so later pixels overwrite earlier ones
//! exactly as the buffer sees them.

use vstd::prelude::*;

use crate::pixel::{last_update_at, lemma_last_update_at, Pixel, PixelBatchUpdate, rgba_offset};

verus! {

/// The buffer after writing one pixel: four bytes at the pixel's offset, or
/// the buffer unchanged when those bytes would fall outside it.
pub open spec fn write_pixel_spec(frame: Seq<u8>, width: int, p: Pixel) -> Seq<u8> {
    let off = rgba_offset(width, p.spec_x() as int, p.spec_y() as int);
    if 0 <= off && off + 4 <= frame.len() {
        frame.update(off, p.spec_color().r).update(off + 1, p.spec_color().g).update(
            off + 2,
            p.spec_color().b,
        ).update(off + 3, p.spec_color().a)
    } else {
        frame
    }
}

/// The buffer after replaying a whole batch in order.
pub open spec fn apply_batch_spec(frame: Seq<u8>, width: int, pixels: Seq<Pixel>) -> Seq<u8>
    decreases pixels.len(),
{
    if pixels.len() == 0 {
        frame
    } else {
        apply_batch_spec(write_pixel_spec(frame, width, pixels[0]), width, pixels.drop_first())
    }
}

/// Replaying a batch never changes the buffer's length.
pub proof fn lemma_apply_batch_len(frame: Seq<u8>, width: int, pixels: Seq<Pixel>)
    ensures
        apply_batch_spec(frame, width, pixels).len() == frame.len(),
    decreases pixels.len(),
{
    if pixels.len() > 0 {
        lemma_apply_batch_len(write_pixel_spec(frame, width, pixels[0]), width, pixels.drop_first());
    }
}

/// A byte that no pixel of the batch writes keeps its old value.
pub proof fn lemma_apply_batch_untouched(frame: Seq<u8>, width: int, pixels: Seq<Pixel>, i: int)
    requires
        0 <= i < frame.len(),
        forall|k: int|
            0 <= k < pixels.len() ==> {
                let off = rgba_offset(
                    width,
                    (#[trigger] pixels[k]).spec_x() as int,
                    pixels[k].spec_y() as int,
                );
                i < off || off + 4 <= i
            },
    ensures
        apply_batch_spec(frame, width, pixels)[i] == frame[i],
    decreases pixels.len(),
{
    if pixels.len() > 0 {
        let p0 = pixels[0];
        let off0 = rgba_offset(width, p0.spec_x() as int, p0.spec_y() as int);
        assert(i < off0 || off0 + 4 <= i);
        let frame1 = write_pixel_spec(frame, width, p0);
        assert(frame1[i] == frame[i]);
        assert(forall|k: int|
            0 <= k < pixels.drop_first().len() ==> #[trigger] pixels.drop_first()[k] == pixels[k
                + 1]);
        lemma_apply_batch_untouched(frame1, width, pixels.drop_first(), i);
    }
}

/// The window-sink law: after a batch is replayed, the four bytes of any
/// in-buffer cell that the batch wrote hold the colour of the *last* pixel
/// of the batch aimed there — later updates win, and the text overlay's
/// glyphs stay on top of its background.
pub proof fn lemma_apply_batch_last_write(
    frame: Seq<u8>,
    width: int,
    pixels: Seq<Pixel>,
    x: int,
    y: int,
)
    requires
        width > 0,
        forall|k: int| 0 <= k < pixels.len() ==> (#[trigger] pixels[k]).spec_x() < width,
        0 <= x < width,
        0 <= y,
        last_update_at(pixels, x, y) >= 0,
        rgba_offset(width, x, y) + 4 <= frame.len(),
    ensures
        ({
            let out = apply_batch_spec(frame, width, pixels);
            let c = pixels[last_update_at(pixels, x, y)].spec_color();
            let off = rgba_offset(width, x, y);
            out[off] == c.r && out[off + 1] == c.g && out[off + 2] == c.b && out[off + 3] == c.a
        }),
    decreases pixels.len(),
{
    let off = rgba_offset(width, x, y);
    lemma_last_update_at(pixels, x, y);
    let n = pixels.len() as int;
    let p = pixels[n - 1];
    let front = pixels.drop_last();
    assert(pixels.take(n - 1) =~= front);
    assert(pixels.take(n) =~= pixels);
    lemma_apply_batch_step(frame, width, pixels, n - 1);
    let out_front = apply_batch_spec(frame, width, front);
    lemma_apply_batch_len(frame, width, front);
    assert(apply_batch_spec(frame, width, pixels) == write_pixel_spec(out_front, width, p));
    if p.spec_x() == x && p.spec_y() == y {
        assert(last_update_at(pixels, x, y) == n - 1);
        lemma_offset_nonneg(width, x, y);
        assert(out_front.len() == frame.len());
        assert(0 <= off && off + 4 <= out_front.len());
        let out = write_pixel_spec(out_front, width, p);
        assert(out == out_front.update(off, p.spec_color().r).update(
            off + 1,
            p.spec_color().g,
        ).update(off + 2, p.spec_color().b).update(off + 3, p.spec_color().a));
        assert(out[off] == p.spec_color().r && out[off + 1] == p.spec_color().g && out[off + 2]
            == p.spec_color().b && out[off + 3] == p.spec_color().a);
    } else {
        assert(last_update_at(pixels, x, y) == last_update_at(front, x, y));
        lemma_last_update_at(front, x, y);
        assert(forall|k: int| 0 <= k < front.len() ==> #[trigger] front[k] == pixels[k]);
        lemma_apply_batch_last_write(frame, width, front, x, y);
        let x2 = p.spec_x() as int;
        let y2 = p.spec_y() as int;
        let off2 = rgba_offset(width, x2, y2);
        assert(off + 4 <= off2 || off2 + 4 <= off) by (nonlinear_arith)
            requires
                width > 0,
                0 <= x < width,
                0 <= x2 < width,
                0 <= y,
                0 <= y2,
                x != x2 || y != y2,
                off == (y * width + x) * 4,
                off2 == (y2 * width + x2) * 4,
        ;
        let out = write_pixel_spec(out_front, width, p);
        assert(out[off] == out_front[off] && out[off + 1] == out_front[off + 1] && out[off + 2]
            == out_front[off + 2] && out[off + 3] == out_front[off + 3]);
    }
}

/// A cell offset inside the image is nonnegative.
proof fn lemma_offset_nonneg(width: int, x: int, y: int)
    requires
        width > 0,
        0 <= x,
        0 <= y,
    ensures
        rgba_offset(width, x, y) >= 0,
{
    assert((y * width + x) * 4 >= 0) by (nonlinear_arith)
        requires
            width > 0,
            0 <= x,
            0 <= y,
    ;
}

/// Writes one pixel into the framebuffer at the offset the window surface
/// uses, skipping it when its bytes would fall outside the buffer, exactly
/// as `write_pixel_spec` says.
pub fn write_pixel_to_frame(frame: &mut Vec<u8>, width: u32, p: &Pixel)
    ensures
        final(frame)@ == write_pixel_spec(old(frame)@, width as int, *p),
        final(frame)@.len() == old(frame)@.len(),
{
    let (x, y) = p.position();
    proof {
        assert((y as u128) * (width as u128) <= 0xffff_ffff_ffff_ffff) by (nonlinear_arith)
            requires
                y <= u32::MAX && width <= u32::MAX,
        ;
    }
    let off128: u128 = ((y as u128) * (width as u128) + (x as u128)) * 4;
    proof {
        assert(off128 == rgba_offset(width as int, x as int, y as int));
    }
    if off128 + 4 <= frame.len() as u128 {
        let off: usize = off128 as usize;
        let c = p.color();
        frame.set(off, c.r);
        frame.set(off + 1, c.g);
        frame.set(off + 2, c.b);
        frame.set(off + 3, c.a);
    }
}

/// Drains one batch into the framebuffer: every pixel is written in batch
/// order, so where positions repeat the later pixel wins.
pub fn apply_batch_to_frame(frame: &mut Vec<u8>, width: u32, batch: &PixelBatchUpdate)
    ensures
        final(frame)@ == apply_batch_spec(old(frame)@, width as int, batch.pixels@),
        final(frame)@.len() == old(frame)@.len(),
{
    let ghost frame0 = frame@;
    let n = batch.pixels.len();
    let mut k: usize = 0;
    while k < n
        invariant
            k <= n,
            n == batch.pixels@.len(),
            frame@ == apply_batch_spec(frame0, width as int, batch.pixels@.take(k as int)),
            frame@.len() == frame0.len(),
        decreases n - k,
    {
        write_pixel_to_frame(frame, width, &batch.pixels[k]);
        proof {
            lemma_apply_batch_step(frame0, width as int, batch.pixels@, k as int);
        }
        k = k + 1;
    }
    proof {
        assert(batch.pixels@.take(n as int) =~= batch.pixels@);
    }
}

/// Replaying one more pixel extends the replay of a prefix by one write.
proof fn lemma_apply_batch_step(frame: Seq<u8>, width: int, pixels: Seq<Pixel>, k: int)
    requires
        0 <= k < pixels.len(),
    ensures
        apply_batch_spec(frame, width, pixels.take(k + 1)) == write_pixel_spec(
            apply_batch_spec(frame, width, pixels.take(k)),
            width,
            pixels[k],
        ),
    decreases k,
{
    if k == 0 {
        let frame1 = write_pixel_spec(frame, width, pixels[0]);
        assert(pixels.take(1).drop_first() =~= Seq::<Pixel>::empty());
        assert(pixels.take(1)[0] == pixels[0]);
        assert(pixels.take(0) =~= Seq::<Pixel>::empty());
        assert(apply_batch_spec(frame, width, Seq::<Pixel>::empty()) == frame);
        assert(apply_batch_spec(frame1, width, Seq::<Pixel>::empty()) == frame1);
        assert(apply_batch_spec(frame, width, pixels.take(1)) == apply_batch_spec(
            frame1,
            width,
            pixels.take(1).drop_first(),
        ));
    } else {
        let frame1 = write_pixel_spec(frame, width, pixels[0]);
        let rest = pixels.drop_first();
        assert(pixels.take(k + 1)[0] == pixels[0]);
        assert(pixels.take(k)[0] == pixels[0]);
        assert(pixels.take(k + 1).drop_first() =~= rest.take(k));
        assert(pixels.take(k).drop_first() =~= rest.take(k - 1));
        lemma_apply_batch_step(frame1, width, rest, k - 1);
        assert(rest[k - 1] == pixels[k]);
        assert(apply_batch_spec(frame, width, pixels.take(k + 1)) == apply_batch_spec(
            frame1,
            width,
            rest.take(k),
        ));
        assert(apply_batch_spec(frame, width, pixels.take(k)) == apply_batch_spec(
            frame1,
            width,
            rest.take(k - 1),
        ));
    }
}

} // verus!
