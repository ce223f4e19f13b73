//! Pictures for the renderer: the icon on the backdrop, and the glyphs of the menus.

use vstd::prelude::*;

verus! {

/// The most bytes that a decoded icon may have.
pub const ICON_BYTES_MAX: usize = 67_108_864;

/// What the decoder of PNG files makes of the first frame of a picture, in a buffer of
/// `max` bytes: its width and height, its bits to a sample, the number of its colour
/// type, and its bytes.
pub uninterp spec fn png_frame(b: Seq<u8>, max: int) -> Option<(u32, u32, u8, u8, Seq<u8>)>;

/// The bytes of a decoded frame.
pub open spec fn frame_bytes(f: Option<(u32, u32, u8, u8, Vec<u8>)>) -> Option<
    (u32, u32, u8, u8, Seq<u8>),
> {
    match f {
        Some((w, h, d, c, p)) => Some((w, h, d, c, p@)),
        None => None,
    }
}

/// `png::Decoder::read_info` and `png::Reader::next_frame`: the first frame under its
/// name, or none where the bytes are no picture or the frame does not fit in `max` bytes.
#[verifier::external_body]
fn decode_frame(b: &[u8], max: usize) -> (r: Option<(u32, u32, u8, u8, Vec<u8>)>)
    ensures
        frame_bytes(r) == png_frame(b@, max as int),
{
    let mut reader = png::Decoder::new(std::io::Cursor::new(b)).read_info().ok()?;
    let mut buf = vec![0u8; max];
    let info = reader.next_frame(&mut buf).ok()?;
    buf.truncate(info.buffer_size());
    Some((info.width, info.height, info.bit_depth as u8, info.color_type as u8, buf))
}

/// Bytes in threes as bytes in fours, each with full opacity. What is left over is
/// dropped.
pub open spec fn opaque(b: Seq<u8>) -> Seq<u8> {
    Seq::new((b.len() / 3) * 4, |i: int| if i % 4 == 3 { 255u8 } else { b[i / 4 * 3 + i % 4] })
}

fn add_opacity(b: &Vec<u8>) -> (r: Vec<u8>)
    ensures
        r@ == opaque(b@),
{
    let mut out: Vec<u8> = Vec::new();
    let n: usize = b.len() / 3;
    let mut i: usize = 0;
    while i < n
        invariant
            i <= n,
            n == b@.len() / 3,
            n * 3 <= b@.len() <= usize::MAX,
            out@ == opaque(b@).take(i * 4),
        decreases n - i,
    {
        let ghost before = out@;
        let k: usize = i * 3;
        out.push(b[k]);
        out.push(b[k + 1]);
        out.push(b[k + 2]);
        out.push(255);
        proof {
            let o = opaque(b@);
            assert(o[i * 4] == b@[i * 3]);
            assert(o[i * 4 + 1] == b@[i * 3 + 1]);
            assert(o[i * 4 + 2] == b@[i * 3 + 2]);
            assert(o[i * 4 + 3] == 255);
            assert(out@ =~= o.take((i + 1) * 4));
        }
        i = i + 1;
    }
    assert(opaque(b@).take(n * 4) =~= opaque(b@));
    out
}

/// The picture that a decoded frame is: red, green, blue and opacity for every pixel.
/// Only eight bits to a sample, with or without opacity, are taken.
pub open spec fn rgba_of(f: Option<(u32, u32, u8, u8, Seq<u8>)>) -> Option<(u32, u32, Seq<u8>)> {
    match f {
        Some((w, h, depth, color, b)) => {
            let p = if color == 6 { b } else { opaque(b) };
            if depth == 8 && (color == 6 || color == 2) && p.len() == w * h * 4 {
                Some((w, h, p))
            } else {
                None
            }
        },
        None => None,
    }
}

/// `rgba_of`, computed.
pub fn frame_rgba(frame: Option<(u32, u32, u8, u8, Vec<u8>)>) -> (r: Option<(u32, u32, Vec<u8>)>)
    ensures
        crate::detect::picture_bytes(r) == rgba_of(frame_bytes(frame)),
{
    match frame {
        Some((w, h, depth, color, b)) => {
            if depth != 8 || (color != 6 && color != 2) {
                return None;
            }
            let p = if color == 6 {
                b
            } else {
                add_opacity(&b)
            };
            assert(w * h * 4 <= 0xffff_ffff * 0xffff_ffff * 4) by (nonlinear_arith)
                requires
                    w <= 0xffff_ffff,
                    h <= 0xffff_ffff,
            ;
            assert(w * h <= 0xffff_ffff * 0xffff_ffff) by (nonlinear_arith)
                requires
                    w <= 0xffff_ffff,
                    h <= 0xffff_ffff,
            ;
            let need: u128 = w as u128 * h as u128 * 4;
            if p.len() as u128 == need {
                Some((w, h, p))
            } else {
                None
            }
        },
        None => None,
    }
}

/// The pixels of a PNG picture; none where it is none, or of another kind.
pub fn decode_icon_rgba(png: &[u8]) -> (r: Option<(u32, u32, Vec<u8>)>)
    ensures
        crate::detect::picture_bytes(r) == rgba_of(png_frame(png@, ICON_BYTES_MAX as int)),
{
    let f = decode_frame(png, ICON_BYTES_MAX);
    frame_rgba(f)
}

/// Colours scaled by their opacity. Bytes after the last whole pixel stay.
pub open spec fn premultiplied(b: Seq<u8>) -> Seq<u8> {
    Seq::new(
        b.len(),
        |i: int|
            if i % 4 < 3 && i / 4 * 4 + 3 < b.len() {
                (b[i] * b[i / 4 * 4 + 3] / 255) as u8
            } else {
                b[i]
            },
    )
}

fn scaled(c: u8, a: u8) -> (r: u8)
    ensures
        r == c * a / 255,
        r <= a,
{
    assert(0 <= c * a <= 255 * a) by (nonlinear_arith)
        requires
            0 <= c <= 255,
            0 <= a <= 255,
    ;
    (c as u16 * a as u16 / 255) as u8
}

/// `premultiplied`, computed.
pub fn premultiply(rgba: Vec<u8>) -> (r: Vec<u8>)
    ensures
        r@ == premultiplied(rgba@),
{
    let mut out: Vec<u8> = Vec::new();
    let n: usize = rgba.len();
    let mut i: usize = 0;
    while i < n
        invariant
            i <= n,
            n == rgba@.len(),
            out@ == premultiplied(rgba@).take(i as int),
        decreases n - i,
    {
        let base: usize = i / 4 * 4;
        let c = if i % 4 < 3 && n >= 4 && base <= n - 4 {
            scaled(rgba[i], rgba[base + 3])
        } else {
            rgba[i]
        };
        out.push(c);
        assert(c == premultiplied(rgba@)[i as int]);
        assert(out@ =~= premultiplied(rgba@).take(i + 1));
        i = i + 1;
    }
    assert(premultiplied(rgba@).take(n as int) =~= premultiplied(rgba@));
    out
}

/// No colour of a whole pixel is stronger than its opacity, which stays as it is.
pub proof fn law_no_colour_exceeds_its_opacity(b: Seq<u8>, i: int)
    requires
        0 <= i < b.len(),
        i / 4 * 4 + 3 < b.len(),
    ensures
        premultiplied(b)[i / 4 * 4 + 3] == b[i / 4 * 4 + 3],
        premultiplied(b)[i] <= premultiplied(b)[i / 4 * 4 + 3],
{
    let a = b[i / 4 * 4 + 3];
    let c = b[i];
    assert(0 <= c * a <= 255 * a) by (nonlinear_arith)
        requires
            0 <= c <= 255,
            0 <= a <= 255,
    ;
}

/// The icon on the backdrop, as the renderer blends it.
pub fn hint_icon(png: &[u8]) -> (r: Option<(u32, u32, Vec<u8>)>)
    ensures
        crate::detect::picture_bytes(r) == match rgba_of(png_frame(png@, ICON_BYTES_MAX as int)) {
            Some((w, h, p)) => Some((w, h, premultiplied(p))),
            None => None,
        },
{
    match decode_icon_rgba(png) {
        Some((w, h, p)) => Some((w, h, premultiply(p))),
        None => None,
    }
}

// ----------------------------------------------------------------- glyphs ---

/// A shape of a glyph, at one point: whether it covers the point, and whether it erases.
pub struct Stroke {
    pub covers: bool,
    pub erases: bool,
}

/// Is there ink after the shapes are laid on each other? The last one that covers the
/// point decides.
pub open spec fn inked(shapes: Seq<Stroke>) -> bool
    decreases shapes.len(),
{
    if shapes.len() == 0 {
        false
    } else if shapes.last().covers {
        !shapes.last().erases
    } else {
        inked(shapes.drop_last())
    }
}

/// `inked`, computed.
pub fn ink(shapes: &Vec<Stroke>) -> (r: bool)
    ensures
        r == inked(shapes@),
{
    let mut on = false;
    let mut i: usize = 0;
    while i < shapes.len()
        invariant
            i <= shapes@.len(),
            on == inked(shapes@.take(i as int)),
        decreases shapes@.len() - i,
    {
        assert(shapes@.take(i + 1).drop_last() =~= shapes@.take(i as int));
        if shapes[i].covers {
            on = !shapes[i].erases;
        }
        i = i + 1;
    }
    assert(shapes@.take(i as int) =~= shapes@);
    on
}

/// The samples to a pixel of a glyph.
pub const SAMPLES: u32 = 16;

/// The opacity of a pixel of which so many samples have ink.
pub fn coverage(hits: u32) -> (r: u8)
    requires
        hits <= SAMPLES,
    ensures
        r == hits * 255 / SAMPLES as int,
{
    (hits * 255 / SAMPLES) as u8
}

/// A picture without opacity keeps its colours and becomes opaque, pixel for pixel.
pub proof fn law_a_picture_without_opacity_is_opaque(b: Seq<u8>, n: nat, i: int)
    requires
        b.len() == 3 * n,
        0 <= i < n,
    ensures
        opaque(b).len() == 4 * n,
        opaque(b)[4 * i] == b[3 * i],
        opaque(b)[4 * i + 1] == b[3 * i + 1],
        opaque(b)[4 * i + 2] == b[3 * i + 2],
        opaque(b)[4 * i + 3] == 255,
{
    assert(b.len() / 3 == n);
    assert((4 * i) / 4 == i && (4 * i) % 4 == 0);
    assert((4 * i + 1) / 4 == i && (4 * i + 1) % 4 == 1);
    assert((4 * i + 2) / 4 == i && (4 * i + 2) % 4 == 2);
    assert((4 * i + 3) / 4 == i && (4 * i + 3) % 4 == 3);
}

/// A decoded frame is a picture where it has eight bits to a sample, red, green and blue
/// with or without opacity, and all the bytes of its size; any other is none.
pub proof fn law_a_whole_frame_is_a_picture(w: u32, h: u32, depth: u8, color: u8, b: Seq<u8>)
    ensures
        depth == 8 && color == 6 && b.len() == w * h * 4 ==> rgba_of(Some((w, h, depth, color, b))) == Some(
            (w, h, b),
        ),
        depth == 8 && color == 2 && b.len() == w * h * 3 ==> rgba_of(Some((w, h, depth, color, b))) == Some(
            (w, h, opaque(b)),
        ),
        depth != 8 ==> rgba_of(Some((w, h, depth, color, b))) is None,
        color != 6 && color != 2 ==> rgba_of(Some((w, h, depth, color, b))) is None,
        color == 6 && b.len() != w * h * 4 ==> rgba_of(Some((w, h, depth, color, b))) is None,
        rgba_of(None) is None,
{
    let n = w * h;
    assert(n >= 0) by (nonlinear_arith)
        requires
            n == w * h,
            w >= 0,
            h >= 0,
    ;
    assert(w * h * 3 == n * 3 && w * h * 4 == n * 4);
    if b.len() == w * h * 3 {
        assert(b.len() / 3 == n);
    }
}

/// Each colour is scaled by the opacity of its pixel: an opaque pixel stays as it is, a
/// transparent one has no colour, and in between the share is the opacity's.
pub proof fn law_colours_are_scaled_by_their_opacity(b: Seq<u8>, p: int, c: int)
    requires
        0 <= p,
        0 <= c < 3,
        4 * p + 3 < b.len(),
    ensures
        premultiplied(b).len() == b.len(),
        b[4 * p + 3] == 255 ==> premultiplied(b)[4 * p + c] == b[4 * p + c],
        b[4 * p + 3] == 0 ==> premultiplied(b)[4 * p + c] == 0,
        255 * premultiplied(b)[4 * p + c] <= b[4 * p + c] * b[4 * p + 3],
        b[4 * p + c] * b[4 * p + 3] < 255 * (premultiplied(b)[4 * p + c] + 1),
{
    let i = 4 * p + c;
    assert(i / 4 == p && i % 4 == c);
    let x = b[4 * p + c];
    let a = b[4 * p + 3];
    assert(0 <= x * a <= 255 * 255) by (nonlinear_arith)
        requires
            0 <= x <= 255,
            0 <= a <= 255,
    ;
    assert(x * 255 / 255 == x);
    if a == 0 {
        assert(x * a == 0) by (nonlinear_arith)
            requires
                a == 0,
        ;
    }
}

/// Shapes are laid on each other: the last one that covers a point gives it ink or takes it
/// away, and one that does not cover it changes nothing.
pub proof fn law_the_last_shape_decides(shapes: Seq<Stroke>, s: Stroke)
    ensures
        s.covers && !s.erases ==> inked(shapes.push(s)),
        s.covers && s.erases ==> !inked(shapes.push(s)),
        !s.covers ==> inked(shapes.push(s)) == inked(shapes),
        !inked(seq![]),
{
    assert(shapes.push(s).drop_last() =~= shapes);
}

} // verus!
