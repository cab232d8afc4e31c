//! Plane layouts of the frame textures that the renderer samples: which
//! textures a frame of each pixel layout needs, how each plane is viewed, and
//! the extent of the data copied into each.

use crate::media::Size;
use vstd::prelude::*;

verus! {

/// Texel formats of the textures the renderer creates.
#[derive(Clone, Copy, Debug, PartialEq, Eq, Structural)]
pub enum TextureFormat {
    R8Unorm,
    Rg8Unorm,
    Rgba8Unorm,
    Bgra8Unorm,
}

/// The part of a texture a view sees.
#[derive(Clone, Copy, Debug, PartialEq, Eq, Structural)]
pub enum TextureAspect {
    All,
    Plane0,
    Plane1,
}

/// Pixel layouts of the frames the renderer samples.
#[derive(Clone, Copy, Debug, PartialEq, Eq, Structural)]
pub enum SampleKind {
    Rgba,
    Bgra,
    Nv12,
    I420,
}

/// The texture a view is made on: the frame's own texture, handed in from
/// outside, or one of the renderer's textures, by index.
#[derive(Clone, Copy, Debug, PartialEq, Eq, Structural)]
pub enum ViewTexture {
    External,
    Own(usize),
}

/// Half the width and half the height, rounded down: the size of a chroma
/// plane in 4:2:0 sampling.
pub open spec fn half(size: Size) -> Size {
    Size { width: size.width / 2, height: size.height / 2 }
}

/// The textures a frame of `kind` and `size` needs: their sizes and formats.
/// A packed frame has one; NV12 has full-size luma and a half-size plane of
/// interleaved chroma; I420 has full-size luma and two half-size chroma planes.
pub open spec fn texture_planes(kind: SampleKind, size: Size) -> Seq<(Size, TextureFormat)> {
    match kind {
        SampleKind::Rgba => seq![(size, TextureFormat::Rgba8Unorm)],
        SampleKind::Bgra => seq![(size, TextureFormat::Bgra8Unorm)],
        SampleKind::Nv12 => seq![
            (size, TextureFormat::R8Unorm),
            (half(size), TextureFormat::Rg8Unorm),
        ],
        SampleKind::I420 => seq![
            (size, TextureFormat::R8Unorm),
            (half(size), TextureFormat::R8Unorm),
            (half(size), TextureFormat::R8Unorm),
        ],
    }
}

/// The views the renderer samples for a frame of `kind`: on the frame's own
/// texture when it is handed in (`external`), otherwise on the renderer's
/// textures. An NV12 texture from outside is one texture with two planes; an
/// I420 frame is always copied into the renderer's textures.
pub open spec fn view_planes(kind: SampleKind, external: bool) -> Seq<(ViewTexture, TextureFormat, TextureAspect)> {
    match kind {
        SampleKind::Rgba => seq![
            (
                if external {
                    ViewTexture::External
                } else {
                    ViewTexture::Own(0)
                },
                TextureFormat::Rgba8Unorm,
                TextureAspect::All,
            ),
        ],
        SampleKind::Bgra => seq![
            (
                if external {
                    ViewTexture::External
                } else {
                    ViewTexture::Own(0)
                },
                TextureFormat::Bgra8Unorm,
                TextureAspect::All,
            ),
        ],
        SampleKind::Nv12 => if external {
            seq![
                (ViewTexture::External, TextureFormat::R8Unorm, TextureAspect::Plane0),
                (ViewTexture::External, TextureFormat::Rg8Unorm, TextureAspect::Plane1),
            ]
        } else {
            seq![
                (ViewTexture::Own(0), TextureFormat::R8Unorm, TextureAspect::All),
                (ViewTexture::Own(1), TextureFormat::Rg8Unorm, TextureAspect::All),
            ]
        },
        SampleKind::I420 => seq![
            (ViewTexture::Own(0), TextureFormat::R8Unorm, TextureAspect::All),
            (ViewTexture::Own(1), TextureFormat::R8Unorm, TextureAspect::All),
            (ViewTexture::Own(2), TextureFormat::R8Unorm, TextureAspect::All),
        ],
    }
}

/// The copies of a frame's data into the renderer's textures, whose first
/// texture has `size`: buffer `i` goes whole into texture `i`, over the
/// extent given. A packed frame's extent counts four bytes per pixel; both
/// NV12 copies take the full size; I420's chroma copies take half of it.
pub open spec fn copy_planes(kind: SampleKind, size: Size) -> Seq<(usize, Size)> {
    match kind {
        SampleKind::Rgba | SampleKind::Bgra => seq![
            (0usize, Size { width: (size.width * 4) as u32, height: size.height }),
        ],
        SampleKind::Nv12 => seq![(0usize, size), (1usize, size)],
        SampleKind::I420 => seq![(0usize, size), (1usize, half(size)), (2usize, half(size))],
    }
}

/// The textures of a frame and the views sampled on them agree: there is a
/// view for each texture, each of the renderer's own views is on the texture
/// of the same position, with that texture's format, and each texture gets a
/// copy of the buffer of the same position.
pub proof fn lemma_planes_agree(kind: SampleKind, size: Size)
    ensures
        texture_planes(kind, size).len() == view_planes(kind, false).len(),
        texture_planes(kind, size).len() == copy_planes(kind, size).len(),
        forall|i: int|
            0 <= i < texture_planes(kind, size).len() ==> {
                &&& #[trigger] view_planes(kind, false)[i].0 == ViewTexture::Own(i as usize)
                &&& view_planes(kind, false)[i].1 == texture_planes(kind, size)[i].1
                &&& copy_planes(kind, size)[i].0 == i
            },
        forall|i: int|
            0 <= i < texture_planes(kind, size).len() ==> (#[trigger] texture_planes(kind, size)[i]).0
                == if i == 0 {
                size
            } else {
                half(size)
            },
{
}

/// RGBA and BGRA frames, which hold the same channels in another order, are
/// sampled under different formats, so neither is read as the other.
pub proof fn lemma_packed_orders_differ(size: Size)
    ensures
        texture_planes(SampleKind::Rgba, size)[0].1 != texture_planes(SampleKind::Bgra, size)[0].1,
        view_planes(SampleKind::Rgba, true)[0].1 != view_planes(SampleKind::Bgra, true)[0].1,
{
}

fn half_size(size: Size) -> (r: Size)
    ensures
        r == half(size),
{
    Size { width: size.width / 2, height: size.height / 2 }
}

/// The textures to create for frames of `kind` and `size`.
pub fn create_texture_descriptor(kind: SampleKind, size: Size) -> (r: Vec<(Size, TextureFormat)>)
    ensures
        r@ == texture_planes(kind, size),
{
    let r = match kind {
        SampleKind::Rgba => vec![(size, TextureFormat::Rgba8Unorm)],
        SampleKind::Bgra => vec![(size, TextureFormat::Bgra8Unorm)],
        SampleKind::Nv12 => vec![(size, TextureFormat::R8Unorm), (half_size(size), TextureFormat::Rg8Unorm)],
        SampleKind::I420 => vec![
            (size, TextureFormat::R8Unorm),
            (half_size(size), TextureFormat::R8Unorm),
            (half_size(size), TextureFormat::R8Unorm),
        ],
    };
    assert(r@ =~= texture_planes(kind, size));
    r
}

/// The views to sample for frames of `kind`; `external` says whether the
/// frame's own texture is handed in.
pub fn views_descriptors(kind: SampleKind, external: bool) -> (r: Vec<(ViewTexture, TextureFormat, TextureAspect)>)
    ensures
        r@ == view_planes(kind, external),
{
    let own = if external {
        ViewTexture::External
    } else {
        ViewTexture::Own(0)
    };
    let r = match kind {
        SampleKind::Rgba => vec![(own, TextureFormat::Rgba8Unorm, TextureAspect::All)],
        SampleKind::Bgra => vec![(own, TextureFormat::Bgra8Unorm, TextureAspect::All)],
        SampleKind::Nv12 => if external {
            vec![
                (ViewTexture::External, TextureFormat::R8Unorm, TextureAspect::Plane0),
                (ViewTexture::External, TextureFormat::Rg8Unorm, TextureAspect::Plane1),
            ]
        } else {
            vec![
                (ViewTexture::Own(0), TextureFormat::R8Unorm, TextureAspect::All),
                (ViewTexture::Own(1), TextureFormat::Rg8Unorm, TextureAspect::All),
            ]
        },
        SampleKind::I420 => vec![
            (ViewTexture::Own(0), TextureFormat::R8Unorm, TextureAspect::All),
            (ViewTexture::Own(1), TextureFormat::R8Unorm, TextureAspect::All),
            (ViewTexture::Own(2), TextureFormat::R8Unorm, TextureAspect::All),
        ],
    };
    assert(r@ =~= view_planes(kind, external));
    r
}

/// The copies of a frame's buffers into the textures of a frame of `kind`
/// whose first texture has `size`.
pub fn copy_buffer_descriptors(kind: SampleKind, size: Size) -> (r: Vec<(usize, Size)>)
    requires
        kind == SampleKind::Rgba || kind == SampleKind::Bgra ==> size.width * 4 <= u32::MAX,
    ensures
        r@ == copy_planes(kind, size),
{
    let r = match kind {
        SampleKind::Rgba | SampleKind::Bgra => vec![
            (0usize, Size { width: size.width * 4, height: size.height }),
        ],
        SampleKind::Nv12 => vec![(0usize, size), (1usize, size)],
        SampleKind::I420 => vec![(0usize, size), (1usize, half_size(size)), (2usize, half_size(size))],
    };
    assert(r@ =~= copy_planes(kind, size));
    r
}

} // verus!
