use vstd::prelude::*;
use crate::entities::Sprite;

verus! {

/// Whether `image::load_from_memory` decodes `data` into an image.
pub uninterp spec fn image_decodes(data: Seq<u8>) -> bool;

/// The width, height and RGBA bytes (row by row, four per pixel) of the
/// image that `image::load_from_memory` decodes from `data`, as
/// `DynamicImage::to_rgba8` converts it.
pub uninterp spec fn decoded_rgba(data: Seq<u8>) -> (u32, u32, Seq<u8>);

/// The width, height and RGBA bytes of the image decoded from `data` after
/// `DynamicImage::resize` with nearest-neighbour sampling to fit `width` by
/// `height` (aspect ratio kept), as `DynamicImage::to_rgba8` converts it.
pub uninterp spec fn resized_rgba(data: Seq<u8>, width: u32, height: u32) -> (u32, u32, Seq<u8>);

/// `image::load_from_memory`, with the decoded image converted by
/// `DynamicImage::to_rgba8` and taken apart into width, height and raw
/// bytes. Decoding succeeds exactly for the data that `image_decodes`
/// accepts, the result is the one `decoded_rgba` names, and the bytes
/// number four per pixel.
#[verifier::external_body]
fn decode_rgba(data: &[u8]) -> (r: Option<(u32, u32, Vec<u8>)>)
    ensures
        r is Some == image_decodes(data@),
        r matches Some(t) ==> (t.0, t.1, t.2@) == decoded_rgba(data@) && t.2@.len() == t.0 * t.1 * 4,
{
    match image::load_from_memory(data) {
        Ok(img) => {
            let buffer = img.to_rgba8();
            let (w, h) = buffer.dimensions();
            Some((w, h, buffer.into_raw()))
        },
        Err(_) => None,
    }
}

/// `image::load_from_memory`, then `DynamicImage::resize` to fit `width` by
/// `height` with `FilterType::Nearest`, converted by `to_rgba8` and taken
/// apart into width, height and raw bytes. Decoding succeeds exactly for
/// the data that `image_decodes` accepts, the result is the one
/// `resized_rgba` names, the bytes number four per pixel, and the image
/// fits the requested box (a side asked to be 0 pixels comes out as 1, the
/// least `resize` makes). The exact size, the largest that keeps the
/// aspect ratio, is rounded in floating point and left unsaid.
#[verifier::external_body]
fn decode_resized_rgba(data: &[u8], width: u32, height: u32) -> (r: Option<(u32, u32, Vec<u8>)>)
    ensures
        r is Some == image_decodes(data@),
        r matches Some(t) ==> (t.0, t.1, t.2@) == resized_rgba(data@, width, height) && t.2@.len() == t.0 * t.1 * 4,
        r matches Some(t) ==> fits_box(t.0, t.1, width, height),
{
    match image::load_from_memory(data) {
        Ok(img) => {
            let buffer = img.resize(width, height, image::imageops::FilterType::Nearest).to_rgba8();
            let (w, h) = buffer.dimensions();
            Some((w, h, buffer.into_raw()))
        },
        Err(_) => None,
    }
}

/// Whether a `w` by `h` image fits a box of `bw` by `bh` pixels, a side of
/// 0 counting as 1.
pub open spec fn fits_box(w: u32, h: u32, bw: u32, bh: u32) -> bool {
    &&& w <= (if bw == 0 {
        1
    } else {
        bw
    })
    &&& h <= (if bh == 0 {
        1
    } else {
        bh
    })
}

/// The sprite holds exactly the given width, height and RGBA bytes.
pub open spec fn sprite_is(s: Sprite, img: (u32, u32, Seq<u8>)) -> bool {
    s.width == img.0 && s.height == img.1 && s.pixels@ == img.2
}

/// The bomb's image: the decoded image shrunk to fit a twentieth of its
/// width and height.
pub open spec fn bomb_rgba(data: Seq<u8>) -> (u32, u32, Seq<u8>) {
    resized_rgba(data, (decoded_rgba(data).0 / 20) as u32, (decoded_rgba(data).1 / 20) as u32)
}

/// Whether a sprite's pixel data holds four bytes for each of its pixels.
pub open spec fn sprite_complete(s: Sprite) -> bool {
    s.pixels@.len() == s.width * s.height * 4
}

/// The game's images and sounds.
pub struct Assets {
    pub sprites: Vec<Sprite>,
    pub sfx_shot: &'static [u8],
    pub sfx_explosion: &'static [u8],
    pub sfx_overheat: &'static [u8],
}

impl Assets {
    /// Decodes the four images (ship, beam, enemy, bomb) into sprites in
    /// that order, each the size and RGBA bytes of its image, the bomb
    /// shrunk to fit a twentieth of its width and height (see `bomb_rgba`
    /// and `fits_box`), and keeps
    /// the three sound files as they are. `None` when an image does not
    /// decode.
    pub fn load(
        images: [&[u8]; 4],
        sfx_shot: &'static [u8],
        sfx_explosion: &'static [u8],
        sfx_overheat: &'static [u8],
    ) -> (r: Option<Assets>)
        ensures
            r is Some <==> forall|i: int| 0 <= i < 4 ==> image_decodes(#[trigger] images@[i]@),
            r matches Some(a) ==> {
                &&& a.sprites@.len() == 4
                &&& forall|i: int| 0 <= i < 3 ==> sprite_is(#[trigger] a.sprites@[i], decoded_rgba(images@[i]@))
                &&& sprite_is(a.sprites@[3], bomb_rgba(images@[3]@))
                &&& fits_box(
                    a.sprites@[3].width,
                    a.sprites@[3].height,
                    (decoded_rgba(images@[3]@).0 / 20) as u32,
                    (decoded_rgba(images@[3]@).1 / 20) as u32,
                )
                &&& forall|i: int| 0 <= i < 4 ==> sprite_complete(#[trigger] a.sprites@[i])
                &&& a.sfx_shot == sfx_shot
                &&& a.sfx_explosion == sfx_explosion
                &&& a.sfx_overheat == sfx_overheat
            },
    {
        let mut sprites: Vec<Sprite> = Vec::new();
        let mut i: usize = 0;
        while i < 4
            invariant
                i <= 4,
                sprites@.len() == i,
                forall|j: int| 0 <= j < i ==> image_decodes(#[trigger] images@[j]@),
                forall|j: int| 0 <= j < i && j < 3 ==> sprite_is(#[trigger] sprites@[j], decoded_rgba(images@[j]@)),
                i == 4 ==> sprite_is(sprites@[3], bomb_rgba(images@[3]@)) && fits_box(
                    sprites@[3].width,
                    sprites@[3].height,
                    (decoded_rgba(images@[3]@).0 / 20) as u32,
                    (decoded_rgba(images@[3]@).1 / 20) as u32,
                ),
                forall|j: int| 0 <= j < i ==> sprite_complete(#[trigger] sprites@[j]),
            decreases 4 - i,
        {
            let (w, h, pix) = match decode_rgba(images[i]) {
                Some(t) => t,
                None => {
                    return None;
                },
            };
            if i == 3 {
                match decode_resized_rgba(images[i], w / 20, h / 20) {
                    Some((bw, bh, bpix)) => {
                        sprites.push(Sprite { width: bw, height: bh, pixels: bpix });
                    },
                    None => {
                        return None;
                    },
                }
            } else {
                sprites.push(Sprite { width: w, height: h, pixels: pix });
            }
            i = i + 1;
        }
        Some(Assets { sprites, sfx_shot, sfx_explosion, sfx_overheat })
    }

    /// The player's ship.
    pub fn ship(&self) -> (r: &Sprite)
        requires
            self.sprites@.len() > 0,
        ensures
            *r == self.sprites@[0],
    {
        &self.sprites[0]
    }

    /// The player's shot.
    pub fn beam(&self) -> (r: &Sprite)
        requires
            self.sprites@.len() > 1,
        ensures
            *r == self.sprites@[1],
    {
        &self.sprites[1]
    }

    /// An enemy ship.
    pub fn enemy(&self) -> (r: &Sprite)
        requires
            self.sprites@.len() > 2,
        ensures
            *r == self.sprites@[2],
    {
        &self.sprites[2]
    }

    /// An enemy bomb.
    pub fn bomb(&self) -> (r: &Sprite)
        requires
            self.sprites@.len() > 3,
        ensures
            *r == self.sprites@[3],
    {
        &self.sprites[3]
    }
}

} // verus!
