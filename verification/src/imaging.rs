//! Images: decoding with the `image` crate, and the shrinking rules that
//! thumbnails, previews and mod icons follow.
use vstd::prelude::*;

verus! {

#[verifier::external_type_specification]
#[verifier::external_body]
pub struct ExDynamicImage(image::DynamicImage);

/// What `image::load_from_memory` makes of some bytes: `None` where it
/// cannot decode them, else the image's width and height.
pub uninterp spec fn decoded_size(bytes: Seq<u8>) -> Option<(u32, u32)>;

/// The RGBA pixels of the image that some bytes decode to.
pub uninterp spec fn decoded_rgba(bytes: Seq<u8>) -> Seq<u8>;

/// The RGBA pixels and size of `DynamicImage::thumbnail` of the image that
/// some bytes decode to, fitted within a width and a height.
pub uninterp spec fn thumbnail_rgba(bytes: Seq<u8>, max_w: u32, max_h: u32) -> (Seq<u8>, u32, u32);

/// The PNG file that `image` writes for RGBA pixels of a size, where it
/// writes one.
pub uninterp spec fn png_of(pixels: Seq<u8>, width: u32, height: u32) -> Option<Seq<u8>>;

/// A decoded image, with the bytes it was decoded from.
pub struct Picture {
    img: image::DynamicImage,
    source: Ghost<Seq<u8>>,
    width: u32,
    height: u32,
}

impl Picture {
    pub closed spec fn source(&self) -> Seq<u8> {
        self.source@
    }

    pub closed spec fn size(&self) -> (u32, u32) {
        (self.width, self.height)
    }

    /// `image::load_from_memory`: the image the bytes hold (its format
    /// guessed from them), with its size, or `None` where they cannot be
    /// decoded.
    #[verifier::external_body]
    pub(crate) fn load(bytes: &[u8]) -> (r: Option<Picture>)
        ensures
            match r {
                Some(p) => decoded_size(bytes@) == Some(p.size()) && p.source() == bytes@,
                None => decoded_size(bytes@) is None,
            },
    {
        let img = image::load_from_memory(bytes).ok()?;
        let (width, height) = (img.width(), img.height());
        Some(Picture { img, source: Ghost(bytes@), width, height })
    }

    /// The image's width and height.
    pub fn dimensions(&self) -> (r: (u32, u32))
        ensures
            r == self.size(),
    {
        (self.width, self.height)
    }

    /// `DynamicImage::into_rgba8`: the image's RGBA pixels, four bytes for
    /// each of its width times height pixels.
    #[verifier::external_body]
    pub(crate) fn into_rgba(self) -> (r: Vec<u8>)
        ensures
            r@ == decoded_rgba(self.source()),
            r@.len() == 4 * self.size().0 * self.size().1,
    {
        self.img.into_rgba8().into_raw()
    }

    /// `DynamicImage::thumbnail` then `into_rgba8`: the image shrunk to fit
    /// a width and a height (keeping its proportions), as RGBA pixels with
    /// their size: four bytes for each pixel.
    #[verifier::external_body]
    pub(crate) fn thumbnail(&self, max_w: u32, max_h: u32) -> (r: (Vec<u8>, u32, u32))
        ensures
            (r.0@, r.1, r.2) == thumbnail_rgba(self.source(), max_w, max_h),
            r.0@.len() == 4 * r.1 * r.2,
    {
        let rgba = self.img.thumbnail(max_w, max_h).into_rgba8();
        let (w, h) = rgba.dimensions();
        (rgba.into_raw(), w, h)
    }
}

/// `RgbaImage::write_to` with `ImageFormat::Png`: the PNG file for RGBA
/// pixels of a size, or `None` where the pixels do not fill that size or
/// the encoder refuses them.
#[verifier::external_body]
pub(crate) fn encode_png(pixels: Vec<u8>, width: u32, height: u32) -> (r: Option<Vec<u8>>)
    ensures
        match r {
            Some(png) => png_of(pixels@, width, height) == Some(png@),
            None => png_of(pixels@, width, height) is None,
        },
{
    let img = image::RgbaImage::from_raw(width, height, pixels)?;
    let mut out = std::io::Cursor::new(Vec::new());
    img.write_to(&mut out, image::ImageFormat::Png).ok()?;
    Some(out.into_inner())
}

/// Decoded RGBA pixels with their width and height.
pub type Rgba = (Vec<u8>, u32, u32);

pub open spec fn rgba_view(r: Option<Rgba>) -> Option<(Seq<u8>, u32, u32)> {
    match r {
        Some(x) => Some((x.0@, x.1, x.2)),
        None => None,
    }
}

/// An image read to fit within a width and a height: as it is when it
/// fits, else shrunk (keeping its proportions).
pub open spec fn spec_fit_rgba(bytes: Seq<u8>, max_w: u32, max_h: u32) -> Option<(Seq<u8>, u32, u32)> {
    match decoded_size(bytes) {
        None => None,
        Some((w, h)) => if w > max_w || h > max_h {
            Some(thumbnail_rgba(bytes, max_w, max_h))
        } else {
            Some((decoded_rgba(bytes), w, h))
        },
    }
}

/// Reads an image to fit within a width and a height.
pub fn fit_rgba(bytes: &[u8], max_w: u32, max_h: u32) -> (r: Option<Rgba>)
    ensures
        rgba_view(r) == spec_fit_rgba(bytes@, max_w, max_h),
        r matches Some(x) ==> x.0@.len() == 4 * x.1 * x.2,
{
    let pic = match Picture::load(bytes) {
        Some(p) => p,
        None => return None,
    };
    let (w, h) = pic.dimensions();
    if w > max_w || h > max_h {
        Some(pic.thumbnail(max_w, max_h))
    } else {
        let px = pic.into_rgba();
        Some((px, w, h))
    }
}

/// The longest edge a GameBanana thumbnail keeps.
pub const THUMB_MAX: u32 = 1024;

/// A GameBanana thumbnail: nothing for no bytes, else the image fitted
/// within `THUMB_MAX` on each side.
pub fn decode_thumb(bytes: &[u8]) -> (r: Option<Rgba>)
    ensures
        bytes@.len() == 0 ==> r is None,
        bytes@.len() > 0 ==> rgba_view(r) == spec_fit_rgba(bytes@, THUMB_MAX, THUMB_MAX),
        r matches Some(x) ==> x.0@.len() == 4 * x.1 * x.2,
{
    if bytes.len() == 0 {
        return None;
    }
    fit_rgba(bytes, THUMB_MAX, THUMB_MAX)
}

/// An image's RGBA pixels with their size, as an icon or a full-size
/// picture uses them.
pub fn decode(bytes: &[u8]) -> (r: Option<Rgba>)
    ensures
        rgba_view(r) == (match decoded_size(bytes@) {
            Some((w, h)) => Some((decoded_rgba(bytes@), w, h)),
            None => None,
        }),
        r matches Some(x) ==> x.0@.len() == 4 * x.1 * x.2,
{
    let pic = match Picture::load(bytes) {
        Some(p) => p,
        None => return None,
    };
    let (w, h) = pic.dimensions();
    Some((pic.into_rgba(), w, h))
}

/// Why an image could not be turned into a mod icon.
#[derive(Clone, Copy, Debug, PartialEq, Eq, Structural)]
pub enum IconError {
    NotAnImage,
    NotEncoded,
}

/// A picked image as a mod's `icon.png`: decoded, then written as PNG.
pub fn encode_icon_png(bytes: &[u8]) -> (r: Result<Vec<u8>, IconError>)
    ensures
        match decoded_size(bytes@) {
            None => r == Err::<Vec<u8>, IconError>(IconError::NotAnImage),
            Some((w, h)) => match png_of(decoded_rgba(bytes@), w, h) {
                Some(png) => r matches Ok(v) && v@ == png,
                None => r == Err::<Vec<u8>, IconError>(IconError::NotEncoded),
            },
        },
{
    let (px, w, h) = match decode(bytes) {
        Some(x) => x,
        None => return Err(IconError::NotAnImage),
    };
    match encode_png(px, w, h) {
        Some(png) => Ok(png),
        None => Err(IconError::NotEncoded),
    }
}

} // verus!
