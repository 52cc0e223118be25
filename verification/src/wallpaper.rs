//! Theme wallpapers: the shipped backgrounds, which files are animated,
//! and how long each frame of an animation stays up.
use vstd::prelude::*;
use crate::idset::same_text;
use crate::imaging::{Picture, thumbnail_rgba, decoded_size};

verus! {

/// One decoded frame of an animated wallpaper, with how long it shows.
pub struct Frame {
    pub width: u32,
    pub height: u32,
    pub pixels: Vec<u8>,
    pub delay_ms: u64,
}

/// A decoded still wallpaper.
pub struct Decoded {
    pub width: u32,
    pub height: u32,
    pub pixels: Vec<u8>,
}

/// A wallpaper: a still picture, or an animation whose frames arrive on
/// `frames` as they are decoded.
pub enum Wallpaper<R> {
    Still(Decoded),
    Animated { width: u32, height: u32, frames: R },
}

/// The background shipped under a name, from the table of shipped
/// backgrounds.
pub fn builtin_bytes<'a>(table: &'a Vec<(String, Vec<u8>)>, stem: &str) -> (r: Option<&'a Vec<u8>>)
    ensures
        match r {
            Some(b) => exists|i: int|
                0 <= i < table@.len() && table@[i].0@ == stem@ && table@[i].1 == *b && forall|k: int|
                    0 <= k < i ==> #[trigger] table@[k].0@ != stem@,
            None => forall|k: int| 0 <= k < table@.len() ==> #[trigger] table@[k].0@ != stem@,
        },
{
    let mut i: usize = 0;
    while i < table.len()
        invariant
            i <= table@.len(),
            forall|k: int| 0 <= k < i ==> #[trigger] table@[k].0@ != stem@,
        decreases table.len() - i,
    {
        if same_text(table[i].0.as_str(), stem) {
            return Some(&table[i].1);
        }
        i = i + 1;
    }
    None
}

pub open spec fn gif_magic(version: u8) -> Seq<u8> {
    seq![71u8, 73u8, 70u8, 56u8, version, 97u8]
}

/// Whether the bytes are a GIF: they start with `GIF87a` or `GIF89a`.
pub open spec fn spec_is_gif(bytes: Seq<u8>) -> bool {
    bytes.len() >= 6 && (bytes.subrange(0, 6) == gif_magic(55u8) || bytes.subrange(0, 6) == gif_magic(57u8))
}

pub fn is_gif(bytes: &[u8]) -> (r: bool)
    ensures
        r == spec_is_gif(bytes@),
{
    if bytes.len() < 6 {
        return false;
    }
    let head = bytes[0] == 71 && bytes[1] == 73 && bytes[2] == 70 && bytes[3] == 56 && bytes[5] == 97;
    let r = head && (bytes[4] == 55 || bytes[4] == 57);
    assert(r == spec_is_gif(bytes@)) by {
        let h = bytes@.subrange(0, 6);
        if r {
            assert(h =~= gif_magic(bytes@[4]));
        } else {
            if h == gif_magic(55u8) {
                assert(h[4] == 55u8 && h[0] == 71u8 && h[1] == 73u8 && h[2] == 70u8 && h[3] == 56u8 && h[5] == 97u8);
            }
            if h == gif_magic(57u8) {
                assert(h[4] == 57u8 && h[0] == 71u8 && h[1] == 73u8 && h[2] == 70u8 && h[3] == 56u8 && h[5] == 97u8);
            }
        }
    }
    r
}

/// The shortest frame time honoured; shorter ones (a GIF asking for "as
/// fast as possible") show for the default time.
pub const MIN_DELAY_MS: u64 = 20;

pub const DEFAULT_DELAY_MS: u64 = 100;

/// How long a frame shows, from the GIF's delay as a fraction of
/// milliseconds.
pub open spec fn spec_frame_delay(numer: u32, denom: u32) -> u64 {
    let ms: u64 = if denom == 0 { 0 } else { (numer / denom) as u64 };
    if ms < MIN_DELAY_MS { DEFAULT_DELAY_MS } else { ms }
}

pub fn frame_delay(numer: u32, denom: u32) -> (r: u64)
    ensures
        r == spec_frame_delay(numer, denom),
        r >= MIN_DELAY_MS,
{
    let ms: u64 = if denom == 0 { 0 } else { numer as u64 / denom as u64 };
    if ms < MIN_DELAY_MS {
        DEFAULT_DELAY_MS
    } else {
        ms
    }
}

/// The longest edge, in pixels, that wallpapers decode to at most.
pub const MAX_TARGET_EDGE: u32 = 3840;
/// The shortest edge that bound is ever set to.
pub const MIN_TARGET_EDGE: u32 = 1280;
/// The bound where the display cannot be measured.
pub const FALLBACK_TARGET_EDGE: u32 = 1920;

/// The edge wallpapers decode to at most: the display's longest side, kept
/// between `MIN_TARGET_EDGE` and `MAX_TARGET_EDGE`, or
/// `FALLBACK_TARGET_EDGE` for a display that could not be measured.
pub fn target_edge_for(display: Option<(u32, u32)>) -> (r: u32)
    ensures
        r == (match display {
            Some((w, h)) => {
                let longest = if w >= h { w } else { h };
                if longest < MIN_TARGET_EDGE {
                    MIN_TARGET_EDGE
                } else if longest > MAX_TARGET_EDGE {
                    MAX_TARGET_EDGE
                } else {
                    longest
                }
            },
            None => FALLBACK_TARGET_EDGE,
        }),
{
    match display {
        Some((w, h)) => {
            let longest = if w >= h { w } else { h };
            if longest < MIN_TARGET_EDGE {
                MIN_TARGET_EDGE
            } else if longest > MAX_TARGET_EDGE {
                MAX_TARGET_EDGE
            } else {
                longest
            }
        },
        None => FALLBACK_TARGET_EDGE,
    }
}

/// The canvas size a GIF's header gives, where `image`'s GIF decoder can
/// open it.
pub uninterp spec fn gif_canvas(bytes: Seq<u8>) -> Option<(u32, u32)>;

/// `GifDecoder::new` then `dimensions`: the GIF's canvas size, named by
/// `gif_canvas`.
#[verifier::external_body]
fn read_gif_canvas(bytes: &[u8]) -> (r: Option<(u32, u32)>)
    ensures
        r == gif_canvas(bytes@),
{
    let decoder = image::codecs::gif::GifDecoder::new(std::io::Cursor::new(bytes)).ok()?;
    Some(image::ImageDecoder::dimensions(&decoder))
}

/// Why a GIF cannot be played as an animation.
#[derive(Clone, Copy, Debug, PartialEq, Eq, Structural)]
pub enum AnimationError {
    Unreadable,
    EmptyCanvas,
}

/// The size an animation plays at: its canvas, which must be readable and
/// not empty.
pub fn animation_size(bytes: &[u8]) -> (r: Result<(u32, u32), AnimationError>)
    ensures
        match gif_canvas(bytes@) {
            None => r == Err::<(u32, u32), AnimationError>(AnimationError::Unreadable),
            Some((w, h)) => if w == 0 || h == 0 {
                r == Err::<(u32, u32), AnimationError>(AnimationError::EmptyCanvas)
            } else {
                r == Ok::<(u32, u32), AnimationError>((w, h))
            },
        },
{
    match read_gif_canvas(bytes) {
        None => Err(AnimationError::Unreadable),
        Some((w, h)) => if w == 0 || h == 0 {
            Err(AnimationError::EmptyCanvas)
        } else {
            Ok((w, h))
        },
    }
}

/// How a wallpaper's bytes are shown: played as an animation at its canvas
/// size, or decoded as one still picture.
pub enum Opening {
    Animate { width: u32, height: u32, bytes: Vec<u8> },
    Still { bytes: Vec<u8> },
}

/// The canvas an animation of these bytes plays at: a GIF whose header
/// reads and whose canvas is not empty.
pub open spec fn spec_animation(bytes: Seq<u8>) -> Option<(u32, u32)> {
    if !spec_is_gif(bytes) {
        None
    } else {
        match gif_canvas(bytes) {
            Some((w, h)) => if w != 0 && h != 0 {
                Some((w, h))
            } else {
                None
            },
            None => None,
        }
    }
}

/// Decides how a wallpaper is shown. A GIF that cannot be read as an
/// animation is still shown, as a single picture.
pub fn open(bytes: Vec<u8>) -> (r: Opening)
    ensures
        match r {
            Opening::Animate { width, height, bytes: b } => b@ == bytes@ && spec_animation(bytes@)
                == Some((width, height)),
            Opening::Still { bytes: b } => b@ == bytes@ && spec_animation(bytes@) is None,
        },
{
    if is_gif(bytes.as_slice()) {
        match animation_size(bytes.as_slice()) {
            Ok((width, height)) => {
                return Opening::Animate { width, height, bytes };
            },
            Err(_) => {},
        }
    }
    Opening::Still { bytes }
}

/// A wallpaper shrunk to fit a square of `max_edge`, for the theme list;
/// `None` where the bytes do not decode.
pub fn thumbnail(bytes: &[u8], max_edge: u32) -> (r: Option<Decoded>)
    ensures
        match r {
            Some(d) => decoded_size(bytes@) is Some && (d.pixels@, d.width, d.height) == thumbnail_rgba(
                bytes@,
                max_edge,
                max_edge,
            ),
            None => decoded_size(bytes@) is None,
        },
        r matches Some(d) ==> d.pixels@.len() == 4 * d.width * d.height,
{
    match Picture::load(bytes) {
        None => None,
        Some(pic) => {
            let (pixels, width, height) = pic.thumbnail(max_edge, max_edge);
            Some(Decoded { width, height, pixels })
        },
    }
}

} // verus!
