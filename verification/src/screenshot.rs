//! Showing the screen to a running session.
//!
//! The selection and the capture are Spectacle's.  What is captured is shrunk
//! and encoded as JPEG here, because the Live API takes JPEG and a screenshot
//! at native resolution is far more than the model needs to read a dialog.

use crate::config::str_view;
use crate::rounding::{
    integer, lemma_integer_close, lemma_rounded_close, lemma_rounded_exp, lemma_rounded_normal,
    lemma_rounded_over_pow2, product, round_half_away, rounded,
};
use crate::pidfile::{in_runtime_dir, runtime_path};
use image::codecs::jpeg::JpegEncoder;
use image::{DynamicImage, ImageError};
use vstd::arithmetic::power2::{lemma2_to64, lemma2_to64_rest, lemma_pow2_pos, pow2};
use vstd::prelude::*;

verus! {

/// A decoded picture, as the image crate holds it.
#[verifier::external_type_specification]
#[verifier::external_body]
pub struct ExDynamicImage(image::DynamicImage);

/// Why the image crate could not decode or encode.
#[verifier::external_type_specification]
#[verifier::external_body]
pub struct ExImageError(image::ImageError);

/// The width and the height of a picture.
pub uninterp spec fn extent(img: DynamicImage) -> Seq<nat>;

/// The buffer of a picture in eight-bit RGB, row by row.
pub uninterp spec fn samples(img: DynamicImage) -> Seq<u8>;

/// How many samples the pixels of a picture take.
pub open spec fn sample_count(size: Seq<nat>) -> nat {
    3 * size[0] * size[1]
}

/// The samples of the pixels of a picture.  A buffer may go on behind them.
pub open spec fn shown(img: DynamicImage) -> Seq<u8> {
    samples(img).take(sample_count(extent(img)) as int)
}

/// The picture that a file holds: its width and height, and the samples in
/// eight-bit RGB that one machine or another decodes it to.  `None` where the
/// file holds none that can be decoded.
pub uninterp spec fn decoded(input: Seq<u8>) -> Option<(Seq<nat>, Set<Seq<u8>>)>;

/// `input` starts with the signature of a PNG file.
pub open spec fn is_png(input: Seq<u8>) -> bool {
    seq![0x89u8, 0x50, 0x4e, 0x47, 0x0d, 0x0a, 0x1a, 0x0a].is_prefix_of(input)
}

/// `image::load_from_memory` decodes a PNG or a JPEG file; neither holds an
/// empty picture, and what is decoded fills its buffer.
///
/// A PNG file has the same samples on every machine.  The samples of a JPEG
/// file may differ with the instructions that the processor offers, so which
/// ones it gives is left open.
#[verifier::external_body]
fn load(input: &[u8]) -> (r: Result<DynamicImage, ImageError>)
    ensures
        r is Ok <==> decoded(input@) is Some,
        r matches Ok(img) ==> (decoded(input@)->0).0 == extent(img),
        r matches Ok(img) ==> (decoded(input@)->0).1.contains(samples(img)),
        r matches Ok(img) ==> (is_png(input@) ==> (decoded(input@)->0).1 == set![samples(img)]),
        r matches Ok(img) ==> extent(img).len() == 2 && extent(img)[0] > 0 && extent(img)[1] > 0,
        r matches Ok(img) ==> samples(img).len() == sample_count(extent(img)),
{
    image::load_from_memory(input)
}

/// `GenericImageView::dimensions` gives the width and the height of a picture.
#[verifier::external_body]
fn dimensions(img: &DynamicImage) -> (r: (u32, u32))
    ensures
        extent(*img) == seq![r.0 as nat, r.1 as nat],
{
    image::GenericImageView::dimensions(img)
}

/// What a side of a picture becomes when the longest one is brought down to
/// `edge`: the ratio and the product are double-precision numbers, and the
/// product is rounded to a whole number of pixels, at least one.
pub open spec fn fitted_side(side: nat, longest: nat, edge: nat) -> nat {
    let scaled = round_half_away(product(integer(side as int), rounded(edge, longest, 53), 53));
    if scaled < 1 {
        1
    } else {
        scaled as nat
    }
}

/// The longer one of the two sides.
pub open spec fn longest_side(size: Seq<nat>) -> nat {
    if size[0] >= size[1] {
        size[0]
    } else {
        size[1]
    }
}

/// The size of a picture when its longest side is brought down to `edge`.
pub open spec fn fitted(size: Seq<nat>, edge: nat) -> Seq<nat> {
    seq![
        fitted_side(size[0], longest_side(size), edge),
        fitted_side(size[1], longest_side(size), edge),
    ]
}

/// The Lanczos filter may bring a picture of these samples and this size down
/// to a square of `edge` pixels as `out`.  It reads a picture at its own depth,
/// and takes sines, whose last bits are the platform's business, so there may
/// be more than one such `out`.
pub uninterp spec fn shrunk(rgb: Seq<u8>, size: Seq<nat>, edge: nat, out: Seq<u8>) -> bool;

/// `DynamicImage::resize` into a square of `edge` pixels, with a Lanczos
/// filter.  A picture that does not fit the square is brought down to it, and
/// keeps its aspect ratio; the result fills its buffer.
///
/// Which samples the filter gives is left open: they are the platform's.
#[verifier::external_body]
fn resize(img: &DynamicImage, edge: u32) -> (r: DynamicImage)
    requires
        extent(*img).len() == 2,
        extent(*img)[0] > 0,
        extent(*img)[1] > 0,
        longest_side(extent(*img)) > edge,
    ensures
        extent(r) == fitted(extent(*img), edge as nat),
        samples(r).len() == sample_count(extent(r)),
        shrunk(shown(*img), extent(*img), edge as nat, samples(r)),
{
    img.resize(edge, edge, image::imageops::FilterType::Lanczos3)
}

/// `DynamicImage::to_rgb8` gives the buffer of a picture, with at least three
/// samples for each pixel.
#[verifier::external_body]
fn to_rgb8(img: &DynamicImage) -> (r: Vec<u8>)
    ensures
        r@ == samples(*img),
        r@.len() >= sample_count(extent(*img)),
{
    img.to_rgb8().into_raw()
}

/// The JPEG file for a picture of the given samples, width, height and
/// quality.
pub uninterp spec fn jpeg(rgb: Seq<u8>, width: nat, height: nat, quality: nat) -> Seq<u8>;

/// A JPEG file can hold a picture of this size.
pub open spec fn fits_jpeg(width: nat, height: nat) -> bool {
    1 <= width <= 65535 && 1 <= height <= 65535
}

/// `JpegEncoder::new_with_quality` and `encode` write a picture in eight-bit
/// RGB as a JPEG file, which starts with the marker `FF D8`, and refuse one
/// whose sides a JPEG file cannot hold.
#[verifier::external_body]
fn encode(rgb: &[u8], width: u32, height: u32, quality: u8) -> (r: Result<Vec<u8>, ImageError>)
    requires
        rgb@.len() == 3 * width * height,
    ensures
        r is Ok <==> fits_jpeg(width as nat, height as nat),
        r matches Ok(out) ==> out@ == jpeg(rgb@, width as nat, height as nat, quality as nat),
        r matches Ok(out) ==> out@.len() >= 2 && out@[0] == 0xff && out@[1] == 0xd8,
{
    let mut out: Vec<u8> = Vec::new();
    JpegEncoder::new_with_quality(&mut out, quality).encode(rgb, width, height, image::ExtendedColorType::Rgb8)?;
    Ok(out)
}

/// Why a picture could not be brought into the form that is sent.
#[derive(Debug, Clone, Copy, PartialEq, Eq, Structural)]
pub enum FrameError {
    Decoding,
    Encoding,
}

impl FrameError {
    /// What the user is told.
    pub fn message(self) -> (r: &'static str)
        ensures
            r@ == (match self {
                FrameError::Decoding => "decoding screenshot"@,
                FrameError::Encoding => "encoding JPEG"@,
            }),
    {
        match self {
            FrameError::Decoding => "decoding screenshot",
            FrameError::Encoding => "encoding JPEG",
        }
    }
}

/// The size that a picture is sent in: it is only ever shrunk.
pub open spec fn sent_extent(size: Seq<nat>, max_edge: nat) -> Seq<nat> {
    if longest_side(size) > max_edge {
        fitted(size, max_edge)
    } else {
        size
    }
}

/// Whether a picture has to be shrunk.
pub fn needs_shrinking(width: u32, height: u32, max_edge: u32) -> (r: bool)
    ensures
        r == (longest_side(seq![width as nat, height as nat]) > max_edge),
{
    width > max_edge || height > max_edge
}

/// Why a picture cannot be sent: it is none, or too long and thin for JPEG.
pub open spec fn frame_error(input: Seq<u8>, max_edge: nat) -> Option<FrameError> {
    match decoded(input) {
        None => Some(FrameError::Decoding),
        Some(picture) => {
            let size = sent_extent(picture.0, max_edge);
            if fits_jpeg(size[0], size[1]) {
                None
            } else {
                Some(FrameError::Encoding)
            }
        },
    }
}

/// `rgb` are the samples of the picture that `input` holds.  Where `input` is a
/// PNG file, there are no others.
pub open spec fn is_decoded_as(input: Seq<u8>, rgb: Seq<u8>) -> bool {
    &&& (decoded(input)->0).1.contains(rgb)
    &&& is_png(input) ==> (decoded(input)->0).1 == set![rgb]
}

/// A picture of the samples `rgb` and the size `size` is sent as `sent`: as it
/// is, or as the filter makes of it where it has to be shrunk.
pub open spec fn is_sent_as(rgb: Seq<u8>, size: Seq<nat>, max_edge: nat, sent: Seq<u8>) -> bool {
    if longest_side(size) > max_edge {
        shrunk(rgb, size, max_edge, sent)
    } else {
        sent == rgb
    }
}

/// `out` is a JPEG file of the picture that `input` holds, in the size that it
/// is sent in.
pub open spec fn is_frame(input: Seq<u8>, max_edge: nat, quality: nat, out: Seq<u8>) -> bool {
    let whole = (decoded(input)->0).0;
    let size = sent_extent(whole, max_edge);
    exists|rgb: Seq<u8>, sent: Seq<u8>|
        {
            &&& #[trigger] is_decoded_as(input, rgb)
            &&& #[trigger] is_sent_as(rgb, whole, max_edge, sent)
            &&& sent.len() == sample_count(size)
            &&& jpeg(sent, size[0], size[1], quality) == out
        }
}

/// `out` starts with the marker that opens a JPEG file.
pub open spec fn opens_jpeg(out: Seq<u8>) -> bool {
    out.len() >= 2 && out[0] == 0xff && out[1] == 0xd8
}

/// Encodes a picture as JPEG, in the size that it has.
///
/// JPEG has no transparency, so what is transparent is sent opaque.
pub fn encode_frame(sent: &DynamicImage, quality: u8) -> (r: Result<Vec<u8>, FrameError>)
    ensures
        match r {
            Ok(out) => {
                &&& fits_jpeg(extent(*sent)[0], extent(*sent)[1])
                &&& out@ == jpeg(shown(*sent), extent(*sent)[0], extent(*sent)[1], quality as nat)
                &&& opens_jpeg(out@)
            },
            Err(e) => {
                &&& e == FrameError::Encoding
                &&& !fits_jpeg(extent(*sent)[0], extent(*sent)[1])
            },
        },
{
    let (width, height) = dimensions(sent);
    let mut rgb: Vec<u8> = to_rgb8(sent);
    let count: usize = count_samples(width, height, rgb.len());
    rgb.truncate(count);
    assert(rgb@ =~= shown(*sent));
    match encode(&rgb, width, height, quality) {
        Ok(out) => Ok(out),
        Err(_) => Err(FrameError::Encoding),
    }
}

/// The number of samples in a picture of this size, where a buffer of `held`
/// samples can hold them.
fn count_samples(width: u32, height: u32, held: usize) -> (r: usize)
    requires
        sample_count(seq![width as nat, height as nat]) <= held,
    ensures
        r == sample_count(seq![width as nat, height as nat]),
{
    if width == 0 || height == 0 {
        assert(3 * width * height == 0) by (nonlinear_arith)
            requires
                width == 0 || height == 0,
        ;
        0
    } else {
        assert(3 * width <= 3 * width * height) by (nonlinear_arith)
            requires
                height >= 1,
        ;
        3 * width as usize * height as usize
    }
}

/// `r` is a frame of the picture that `input` holds, or the reason why there is
/// none.
pub open spec fn is_frame_or_error(
    input: Seq<u8>,
    max_edge: nat,
    quality: nat,
    r: Result<Vec<u8>, FrameError>,
) -> bool {
    match r {
        Ok(out) => {
            &&& frame_error(input, max_edge) is None
            &&& is_frame(input, max_edge, quality, out@)
            &&& opens_jpeg(out@)
        },
        Err(e) => frame_error(input, max_edge) == Some(e),
    }
}

/// Decodes a picture, shrinks it so that its longest side is at most
/// `max_edge`, and encodes it as JPEG.
pub fn to_jpeg(input: &[u8], max_edge: u32, quality: u8) -> (r: Result<Vec<u8>, FrameError>)
    ensures
        is_frame_or_error(input@, max_edge as nat, quality as nat, r),
{
    let img: DynamicImage = match load(input) {
        Ok(img) => img,
        Err(_) => {
            return Err(FrameError::Decoding);
        },
    };
    let (w, h) = dimensions(&img);
    let ghost size = extent(img);
    let ghost whole = samples(img);
    assert(shown(img) =~= samples(img));
    let shrink: bool = needs_shrinking(w, h, max_edge);
    let sent: DynamicImage = if shrink {
        resize(&img, max_edge)
    } else {
        img
    };
    assert(extent(sent) == sent_extent(size, max_edge as nat));
    assert(shown(sent) =~= samples(sent));
    assert(is_decoded_as(input@, whole));
    assert(is_sent_as(whole, size, max_edge as nat, samples(sent)));
    encode_frame(&sent, quality)
}

/// What of the screen is captured.
#[derive(Debug, Clone, Copy, PartialEq, Eq, Structural)]
pub enum Mode {
    /// A rectangle that the user drags out.
    Region,
    /// The window that has the focus.
    Window,
    /// The whole desktop.
    Full,
}

/// The option that tells Spectacle what to capture.
pub open spec fn mode_flag(mode: Mode) -> Seq<char> {
    match mode {
        Mode::Region => "--region"@,
        Mode::Window => "--activewindow"@,
        Mode::Full => "--fullscreen"@,
    }
}

/// The mode for the options of `look`.
pub open spec fn chosen_mode(window: bool, full: bool) -> Mode {
    if full {
        Mode::Full
    } else if window {
        Mode::Window
    } else {
        Mode::Region
    }
}

/// The whole desktop is captured wherever it is asked for, and a region is
/// dragged out where nothing else is.
pub proof fn law_options_choose_the_mode(window: bool, full: bool)
    ensures
        chosen_mode(window, true) == Mode::Full,
        chosen_mode(true, full) == Mode::Window <==> !full,
        chosen_mode(window, full) == Mode::Region <==> !window && !full,
{
}

impl Mode {
    /// The mode for the options of `look`; the whole desktop wins over the
    /// window.
    pub fn from_options(window: bool, full: bool) -> (r: Mode)
        ensures
            r == chosen_mode(window, full),
    {
        if full {
            Mode::Full
        } else if window {
            Mode::Window
        } else {
            Mode::Region
        }
    }

    /// The option that tells Spectacle what to capture.
    pub fn spectacle_flag(self) -> (r: &'static str)
        ensures
            r@ == mode_flag(self),
    {
        match self {
            Mode::Region => "--region",
            Mode::Window => "--activewindow",
            Mode::Full => "--fullscreen",
        }
    }

    /// The arguments for Spectacle, up to the file that it is to write: no
    /// window of its own, no notification, no window decoration.
    pub fn spectacle_args(self) -> (r: Vec<&'static str>)
        ensures
            r@.len() == 5,
            r@[0]@ == mode_flag(self),
            r@[1]@ == "--background"@,
            r@[2]@ == "--nonotify"@,
            r@[3]@ == "--no-decoration"@,
            r@[4]@ == "--output"@,
    {
        let mut args: Vec<&'static str> = Vec::new();
        args.push(self.spectacle_flag());
        args.push("--background");
        args.push("--nonotify");
        args.push("--no-decoration");
        args.push("--output");
        args
    }
}

/// The user changed their mind: Spectacle failed, or left no file or an empty
/// one.
pub open spec fn is_cancelled(succeeded: bool, shot: Option<Vec<u8>>) -> bool {
    !succeeded || (match shot {
        Some(png) => png@.len() == 0,
        None => true,
    })
}

/// `r` is what a capture comes to.
pub open spec fn is_capture(
    succeeded: bool,
    shot: Option<Vec<u8>>,
    max_edge: nat,
    quality: nat,
    r: Result<Option<Vec<u8>>, FrameError>,
) -> bool {
    match r {
        Ok(None) => is_cancelled(succeeded, shot),
        Ok(Some(out)) => {
            &&& !is_cancelled(succeeded, shot)
            &&& is_frame_or_error(shot->0@, max_edge, quality, Ok(out))
        },
        Err(e) => {
            &&& !is_cancelled(succeeded, shot)
            &&& is_frame_or_error(shot->0@, max_edge, quality, Err(e))
        },
    }
}

/// What a capture comes to, by Spectacle's exit status and the file that it
/// left: the JPEG to send, or nothing where the user cancelled.
pub fn capture(
    succeeded: bool,
    shot: Option<Vec<u8>>,
    max_edge: u32,
    quality: u8,
) -> (r: Result<Option<Vec<u8>>, FrameError>)
    ensures
        is_capture(succeeded, shot, max_edge as nat, quality as nat, r),
{
    match shot {
        Some(png) => {
            if !succeeded || png.len() == 0 {
                return Ok(None);
            }
            match to_jpeg(&png, max_edge, quality) {
                Ok(out) => Ok(Some(out)),
                Err(e) => Err(e),
            }
        },
        None => Ok(None),
    }
}

/// The user cancelled exactly where Spectacle failed, or left nothing.
pub proof fn law_capture_that_left_a_picture_is_not_cancelled(succeeded: bool, png: Vec<u8>)
    ensures
        is_cancelled(succeeded, None),
        is_cancelled(false, Some(png)),
        png@.len() == 0 ==> is_cancelled(succeeded, Some(png)),
        succeeded && png@.len() > 0 ==> !is_cancelled(succeeded, Some(png)),
{
}

/// Whatever picture Spectacle leaves is sent, as a JPEG file of that picture,
/// where it can be decoded and the longest edge is one that JPEG allows; nothing
/// is sent where the user cancelled, and that is no error.
pub proof fn law_captured_picture_is_sent(
    succeeded: bool,
    png: Vec<u8>,
    max_edge: nat,
    quality: nat,
    r: Result<Option<Vec<u8>>, FrameError>,
)
    requires
        0 < max_edge <= 65535,
        decoded(png@) matches Some((size, _)) ==> size.len() == 2 && 0 < size[0] <= u32::MAX && 0 < size[1]
            <= u32::MAX,
        is_capture(succeeded, Some(png), max_edge, quality, r),
    ensures
        !succeeded || png@.len() == 0 ==> r == Ok::<Option<Vec<u8>>, FrameError>(None),
        succeeded && png@.len() > 0 && decoded(png@) is Some ==> (r matches Ok(Some(out)) && is_frame(
            png@,
            max_edge,
            quality,
            out@,
        ) && out@.len() >= 2 && out@[0] == 0xff && out@[1] == 0xd8),
        succeeded && png@.len() > 0 && decoded(png@) is None ==> r == Err::<Option<Vec<u8>>, FrameError>(
            FrameError::Decoding,
        ),
{
    law_decoded_picture_can_be_sent(png@, max_edge);
}

/// A PNG picture that fits is sent as it is: the frame is the JPEG file of its
/// very samples, in its own size and the quality that was asked for.
pub proof fn law_picture_that_fits_is_sent_as_it_is(
    input: Seq<u8>,
    size: Seq<nat>,
    rgb: Seq<u8>,
    max_edge: nat,
    quality: nat,
    out: Seq<u8>,
)
    requires
        is_png(input),
        decoded(input) == Some((size, set![rgb])),
        size.len() == 2,
        size[0] <= max_edge,
        size[1] <= max_edge,
        is_frame(input, max_edge, quality, out),
    ensures
        out == jpeg(rgb, size[0], size[1], quality),
{
    assert(set![rgb].contains(rgb));
}

/// A PNG picture that is too large is sent as what the filter makes of it: the
/// frame is the JPEG file of that, in a size that fits.
pub proof fn law_picture_that_is_too_large_is_shrunk(
    input: Seq<u8>,
    size: Seq<nat>,
    rgb: Seq<u8>,
    max_edge: nat,
    quality: nat,
    out: Seq<u8>,
)
    requires
        is_png(input),
        decoded(input) == Some((size, set![rgb])),
        size.len() == 2,
        0 < size[0] <= u32::MAX,
        0 < size[1] <= u32::MAX,
        max_edge > 0,
        size[0] > max_edge || size[1] > max_edge,
        is_frame(input, max_edge, quality, out),
    ensures
        exists|sent: Seq<u8>, width: nat, height: nat|
            {
                &&& shrunk(rgb, size, max_edge, sent)
                &&& out == #[trigger] jpeg(sent, width, height, quality)
                &&& sent.len() == 3 * width * height
                &&& 0 < width <= max_edge && 0 < height <= max_edge
                &&& width == max_edge || height == max_edge
            },
{
    law_longest_side_is_capped(size, max_edge);
    let fit = sent_extent(size, max_edge);
    let (src, sent) = choose|src: Seq<u8>, sent: Seq<u8>|
        {
            &&& #[trigger] is_decoded_as(input, src)
            &&& #[trigger] is_sent_as(src, size, max_edge, sent)
            &&& sent.len() == sample_count(fit)
            &&& jpeg(sent, fit[0], fit[1], quality) == out
        };
    assert(set![rgb].contains(src));
    assert(out == jpeg(sent, fit[0], fit[1], quality));
}

/// A picture that can be decoded can be sent, whatever its size, where the
/// longest edge is one that JPEG allows; one that cannot be decoded never is.
pub proof fn law_decoded_picture_can_be_sent(input: Seq<u8>, max_edge: nat)
    requires
        0 < max_edge <= 65535,
        decoded(input) matches Some((size, _)) ==> size.len() == 2 && 0 < size[0] <= u32::MAX && 0 < size[1]
            <= u32::MAX,
    ensures
        decoded(input) is Some ==> frame_error(input, max_edge) is None,
        decoded(input) is None ==> frame_error(input, max_edge) == Some(FrameError::Decoding),
{
    match decoded(input) {
        Some((size, _)) => {
            law_longest_side_is_capped(size, max_edge);
        },
        None => {},
    }
}

/// What is taken of what is parked.
pub open spec fn taken_frame(parked: Option<Vec<u8>>) -> Option<Vec<u8>> {
    match parked {
        Some(bytes) => if bytes@.len() > 0 {
            Some(bytes)
        } else {
            None
        },
        None => None,
    }
}

/// A frame that is parked is taken as it is, and is not there to be taken again.
pub proof fn law_frame_is_taken_as_it_is(jpeg: Vec<u8>)
    ensures
        jpeg@.len() > 0 ==> taken_frame(Some(jpeg)) == Some(jpeg),
        jpeg@.len() == 0 ==> taken_frame(Some(jpeg)) is None,
        taken_frame(None) is None,
{
}

/// Takes the frame that is parked for the session, so that it is not sent
/// twice; an empty one is none.
pub fn take_frame(parked: &mut Option<Vec<u8>>) -> (r: Option<Vec<u8>>)
    ensures
        *final(parked) is None,
        r == taken_frame(*old(parked)),
{
    match parked.take() {
        Some(bytes) => if bytes.len() > 0 {
            Some(bytes)
        } else {
            None
        },
        None => None,
    }
}

/// Where a captured frame is parked for the session, by `XDG_RUNTIME_DIR`.
///
/// A signal carries no payload, so the frame goes through the file system, and
/// the signal says that there is one.
pub fn frame_path(runtime_dir: Option<&str>) -> (r: String)
    ensures
        r@ == runtime_path(str_view(runtime_dir), "gemini-assistant-frame.jpg"@),
{
    in_runtime_dir(runtime_dir, "gemini-assistant-frame.jpg")
}

/// A side of a shrunk picture is off its exact size by less than a pixel.
pub proof fn law_aspect_ratio_is_kept(side: nat, longest: nat, edge: nat)
    requires
        0 < side <= longest <= u32::MAX,
        0 < edge < longest,
    ensures
        -(longest as int) < fitted_side(side, longest, edge) * longest - side * edge < longest,
{
    lemma2_to64();
    lemma2_to64_rest();
    let ratio = rounded(edge, longest, 53);
    assert(longest * pow2(32) >= pow2(32)) by (nonlinear_arith)
        requires
            longest >= 1,
    ;
    lemma_rounded_exp(edge, longest, 53, 32);
    lemma_rounded_close(edge, longest, 53);
    lemma_rounded_normal(edge, longest, 53);
    let k = (-ratio.exp) as nat;
    let u = pow2(k) as int;
    lemma_pow2_pos(k);
    let m = ratio.mant;
    let n = (side * m) as nat;
    let off = m * longest - edge * u;
    let w = 0x20_0000_0000_0000int;
    assert(w * off <= edge * u && w * (-off) <= edge * u);
    lemma_rounded_over_pow2(n, 53, k);
    assert(product(integer(side as int), ratio, 53) == rounded(n, pow2(k), 53));
    assert(n < pow2(k) * pow2(48)) by (nonlinear_arith)
        requires
            n == side * m,
            0 < side <= longest,
            m >= 0,
            m * longest == edge * u + off,
            w * off <= edge * u,
            w == 0x20_0000_0000_0000,
            0 < edge <= u32::MAX,
            u > 0,
            pow2(k) == u,
            pow2(48) == 0x1_0000_0000_0000,
    ;
    lemma_integer_close(n, pow2(k));
    let r = round_half_away(rounded(n, pow2(k), 53));
    let far = side * off;
    assert(w * far <= longest * (edge * u) && w * (-far) <= longest * (edge * u)) by (nonlinear_arith)
        requires
            far == side * off,
            w * off <= edge * u,
            w * (-off) <= edge * u,
            0 < side <= longest,
            edge * u >= 0,
    ;
    let room = longest * u;
    assert(8 * far < room && 8 * (-far) < room) by (nonlinear_arith)
        requires
            w * far <= longest * (edge * u),
            w * (-far) <= longest * (edge * u),
            w == 0x20_0000_0000_0000,
            0 < edge <= u32::MAX,
            room == longest * u,
            longest > 0,
            u > 0,
    ;
    assert(n * longest == side * edge * u + far) by (nonlinear_arith)
        requires
            n == side * m,
            m * longest == edge * u + off,
            far == side * off,
    ;
    let gap = r * longest - side * edge;
    assert(-6 * longest < 8 * gap < 6 * longest) by (nonlinear_arith)
        requires
            -5 * u <= 8 * (r * u - n) <= 5 * u,
            n * longest == side * edge * u + far,
            gap == r * longest - side * edge,
            room == longest * u,
            8 * far < room,
            8 * (-far) < room,
            longest > 0,
            u > 0,
    ;
    assert(side * edge > 0) by (nonlinear_arith)
        requires
            side > 0,
            edge > 0,
    ;
    if r < 1 {
        assert(r * longest <= 0) by (nonlinear_arith)
            requires
                r <= 0,
                longest > 0,
        ;
        assert(1 * longest == longest);
    }
}

/// The longest side of what is sent is at most `max_edge`, and exactly that
/// where the picture is shrunk; no side ever grows.
pub proof fn law_longest_side_is_capped(size: Seq<nat>, max_edge: nat)
    requires
        size.len() == 2,
        0 < size[0] <= u32::MAX,
        0 < size[1] <= u32::MAX,
        max_edge > 0,
    ensures
        ({
            let sent = sent_extent(size, max_edge);
            &&& longest_side(sent) <= max_edge
            &&& longest_side(size) > max_edge ==> longest_side(sent) == max_edge
            &&& 0 < sent[0] <= size[0]
            &&& 0 < sent[1] <= size[1]
        }),
{
    let longest = longest_side(size);
    if longest > max_edge {
        assert forall|side: nat| 0 < side <= longest implies 0 < #[trigger] fitted_side(side, longest, max_edge)
            && fitted_side(side, longest, max_edge) <= side && fitted_side(side, longest, max_edge) <= max_edge
            && (side == longest ==> fitted_side(side, longest, max_edge) == max_edge) by {
            law_aspect_ratio_is_kept(side, longest, max_edge);
            let f = fitted_side(side, longest, max_edge);
            assert(f <= side && f <= max_edge && (side == longest ==> f == max_edge)) by (nonlinear_arith)
                requires
                    -longest < f * longest - side * max_edge < longest,
                    0 < side <= longest,
                    0 < max_edge < longest,
            ;
        }
    }
}

} // verus!
