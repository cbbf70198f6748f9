//! Image candidates by file name, and their sizes as the decoders report them.
use vstd::prelude::*;

use crate::threshold::DOT;

verus! {

/// The image formats that are read.
#[derive(Clone, Copy, Debug, PartialEq, Eq, Structural)]
pub enum ImageFormat {
    Jpeg,
    Png,
}

/// An image's size in pixels, as its header gives it.
#[derive(Clone, Copy, Debug, PartialEq, Eq, Structural)]
pub struct Dimensions {
    pub width: u32,
    pub height: u32,
}

/// Index of the last dot of `s`, or -1 when it has none.
pub open spec fn last_dot(s: Seq<u8>) -> int
    decreases s.len(),
{
    if s.len() == 0 {
        -1
    } else if s.last() == DOT {
        s.len() - 1
    } else {
        last_dot(s.drop_last())
    }
}

/// The extension of a file name: what follows its last dot, where that dot is
/// not the name's first byte.
pub open spec fn extension_of(name: Seq<u8>) -> Option<Seq<u8>> {
    if last_dot(name) <= 0 {
        None
    } else {
        Some(name.skip(last_dot(name) + 1))
    }
}

pub open spec fn ascii_lower(b: u8) -> u8 {
    if 65 <= b <= 90 {
        (b + 32) as u8
    } else {
        b
    }
}

pub open spec fn lowered(s: Seq<u8>) -> Seq<u8> {
    s.map_values(|b: u8| ascii_lower(b))
}

/// `jpg`, `jpeg` and `png` in ASCII.
pub open spec fn word_jpg() -> Seq<u8> {
    seq![106u8, 112u8, 103u8]
}

pub open spec fn word_jpeg() -> Seq<u8> {
    seq![106u8, 112u8, 101u8, 103u8]
}

pub open spec fn word_png() -> Seq<u8> {
    seq![112u8, 110u8, 103u8]
}

/// The format that an extension names, letter case ignored.
pub open spec fn format_of_extension(e: Seq<u8>) -> Option<ImageFormat> {
    let l = lowered(e);
    if l == word_jpg() || l == word_jpeg() {
        Some(ImageFormat::Jpeg)
    } else if l == word_png() {
        Some(ImageFormat::Png)
    } else {
        None
    }
}

pub open spec fn format_of_name(name: Seq<u8>) -> Option<ImageFormat> {
    match extension_of(name) {
        Some(e) => format_of_extension(e),
        None => None,
    }
}

/// Whether `s[start..]` is `word` once ASCII capitals are lowered.
fn tail_equals_lowered(s: &[u8], start: usize, word: &[u8]) -> (r: bool)
    requires
        start <= s@.len(),
    ensures
        r == (lowered(s@.skip(start as int)) == word@),
{
    let ghost tail = s@.skip(start as int);
    if s.len() - start != word.len() {
        assert(lowered(tail).len() != word@.len());
        return false;
    }
    let n: usize = s.len();
    let mut i: usize = 0;
    while i < word.len()
        invariant
            n == s@.len(),
            start <= s@.len(),
            start + word@.len() == s@.len(),
            tail == s@.skip(start as int),
            0 <= i <= word@.len(),
            forall|j: int| 0 <= j < i ==> #[trigger] ascii_lower(tail[j]) == word@[j],
        decreases word@.len() - i,
    {
        assert(start + i < s@.len());
        let b = s[start + i];
        let low: u8 = if 65 <= b && b <= 90 { b + 32 } else { b };
        if low != word[i] {
            assert(lowered(tail)[i as int] != word@[i as int]);
            return false;
        }
        i = i + 1;
    }
    assert(lowered(tail) =~= word@);
    true
}

/// The format that a file name marks it as, by its extension in any letter
/// case: `jpg` and `jpeg` for JPEG, `png` for PNG. Any other name is no image
/// candidate.
pub fn image_format(file_name: &[u8]) -> (r: Option<ImageFormat>)
    ensures
        r == format_of_name(file_name@),
{
    let mut k: usize = file_name.len();
    assert(file_name@.take(k as int) == file_name@);
    while k > 0 && file_name[k - 1] != DOT
        invariant
            0 <= k <= file_name@.len(),
            last_dot(file_name@) == last_dot(file_name@.take(k as int)),
        decreases k,
    {
        let ghost s = file_name@.take(k as int);
        assert(s.drop_last() == file_name@.take(k - 1));
        k = k - 1;
    }
    proof {
        if k == 0 {
            assert(file_name@.take(0).len() == 0);
        } else {
            assert(file_name@.take(k as int).last() == file_name@[k - 1]);
        }
        assert(file_name@.take(file_name@.len() as int) == file_name@);
    }
    if k <= 1 {
        return None;
    }
    let jpg: Vec<u8> = vec![106, 112, 103];
    let jpeg: Vec<u8> = vec![106, 112, 101, 103];
    let png: Vec<u8> = vec![112, 110, 103];
    assert(jpg@ == word_jpg());
    assert(jpeg@ == word_jpeg());
    assert(png@ == word_png());
    if tail_equals_lowered(file_name, k, jpg.as_slice()) || tail_equals_lowered(
        file_name,
        k,
        jpeg.as_slice(),
    ) {
        Some(ImageFormat::Jpeg)
    } else if tail_equals_lowered(file_name, k, png.as_slice()) {
        Some(ImageFormat::Png)
    } else {
        None
    }
}

/// The frame size that jpeg-decoder reads from a JPEG header, as (width, height).
pub uninterp spec fn jpeg_frame_size(b: Seq<u8>) -> Option<(u16, u16)>;

/// The size that the png crate reads from a PNG header, as (width, height).
pub uninterp spec fn png_frame_size(b: Seq<u8>) -> Option<(u32, u32)>;

#[verifier::external_type_specification]
#[verifier::external_body]
pub struct ExJpegError(jpeg_decoder::Error);

#[verifier::external_type_specification]
#[verifier::external_body]
pub struct ExPngError(png::DecodingError);

/// Relies on jpeg_decoder's `Decoder::read_info`, which reads the markers up to
/// the frame header, and `Decoder::info`, which reports that frame's size. The
/// source fails unless the input opens with the SOI marker `FF D8`, refuses a
/// frame of zero width or height, and has `info` give the frame once
/// `read_info` succeeded.
#[verifier::external_body]
fn jpeg_read_info(b: &[u8]) -> (r: Result<Option<(u16, u16)>, jpeg_decoder::Error>)
    ensures
        r is Err ==> jpeg_frame_size(b@) is None,
        r matches Ok(info) ==> info == jpeg_frame_size(b@) && info is Some,
        r matches Ok(Some(size)) ==> size.0 > 0 && size.1 > 0 && b@.len() >= 2 && b@[0] == 0xFF
            && b@[1] == 0xD8,
{
    let mut decoder = jpeg_decoder::Decoder::new(b);
    decoder.read_info()?;
    Ok(decoder.info().map(|info| (info.width, info.height)))
}

/// Relies on png's `Decoder::read_info`, which reads the chunks before the
/// image data, and `Reader::info`, whose width and height are those of the
/// `IHDR` chunk. The source fails unless the input opens with the eight bytes
/// of the PNG signature, and refuses a zero width or height.
#[verifier::external_body]
fn png_read_info(b: &[u8]) -> (r: Result<(u32, u32), png::DecodingError>)
    ensures
        r is Err ==> png_frame_size(b@) is None,
        r matches Ok(size) ==> png_frame_size(b@) == Some(size),
        r matches Ok(size) ==> size.0 > 0 && size.1 > 0 && b@.len() >= 8 && b@[0] == 137
            && b@[1] == 80 && b@[2] == 78 && b@[3] == 71 && b@[4] == 13 && b@[5] == 10
            && b@[6] == 26 && b@[7] == 10,
{
    png::Decoder::new(b).read_info().map(|reader| (reader.info().width, reader.info().height))
}

/// The bytes open with the JPEG start-of-image marker `FF D8`.
pub open spec fn starts_jpeg(b: Seq<u8>) -> bool {
    b.len() >= 2 && b[0] == 0xFF && b[1] == 0xD8
}

/// The bytes open with the eight-byte PNG signature.
pub open spec fn starts_png(b: Seq<u8>) -> bool {
    b.len() >= 8 && b[0] == 137 && b[1] == 80 && b[2] == 78 && b[3] == 71 && b[4] == 13 && b[5]
        == 10 && b[6] == 26 && b[7] == 10
}

/// The size of an image of the given format whose file holds `b`, where its
/// header can be read.
pub open spec fn decoded_size(format: ImageFormat, b: Seq<u8>) -> Option<Dimensions> {
    match format {
        ImageFormat::Jpeg => match jpeg_frame_size(b) {
            Some(size) => Some(Dimensions { width: size.0 as u32, height: size.1 as u32 }),
            None => None,
        },
        ImageFormat::Png => match png_frame_size(b) {
            Some(size) => Some(Dimensions { width: size.0, height: size.1 }),
            None => None,
        },
    }
}

/// Reads the width and height from the header of an image file's contents.
/// `None` where the header cannot be read: a corrupt or truncated file, or one
/// of another format.
pub fn read_dimensions(format: ImageFormat, contents: &[u8]) -> (r: Option<Dimensions>)
    ensures
        r == decoded_size(format, contents@),
        r matches Some(d) ==> d.width > 0 && d.height > 0,
        contents@.len() < 2 ==> r is None,
        format == ImageFormat::Jpeg && r is Some ==> starts_jpeg(contents@),
        format == ImageFormat::Png && r is Some ==> starts_png(contents@),
{
    match format {
        ImageFormat::Jpeg => match jpeg_read_info(contents) {
            Ok(Some(size)) => Some(Dimensions { width: size.0 as u32, height: size.1 as u32 }),
            Ok(None) => None,
            Err(_) => None,
        },
        ImageFormat::Png => match png_read_info(contents) {
            Ok(size) => Some(Dimensions { width: size.0, height: size.1 }),
            Err(_) => None,
        },
    }
}

} // verus!
