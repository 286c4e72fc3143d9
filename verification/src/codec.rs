//! Reading and writing PNG files held in memory, by the `png` crate.

use vstd::prelude::*;

verus! {

/// The error of the `png` crate's decoder, carried through unopened.
#[verifier::external_type_specification]
#[verifier::external_body]
pub struct ExDecodingError(png::DecodingError);

/// The error of the `png` crate's encoder, carried through unopened.
#[verifier::external_type_specification]
#[verifier::external_body]
pub struct ExEncodingError(png::EncodingError);

/// The first frame of a decoded image: its size, the samples to the pixel,
/// the bits to the sample, and the rows of samples from the top.
pub struct Raster {
    pub width: u32,
    pub height: u32,
    pub samples: u8,
    pub bits: u8,
    pub data: Vec<u8>,
}

/// What the `png` crate decodes from the bytes of a file: width, height,
/// samples to the pixel, bits to the sample and the sample bytes of the first
/// frame, or nothing where it refuses the file.
pub uninterp spec fn decoded_png(file: Seq<u8>) -> Option<(u32, u32, u8, u8, Seq<u8>)>;

/// The file that the `png` crate encodes, with its default settings, from
/// rows of 8-bit RGB pixels, or nothing where it refuses them.
pub uninterp spec fn encoded_png(width: u32, height: u32, rgb: Seq<u8>) -> Option<Seq<u8>>;

/// Decodes the first frame of a PNG file with `png::Decoder::read_info` and
/// `png::Reader::next_frame`, into a buffer of the size that
/// `png::Reader::output_buffer_size` asks for. This is not proved: it is
/// taken on trust that the outcome depends on the bytes of the file alone.
/// Nothing else is claimed of it, neither that a file is accepted nor what
/// is decoded from it.
#[verifier::external_body]
pub(crate) fn decode_png(file: &[u8]) -> (decoded: Result<Raster, png::DecodingError>)
    ensures
        match decoded {
            Ok(raster) => decoded_png(file@) == Some(
                (raster.width, raster.height, raster.samples, raster.bits, raster.data@),
            ),
            Err(_) => decoded_png(file@) is None,
        },
{
    let mut reader = png::Decoder::new(file).read_info()?;
    let mut data = vec![0; reader.output_buffer_size()];
    let frame = reader.next_frame(&mut data)?;
    Ok(Raster {
        width: frame.width,
        height: frame.height,
        samples: frame.color_type.samples() as u8,
        bits: frame.bit_depth as u8,
        data,
    })
}

/// Encodes rows of 8-bit RGB pixels as a PNG file with `png::Encoder`,
/// `png::Encoder::write_header`, `png::Writer::write_image_data` and
/// `png::Writer::finish`, writing into memory. This is not proved: it is
/// taken on trust that the outcome depends on the size and the pixels alone.
/// Nothing else is claimed of it. The sizes asked for are those the encoder
/// accepts: no side is zero, and the bytes are three for each pixel.
#[verifier::external_body]
pub(crate) fn encode_png(width: u32, height: u32, rgb: &[u8]) -> (encoded: Result<
    Vec<u8>,
    png::EncodingError,
>)
    requires
        width > 0,
        height > 0,
        rgb@.len() == width * height * 3,
    ensures
        match encoded {
            Ok(file) => encoded_png(width, height, rgb@) == Some(file@),
            Err(_) => encoded_png(width, height, rgb@) is None,
        },
{
    let mut file = Vec::new();
    let mut encoder = png::Encoder::new(&mut file, width, height);
    encoder.set_color(png::ColorType::Rgb);
    encoder.set_depth(png::BitDepth::Eight);
    let mut writer = encoder.write_header()?;
    writer.write_image_data(rgb)?;
    writer.finish()?;
    Ok(file)
}

} // verus!
