//! Raw row-major pixel buffers.
use vstd::prelude::*;

use crate::model::ImageModel;

verus! {

/// A raw image: `width * height` pixels of `channels` bytes each, row after row.
pub struct Image {
    buffer: Vec<u8>,
    width: u16,
    height: u16,
    channels: u16,
    row_len: u16,
}

impl View for Image {
    type V = ImageModel;

    closed spec fn view(&self) -> ImageModel {
        ImageModel {
            bytes: self.buffer@,
            width: self.width as int,
            height: self.height as int,
            channels: self.channels as int,
        }
    }
}

/// The decimal digit `d`.
pub open spec fn digit(d: int) -> char {
    seq!['0', '1', '2', '3', '4', '5', '6', '7', '8', '9'][d]
}

/// `n` written in decimal, without leading zeros.
pub open spec fn decimal(n: nat) -> Seq<char>
    decreases n,
{
    if n < 10 {
        seq![digit(n as int)]
    } else {
        decimal(n / 10).push(digit((n % 10) as int))
    }
}

/// The text of the error for a buffer whose length does not fit the geometry.
pub open spec fn size_mismatch_text(
    width: u16,
    height: u16,
    channels: u16,
    expected: u32,
    actual: usize,
) -> Seq<char> {
    "Buffer size mismatch: expected "@ + decimal(width as nat) + "×"@ + decimal(height as nat)
        + "×"@ + decimal(channels as nat) + " = "@ + decimal(expected as nat) + " bytes, got "@
        + decimal(actual as nat) + " bytes"@
}

/// Calls `format!` to describe a buffer of the wrong length. The contract
/// claims what `format!` documents: each `{}` is replaced by the decimal
/// rendering (`Display`) of its unsigned integer argument.
#[verifier::external_body]
fn size_mismatch_message(
    width: u16,
    height: u16,
    channels: u16,
    expected: u32,
    actual: usize,
) -> (s: String)
    ensures
        s@ == size_mismatch_text(width, height, channels, expected, actual),
{
    format!(
        "Buffer size mismatch: expected {}×{}×{} = {} bytes, got {} bytes",
        width,
        height,
        channels,
        expected,
        actual
    )
}

/// The model of an image built from these parts.
pub open spec fn image_model(buffer: Seq<u8>, width: u16, height: u16, channels: u16) -> ImageModel {
    ImageModel {
        bytes: buffer,
        width: width as int,
        height: height as int,
        channels: channels as int,
    }
}

proof fn lemma_product_regroup(w: int, h: int, c: int)
    ensures
        w * h * c == (w * c) * h,
{
    assert(w * h * c == (w * c) * h) by (nonlinear_arith);
}

impl Image {
    #[verifier::type_invariant]
    spec fn inv(self) -> bool {
        &&& self.row_len as int == self.width as int * self.channels as int
        &&& self.buffer@.len() == self.row_len as int * self.height as int
        &&& self.buffer@.len() <= u32::MAX
    }

    /// Wraps `buffer` as an image of `width x height` pixels with `channels`
    /// bytes each. Fails when the length is not `width * height * channels`.
    pub fn new(buffer: Vec<u8>, width: u16, height: u16, channels: u16) -> (r: Result<Image, String>)
        requires
            buffer@.len() <= u32::MAX,
            width * height * channels <= u32::MAX,
            width * height * channels == buffer@.len() ==> width * channels <= u16::MAX,
        ensures
            r is Ok <==> width * height * channels == buffer@.len(),
            r is Ok ==> r->Ok_0@ == image_model(buffer@, width, height, channels),
            r is Err ==> r->Err_0@ == size_mismatch_text(
                width,
                height,
                channels,
                (width * height * channels) as u32,
                buffer@.len() as usize,
            ),
    {
        assert((width as u32) * (height as u32) <= 0xfffe_0001) by (nonlinear_arith)
            requires
                width <= 0xffff,
                height <= 0xffff,
        ;
        let prod: u32 = (width as u32) * (height as u32) * (channels as u32);
        let len = buffer.len();
        if prod as usize != len {
            return Err(size_mismatch_message(width, height, channels, prod, len));
        }
        proof {
            lemma_product_regroup(width as int, height as int, channels as int);
        }
        Ok(Image { buffer, width, height, channels, row_len: width * channels })
    }

    pub fn width(&self) -> (r: u16)
        ensures
            r == self@.width,
            self@.well_formed(),
    {
        proof {
            use_type_invariant(self);
        }
        self.width
    }

    pub fn height(&self) -> (r: u16)
        ensures
            r == self@.height,
            self@.well_formed(),
    {
        proof {
            use_type_invariant(self);
        }
        self.height
    }

    pub fn channels(&self) -> (r: u16)
        ensures
            r == self@.channels,
            self@.well_formed(),
    {
        proof {
            use_type_invariant(self);
        }
        self.channels
    }

    /// Number of bytes in one row.
    pub(crate) fn row_len(&self) -> (r: u16)
        ensures
            r == self@.row_len(),
            self@.well_formed(),
    {
        proof {
            use_type_invariant(self);
        }
        self.row_len
    }

    pub fn dimensions(&self) -> (r: [u16; 2])
        ensures
            r[0] == self@.width,
            r[1] == self@.height,
            self@.well_formed(),
    {
        proof {
            use_type_invariant(self);
        }
        [self.width, self.height]
    }

    pub fn as_raw(&self) -> (r: &Vec<u8>)
        ensures
            r@ == self@.bytes,
            self@.well_formed(),
    {
        proof {
            use_type_invariant(self);
        }
        &self.buffer
    }
}

} // verus!
