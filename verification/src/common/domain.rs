//! Images, frames and the headers that describe them.

use vstd::prelude::*;
use crate::common::error::{CrfError, CrfResult};
use crate::common::le;
use crate::common::le::{get_le16, get_le32, put_le16, put_le32};

verus! {

/// Length in bytes of the file header.
pub const HEADER_SIZE: usize = 64;

/// Length in bytes of a frame header.
pub const FRAME_HEADER_SIZE: usize = 14;

/// Length in bytes of the footer: the checksum and the footer magic.
pub const FOOTER_SIZE: usize = 8;

/// Offset of the reference type in a frame header.
pub const REFERENCE_TYPE_OFFSET: usize = 11;

/// Offset of the illumination factor in a frame header.
pub const LIC_A_NUM_OFFSET: usize = 12;

/// Offset of the illumination offset in a frame header.
pub const LIC_B_OFFSET: usize = 13;

/// Rows in a band, unless a frame says otherwise.
pub const BAND_HEIGHT: usize = 32;

/// Prediction mode byte of a frame that has no single mode.
pub const PRED_MODE_UNSET: u8 = 0xff;

/// The frame is coded as a difference to the first frame.
pub const REF_GOLDEN: u8 = 0;

/// The frame is coded as a difference to the one before, or is the first.
pub const REF_PREVIOUS: u8 = 1;

/// The frame is coded as a difference to the one before the previous.
pub const REF_PREV2: u8 = 2;

/// More samples than this an image cannot have: a field of 32 bits holds their number, and the code of
/// a run of them is made of one more.
pub const MAX_SAMPLES: usize = 0xffff_fffe;

/// The four bytes that a file starts with.
pub open spec fn file_magic() -> Seq<u8> {
    seq![0x43u8, 0x52u8, 0x46u8, 0u8]
}

/// The four bytes that a file ends with.
pub open spec fn footer_magic() -> Seq<u8> {
    seq![0x43u8, 0x52u8, 0x46u8, 0x45u8]
}

/// Appends the mark at the end of a file to `out`.
pub fn put_footer_magic(out: &mut Vec<u8>)
    ensures
        final(out)@ == old(out)@ + footer_magic(),
{
    let ghost before = out@;
    out.push(0x43);
    out.push(0x52);
    out.push(0x46);
    out.push(0x45);
    assert(out@ =~= before + footer_magic());
}

/// How a pixel is made up of samples.
#[derive(Clone, Copy, PartialEq, Eq, Debug, Structural)]
pub enum ColorFormat {
    Gray,
    Rgb,
    Rgba,
}

impl ColorFormat {
    pub open spec fn spec_count(self) -> nat {
        match self {
            ColorFormat::Gray => 1,
            ColorFormat::Rgb => 3,
            ColorFormat::Rgba => 4,
        }
    }

    /// Samples per pixel.
    pub fn component_count(&self) -> (n: usize)
        ensures
            n == self.spec_count(),
            1 <= n <= 4,
    {
        match self {
            ColorFormat::Gray => 1,
            ColorFormat::Rgb => 3,
            ColorFormat::Rgba => 4,
        }
    }

    pub open spec fn code(self) -> u8 {
        match self {
            ColorFormat::Gray => 0,
            ColorFormat::Rgb => 1,
            ColorFormat::Rgba => 2,
        }
    }

    /// The byte that stands for the format.
    pub fn to_u8(&self) -> (b: u8)
        ensures
            b == self.code(),
    {
        match self {
            ColorFormat::Gray => 0,
            ColorFormat::Rgb => 1,
            ColorFormat::Rgba => 2,
        }
    }

    /// The format that a byte stands for.
    pub fn from_u8(b: u8) -> (r: Option<ColorFormat>)
        ensures
            r is Some <==> b <= 2,
            r is Some ==> r->0.code() == b,
    {
        if b == 0 {
            Some(ColorFormat::Gray)
        } else if b == 1 {
            Some(ColorFormat::Rgb)
        } else if b == 2 {
            Some(ColorFormat::Rgba)
        } else {
            None
        }
    }
}

/// The family of codes that a file uses.
#[derive(Clone, Copy, PartialEq, Eq, Debug, Structural)]
pub enum CompressionType {
    GolombRice,
    ExpGolomb,
    Transform,
}

impl CompressionType {
    pub open spec fn code(self) -> u8 {
        match self {
            CompressionType::GolombRice => 0,
            CompressionType::ExpGolomb => 1,
            CompressionType::Transform => 2,
        }
    }

    /// The byte that stands for the type.
    pub fn to_u8(&self) -> (b: u8)
        ensures
            b == self.code(),
    {
        match self {
            CompressionType::GolombRice => 0,
            CompressionType::ExpGolomb => 1,
            CompressionType::Transform => 2,
        }
    }

    /// The type that a byte stands for.
    pub fn from_u8(b: u8) -> (r: Option<CompressionType>)
        ensures
            r is Some <==> b <= 2,
            r is Some ==> r->0.code() == b,
    {
        if b == 0 {
            Some(CompressionType::GolombRice)
        } else if b == 1 {
            Some(CompressionType::ExpGolomb)
        } else if b == 2 {
            Some(CompressionType::Transform)
        } else {
            None
        }
    }
}

/// From which neighbours a sample is predicted.
#[derive(Clone, Copy, PartialEq, Eq, Debug, Structural)]
pub enum PredictionMode {
    /// From none of them.
    Off,
    Horizontal,
    Vertical,
    Average,
    DC,
    Med,
    Paeth,
    TopRight,
    Diagonal,
}

impl PredictionMode {
    pub open spec fn code(self) -> u8 {
        match self {
            PredictionMode::Off => 0,
            PredictionMode::Horizontal => 1,
            PredictionMode::Vertical => 2,
            PredictionMode::Average => 3,
            PredictionMode::DC => 4,
            PredictionMode::Med => 5,
            PredictionMode::Paeth => 6,
            PredictionMode::TopRight => 7,
            PredictionMode::Diagonal => 8,
        }
    }

    /// The mode that a byte stands for; bytes without a mode of their own mean no prediction.
    pub open spec fn of_code(b: u8) -> PredictionMode {
        if b == 1 {
            PredictionMode::Horizontal
        } else if b == 2 {
            PredictionMode::Vertical
        } else if b == 3 {
            PredictionMode::Average
        } else if b == 4 {
            PredictionMode::DC
        } else if b == 5 {
            PredictionMode::Med
        } else if b == 6 {
            PredictionMode::Paeth
        } else if b == 7 {
            PredictionMode::TopRight
        } else if b == 8 {
            PredictionMode::Diagonal
        } else {
            PredictionMode::Off
        }
    }

    /// The byte that stands for the mode.
    pub fn to_u8(&self) -> (b: u8)
        ensures
            b == self.code(),
            PredictionMode::of_code(b) == *self,
            b <= 8,
    {
        match self {
            PredictionMode::Off => 0,
            PredictionMode::Horizontal => 1,
            PredictionMode::Vertical => 2,
            PredictionMode::Average => 3,
            PredictionMode::DC => 4,
            PredictionMode::Med => 5,
            PredictionMode::Paeth => 6,
            PredictionMode::TopRight => 7,
            PredictionMode::Diagonal => 8,
        }
    }

    /// The mode that a byte stands for.
    pub fn from_u8(b: u8) -> (m: PredictionMode)
        ensures
            m == PredictionMode::of_code(b),
    {
        if b == 1 {
            PredictionMode::Horizontal
        } else if b == 2 {
            PredictionMode::Vertical
        } else if b == 3 {
            PredictionMode::Average
        } else if b == 4 {
            PredictionMode::DC
        } else if b == 5 {
            PredictionMode::Med
        } else if b == 6 {
            PredictionMode::Paeth
        } else if b == 7 {
            PredictionMode::TopRight
        } else if b == 8 {
            PredictionMode::Diagonal
        } else {
            PredictionMode::Off
        }
    }
}

/// Reading back the byte of a mode.
pub proof fn lemma_mode_code(m: PredictionMode)
    ensures
        PredictionMode::of_code(m.code()) == m,
        m.code() <= 8,
{
}

/// An image, or the difference of two; the samples of a pixel stand together, pixels row by row.
#[derive(Debug)]
pub struct ImageData {
    pub width: u16,
    pub height: u16,
    pub bit_depth: u8,
    pub color_format: ColorFormat,
    pub pixels: Vec<i32>,
}

/// The size and format of an image.
pub struct Shape {
    pub width: u16,
    pub height: u16,
    pub bit_depth: u8,
    pub color_format: ColorFormat,
}

impl ImageData {
    pub open spec fn shape(&self) -> Shape {
        Shape {
            width: self.width,
            height: self.height,
            bit_depth: self.bit_depth,
            color_format: self.color_format,
        }
    }

    /// The image has as many samples as its size and format tell.
    pub open spec fn wf(&self) -> bool {
        &&& self.pixels@.len() == self.shape().samples()
        &&& self.pixels@.len() <= MAX_SAMPLES
    }

    /// The same image again.
    pub fn copy(&self) -> (c: ImageData)
        ensures
            c.shape() == self.shape(),
            c.pixels@ == self.pixels@,
    {
        let pixels: Vec<i32> = self.pixels.clone();
        assert(pixels@ =~= self.pixels@);
        ImageData {
            width: self.width,
            height: self.height,
            bit_depth: self.bit_depth,
            color_format: self.color_format,
            pixels,
        }
    }

    /// An image of the same size and format with other samples.
    pub fn with_pixels(&self, pixels: Vec<i32>) -> (c: ImageData)
        ensures
            c.shape() == self.shape(),
            c.pixels@ == pixels@,
    {
        ImageData {
            width: self.width,
            height: self.height,
            bit_depth: self.bit_depth,
            color_format: self.color_format,
            pixels,
        }
    }
}

impl Clone for ImageData {
    fn clone(&self) -> (c: ImageData)
        ensures
            c.shape() == self.shape(),
            c.pixels@ == self.pixels@,
    {
        self.copy()
    }
}

impl Shape {
    pub open spec fn samples(&self) -> nat {
        self.width as nat * self.height as nat * self.color_format.spec_count()
    }
}

/// What a file header says about the file.
#[derive(Clone, Copy, PartialEq, Eq, Debug, Structural)]
pub struct Flags {
    pub has_index: bool,
    pub has_rct: bool,
    pub has_lossy_quant: bool,
    pub first_frame_no_rct: bool,
}

impl Flags {
    /// No flag set.
    pub fn new() -> (f: Flags)
        ensures
            f == (Flags {
                has_index: false,
                has_rct: false,
                has_lossy_quant: false,
                first_frame_no_rct: false,
            }),
    {
        Flags { has_index: false, has_rct: false, has_lossy_quant: false, first_frame_no_rct: false }
    }

    /// Whether a frame index stands behind the header.
    pub fn has_index(&self) -> (b: bool)
        ensures
            b == self.has_index,
    {
        self.has_index
    }

    /// Whether the frames are colour transformed.
    pub fn has_rct(&self) -> (b: bool)
        ensures
            b == self.has_rct,
    {
        self.has_rct
    }

    /// Whether the header tells a quantisation step.
    pub fn has_lossy_quant(&self) -> (b: bool)
        ensures
            b == self.has_lossy_quant,
    {
        self.has_lossy_quant
    }

    /// Whether the first frame is exempt from the colour transform.
    pub fn first_frame_no_rct(&self) -> (b: bool)
        ensures
            b == self.first_frame_no_rct,
    {
        self.first_frame_no_rct
    }

    pub open spec fn byte(self) -> nat {
        (if self.has_index {
            1nat
        } else {
            0
        }) + (if self.has_rct {
            2nat
        } else {
            0
        }) + (if self.has_lossy_quant {
            4nat
        } else {
            0
        }) + (if self.first_frame_no_rct {
            8nat
        } else {
            0
        })
    }

    pub open spec fn of_byte(b: u8) -> Flags {
        Flags {
            has_index: b % 2 == 1,
            has_rct: (b / 2) % 2 == 1,
            has_lossy_quant: (b / 4) % 2 == 1,
            first_frame_no_rct: (b / 8) % 2 == 1,
        }
    }

    /// The byte that holds the flags: index, colour transform, quantisation, plain first frame,
    /// from the lowest bit on.
    pub fn to_u8(&self) -> (b: u8)
        ensures
            b == self.byte(),
            Flags::of_byte(b) == *self,
    {
        let mut b: u8 = 0;
        if self.has_index {
            b = b + 1;
        }
        if self.has_rct {
            b = b + 2;
        }
        if self.has_lossy_quant {
            b = b + 4;
        }
        if self.first_frame_no_rct {
            b = b + 8;
        }
        b
    }

    /// The flags in a byte.
    pub fn from_u8(b: u8) -> (f: Flags)
        ensures
            f == Flags::of_byte(b),
    {
        Flags {
            has_index: b % 2 == 1,
            has_rct: (b / 2) % 2 == 1,
            has_lossy_quant: (b / 4) % 2 == 1,
            first_frame_no_rct: (b / 8) % 2 == 1,
        }
    }
}

/// Major and minor version of the format.
pub const VERSION_MAJOR: u8 = 1;

pub const VERSION_MINOR: u8 = 16;

/// The file header.
#[derive(Clone, Copy, PartialEq, Eq, Debug, Structural)]
pub struct CrfHeader {
    pub frame_count: u16,
    pub width: u16,
    pub height: u16,
    pub bit_depth: u8,
    pub color_format: ColorFormat,
    pub compression_type: CompressionType,
    pub flags: Flags,
    pub block_size: u16,
    pub prediction_mode: PredictionMode,
    pub lossy_quant: u8,
}

impl CrfHeader {
    /// A header without flags, with blocks of eight and no prediction.
    pub fn new(
        frame_count: u16,
        width: u16,
        height: u16,
        bit_depth: u8,
        color_format: ColorFormat,
        compression_type: CompressionType,
    ) -> (h: CrfHeader)
        ensures
            h.frame_count == frame_count,
            h.width == width,
            h.height == height,
            h.bit_depth == bit_depth,
            h.color_format == color_format,
            h.compression_type == compression_type,
            h.flags == Flags::of_byte(0),
            h.block_size == 8,
            h.prediction_mode == PredictionMode::Off,
            h.lossy_quant == 0,
    {
        CrfHeader {
            frame_count,
            width,
            height,
            bit_depth,
            color_format,
            compression_type,
            flags: Flags::new(),
            block_size: 8,
            prediction_mode: PredictionMode::Off,
            lossy_quant: 0,
        }
    }

    pub open spec fn shape(&self) -> Shape {
        Shape {
            width: self.width,
            height: self.height,
            bit_depth: self.bit_depth,
            color_format: self.color_format,
        }
    }

    /// The 64 bytes of the header.
    pub open spec fn bytes(&self) -> Seq<u8> {
        file_magic() + seq![VERSION_MAJOR, VERSION_MINOR, 0u8, 0u8] + le::le16(self.frame_count)
            + le::le16(self.width) + le::le16(self.height) + seq![
            self.bit_depth,
            self.color_format.code(),
            self.compression_type.code(),
            self.flags.byte() as u8,
        ] + le::le16(self.block_size) + seq![self.prediction_mode.code(), self.lossy_quant]
            + Seq::new(42, |i: int| 0u8)
    }

    /// Appends the header to `out`.
    pub fn write_bytes(&self, out: &mut Vec<u8>) -> (r: CrfResult<()>)
        ensures
            r is Ok,
            final(out)@ == old(out)@ + self.bytes(),
    {
        let ghost before = out@;
        out.push(0x43);
        out.push(0x52);
        out.push(0x46);
        out.push(0);
        out.push(VERSION_MAJOR);
        out.push(VERSION_MINOR);
        out.push(0);
        out.push(0);
        assert(out@ =~= before + (file_magic() + seq![VERSION_MAJOR, VERSION_MINOR, 0u8, 0u8]));
        put_le16(out, self.frame_count);
        put_le16(out, self.width);
        put_le16(out, self.height);
        out.push(self.bit_depth);
        out.push(self.color_format.to_u8());
        out.push(self.compression_type.to_u8());
        out.push(self.flags.to_u8());
        put_le16(out, self.block_size);
        out.push(self.prediction_mode.to_u8());
        out.push(self.lossy_quant);
        let ghost mid = out@;
        assert(mid + Seq::new(42, |i: int| 0u8) =~= before + self.bytes());
        let mut i: usize = 0;
        while i < 42
            invariant
                i <= 42,
                out@ == mid + Seq::new(i as nat, |i: int| 0u8),
            decreases 42 - i,
        {
            out.push(0);
            i = i + 1;
            assert(out@ =~= mid + Seq::new(i as nat, |i: int| 0u8));
        }
        Ok(())
    }

    /// The header that `data` starts with, if `data` is one.
    pub open spec fn parsed(data: Seq<u8>) -> Option<CrfHeader> {
        if data.len() >= HEADER_SIZE && data.take(4) == file_magic() && data[15] <= 2 && data[16]
            <= 2 {
            Some(
                CrfHeader {
                    frame_count: le::le16_at(data, 8) as u16,
                    width: le::le16_at(data, 10) as u16,
                    height: le::le16_at(data, 12) as u16,
                    bit_depth: data[14],
                    color_format: if data[15] == 0 {
                        ColorFormat::Gray
                    } else if data[15] == 1 {
                        ColorFormat::Rgb
                    } else {
                        ColorFormat::Rgba
                    },
                    compression_type: if data[16] == 0 {
                        CompressionType::GolombRice
                    } else if data[16] == 1 {
                        CompressionType::ExpGolomb
                    } else {
                        CompressionType::Transform
                    },
                    flags: Flags::of_byte(data[17]),
                    block_size: le::le16_at(data, 18) as u16,
                    prediction_mode: PredictionMode::of_code(data[20]),
                    lossy_quant: data[21],
                },
            )
        } else {
            None
        }
    }

    /// Reads the header that `data` starts with.
    pub fn from_bytes(data: &[u8]) -> (r: CrfResult<CrfHeader>)
        ensures
            r is Ok <==> CrfHeader::parsed(data@) is Some,
            r is Ok ==> r->Ok_0 == CrfHeader::parsed(data@)->0,
            r is Err && data@.len() < HEADER_SIZE ==> r->Err_0 == (CrfError::InsufficientData {
                expected: HEADER_SIZE,
                actual: data@.len() as usize,
            }),
            r is Err && data@.len() >= HEADER_SIZE && data@.take(4) != file_magic() ==> r->Err_0
                is InvalidMagic,
            r is Err && data@.len() >= HEADER_SIZE && data@.take(4) == file_magic() ==> r->Err_0
                is InvalidCodingParams,
    {
        if data.len() < HEADER_SIZE {
            return Err(CrfError::InsufficientData { expected: HEADER_SIZE, actual: data.len() });
        }
        if data[0] != 0x43 || data[1] != 0x52 || data[2] != 0x46 || data[3] != 0 {
            assert(data@.take(4)[0] == data@[0] && data@.take(4)[1] == data@[1] && data@.take(4)[2]
                == data@[2] && data@.take(4)[3] == data@[3]);
            return Err(CrfError::InvalidMagic);
        }
        assert(data@.take(4) =~= file_magic());
        let color_format: ColorFormat = match ColorFormat::from_u8(data[15]) {
            Some(c) => c,
            None => {
                return Err(CrfError::InvalidCodingParams("colour format".to_string()));
            },
        };
        let compression_type: CompressionType = match CompressionType::from_u8(data[16]) {
            Some(c) => c,
            None => {
                return Err(CrfError::InvalidCodingParams("compression type".to_string()));
            },
        };
        Ok(
            CrfHeader {
                frame_count: get_le16(data, 8),
                width: get_le16(data, 10),
                height: get_le16(data, 12),
                bit_depth: data[14],
                color_format,
                compression_type,
                flags: Flags::from_u8(data[17]),
                block_size: get_le16(data, 18),
                prediction_mode: PredictionMode::from_u8(data[20]),
                lossy_quant: data[21],
            },
        )
    }

    /// The values of the header make sense.
    pub open spec fn is_valid(&self) -> bool {
        &&& self.frame_count >= 1
        &&& self.width >= 1
        &&& self.height >= 1
        &&& 1 <= self.bit_depth <= 16
        &&& self.shape().samples() <= MAX_SAMPLES
    }

    /// Checks that the values make sense.
    pub fn validate(&self) -> (r: CrfResult<()>)
        ensures
            r is Ok <==> self.is_valid(),
            r is Err && self.frame_count < 1 ==> r->Err_0 == CrfError::FrameCountOutOfRange(0),
            r is Err && self.frame_count >= 1 ==> r->Err_0 is InvalidCodingParams,
    {
        if self.frame_count < 1 {
            return Err(CrfError::FrameCountOutOfRange(self.frame_count));
        }
        proof {
            lemma_samples_bound(self.shape());
        }
        let n: u64 = self.width as u64 * self.height as u64
            * self.color_format.component_count() as u64;
        if self.width < 1 || self.height < 1 || self.bit_depth < 1 || self.bit_depth > 16 || n
            > MAX_SAMPLES as u64 {
            return Err(CrfError::InvalidCodingParams("header".to_string()));
        }
        Ok(())
    }

}

pub proof fn lemma_samples_bound(s: Shape)
    ensures
        s.width as nat * s.height as nat <= 0xfffe_0001,
        s.samples() <= 4 * 0xfffe_0001,
        s.width as nat * s.height as nat <= s.samples(),
{
    assert(s.width as nat * s.height as nat <= 0xffff * 0xffff) by (nonlinear_arith)
        requires
            s.width <= 0xffff,
            s.height <= 0xffff,
    ;
    let a = s.width as nat * s.height as nat;
    let c = s.color_format.spec_count();
    assert(a * c <= 4 * a && a <= a * c) by (nonlinear_arith)
        requires
            1 <= c <= 4,
            a >= 0,
    ;
}

/// A header written reads back.
pub proof fn law_header_roundtrip(h: CrfHeader, tail: Seq<u8>)
    ensures
        h.bytes().len() == HEADER_SIZE,
        CrfHeader::parsed(h.bytes() + tail) == Some(h),
{
    let d = h.bytes() + tail;
    assert(d.take(4) =~= file_magic());
    assert(d[14] == h.bit_depth);
    assert(d[15] == h.color_format.code());
    assert(d[16] == h.compression_type.code());
    assert(d[17] == h.flags.byte() as u8);
    assert(d[20] == h.prediction_mode.code());
    assert(d[21] == h.lossy_quant);
    assert(d.subrange(8, 10) =~= le::le16(h.frame_count));
    assert(d.subrange(10, 12) =~= le::le16(h.width));
    assert(d.subrange(12, 14) =~= le::le16(h.height));
    assert(d.subrange(18, 20) =~= le::le16(h.block_size));
    le::lemma_le16(d, 8, h.frame_count);
    le::lemma_le16(d, 10, h.width);
    le::lemma_le16(d, 12, h.height);
    le::lemma_le16(d, 18, h.block_size);
    assert(Flags::of_byte(h.flags.byte() as u8) == h.flags);
    lemma_mode_code(h.prediction_mode);
}

/// The header of a frame.
#[derive(Clone, Copy, PartialEq, Eq, Debug, Structural)]
pub struct FrameHeader {
    pub frame_size: u32,
    pub pixel_count: u32,
    pub frame_type: u8,
    pub coding_params: u8,
    pub pred_mode: u8,
    pub reference_type: u8,
    pub lic_a_num: u8,
    pub lic_b: u8,
}

/// The number that a byte stands for in two's complement.
pub open spec fn byte_signed(b: u8) -> int {
    if b < 128 {
        b as int
    } else {
        b as int - 256
    }
}

impl FrameHeader {
    /// A header without a prediction mode, without illumination compensation, whose frame refers
    /// to the one before.
    pub open spec fn spec_with_type(
        frame_size: u32,
        pixel_count: u32,
        coding_params: u8,
        frame_type: u8,
    ) -> FrameHeader {
        FrameHeader {
            frame_size,
            pixel_count,
            frame_type,
            coding_params,
            pred_mode: PRED_MODE_UNSET,
            reference_type: REF_PREVIOUS,
            lic_a_num: 0,
            lic_b: 0,
        }
    }

    pub fn with_type(
        frame_size: u32,
        pixel_count: u32,
        coding_params: u8,
        frame_type: u8,
    ) -> (h: FrameHeader)
        ensures
            h == FrameHeader::spec_with_type(frame_size, pixel_count, coding_params, frame_type),
    {
        FrameHeader {
            frame_size,
            pixel_count,
            frame_type,
            coding_params,
            pred_mode: PRED_MODE_UNSET,
            reference_type: REF_PREVIOUS,
            lic_a_num: 0,
            lic_b: 0,
        }
    }

    /// The 14 bytes of the header.
    pub open spec fn bytes(&self) -> Seq<u8> {
        le::le32(self.frame_size) + le::le32(self.pixel_count) + seq![
            self.frame_type,
            self.coding_params,
            self.pred_mode,
            self.reference_type,
            self.lic_a_num,
            self.lic_b,
        ]
    }

    /// Appends the header to `out`.
    pub fn write_bytes(&self, out: &mut Vec<u8>) -> (r: CrfResult<()>)
        ensures
            r is Ok,
            final(out)@ == old(out)@ + self.bytes(),
    {
        let ghost before = out@;
        put_le32(out, self.frame_size);
        put_le32(out, self.pixel_count);
        out.push(self.frame_type);
        out.push(self.coding_params);
        out.push(self.pred_mode);
        out.push(self.reference_type);
        out.push(self.lic_a_num);
        out.push(self.lic_b);
        assert(out@ =~= before + self.bytes());
        Ok(())
    }

    /// The header that `data` starts with.
    pub open spec fn parsed(data: Seq<u8>) -> FrameHeader {
        FrameHeader {
            frame_size: le::le32_at(data, 0) as u32,
            pixel_count: le::le32_at(data, 4) as u32,
            frame_type: data[8],
            coding_params: data[9],
            pred_mode: data[10],
            reference_type: data[11],
            lic_a_num: data[12],
            lic_b: data[13],
        }
    }

    /// Reads the header that `data` starts with.
    pub fn from_bytes(data: &[u8]) -> (r: CrfResult<FrameHeader>)
        ensures
            data@.len() >= FRAME_HEADER_SIZE ==> r is Ok && r->Ok_0 == FrameHeader::parsed(data@),
            data@.len() < FRAME_HEADER_SIZE ==> r is Err && r->Err_0 == (
            CrfError::InsufficientData {
                expected: FRAME_HEADER_SIZE,
                actual: data@.len() as usize,
            }),
    {
        if data.len() < FRAME_HEADER_SIZE {
            return Err(
                CrfError::InsufficientData { expected: FRAME_HEADER_SIZE, actual: data.len() },
            );
        }
        Ok(
            FrameHeader {
                frame_size: get_le32(data, 0),
                pixel_count: get_le32(data, 4),
                frame_type: data[8],
                coding_params: data[9],
                pred_mode: data[10],
                reference_type: data[11],
                lic_a_num: data[12],
                lic_b: data[13],
            },
        )
    }

    /// The coding parameter without its top bit.
    pub fn golomb_k(&self) -> (k: u8)
        ensures
            k == self.coding_params % 128,
    {
        self.coding_params % 128
    }

    /// Whether the frame refers to the first frame.
    pub fn is_golden_ref(&self) -> (b: bool)
        ensures
            b == (self.reference_type == REF_GOLDEN),
    {
        self.reference_type == REF_GOLDEN
    }

    /// Whether the frame refers to the one before the previous.
    pub fn is_prev2_ref(&self) -> (b: bool)
        ensures
            b == (self.reference_type == REF_PREV2),
    {
        self.reference_type == REF_PREV2
    }

    /// Whether the reference is adapted to a change of illumination.
    pub fn lic_enabled(&self) -> (b: bool)
        ensures
            b == (self.lic_a_num != 0),
    {
        self.lic_a_num != 0
    }

    /// The illumination factor, in hundredths.
    pub fn lic_a(&self) -> (a: i32)
        ensures
            a == self.lic_a_num,
    {
        self.lic_a_num as i32
    }

    /// The illumination offset.
    pub fn lic_b(&self) -> (b: i32)
        ensures
            b == byte_signed(self.lic_b),
    {
        if self.lic_b < 128 {
            self.lic_b as i32
        } else {
            self.lic_b as i32 - 256
        }
    }
}

/// A frame header written reads back.
pub proof fn law_frame_header_roundtrip(h: FrameHeader, tail: Seq<u8>)
    ensures
        h.bytes().len() == FRAME_HEADER_SIZE,
        FrameHeader::parsed(h.bytes() + tail) == h,
{
    let d = h.bytes() + tail;
    assert(d.subrange(0, 4) =~= le::le32(h.frame_size));
    assert(d.subrange(4, 8) =~= le::le32(h.pixel_count));
    le::lemma_le32(d, 0, h.frame_size);
    le::lemma_le32(d, 4, h.pixel_count);
}

/// A frame header read is written back as the bytes it was read from.
pub proof fn lemma_frame_header_back(d: Seq<u8>)
    requires
        d.len() >= FRAME_HEADER_SIZE,
    ensures
        FrameHeader::parsed(d).bytes() == d.take(FRAME_HEADER_SIZE as int),
{
    le::lemma_le32_back(d, 0);
    le::lemma_le32_back(d, 4);
    let (a, b) = (d.subrange(0, 4), d.subrange(4, 8));
    assert(FrameHeader::parsed(d).bytes() =~= d.take(FRAME_HEADER_SIZE as int)) by {
        assert forall|i: int| 0 <= i < 14 implies FrameHeader::parsed(d).bytes()[i] == d[i] by {
            if i < 4 {
                assert(a[i] == d[i]);
            } else if i < 8 {
                assert(b[i - 4] == d[i]);
            }
        }
    }
}

/// Where a frame stands in the file.
#[derive(Clone, Copy, PartialEq, Eq, Debug, Structural)]
pub struct FrameIndexEntry {
    pub offset: u32,
    pub size: u32,
}

impl FrameIndexEntry {
    pub open spec fn bytes(&self) -> Seq<u8> {
        le::le32(self.offset) + le::le32(self.size)
    }

    /// The entry at byte `at` of `data`.
    pub open spec fn parsed(data: Seq<u8>, at: int) -> FrameIndexEntry {
        FrameIndexEntry {
            offset: le::le32_at(data, at) as u32,
            size: le::le32_at(data, at + 4) as u32,
        }
    }

    /// Reads the entry at byte `at` of `data`.
    pub fn read(data: &[u8], at: usize) -> (e: FrameIndexEntry)
        requires
            at + 8 <= data@.len(),
        ensures
            e == FrameIndexEntry::parsed(data@, at as int),
    {
        let n: usize = data.len();
        assert(at + 8 <= n);
        FrameIndexEntry { offset: get_le32(data, at), size: get_le32(data, at + 4) }
    }
}

} // verus!
