//! Reading baked texels that were copied back.
use vstd::prelude::*;

use crate::bytes::{law_word_reads_back, le_word, little_endian, read_le_half, read_le_word};
use crate::fraction::{f16_to_f32, is_half, is_unorm, unorm_of_byte};
use crate::scalar::Scalar;

verus! {

/// Row stride alignment that a copy from a texture into a buffer has to have.
pub const COPY_ALIGN: u32 = 256;

/// The format of a single-channel texture.
#[derive(Clone, Copy, Debug, PartialEq, Eq, Structural, Hash)]
pub enum ScalarFormat {
    /// Clamps to `[0, 1]`.
    R8Unorm,
    /// Keeps signed values.
    R16Float,
    /// Keeps signed values.
    R32Float,
}

/// The format of a volume's height.
#[verifier::allow_in_spec]
pub fn bump_format() -> ScalarFormat
    returns
        ScalarFormat::R16Float,
{
    ScalarFormat::R16Float
}

impl ScalarFormat {
    /// The size of a texel.
    #[verifier::allow_in_spec]
    pub fn bytes_per_texel(self) -> u32
        returns
            (match self {
                ScalarFormat::R8Unorm => 1u32,
                ScalarFormat::R16Float => 2u32,
                ScalarFormat::R32Float => 4u32,
            }),
    {
        match self {
            ScalarFormat::R8Unorm => 1,
            ScalarFormat::R16Float => 2,
            ScalarFormat::R32Float => 4,
        }
    }
}

/// An 8-bit RGBA image, tightly packed (no row padding) and in row-major order
/// from the top-left.
#[derive(Clone, Debug)]
pub struct Image {
    pub width: u32,
    pub height: u32,
    /// `width * height * 4` bytes, RGBA.
    pub pixels: Vec<u8>,
}

/// The decimal digits of a number, as ASCII.
pub open spec fn digits(n: nat) -> Seq<u8>
    decreases n,
{
    if n < 10 {
        seq![(48 + n) as u8]
    } else {
        digits(n / 10).push((48 + n % 10) as u8)
    }
}

/// The number that decimal digits stand for.
pub open spec fn number_of_digits(s: Seq<u8>) -> nat
    decreases s.len(),
{
    if s.len() == 0 {
        0
    } else {
        10 * number_of_digits(s.drop_last()) + (s.last() - 48) as nat
    }
}

/// The digits of a number are decimal digits, and stand for it.
pub proof fn law_digits_stand_for_the_number(n: nat)
    ensures
        number_of_digits(digits(n)) == n,
        digits(n).len() >= 1,
        forall|i: int| 0 <= i < digits(n).len() ==> 48 <= #[trigger] digits(n)[i] <= 57,
    decreases n,
{
    if n < 10 {
        reveal_with_fuel(number_of_digits, 2);
        assert(digits(n).drop_last() =~= Seq::<u8>::empty());
    } else {
        law_digits_stand_for_the_number(n / 10);
        assert(digits(n).drop_last() =~= digits(n / 10));
    }
}

/// The header of a binary PPM: `P6`, the size, and the largest component.
pub open spec fn ppm_header(width: u32, height: u32) -> Seq<u8> {
    seq![0x50u8, 0x36u8, 0x0au8] + digits(width as nat) + seq![0x20u8] + digits(height as nat)
        + seq![0x0au8, 0x32u8, 0x35u8, 0x35u8, 0x0au8]
}

/// The color bytes of each whole pixel.
pub open spec fn without_alpha(pixels: Seq<u8>) -> Seq<u8> {
    Seq::new((pixels.len() / 4 * 3) as nat, |k: int| pixels[k / 3 * 4 + k % 3])
}

fn push_digits(out: &mut Vec<u8>, n: u32)
    ensures
        final(out)@ == old(out)@ + digits(n as nat),
    decreases n,
{
    if n >= 10 {
        push_digits(out, n / 10);
    }
    out.push((48 + n % 10) as u8);
    assert(out@ =~= old(out)@ + digits(n as nat));
}

impl Image {
    /// The bytes are as many as the size says.
    pub open spec fn well_formed(&self) -> bool {
        self.pixels@.len() == self.width * self.height * 4
    }

    /// `r` is the pixel at `(x, y)`, or none if out of bounds.
    pub open spec fn shows(&self, x: u32, y: u32, r: Option<[u8; 4]>) -> bool {
        &&& r is Some <==> x < self.width && y < self.height
        &&& r matches Some(px) ==> px@ == self.pixels@.subrange(
            4 * (y * self.width + x),
            4 * (y * self.width + x) + 4,
        )
    }

    /// The pixel at `(x, y)` as `[r, g, b, a]`, or `None` if out of bounds.
    pub fn pixel(&self, x: u32, y: u32) -> (r: Option<[u8; 4]>)
        requires
            self.well_formed(),
        ensures
            self.shows(x, y, r),
    {
        if x >= self.width || y >= self.height {
            return None;
        }
        let len: usize = self.pixels.len();
        proof {
            lemma_place_within(x as int, y as int, self.width as int, self.height as int);
            lemma_fits(y as int, self.width as int, self.height as int);
        }
        assert(len == 4 * (self.width * self.height));
        let row: usize = y as usize * self.width as usize;
        let i: usize = (row + x as usize) * 4;
        let px = [self.pixels[i], self.pixels[i + 1], self.pixels[i + 2], self.pixels[i + 3]];
        assert(px@ =~= self.pixels@.subrange(i as int, i + 4));
        Some(px)
    }

    /// Binary PPM (`P6`). PPM has no alpha channel, so alpha is dropped.
    pub fn to_ppm(&self) -> (r: Vec<u8>)
        ensures
            r@ == ppm_header(self.width, self.height) + without_alpha(self.pixels@),
    {
        let mut out: Vec<u8> = Vec::new();
        out.push(0x50);
        out.push(0x36);
        out.push(0x0a);
        assert(out@ =~= seq![0x50u8, 0x36u8, 0x0au8]);
        push_digits(&mut out, self.width);
        out.push(0x20);
        push_digits(&mut out, self.height);
        out.push(0x0a);
        out.push(0x32);
        out.push(0x35);
        out.push(0x35);
        out.push(0x0a);
        let ghost header = ppm_header(self.width, self.height);
        assert(out@ =~= header);
        let whole: usize = self.pixels.len() / 4;
        let ghost body = without_alpha(self.pixels@);
        let mut i: usize = 0;
        assert(out@ =~= header + body.take(0));
        while i < whole
            invariant
                i <= whole,
                whole == self.pixels.len() / 4,
                header == ppm_header(self.width, self.height),
                body == without_alpha(self.pixels@),
                out@ == header + body.take(3 * i),
            decreases whole - i,
        {
            let at: usize = 4 * i;
            out.push(self.pixels[at]);
            out.push(self.pixels[at + 1]);
            out.push(self.pixels[at + 2]);
            assert(body.take(3 * i + 3) =~= body.take(3 * i).push(self.pixels@[at as int]).push(
                self.pixels@[at + 1],
            ).push(self.pixels@[at + 2]));
            assert(out@ =~= header + body.take(3 * i + 3));
            i += 1;
        }
        assert(body.take(3 * whole) =~= body);
        out
    }
}

/// A place in bounds is before the end.
proof fn lemma_place_within(x: int, y: int, width: int, height: int)
    requires
        0 <= x < width,
        0 <= y < height,
    ensures
        0 <= y * width,
        y * width + x < width * height,
{
    assert(y * width + width <= height * width) by (nonlinear_arith)
        requires
            0 <= y,
            y + 1 <= height,
            0 < width,
    ;
    assert(0 <= y * width) by (nonlinear_arith)
        requires
            0 <= y,
            0 < width,
    ;
    assert(height * width == width * height) by (nonlinear_arith);
}

/// A product of a smaller factor is no larger.
proof fn lemma_fits(y: int, width: int, height: int)
    requires
        0 <= y < height,
        0 <= width,
    ensures
        y * width <= width * height,
{
    assert(y * width <= width * height) by (nonlinear_arith)
        requires
            0 <= y < height,
            0 <= width,
    ;
}

/// A single-channel field: texels in the format they were baked in, tightly
/// packed (no row padding), row-major from the top-left and slice-major through
/// `depth`. [`ScalarImage::value`] decodes one texel.
#[derive(Clone, Debug)]
pub struct ScalarImage {
    pub width: u32,
    pub height: u32,
    /// 1 for a flat bake.
    pub depth: u32,
    pub format: ScalarFormat,
    /// `width * height * depth * format.bytes_per_texel()` bytes.
    pub bytes: Vec<u8>,
}

/// The texel at a place, counted in texels.
pub open spec fn texel(bytes: Seq<u8>, format: ScalarFormat, place: int) -> Seq<u8> {
    let size = format.bytes_per_texel() as int;
    bytes.subrange(place * size, place * size + size)
}

/// `v` is what a texel of that format stands for: a byte is the number nearest
/// to its share of 255, the float formats hold their number, least significant
/// byte first.
pub open spec fn texel_value(format: ScalarFormat, texel: Seq<u8>, v: Scalar) -> bool {
    match format {
        ScalarFormat::R8Unorm => is_unorm(texel[0], v),
        ScalarFormat::R16Float => is_half((texel[0] + 0x100 * texel[1]) as u16, v),
        ScalarFormat::R32Float => v.bits == le_word(texel),
    }
}

impl ScalarImage {
    /// The bytes are as many as the size says.
    pub open spec fn well_formed(&self) -> bool {
        self.bytes@.len() == self.width * self.height * self.depth * self.format.bytes_per_texel()
    }

    /// The place of a texel, counted in texels.
    pub open spec fn place(&self, x: u32, y: u32, z: u32) -> int {
        (z * self.height + y) * self.width + x
    }

    /// The texel at `(x, y, z)`, or `None` if out of bounds.
    pub fn value(&self, x: u32, y: u32, z: u32) -> (r: Option<Scalar>)
        requires
            self.well_formed(),
        ensures
            r is Some <==> x < self.width && y < self.height && z < self.depth,
            r matches Some(v) ==> texel_value(
                self.format,
                texel(self.bytes@, self.format, self.place(x, y, z)),
                v,
            ),
    {
        if x >= self.width || y >= self.height || z >= self.depth {
            return None;
        }
        let size: usize = self.format.bytes_per_texel() as usize;
        let len: usize = self.bytes.len();
        let ghost (w, h, d) = (self.width as int, self.height as int, self.depth as int);
        proof {
            lemma_place_within(y as int, z as int, h, d);
            lemma_place_within(x as int, z * h + y, w, h * d);
            lemma_fits(z * h + y, w, h * d);
            assert(w * (h * d) == w * h * d) by (nonlinear_arith);
            assert(w * (h * d) <= (w * (h * d)) * size) by (nonlinear_arith)
                requires
                    size >= 1,
                    w * (h * d) >= 0,
            ;
            lemma_place_within(0, self.place(x, y, z), size as int, w * (h * d));
            lemma_fits(z * h + y, 1, h * d);
            assert(h * d <= w * (h * d)) by (nonlinear_arith)
                requires
                    w >= 1,
                    h * d >= 0,
            ;
            lemma_room(self.place(x, y, z), w * (h * d), size as int);
        }
        let slice: usize = z as usize * self.height as usize;
        let row: usize = (slice + y as usize) * self.width as usize;
        let place: usize = row + x as usize;
        assert(place == self.place(x, y, z));
        let i: usize = place * size;
        let ghost own = texel(self.bytes@, self.format, place as int);
        let v = match self.format {
            ScalarFormat::R8Unorm => {
                assert(own[0] == self.bytes@[i as int]);
                unorm_of_byte(self.bytes[i])
            },
            ScalarFormat::R16Float => {
                assert(own[0] == self.bytes@[i as int] && own[1] == self.bytes@[i + 1]);
                f16_to_f32(read_le_half(&self.bytes, i))
            },
            ScalarFormat::R32Float => {
                assert(own =~= self.bytes@.subrange(i as int, i + 4));
                Scalar::from_bits(read_le_word(&self.bytes, i))
            },
        };
        Some(v)
    }
}

/// A whole texel lies before the end.
proof fn lemma_room(place: int, count: int, size: int)
    requires
        0 <= place < count,
        1 <= size,
    ensures
        place * size + size <= count * size,
        0 <= place * size,
{
    assert(place * size + size <= count * size) by (nonlinear_arith)
        requires
            0 <= place,
            place + 1 <= count,
            1 <= size,
    ;
    assert(0 <= place * size) by (nonlinear_arith)
        requires
            0 <= place,
            1 <= size,
    ;
}

/// How a texture is laid out in the buffer that it is copied into.
#[derive(Clone, Copy, Debug, PartialEq, Eq, Structural)]
pub struct CopyLayout {
    /// Bytes of a row.
    pub packed: u32,
    /// Bytes from one row to the next.
    pub stride: u32,
    pub rows: u32,
    /// Bytes of the buffer.
    pub size: u64,
}

/// The least multiple of the alignment that is no less.
pub open spec fn aligned(n: int) -> int {
    (n + COPY_ALIGN - 1) / COPY_ALIGN as int * COPY_ALIGN
}

/// `r` is the layout of a copy of a texture of that size, or none where it
/// exceeds 32 bits.
pub open spec fn lays_out(
    size: (u32, u32, u32),
    bytes_per_texel: u32,
    r: Option<CopyLayout>,
) -> bool {
    let packed = size.0 * bytes_per_texel;
    let stride = aligned(packed);
    let rows = size.1 * size.2;
    match r {
        Some(l) => {
            &&& l.packed == packed
            &&& l.stride == stride
            &&& l.rows == rows
            &&& l.size == stride * rows
            &&& l.size <= u32::MAX
        },
        None => packed > u32::MAX || stride > u32::MAX || rows > u32::MAX || stride * rows
            > u32::MAX,
    }
}

/// The layout of a copy of a texture of that size. None where it exceeds 32
/// bits.
pub fn copy_layout(size: (u32, u32, u32), bytes_per_texel: u32) -> (r: Option<CopyLayout>)
    ensures
        lays_out(size, bytes_per_texel, r),
{
    let packed: u32 = match size.0.checked_mul(bytes_per_texel) {
        Some(n) => n,
        None => {
            return None;
        },
    };
    let wide: u64 = (packed as u64 + COPY_ALIGN as u64 - 1) / COPY_ALIGN as u64 * COPY_ALIGN as u64;
    if wide > u32::MAX as u64 {
        return None;
    }
    let stride: u32 = wide as u32;
    let rows: u32 = match size.1.checked_mul(size.2) {
        Some(n) => n,
        None => {
            return None;
        },
    };
    match stride.checked_mul(rows) {
        Some(total) => Some(CopyLayout { packed, stride, rows, size: total as u64 }),
        None => None,
    }
}

/// The rows of a buffer without what pads them.
pub open spec fn tight(data: Seq<u8>, stride: int, packed: int, rows: int) -> Seq<u8>
    decreases rows,
{
    if rows <= 0 {
        Seq::empty()
    } else {
        tight(data, stride, packed, rows - 1) + data.subrange(
            (rows - 1) * stride,
            (rows - 1) * stride + packed,
        )
    }
}

/// Strips what pads the rows of a copied texture.
pub fn unpad(data: &Vec<u8>, layout: CopyLayout) -> (r: Vec<u8>)
    requires
        layout.packed <= layout.stride,
        layout.stride * layout.rows <= data.len(),
    ensures
        r@ == tight(data@, layout.stride as int, layout.packed as int, layout.rows as int),
{
    let mut out: Vec<u8> = Vec::new();
    let (stride, packed) = (layout.stride as usize, layout.packed as usize);
    let mut y: u32 = 0;
    let mut at: usize = 0;
    assert(0 * stride == 0) by (nonlinear_arith);
    while y < layout.rows
        invariant
            y <= layout.rows,
            stride == layout.stride,
            packed == layout.packed,
            packed <= stride,
            stride * layout.rows <= data.len(),
            at == y * stride,
            out@ == tight(data@, stride as int, packed as int, y as int),
        decreases layout.rows - y,
    {
        assert(at + stride <= data.len()) by (nonlinear_arith)
            requires
                at == y * stride,
                y + 1 <= layout.rows,
                stride * layout.rows <= data.len(),
        ;
        let ghost before = out@;
        let mut x: usize = 0;
        while x < packed
            invariant
                x <= packed,
                packed <= stride,
                at + stride <= data.len(),
                out@ == before + data@.subrange(at as int, at + x),
            decreases packed - x,
        {
            out.push(data[at + x]);
            x += 1;
            assert(out@ =~= before + data@.subrange(at as int, at + x));
        }
        y += 1;
        assert(at + stride == y * stride) by (nonlinear_arith)
            requires
                at == (y - 1) * stride,
        ;
        at = at + stride;
    }
    out
}

/// Stripping keeps every byte of every row, in order.
pub proof fn law_rows_keep_their_bytes(
    data: Seq<u8>,
    stride: int,
    packed: int,
    rows: int,
    x: int,
    y: int,
)
    requires
        0 <= packed <= stride,
        0 <= rows,
        rows * stride <= data.len(),
        0 <= x < packed,
        0 <= y < rows,
    ensures
        tight(data, stride, packed, rows).len() == rows * packed,
        tight(data, stride, packed, rows)[y * packed + x] == data[y * stride + x],
    decreases rows,
{
    lemma_tight_len(data, stride, packed, rows);
    lemma_rows_fit(stride, packed, rows, y);
    assert((rows - 1) * stride + stride == rows * stride) by (nonlinear_arith);
    lemma_tight_len(data, stride, packed, rows - 1);
    assert((rows - 1) * packed + packed == rows * packed) by (nonlinear_arith);
    assert(0 <= (rows - 1) * stride) by (nonlinear_arith)
        requires
            rows >= 1,
            stride >= 0,
    ;
    if y < rows - 1 {
        law_rows_keep_their_bytes(data, stride, packed, rows - 1, x, y);
        assert(y * packed + x < (rows - 1) * packed) by (nonlinear_arith)
            requires
                y + 1 <= rows - 1,
                0 <= x < packed,
        ;
        assert(0 <= y * packed) by (nonlinear_arith)
            requires
                y >= 0,
                packed >= 0,
        ;
    }
}

proof fn lemma_rows_fit(stride: int, packed: int, rows: int, y: int)
    requires
        0 <= packed <= stride,
        0 <= y < rows,
    ensures
        0 <= y * stride,
        y * stride + packed <= rows * stride,
{
    assert(0 <= y * stride && y * stride + stride <= rows * stride) by (nonlinear_arith)
        requires
            0 <= stride,
            0 <= y,
            y + 1 <= rows,
    ;
}

proof fn lemma_tight_len(data: Seq<u8>, stride: int, packed: int, rows: int)
    requires
        0 <= packed <= stride,
        0 <= rows,
        rows * stride <= data.len(),
    ensures
        tight(data, stride, packed, rows).len() == rows * packed,
    decreases rows,
{
    if rows > 0 {
        lemma_rows_fit(stride, packed, rows, rows - 1);
        assert((rows - 1) * stride + stride == rows * stride) by (nonlinear_arith);
        assert((rows - 1) * packed + packed == rows * packed) by (nonlinear_arith);
        lemma_tight_len(data, stride, packed, rows - 1);
    } else {
        assert(rows * packed == 0) by (nonlinear_arith)
            requires
                rows == 0,
        ;
    }
}

/// The pixels of an image follow one another from left to right and from top
/// to bottom, four bytes each.
pub proof fn law_pixels_follow_row_by_row(image: Image, x: u32, y: u32, r: Option<[u8; 4]>)
    requires
        image.well_formed(),
        image.shows(x, y, r),
        x < image.width,
        y < image.height,
    ensures
        r is Some,
        exists|at: int| #[trigger] starts_pixel(image, x as int, y as int, at) && (forall|k: int|
            0 <= k < 4 ==> 0 <= at + k < image.pixels@.len() && #[trigger] r->Some_0@[k]
                == image.pixels@[at + k]),
{
    let (w, h) = (image.width as int, image.height as int);
    lemma_place_within(x as int, y as int, w, h);
    let at = 4 * (y * w + x);
    let row = y as int;
    assert(4 * (row * w + x) == 4 * w * row + 4 * x) by (nonlinear_arith);
    assert(starts_pixel(image, x as int, y as int, at));
    let px = image.pixels@.subrange(at, at + 4);
    assert(image.pixels@.len() == 4 * (w * h)) by (nonlinear_arith)
        requires
            image.pixels@.len() == w * h * 4,
    ;
    assert forall|k: int| 0 <= k < 4 implies 0 <= at + k < image.pixels@.len()
        && #[trigger] r->Some_0@[k] == image.pixels@[at + k] by {
        assert(r->Some_0@ == px);
    }
}

/// `at` is the byte after all rows above `y` and all pixels before `x` in the
/// row.
pub open spec fn starts_pixel(image: Image, x: int, y: int, at: int) -> bool {
    at == 4 * image.width * y + 4 * x
}

/// The texels of a field follow one another from left to right, then from top
/// to bottom, then from slice to slice.
pub proof fn law_texels_follow_slice_by_slice(image: ScalarImage, x: u32, y: u32, z: u32)
    ensures
        image.place(0, 0, 0) == 0,
        x < u32::MAX ==> image.place((x + 1) as u32, y, z) == image.place(x, y, z) + 1,
        y < u32::MAX ==> image.place(x, (y + 1) as u32, z) == image.place(x, y, z) + image.width,
        z < u32::MAX ==> image.place(x, y, (z + 1) as u32) == image.place(x, y, z) + image.width
            * image.height,
{
    let (w, h) = (image.width as int, image.height as int);
    let (b, c) = (y as int, z as int);
    assert(0 * h == 0 && 0 * w == 0) by (nonlinear_arith);
    assert((c * h + (b + 1)) * w == (c * h + b) * w + w) by (nonlinear_arith);
    assert(((c + 1) * h + b) * w == (c * h + b) * w + w * h) by (nonlinear_arith);
}

/// A texel is as long as its format says: one byte, two or four.
pub proof fn law_texels_are_cut_at_their_size(bytes: Seq<u8>, place: int, k: int)
    requires
        0 <= place,
        4 * place + 4 <= bytes.len(),
    ensures
        texel(bytes, ScalarFormat::R8Unorm, place).len() == 1,
        texel(bytes, ScalarFormat::R16Float, place).len() == 2,
        texel(bytes, ScalarFormat::R32Float, place).len() == 4,
        texel(bytes, ScalarFormat::R8Unorm, place)[0] == bytes[place],
        0 <= k < 2 ==> texel(bytes, ScalarFormat::R16Float, place)[k] == bytes[2 * place + k],
        0 <= k < 4 ==> texel(bytes, ScalarFormat::R32Float, place)[k] == bytes[4 * place + k],
{
    assert(place * 1 == place && place * 2 == 2 * place && place * 4 == 4 * place)
        by (nonlinear_arith);
    assert(ScalarFormat::R8Unorm.bytes_per_texel() as int == 1);
    assert(ScalarFormat::R16Float.bytes_per_texel() as int == 2);
    assert(ScalarFormat::R32Float.bytes_per_texel() as int == 4);
}

/// A texel stands for the number whose bytes it holds, the least significant
/// first; a byte for its share of 255.
pub proof fn law_texels_stand_for_what_was_stored(word: u32, half: u16, byte: u8, v: Scalar)
    ensures
        texel_value(ScalarFormat::R32Float, little_endian(seq![word]), v) <==> v.bits == word,
        texel_value(ScalarFormat::R16Float, seq![(half % 0x100) as u8, (half / 0x100) as u8], v)
            <==> is_half(half, v),
        texel_value(ScalarFormat::R8Unorm, seq![byte], v) <==> is_unorm(byte, v),
{
    law_word_reads_back(seq![word], 0);
    assert(little_endian(seq![word]).subrange(0, 4) =~= little_endian(seq![word]));
    assert((half % 0x100) + 0x100 * (half / 0x100) == half);
}

/// Each row of a copy starts at a multiple of the alignment, right behind the
/// one before but for less than the alignment.
pub proof fn law_rows_are_padded_to_the_alignment(n: int)
    requires
        0 <= n,
    ensures
        aligned(n) % 256 == 0,
        n <= aligned(n) < n + 256,
{
}

/// A copy holds a row of texels for each row of each slice.
pub proof fn law_copies_hold_every_row(size: (u32, u32, u32), bytes_per_texel: u32, l: CopyLayout)
    requires
        lays_out(size, bytes_per_texel, Some(l)),
    ensures
        l.packed == bytes_per_texel * size.0,
        l.rows == size.2 * size.1,
        l.stride % 256 == 0,
        l.packed <= l.stride < l.packed + 256,
        l.size == l.rows * l.stride,
{
    assert(size.0 * bytes_per_texel == bytes_per_texel * size.0) by (nonlinear_arith);
    assert(size.1 * size.2 == size.2 * size.1) by (nonlinear_arith);
    let (a, b) = (l.stride as int, l.rows as int);
    assert(a * b == b * a) by (nonlinear_arith);
}

/// Dropping alpha keeps the red, green and blue of each pixel, in order.
pub proof fn law_dropping_alpha_keeps_the_colors(pixels: Seq<u8>, i: int)
    requires
        0 <= i,
        4 * i + 4 <= pixels.len(),
    ensures
        3 * i + 3 <= without_alpha(pixels).len(),
        4 * without_alpha(pixels).len() <= 3 * pixels.len(),
        without_alpha(pixels)[3 * i] == pixels[4 * i],
        without_alpha(pixels)[3 * i + 1] == pixels[4 * i + 1],
        without_alpha(pixels)[3 * i + 2] == pixels[4 * i + 2],
{
}

/// The header of a PPM reads `P6`, a line end, the width, a space, the height,
/// a line end, 255 and a line end.
pub proof fn law_header_tells_the_size(width: u32, height: u32)
    ensures
        ({
            let header = ppm_header(width, height);
            let w = digits(width as nat).len() as int;
            let h = digits(height as nat).len() as int;
            &&& header.len() == w + h + 9
            &&& header[0] == 80 && header[1] == 54 && header[2] == 10
            &&& number_of_digits(header.subrange(3, 3 + w)) == width
            &&& header[3 + w] == 32
            &&& number_of_digits(header.subrange(4 + w, 4 + w + h)) == height
            &&& header[4 + w + h] == 10
            &&& number_of_digits(header.subrange(5 + w + h, 8 + w + h)) == 255
            &&& header[8 + w + h] == 10
        }),
{
    let header = ppm_header(width, height);
    let w = digits(width as nat).len() as int;
    let h = digits(height as nat).len() as int;
    law_digits_stand_for_the_number(width as nat);
    law_digits_stand_for_the_number(height as nat);
    assert(header.subrange(3, 3 + w) =~= digits(width as nat));
    assert(header.subrange(4 + w, 4 + w + h) =~= digits(height as nat));
    let most = header.subrange(5 + w + h, 8 + w + h);
    assert(most =~= seq![0x32u8, 0x35u8, 0x35u8]);
    assert(most.drop_last() =~= seq![0x32u8, 0x35u8]);
    assert(most.drop_last().drop_last() =~= seq![0x32u8]);
    assert(most.drop_last().drop_last().drop_last() =~= Seq::<u8>::empty());
    reveal_with_fuel(number_of_digits, 4);
}

} // verus!
