//! Pixels of the two kinds of picture that an archive's files hold, and the
//! plain images they are shown as and read back from.
//!
//! An indexed picture is shown as it is: each index becomes one grey
//! sample, and is read back as the index it was. The palette is not looked up;
//! it travels beside the picture as a strip of one row.

use vstd::prelude::*;

verus! {

/// One colour with its opacity.
#[derive(Debug, Clone, Copy, PartialEq, Eq, Structural)]
pub struct RGBAColor {
    pub red: u8,
    pub green: u8,
    pub blue: u8,
    pub alpha: u8,
}

/// Indices into a palette, row by row, and the palette.
#[derive(Debug, Clone, PartialEq, Eq)]
pub struct IndexedImage {
    pub palette: Vec<RGBAColor>,
    pub image: Vec<u8>,
}

/// A picture as an archive's file holds it.
#[derive(Debug, Clone, PartialEq, Eq)]
#[allow(inconsistent_fields)]
pub enum HipImage {
    Indexed { width: u32, height: u32, data: IndexedImage },
    Raw { width: u32, height: u32, data: Vec<RGBAColor> },
}

/// An image of one grey sample per pixel, row by row.
#[derive(Debug, Clone, PartialEq, Eq)]
pub struct GrayImage {
    pub width: u32,
    pub height: u32,
    pub samples: Vec<u8>,
}

/// An image of four samples per pixel (red, green, blue, alpha), row by row.
#[derive(Debug, Clone, PartialEq, Eq)]
pub struct RgbaImage {
    pub width: u32,
    pub height: u32,
    pub samples: Vec<u8>,
}

/// An image of either kind.
#[derive(Debug, Clone, PartialEq, Eq)]
pub enum Image {
    Luma8(GrayImage),
    Rgba8(RgbaImage),
}

/// The sample of `color` with number `channel`: red, green, blue, alpha.
pub open spec fn spec_channel(color: RGBAColor, channel: int) -> u8 {
    if channel == 0 {
        color.red
    } else if channel == 1 {
        color.green
    } else if channel == 2 {
        color.blue
    } else {
        color.alpha
    }
}

/// The samples of `colors`, four for each, in their order.
pub open spec fn spec_flatten(colors: Seq<RGBAColor>) -> Seq<u8> {
    Seq::new(4 * colors.len(), |i: int| spec_channel(colors[i / 4], i % 4))
}

/// The first `count` colours that `samples` hold, four samples each.
pub open spec fn spec_colors(samples: Seq<u8>, count: nat) -> Seq<RGBAColor> {
    Seq::new(
        count,
        |i: int|
            RGBAColor {
                red: samples[4 * i],
                green: samples[4 * i + 1],
                blue: samples[4 * i + 2],
                alpha: samples[4 * i + 3],
            },
    )
}

/// The colours read from the samples of colours are those colours.
pub proof fn lemma_colors_of_flatten(colors: Seq<RGBAColor>)
    ensures
        spec_colors(spec_flatten(colors), colors.len()) == colors,
{
    assert(spec_colors(spec_flatten(colors), colors.len()) =~= colors);
}

/// The samples of the colours read from a whole number of colours are those samples.
pub proof fn lemma_flatten_of_colors(samples: Seq<u8>, count: nat)
    requires
        samples.len() == 4 * count,
    ensures
        spec_flatten(spec_colors(samples, count)) == samples,
{
    assert(spec_flatten(spec_colors(samples, count)) =~= samples);
}

impl GrayImage {
    /// Whether there is a sample for every pixel.
    pub open spec fn wf(&self) -> bool {
        self.samples@.len() >= self.width * self.height
    }
}

impl RgbaImage {
    /// Whether there are four samples for every pixel.
    pub open spec fn wf(&self) -> bool {
        self.samples@.len() >= 4 * (self.width * self.height)
    }
}

impl HipImage {
    /// Whether there is an index, or a colour, for every pixel.
    pub open spec fn wf(&self) -> bool {
        match self {
            HipImage::Indexed { width, height, data } => data.image@.len() >= *width * *height,
            HipImage::Raw { width, height, data } => data@.len() >= *width * *height,
        }
    }
}

impl RGBAColor {
    /// The four samples of the colour: red, green, blue, alpha.
    pub fn to_rgba_slice(&self) -> (samples: [u8; 4])
        ensures
            samples@ == seq![self.red, self.green, self.blue, self.alpha],
    {
        let samples: [u8; 4] = [self.red, self.green, self.blue, self.alpha];
        assert(samples@ =~= seq![self.red, self.green, self.blue, self.alpha]);
        samples
    }
}

/// The samples of `colors`, four for each.
pub fn flatten(colors: &Vec<RGBAColor>) -> (samples: Vec<u8>)
    ensures
        samples@ == spec_flatten(colors@),
{
    let mut samples: Vec<u8> = Vec::new();
    let mut i: usize = 0;
    while i < colors.len()
        invariant
            i <= colors@.len(),
            samples@.len() == 4 * i,
            forall|j: int| 0 <= j < 4 * i ==> samples@[j] == spec_flatten(colors@)[j],
        decreases colors@.len() - i,
    {
        let four: [u8; 4] = colors[i].to_rgba_slice();
        samples.push(four[0]);
        samples.push(four[1]);
        samples.push(four[2]);
        samples.push(four[3]);
        i = i + 1;
    }
    assert(samples@ =~= spec_flatten(colors@));
    samples
}

/// The first `count` colours that `samples` hold.
pub fn colors(samples: &Vec<u8>, count: usize) -> (list: Vec<RGBAColor>)
    requires
        samples@.len() >= 4 * count,
    ensures
        list@ == spec_colors(samples@, count as nat),
{
    let mut list: Vec<RGBAColor> = Vec::new();
    let total: usize = samples.len();
    let mut i: usize = 0;
    while i < count
        invariant
            i <= count,
            total == samples@.len(),
            samples@.len() >= 4 * count,
            list@.len() == i,
            forall|j: int| 0 <= j < i ==> list@[j] == spec_colors(samples@, count as nat)[j],
        decreases count - i,
    {
        let at: usize = 4 * i;
        list.push(
            RGBAColor {
                red: samples[at],
                green: samples[at + 1],
                blue: samples[at + 2],
                alpha: samples[at + 3],
            },
        );
        i = i + 1;
    }
    assert(list@ =~= spec_colors(samples@, count as nat));
    list
}

/// The image of a picture: grey where it is indexed, in colour where it is raw.
pub fn hip_to_image(hip: HipImage) -> (image: Image)
    requires
        hip.wf(),
    ensures
        match hip {
            HipImage::Indexed { width, height, data } => image matches Image::Luma8(gray)
                && gray.width == width && gray.height == height && gray.samples@ == data.image@,
            HipImage::Raw { width, height, data } => image matches Image::Rgba8(rgba)
                && rgba.width == width && rgba.height == height && rgba.samples@ == spec_flatten(
                data@,
            ),
        },
        match image {
            Image::Luma8(gray) => gray.wf(),
            Image::Rgba8(rgba) => rgba.wf(),
        },
{
    match hip {
        HipImage::Indexed { width, height, data } => Image::Luma8(
            indexed_to_luma(data.image, width, height),
        ),
        HipImage::Raw { width, height, data } => Image::Rgba8(raw_to_rgba(data, width, height)),
    }
}

/// The image of `width` by `height` pixels with these colours.
pub fn raw_to_rgba(raw: Vec<RGBAColor>, width: u32, height: u32) -> (image: RgbaImage)
    requires
        raw@.len() >= width * height,
    ensures
        image.width == width,
        image.height == height,
        image.samples@ == spec_flatten(raw@),
        image.wf(),
{
    let pixels: Vec<u8> = flatten(&raw);

    RgbaImage { width, height, samples: pixels }
}

/// The grey image of `width` by `height` pixels whose samples are these
/// indices, unchanged.
pub fn indexed_to_luma(pixels: Vec<u8>, width: u32, height: u32) -> (image: GrayImage)
    requires
        pixels@.len() >= width * height,
    ensures
        image.width == width,
        image.height == height,
        image.samples@ == pixels@,
        image.wf(),
{
    GrayImage { width, height, samples: pixels }
}

/// The strip of one row that shows the palette, one pixel for each colour.
pub fn palette_to_image(palette: &Vec<RGBAColor>) -> (image: Image)
    requires
        palette@.len() <= u32::MAX,
    ensures
        image matches Image::Rgba8(strip) && strip.width == palette@.len() && strip.height == 1
            && strip.samples@ == spec_flatten(palette@) && strip.wf(),
{
    let width: usize = palette.len();
    let pixels: Vec<u8> = flatten(palette);

    Image::Rgba8(RgbaImage { width: width as u32, height: 1, samples: pixels })
}

/// Number of pixels of an image of `width` by `height` that has its samples.
fn pixel_count(width: u32, height: u32, samples: usize, each: usize) -> (count: usize)
    requires
        1 <= each <= 4,
        samples >= each * (width * height),
    ensures
        count == width * height,
{
    assert(width * height <= each * (width * height)) by (nonlinear_arith)
        requires
            1 <= each,
            0 <= width * height,
    ;
    assert(0 <= width * height) by (nonlinear_arith)
        requires
            0 <= width,
            0 <= height,
    ;
    (width as usize) * (height as usize)
}

/// The colours of the pixels of `strip`, row by row: the palette that a
/// strip of one row shows.
pub fn image_to_palette(strip: &RgbaImage) -> (palette: Vec<RGBAColor>)
    requires
        strip.wf(),
    ensures
        palette@ == spec_colors(strip.samples@, (strip.width * strip.height) as nat),
{
    let count: usize = pixel_count(strip.width, strip.height, strip.samples.len(), 4);
    colors(&strip.samples, count)
}

/// The raw picture that `image` shows.
pub fn image_to_raw(image: &RgbaImage) -> (hip: HipImage)
    requires
        image.wf(),
    ensures
        hip matches HipImage::Raw { width, height, data } && width == image.width && height
            == image.height && data@ == spec_colors(
            image.samples@,
            (image.width * image.height) as nat,
        ),
        hip.wf(),
{
    HipImage::Raw { width: image.width, height: image.height, data: image_to_palette(image) }
}

/// The indexed picture that `image` and the strip `palette` show: each grey
/// sample is the index that it was made from, and no colour is looked up.
pub fn image_to_indexed(image: &GrayImage, palette: &RgbaImage) -> (hip: HipImage)
    requires
        image.wf(),
        palette.wf(),
    ensures
        hip matches HipImage::Indexed { width, height, data } && width == image.width && height
            == image.height && data.image@ == image.samples@.take(image.width * image.height)
            && data.palette@ == spec_colors(
            palette.samples@,
            (palette.width * palette.height) as nat,
        ),
        hip.wf(),
{
    let count: usize = pixel_count(image.width, image.height, image.samples.len(), 1);
    let mut indices: Vec<u8> = Vec::new();
    let mut i: usize = 0;
    while i < count
        invariant
            i <= count,
            count <= image.samples@.len(),
            indices@ == image.samples@.take(i as int),
        decreases count - i,
    {
        indices.push(image.samples[i]);
        i = i + 1;
        assert(indices@ =~= image.samples@.take(i as int));
    }
    HipImage::Indexed {
        width: image.width,
        height: image.height,
        data: IndexedImage { palette: image_to_palette(palette), image: indices },
    }
}

} // verus!
