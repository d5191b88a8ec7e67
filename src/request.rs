use vstd::prelude::*;

verus! {

/// Parameters of a resized raster derivative.
#[derive(Clone, Copy, Debug, PartialEq, Eq, Structural, Hash)]
pub struct Resize {
    /// Width of the bounding box the image is fitted into.
    pub width: u32,
    /// Height of the bounding box the image is fitted into.
    pub height: u32,
    /// Encoder quality, 0 to 100.
    pub quality: u8,
}

/// Parameters of a blurred placeholder derivative.
#[derive(Clone, Copy, Debug, PartialEq, Eq, Structural, Hash)]
pub struct Blur {
    /// Width of the tiny intermediate raster.
    pub width: u32,
    /// Height of the tiny intermediate raster.
    pub height: u32,
    /// Declared width of the vector wrapper's viewport.
    pub svg_width: u32,
    /// Declared height of the vector wrapper's viewport.
    pub svg_height: u32,
    /// Standard deviation of the vector-side Gaussian blur.
    pub sigma: u8,
}

/// The transform applied to a source image.
#[derive(Clone, Copy, Debug, PartialEq, Eq, Structural, Hash)]
pub enum CachedImageOption {
    /// Aspect-preserving resize into a bounding box, encoded as WebP.
    Resize(Resize),
    /// Tiny raster wrapped in an SVG that blurs it.
    Blur(Blur),
}

/// A transform request: the cache key of one derivative.
#[derive(Clone, Debug)]
pub struct CachedImage {
    /// Source image path, relative to the site root.
    pub src: String,
    /// The transform to apply.
    pub option: CachedImageOption,
}

/// Why a wire key or a file path could not be turned into a request (or back).
#[derive(Clone, Copy, Debug, PartialEq, Eq, Structural)]
pub enum DecodeError {
    /// A required field is missing or does not hold a valid value.
    Malformed,
    /// A segment of the derived file path would exceed the file-name limit.
    PathTooLong,
}

/// Largest quality value a resize request may carry.
pub const MAX_QUALITY: u8 = 100;

/// The mathematical value of a request: its source as characters, and its transform.
pub struct RequestView {
    pub src: Seq<char>,
    pub option: CachedImageOption,
}

impl RequestView {
    /// A request that the encodings can carry: a non-empty source and a
    /// quality within 0..=100.
    pub open spec fn valid(self) -> bool {
        &&& self.src.len() > 0
        &&& match self.option {
            CachedImageOption::Resize(r) => r.quality <= MAX_QUALITY,
            CachedImageOption::Blur(_) => true,
        }
    }
}

impl View for CachedImage {
    type V = RequestView;

    open spec fn view(&self) -> RequestView {
        RequestView { src: self.src@, option: self.option }
    }
}

impl CachedImage {
    /// Whether the request asks for a blur placeholder.
    pub open spec fn is_blur(&self) -> bool {
        self.option is Blur
    }

    /// Builds a request from its parts.
    pub fn new(src: String, option: CachedImageOption) -> (r: CachedImage)
        ensures
            r@ == (RequestView { src: src@, option }),
    {
        CachedImage { src, option }
    }

    /// Whether the request asks for a blur placeholder.
    pub fn wants_blur(&self) -> (r: bool)
        ensures
            r == self.is_blur(),
    {
        match self.option {
            CachedImageOption::Blur(_) => true,
            CachedImageOption::Resize(_) => false,
        }
    }
}

impl PartialEq for CachedImage {
    fn eq(&self, other: &CachedImage) -> (r: bool)
        ensures
            r == (self@ == other@),
    {
        self.src == other.src && self.option == other.option
    }
}

impl vstd::std_specs::cmp::PartialEqSpecImpl for CachedImage {
    open spec fn obeys_eq_spec() -> bool {
        true
    }

    open spec fn eq_spec(&self, other: &CachedImage) -> bool {
        self.src@ == other.src@ && self.option == other.option
    }
}

impl Eq for CachedImage {}

} // verus!
