//! Decoded images and the cache that holds them by path.
use vstd::prelude::*;

verus! {

#[verifier::external_type_specification]
#[verifier::external_body]
pub struct ExImageError(image::ImageError);

#[verifier::external_type_specification]
#[verifier::external_body]
pub struct ExIoError(std::io::Error);

/// An image as unpacked RGBA bytes, four per pixel, row-major.
pub struct ImageData {
    pub rgba_bytes: Vec<u8>,
    pub width: u32,
    pub height: u32,
}

impl ImageData {
    /// The bytes hold at least four per pixel; any beyond are not read.
    pub open spec fn wf(&self) -> bool {
        self.rgba_bytes@.len() >= 4 * (self.width as nat) * (self.height as nat)
    }

    /// Whether the bytes hold at least four per pixel.
    pub fn is_well_formed(&self) -> (r: bool)
        ensures
            r == self.wf(),
    {
        proof {
            assert((self.width as int) * (self.height as int) <= 0xffff_ffff * 0xffff_ffff)
                by (nonlinear_arith)
                requires
                    self.width <= 0xffff_ffff,
                    self.height <= 0xffff_ffff,
            ;
            assert(4 * ((self.width as int) * (self.height as int)) == 4 * (self.width as nat) * (
            self.height as nat)) by (nonlinear_arith);
        }
        let needed: u128 = 4 * ((self.width as u128) * (self.height as u128));
        needed <= self.rgba_bytes.len() as u128
    }

    /// Wraps decoded RGBA bytes of a `width` by `height` image.
    pub fn from_bytes(rgba_bytes: Vec<u8>, width: u32, height: u32) -> (r: ImageData)
        ensures
            r.rgba_bytes == rgba_bytes,
            r.width == width,
            r.height == height,
    {
        ImageData { rgba_bytes, width, height }
    }
}

/// What can go wrong when loading or looking up an image.
#[allow(inconsistent_fields)]
pub enum AssetError {
    /// The file could not be read.
    FileRead { path: String, source: std::io::Error },
    /// The bytes are no image in a known format.
    ImageDecode { path: String, source: image::ImageError },
    /// No image is loaded under the path.
    NotLoaded { path: String },
    /// The decoded bytes do not fit the image's dimensions.
    InvalidDimensions { path: String, expected_size: usize, actual_size: usize },
}

/// What decoding `bytes` as a PNG file gives: width, height and RGBA bytes,
/// or `None` when the bytes are no valid PNG.
pub uninterp spec fn decoded_png(bytes: Seq<u8>) -> Option<(u32, u32, Seq<u8>)>;

/// `image` is the decoded `(width, height, rgba)`: the first four bytes per
/// pixel of the decoded bytes.
pub open spec fn holds_decoded(image: ImageData, decoded: (u32, u32, Seq<u8>)) -> bool {
    &&& image.wf()
    &&& image.width == decoded.0
    &&& image.height == decoded.1
    &&& image.rgba_bytes@ == decoded.2.take(4 * (decoded.0 as int) * (decoded.1 as int))
}

/// Relies on `image::load_from_memory_with_format` with the PNG format fixed
/// (no format guessing, no registered hooks), `DynamicImage::dimensions` and
/// `DynamicImage::into_rgba8`: the bytes are decoded as PNG and converted to
/// RGBA, at least four bytes per pixel.
#[verifier::external_body]
fn decode_png_rgba(bytes: &[u8]) -> (r: Result<(u32, u32, Vec<u8>), image::ImageError>)
    ensures
        r is Ok <==> decoded_png(bytes@) is Some,
        r matches Ok((w, h, p)) ==> decoded_png(bytes@) == Some((w, h, p@)) && p@.len() >= 4 * (
        w as nat) * (h as nat),
{
    let decoded = image::load_from_memory_with_format(bytes, image::ImageFormat::Png)?;
    let (width, height) = image::GenericImageView::dimensions(&decoded);
    Ok((width, height, decoded.into_rgba8().into_raw()))
}

/// Images by path, each decoded once.
pub struct AssetManager {
    image_cache: Vec<(String, ImageData)>,
    images: Ghost<Map<Seq<char>, ImageData>>,
}

impl AssetManager {
    /// The images loaded, by path.
    pub closed spec fn images(&self) -> Map<Seq<char>, ImageData> {
        self.images@
    }

    /// Each path is cached once, and the cache holds exactly the images.
    pub closed spec fn wf(&self) -> bool {
        &&& forall|i: int, j: int|
            0 <= i < j < self.image_cache@.len() ==> self.image_cache@[i].0@
                != self.image_cache@[j].0@
        &&& forall|i: int|
            0 <= i < self.image_cache@.len() ==> self.images@.contains_key(
                #[trigger] self.image_cache@[i].0@,
            ) && self.images@[self.image_cache@[i].0@] == self.image_cache@[i].1
        &&& forall|k: Seq<char>|
            #[trigger] self.images@.contains_key(k) ==> exists|i: int|
                0 <= i < self.image_cache@.len() && self.image_cache@[i].0@ == k
    }

    /// No image is loaded.
    pub fn new() -> (r: AssetManager)
        ensures
            r.wf(),
            r.images() == Map::<Seq<char>, ImageData>::empty(),
    {
        AssetManager { image_cache: Vec::new(), images: Ghost(Map::empty()) }
    }

    /// Where `path` is cached, if it is.
    fn find(&self, path: &str) -> (r: Option<usize>)
        requires
            self.wf(),
        ensures
            r is None <==> !self.images().contains_key(path@),
            r matches Some(i) ==> i < self.image_cache@.len() && self.image_cache@[i as int].0@
                == path@,
    {
        let key = path.to_owned();
        let mut i: usize = 0;
        while i < self.image_cache.len()
            invariant
                i <= self.image_cache@.len(),
                self.wf(),
                key@ == path@,
                forall|k: int| 0 <= k < i ==> self.image_cache@[k].0@ != path@,
            decreases self.image_cache@.len() - i,
        {
            if self.image_cache[i].0 == key {
                assert(self.images().contains_key(self.image_cache@[i as int].0@));
                return Some(i);
            }
            i = i + 1;
        }
        None
    }

    /// Whether an image is loaded under `path`.
    pub fn is_loaded(&self, path: &str) -> (r: bool)
        requires
            self.wf(),
        ensures
            r == self.images().contains_key(path@),
    {
        self.find(path).is_some()
    }

    /// The image loaded under `path`, or `NotLoaded` naming the path.
    pub fn image(&self, path: &str) -> (r: Result<&ImageData, AssetError>)
        requires
            self.wf(),
        ensures
            self.images().contains_key(path@) ==> (r matches Ok(img) && *img == self.images()[path@]),
            !self.images().contains_key(path@) ==> (r matches Err(AssetError::NotLoaded { path: p })
                && p@ == path@),
    {
        match self.find(path) {
            Some(i) => Ok(&self.image_cache[i].1),
            None => Err(AssetError::NotLoaded { path: path.to_owned() }),
        }
    }

    /// Caches `image` under `path`, unless one is there already; says whether
    /// it was stored.
    pub fn store_image(&mut self, path: &str, image: ImageData) -> (r: bool)
        requires
            old(self).wf(),
        ensures
            final(self).wf(),
            r == !old(self).images().contains_key(path@),
            final(self).images() == if r {
                old(self).images().insert(path@, image)
            } else {
                old(self).images()
            },
    {
        if self.find(path).is_some() {
            return false;
        }
        let ghost before = self.image_cache@;
        let ghost value = image;
        self.image_cache.push((path.to_owned(), image));
        self.images = Ghost(self.images@.insert(path@, value));
        assert forall|i: int, j: int|
            0 <= i < j < self.image_cache@.len() implies self.image_cache@[i].0@
            != self.image_cache@[j].0@ by {
            if j == before.len() {
                assert(before[i] == self.image_cache@[i]);
            } else {
                assert(before[i] == self.image_cache@[i] && before[j] == self.image_cache@[j]);
            }
        }
        assert forall|i: int| 0 <= i < self.image_cache@.len() implies self.images@.contains_key(
            #[trigger] self.image_cache@[i].0@,
        ) && self.images@[self.image_cache@[i].0@] == self.image_cache@[i].1 by {
            if i < before.len() {
                assert(before[i] == self.image_cache@[i]);
            }
        }
        assert forall|k: Seq<char>| #[trigger] self.images@.contains_key(k) implies exists|i: int|
            0 <= i < self.image_cache@.len() && self.image_cache@[i].0@ == k by {
            if k == path@ {
                assert(self.image_cache@[before.len() as int].0@ == k);
            } else {
                let i = choose|i: int| 0 <= i < before.len() && before[i].0@ == k;
                assert(self.image_cache@[i] == before[i]);
            }
        }
        true
    }

    /// Decodes `bytes` as a PNG file and caches the image under `path`, unless
    /// one is there already: `Ok(false)` then, with nothing decoded;
    /// `Ok(true)` once stored; `ImageDecode` when the bytes are no valid PNG.
    pub fn load_image_from_bytes(&mut self, path: &str, bytes: &[u8]) -> (r: Result<bool, AssetError>)
        requires
            old(self).wf(),
        ensures
            final(self).wf(),
            old(self).images().contains_key(path@) ==> (r matches Ok(false) && final(self).images()
                == old(self).images()),
            !old(self).images().contains_key(path@) && decoded_png(bytes@) is None ==> (r matches Err(
                AssetError::ImageDecode { path: p, .. },
            ) && p@ == path@ && final(self).images() == old(self).images()),
            !old(self).images().contains_key(path@) && decoded_png(bytes@) is Some ==> (r matches Ok(
                true,
            ) && final(self).images() == old(self).images().insert(path@, final(self).images()[path@])
                && holds_decoded(final(self).images()[path@], decoded_png(bytes@)->Some_0)),
    {
        if self.is_loaded(path) {
            return Ok(false);
        }
        match decode_png_rgba(bytes) {
            Err(source) => Err(AssetError::ImageDecode { path: path.to_owned(), source }),
            Ok((width, height, mut rgba_bytes)) => {
                let len = rgba_bytes.len();
                proof {
                    assert(4 * (width as int) * (height as int) <= len);
                    assert(4 * (width as u64) <= 0x4_0000_0000u64);
                    assert((4 * (width as u64)) * (height as u64) == 4 * (width as int) * (
                    height as int)) by (nonlinear_arith);
                }
                let expected: usize = (4 * width as u64 * height as u64) as usize;
                rgba_bytes.truncate(expected);
                let image = ImageData::from_bytes(rgba_bytes, width, height);
                let stored = self.store_image(path, image);
                Ok(stored)
            },
        }
    }

    /// Drops the image under `path`; says whether one was there.
    pub fn unload_image(&mut self, path: &str) -> (r: bool)
        requires
            old(self).wf(),
        ensures
            final(self).wf(),
            r == old(self).images().contains_key(path@),
            final(self).images() == old(self).images().remove(path@),
    {
        match self.find(path) {
            None => {
                assert(self.images@ =~= self.images@.remove(path@));
                false
            },
            Some(i) => {
                let ghost before = self.image_cache@;
                self.image_cache.remove(i);
                self.images = Ghost(self.images@.remove(path@));
                assert forall|a: int, b: int|
                    0 <= a < b < self.image_cache@.len() implies self.image_cache@[a].0@
                    != self.image_cache@[b].0@ by {
                    let a0 = if a < i { a } else { a + 1 };
                    let b0 = if b < i { b } else { b + 1 };
                    assert(self.image_cache@[a] == before[a0]);
                    assert(self.image_cache@[b] == before[b0]);
                }
                assert forall|j: int| 0 <= j < self.image_cache@.len() implies self.images@.contains_key(
                    #[trigger] self.image_cache@[j].0@,
                ) && self.images@[self.image_cache@[j].0@] == self.image_cache@[j].1 by {
                    let j0 = if j < i { j } else { j + 1 };
                    assert(self.image_cache@[j] == before[j0]);
                    assert(j0 != i);
                }
                assert forall|k: Seq<char>| #[trigger] self.images@.contains_key(k) implies exists|
                    j: int,
                | 0 <= j < self.image_cache@.len() && self.image_cache@[j].0@ == k by {
                    let j0 = choose|j0: int| 0 <= j0 < before.len() && before[j0].0@ == k;
                    assert(j0 != i);
                    let j = if j0 < i { j0 } else { j0 - 1 };
                    assert(self.image_cache@[j] == before[j0]);
                }
                true
            },
        }
    }

    /// Drops every image.
    pub fn clear_all(&mut self)
        ensures
            final(self).wf(),
            final(self).images() == Map::<Seq<char>, ImageData>::empty(),
    {
        self.image_cache.clear();
        self.images = Ghost(Map::empty());
    }
}

} // verus!
