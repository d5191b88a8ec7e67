//! The derivative store's configuration and in-memory tier, owned by the host
//! and shared with the lookup handler and the precache job.
use crate::memory::PlaceholderCache;
use crate::path::{
    file_path_bytes, segments_fit, source_below, trim_start, under_root, MAX_SEGMENT,
};
use crate::request::CachedImage;
use crate::store::CreateImageError;
use crate::wire::{wire_bytes, QUESTION};
use vstd::prelude::*;
use vstd::utf8::*;

verus! {

/// Image optimisation settings and the placeholder cache.
pub struct ImageOptimizer {
    /// Path of the route that serves derivatives.
    pub api_handler_path: String,
    /// Directory that sources are read from and derivatives written below.
    pub root_file_path: String,
    /// How many derivatives may be generated at once.
    pub parallelism: usize,
    /// Placeholder text by request.
    pub cache: PlaceholderCache,
}

impl ImageOptimizer {
    /// A store serving derivatives at `api_handler_path`, rooted at
    /// `root_file_path`, generating at most `parallelism` at once; its
    /// placeholder cache starts empty.
    pub fn new(api_handler_path: String, root_file_path: String, parallelism: usize) -> (r: ImageOptimizer)
        ensures
            r.api_handler_path@ == api_handler_path@,
            r.root_file_path@ == root_file_path@,
            r.parallelism == parallelism,
            r.cache@ == Map::<Seq<char>, Seq<char>>::empty(),
    {
        ImageOptimizer { api_handler_path, root_file_path, parallelism, cache: PlaceholderCache::new() }
    }

    /// The artifact's path relative to the root; a path too long to store is an I/O failure.
    pub fn get_file_path(&self, req: &CachedImage) -> (r: Result<String, CreateImageError>)
        ensures
            r matches Ok(s) ==> encode_utf8(s@) == file_path_bytes(req@),
            r is Err ==> r == Err::<String, CreateImageError>(CreateImageError::IOError),
            r is Ok ==> segments_fit(file_path_bytes(req@), MAX_SEGMENT as nat),
            segments_fit(file_path_bytes(req@), MAX_SEGMENT as nat) && wire_bytes(req@).len()
                <= usize::MAX / 4 ==> r is Ok,
    {
        match req.get_file_path() {
            Ok(s) => Ok(s),
            Err(_) => Err(CreateImageError::IOError),
        }
    }

    /// The artifact's path below the root.
    pub fn get_file_path_from_root(&self, req: &CachedImage) -> (r: Result<String, CreateImageError>)
        ensures
            r matches Ok(s) ==> encode_utf8(s@) == under_root(
                encode_utf8(self.root_file_path@),
                file_path_bytes(req@),
            ),
            r is Err ==> r == Err::<String, CreateImageError>(CreateImageError::IOError),
            r is Ok ==> segments_fit(file_path_bytes(req@), MAX_SEGMENT as nat),
            segments_fit(file_path_bytes(req@), MAX_SEGMENT as nat) && wire_bytes(req@).len()
                <= usize::MAX / 4 ==> r is Ok,
    {
        match req.get_file_path_from_root(self.root_file_path.as_str()) {
            Ok(s) => Ok(s),
            Err(_) => Err(CreateImageError::IOError),
        }
    }

    /// The source image's path below the root (its leading `/`s dropped).
    pub fn source_path(&self, req: &CachedImage) -> (r: String)
        ensures
            encode_utf8(r@) == under_root(
                encode_utf8(self.root_file_path@),
                trim_start(encode_utf8(req.src@)),
            ),
    {
        source_below(self.root_file_path.as_str(), req.src.as_str())
    }

    /// The URL under which the handler serves `req`.
    pub fn image_url(&self, req: &CachedImage) -> (r: String)
        ensures
            encode_utf8(r@) == encode_utf8(self.api_handler_path@) + seq![QUESTION] + wire_bytes(
                req@,
            ),
    {
        req.get_url_encoded(self.api_handler_path.as_str())
    }
}

} // verus!
