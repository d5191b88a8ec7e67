//! The lookup handler's decisions: a request URL that does not decode is "not
//! found"; a failed `ensure` is a server error; otherwise the artifact is
//! served with its content type and a long-lived cache directive.
use crate::request::{CachedImage, CachedImageOption, RequestView};
use crate::store::CreateImageError;
use crate::wire::decode_url;
use vstd::prelude::*;
use vstd::utf8::*;

verus! {

/// The format of an artifact.
#[derive(Clone, Copy, Debug, PartialEq, Eq, Structural)]
pub enum ArtifactKind {
    /// A WebP raster, made by a resize.
    Webp,
    /// An SVG document, made by a blur.
    Svg,
}

/// The format a request's artifact has.
pub open spec fn kind_of(r: RequestView) -> ArtifactKind {
    match r.option {
        CachedImageOption::Resize(_) => ArtifactKind::Webp,
        CachedImageOption::Blur(_) => ArtifactKind::Svg,
    }
}

/// `Cache-Control` of a served artifact: public, one day, revalidated while stale.
pub const CACHE_CONTROL: &'static str = "public, stale-while-revalidate, max-age=86400";

impl ArtifactKind {
    /// The format a request's artifact has.
    pub fn of(req: &CachedImage) -> (r: ArtifactKind)
        ensures
            r == kind_of(req@),
    {
        match req.option {
            CachedImageOption::Resize(_) => ArtifactKind::Webp,
            CachedImageOption::Blur(_) => ArtifactKind::Svg,
        }
    }

    /// The `Content-Type` of the format.
    pub fn content_type(&self) -> (r: &'static str)
        ensures
            *self == ArtifactKind::Webp ==> r@ == "image/webp"@,
            *self == ArtifactKind::Svg ==> r@ == "image/svg+xml"@,
    {
        match self {
            ArtifactKind::Webp => "image/webp",
            ArtifactKind::Svg => "image/svg+xml",
        }
    }
}

/// The handler's answer.
#[derive(Debug)]
pub enum LookupReply {
    /// 404: the URL does not name a request.
    NotFound,
    /// 500: the artifact could not be generated.
    ServerError(CreateImageError),
    /// 200: the file at `file`, of format `kind`, with `CACHE_CONTROL`.
    Serve { file: String, kind: ArtifactKind },
}

/// Reads the request a lookup URL names; a URL that names none is answered
/// "not found", never a server error.
pub fn lookup_request(url: &str) -> (r: Result<CachedImage, LookupReply>)
    ensures
        match decode_url(encode_utf8(url@)) {
            Some(v) => r matches Ok(x) && x@ == v,
            None => r matches Err(LookupReply::NotFound),
        },
{
    match CachedImage::from_url_encoded(url) {
        Ok(req) => Ok(req),
        Err(_) => Err(LookupReply::NotFound),
    }
}

/// The answer once `ensure` has run for `req`: serve the artifact at the
/// given path, or report the failure as a server error.
pub fn reply_after_ensure(req: &CachedImage, outcome: Result<String, CreateImageError>) -> (r:
    LookupReply)
    ensures
        outcome matches Err(e) ==> r matches LookupReply::ServerError(e2) && e2 == e,
        outcome matches Ok(file) ==> r matches LookupReply::Serve { file: f, kind } && f@
            == file@ && kind == kind_of(req@),
{
    match outcome {
        Ok(file) => LookupReply::Serve { file, kind: ArtifactKind::of(req) },
        Err(e) => LookupReply::ServerError(e),
    }
}

} // verus!
