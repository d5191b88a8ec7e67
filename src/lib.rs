//! On-demand image derivatives: resized WebP rasters and blurred SVG
//! placeholders, keyed by a transform request with a wire encoding (a query
//! string) and a file-system encoding (a path below `cache/image/`).
//!
//! The library holds the decisions; the host performs the I/O: it reads
//! sources, encodes rasters as WebP, writes artifacts, and drives the `ensure`
//! state machine of [`store`].

pub mod b64;
pub mod discovery;
pub mod handler;
pub mod memory;
pub mod optimizer;
pub mod path;
pub mod request;
pub mod store;
pub mod text;
pub mod transform;
pub mod wire;

pub use discovery::{discover, first_failure, image_requests};
pub use handler::{lookup_request, reply_after_ensure, ArtifactKind, LookupReply, CACHE_CONTROL};
pub use memory::PlaceholderCache;
pub use optimizer::ImageOptimizer;
pub use path::path_from_segments;
pub use request::{Blur, CachedImage, CachedImageOption, DecodeError, Resize};
pub use store::{CreateImageError, EnsureAction, EnsureEvent, EnsurePhase};
pub use transform::{check_box, placeholder_raster, placeholder_svg, resize, TransformError};
