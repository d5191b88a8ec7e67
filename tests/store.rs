use leptos_image::{discover, first_failure, image_requests, reply_after_ensure};
use leptos_image::{ArtifactKind, LookupReply, CACHE_CONTROL};
use leptos_image::{Blur, CachedImage, CachedImageOption, Resize};
use leptos_image::{CreateImageError, EnsureAction, EnsureEvent, EnsurePhase, ImageOptimizer, PlaceholderCache};
use leptos_image::TransformError;
use std::collections::HashMap;

fn resize_of(src: &str, width: u32, height: u32, quality: u8) -> CachedImage {
    CachedImage::new(src.to_string(), CachedImageOption::Resize(Resize { width, height, quality }))
}

fn blur_of(src: &str) -> CachedImage {
    CachedImage::new(
        src.to_string(),
        CachedImageOption::Blur(Blur { width: 20, height: 20, svg_width: 500, svg_height: 500, sigma: 15 }),
    )
}

/// Drives one `ensure` to its end against a simulated disk.
fn ensure_on(disk: &mut HashMap<String, Vec<u8>>, path: &str, artifact: &[u8]) -> Result<bool, CreateImageError> {
    let mut phase = EnsurePhase::Unrequested;
    let mut event = EnsureEvent::Start;
    loop {
        let (next, action) = phase.step(event);
        phase = next;
        event = match action {
            EnsureAction::CheckExists => EnsureEvent::Checked { exists: disk.contains_key(path) },
            EnsureAction::AcquirePermit => EnsureEvent::PermitGranted,
            EnsureAction::Generate => {
                disk.insert(path.to_string(), artifact.to_vec());
                EnsureEvent::Written
            }
            EnsureAction::ReleasePermit | EnsureAction::Done => break,
            EnsureAction::Ignore => panic!("unexpected event"),
        };
    }
    phase.outcome().unwrap()
}

#[test]
fn ensure_twice_creates_then_finds() {
    let req = resize_of("cat.png", 100, 100, 75);
    let path = req.get_file_path().unwrap();
    assert!(path.starts_with("cache/image/"));
    assert!(path.ends_with("/cat.png.webp"));
    let mut disk = HashMap::new();
    assert_eq!(ensure_on(&mut disk, &path, b"webp bytes"), Ok(true));
    let after_first = disk.clone();
    assert_eq!(req.get_file_path().unwrap(), path);
    assert_eq!(ensure_on(&mut disk, &path, b"other bytes"), Ok(false));
    assert_eq!(disk, after_first);
    assert_eq!(disk.len(), 1);
}

#[test]
fn interleaved_ensures_leave_one_artifact() {
    let path = "cache/image/key/cat.png.webp";
    let mut disk: HashMap<String, Vec<u8>> = HashMap::new();
    let mut a = EnsurePhase::Unrequested;
    let mut b = EnsurePhase::Unrequested;
    a = a.step(EnsureEvent::Start).0;
    b = b.step(EnsureEvent::Start).0;
    // both check before either writes
    a = a.step(EnsureEvent::Checked { exists: disk.contains_key(path) }).0;
    b = b.step(EnsureEvent::Checked { exists: disk.contains_key(path) }).0;
    assert_eq!(a, EnsurePhase::AwaitingPermit);
    assert_eq!(b, EnsurePhase::AwaitingPermit);
    a = a.step(EnsureEvent::PermitGranted).0;
    disk.insert(path.to_string(), b"artifact".to_vec());
    a = a.step(EnsureEvent::Written).0;
    b = b.step(EnsureEvent::PermitGranted).0;
    disk.insert(path.to_string(), b"artifact".to_vec());
    b = b.step(EnsureEvent::Written).0;
    // a third caller arriving later finds it
    let mut c = EnsurePhase::Unrequested.step(EnsureEvent::Start).0;
    c = c.step(EnsureEvent::Checked { exists: disk.contains_key(path) }).0;
    assert_eq!(a.outcome(), Some(Ok(true)));
    assert_eq!(b.outcome(), Some(Ok(true)));
    assert_eq!(c.outcome(), Some(Ok(false)));
    assert_eq!(disk.len(), 1);
    assert_eq!(disk[path], b"artifact".to_vec());
}

#[test]
fn failed_generation_is_reported_and_final() {
    let failure = CreateImageError::ImageError(TransformError::InvalidDimensions);
    let (phase, action) = EnsurePhase::InFlight.step(EnsureEvent::GenerationFailed(failure));
    assert_eq!(phase, EnsurePhase::Failed(failure));
    assert_eq!(action, EnsureAction::ReleasePermit);
    assert_eq!(phase.outcome(), Some(Err(failure)));
    let (same, ignored) = phase.step(EnsureEvent::Written);
    assert_eq!(same, phase);
    assert_eq!(ignored, EnsureAction::Ignore);
    assert_eq!(EnsurePhase::Checking.outcome(), None);
}

#[test]
fn out_of_order_events_are_ignored() {
    assert_eq!(
        EnsurePhase::Unrequested.step(EnsureEvent::PermitGranted),
        (EnsurePhase::Unrequested, EnsureAction::Ignore)
    );
    assert_eq!(
        EnsurePhase::Checking.step(EnsureEvent::Written),
        (EnsurePhase::Checking, EnsureAction::Ignore)
    );
}

#[test]
fn discovery_deduplicates_across_routes() {
    let a = resize_of("a.png", 100, 100, 75);
    let b = resize_of("b.png", 100, 100, 75);
    let c = blur_of("c.png");
    let home = vec![b.clone()];
    let gallery = vec![a.clone(), b.clone(), c.clone()];
    let found = discover(&vec![home, gallery]);
    assert_eq!(found.len(), 3);
    assert_eq!(found, vec![b, a, c]);
}

#[test]
fn discovery_of_nothing_is_empty() {
    assert!(discover(&vec![]).is_empty());
    assert!(discover(&vec![vec![], vec![]]).is_empty());
}

#[test]
fn image_element_emits_resize_then_placeholder() {
    let plain = image_requests("cat.png", 300, 200, 75, false);
    assert_eq!(plain, vec![resize_of("cat.png", 300, 200, 75)]);
    let blurred = image_requests("cat.png", 300, 200, 75, true);
    assert_eq!(blurred.len(), 2);
    assert_eq!(
        blurred[1].option,
        CachedImageOption::Blur(Blur { width: 20, height: 20, svg_width: 100, svg_height: 100, sigma: 15 })
    );
    assert!(image_requests("https://example.com/cat.png", 1, 1, 1, true).is_empty());
}

#[test]
fn precache_fails_on_the_first_error() {
    assert_eq!(first_failure(&vec![Ok(true), Ok(false)]), Ok(()));
    assert_eq!(first_failure(&vec![]), Ok(()));
    let r = first_failure(&vec![
        Ok(true),
        Err(CreateImageError::IOError),
        Err(CreateImageError::JoinError),
    ]);
    assert_eq!(r, Err(CreateImageError::IOError));
}

#[test]
fn memory_cache_holds_placeholders_only() {
    let mut cache = PlaceholderCache::new();
    let blur = blur_of("cat.png");
    let resize = resize_of("cat.png", 100, 100, 75);
    assert!(cache.needs_warming(&blur));
    assert!(!cache.needs_warming(&resize));
    cache.warm_memory_cache(&resize, "raster".to_string());
    assert_eq!(cache.lookup_memory(&resize), None);
    cache.warm_memory_cache(&blur, "<svg/>".to_string());
    assert_eq!(cache.lookup_memory(&blur), Some("<svg/>".to_string()));
    cache.warm_memory_cache(&blur, "<svg>other</svg>".to_string());
    assert_eq!(cache.lookup_memory(&blur), Some("<svg/>".to_string()));
    assert!(!cache.needs_warming(&blur));
    assert_eq!(cache.lookup_memory(&blur_of("dog.png")), None);
}

#[test]
fn optimizer_derives_paths_and_urls() {
    let opt = ImageOptimizer::new("/cache/image".to_string(), "target/site".to_string(), 2);
    let req = resize_of("/cat.png", 100, 100, 75);
    assert_eq!(opt.parallelism, 2);
    assert_eq!(opt.source_path(&req), "target/site/cat.png");
    let abs = ImageOptimizer::new("/cache/image".to_string(), "/var/www/".to_string(), 1);
    assert_eq!(abs.source_path(&req), "/var/www/cat.png");
    assert!(abs.get_file_path_from_root(&req).unwrap().starts_with("/var/www/cache/image/"));
    let rel = opt.get_file_path(&req).unwrap();
    assert_eq!(opt.get_file_path_from_root(&req).unwrap(), format!("target/site/{rel}"));
    assert_eq!(opt.image_url(&req), "/cache/image?src=/cat.png&op=r&w=100&h=100&q=75");
    let long = resize_of(&"x".repeat(400), 1, 1, 1);
    assert_eq!(opt.get_file_path(&long), Err(CreateImageError::IOError));
}

#[test]
fn replies_after_ensure() {
    let req = blur_of("cat.png");
    match reply_after_ensure(&req, Ok("site/cache/image/k/cat.png.svg".to_string())) {
        LookupReply::Serve { file, kind } => {
            assert_eq!(file, "site/cache/image/k/cat.png.svg");
            assert_eq!(kind, ArtifactKind::Svg);
            assert_eq!(kind.content_type(), "image/svg+xml");
        }
        other => panic!("expected to serve, got {:?}", other),
    }
    match reply_after_ensure(&req, Err(CreateImageError::JoinError)) {
        LookupReply::ServerError(e) => assert_eq!(e, CreateImageError::JoinError),
        other => panic!("expected a server error, got {:?}", other),
    }
    assert_eq!(ArtifactKind::of(&resize_of("a", 1, 1, 1)).content_type(), "image/webp");
    assert_eq!(CACHE_CONTROL, "public, stale-while-revalidate, max-age=86400");
}
