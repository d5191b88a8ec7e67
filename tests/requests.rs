use leptos_image::{Blur, CachedImage, CachedImageOption, DecodeError, Resize};
use leptos_image::{lookup_request, path_from_segments, LookupReply};

const TEST_IMAGE: &str = "example/image-example/public/cute_ferris.png";

fn resize_of(src: &str, width: u32, height: u32, quality: u8) -> CachedImage {
    CachedImage::new(
        src.to_string(),
        CachedImageOption::Resize(Resize { width, height, quality }),
    )
}

fn blur_of(src: &str, width: u32, height: u32, svg_width: u32, svg_height: u32, sigma: u8) -> CachedImage {
    CachedImage::new(
        src.to_string(),
        CachedImageOption::Blur(Blur { width, height, svg_width, svg_height, sigma }),
    )
}

#[test]
fn test_url_encode() {
    let img = CachedImage {
        src: "test.jpg".to_string(),
        option: CachedImageOption::Resize(Resize { quality: 75, width: 100, height: 100 }),
    };

    let encoded = img.get_url_encoded("/cache/image");
    let decoded: CachedImage = CachedImage::from_url_encoded(&encoded).unwrap();

    assert!(img == decoded);
}

#[test]
fn url_encode() {
    let img = CachedImage {
        src: "test.jpg".to_string(),
        option: CachedImageOption::Resize(Resize { quality: 75, width: 100, height: 100 }),
    };

    let encoded = img.get_url_encoded("/cache/image/test");
    let decoded: CachedImage = CachedImage::from_url_encoded(&encoded).unwrap();

    assert!(img == decoded);
}

#[test]
fn test_file_path() {
    let spec = CachedImage {
        src: "test.jpg".to_string(),
        option: CachedImageOption::Blur(Blur {
            width: 25,
            height: 25,
            svg_height: 100,
            svg_width: 100,
            sigma: 20,
        }),
    };

    let file_path = spec.get_file_path().unwrap();
    let result = CachedImage::from_file_path(&file_path).unwrap();

    assert_eq!(spec, result);
}

#[test]
fn file_path() {
    let spec = CachedImage {
        src: TEST_IMAGE.to_string(),
        option: CachedImageOption::Blur(Blur {
            width: 25,
            height: 25,
            svg_height: 100,
            svg_width: 100,
            sigma: 20,
        }),
    };

    let file_path = spec.get_file_path().unwrap();
    let result = CachedImage::from_file_path(&file_path).unwrap();

    assert_eq!(spec, result);
}

#[test]
fn wire_key_of_a_resize_is_exact() {
    let req = resize_of("cat.png", 100, 100, 75);
    assert_eq!(req.encode_wire(), "src=cat.png&op=r&w=100&h=100&q=75");
    assert_eq!(req.get_url_encoded("/cache/image"), "/cache/image?src=cat.png&op=r&w=100&h=100&q=75");
}

#[test]
fn wire_key_of_a_blur_is_exact() {
    let req = blur_of("cat.png", 20, 20, 500, 500, 15);
    assert_eq!(req.encode_wire(), "src=cat.png&op=b&w=20&h=20&sw=500&sh=500&s=15");
}

#[test]
fn wire_key_escapes_the_source() {
    let req = resize_of("dir/a b&c=d?.png", 1, 2, 3);
    assert_eq!(req.encode_wire(), "src=dir/a%20b%26c%3Dd%3F.png&op=r&w=1&h=2&q=3");
    let back = CachedImage::from_url_encoded(&req.encode_wire()).unwrap();
    assert_eq!(back, req);
}

#[test]
fn non_ascii_source_round_trips() {
    let req = blur_of("bilder/äpfel über 東京.png", 7, 9, 640, 480, 255);
    let url = req.get_url_encoded("/cache/image");
    assert!(url.is_ascii());
    assert_eq!(CachedImage::from_url_encoded(&url).unwrap(), req);
    let path = req.get_file_path().unwrap();
    assert_eq!(CachedImage::from_file_path(&path).unwrap(), req);
}

#[test]
fn extreme_numbers_round_trip() {
    let req = blur_of("x", u32::MAX, 0, u32::MAX, 1, u8::MAX);
    assert_eq!(CachedImage::from_url_encoded(&req.encode_wire()).unwrap(), req);
    let req = resize_of("x", 0, u32::MAX, 100);
    assert_eq!(CachedImage::from_url_encoded(&req.encode_wire()).unwrap(), req);
}

#[test]
fn field_order_and_unknown_fields_do_not_matter() {
    let decoded = CachedImage::from_url_encoded("q=75&extra=1&h=100&op=r&w=100&src=cat.png").unwrap();
    assert_eq!(decoded, resize_of("cat.png", 100, 100, 75));
}

#[test]
fn last_copy_of_a_field_wins() {
    let decoded = CachedImage::from_url_encoded("src=a&op=r&w=1&h=2&q=3&w=9").unwrap();
    assert_eq!(decoded, resize_of("a", 9, 2, 3));
}

#[test]
fn only_the_part_after_the_last_question_mark_is_read() {
    let decoded = CachedImage::from_url_encoded("/x?src=zzz&op=q?src=b&op=b&w=1&h=2&sw=3&sh=4&s=5").unwrap();
    assert_eq!(decoded, blur_of("b", 1, 2, 3, 4, 5));
}

#[test]
fn unknown_operation_is_malformed() {
    let r = CachedImage::from_url_encoded("/cache/image?src=cat.png&op=zzz&w=1&h=1&q=1");
    assert_eq!(r, Err(DecodeError::Malformed));
}

#[test]
fn unknown_operation_is_not_found() {
    match lookup_request("/cache/image?src=cat.png&op=zzz&w=1&h=1&q=1") {
        Err(LookupReply::NotFound) => {}
        other => panic!("expected not found, got {:?}", other),
    }
}

#[test]
fn decodable_url_is_looked_up() {
    match lookup_request("/cache/image?src=cat.png&op=r&w=100&h=100&q=75") {
        Ok(req) => assert_eq!(req, resize_of("cat.png", 100, 100, 75)),
        other => panic!("expected a request, got {:?}", other),
    }
}

#[test]
fn missing_or_invalid_fields_are_malformed() {
    let bad = [
        "op=r&w=1&h=1&q=1",
        "src=a&w=1&h=1&q=1",
        "src=a&op=r&h=1&q=1",
        "src=a&op=r&w=1&h=1",
        "src=a&op=r&w=1&h=1&q=101",
        "src=a&op=r&w=4294967296&h=1&q=1",
        "src=a&op=r&w=-1&h=1&q=1",
        "src=a&op=r&w=&h=1&q=1",
        "src=a&op=b&w=1&h=1&sw=1&sh=1&s=256",
        "src=a&op=b&w=1&h=1&sw=1&sh=1",
        "src=&op=r&w=1&h=1&q=1",
        "src=%zz&op=r&w=1&h=1&q=1",
        "src=%ff&op=r&w=1&h=1&q=1",
        "",
    ];
    for key in bad {
        assert_eq!(CachedImage::from_url_encoded(key), Err(DecodeError::Malformed), "{key}");
    }
}

#[test]
fn lower_case_escapes_are_read() {
    let decoded = CachedImage::from_url_encoded("src=a%2fb%c3%a4&op=r&w=1&h=1&q=1").unwrap();
    assert_eq!(decoded.src, "a/bä");
}

#[test]
fn file_path_layout() {
    let req = resize_of("cat.png", 100, 100, 75);
    let path = req.get_file_path().unwrap();
    // URL-safe base64 of "src=cat.png&op=r&w=100&h=100&q=75"
    assert_eq!(path, "cache/image/c3JjPWNhdC5wbmcmb3A9ciZ3PTEwMCZoPTEwMCZxPTc1/cat.png.webp");
    let blur = blur_of("cat.png", 20, 20, 500, 500, 15);
    assert!(blur.get_file_path().unwrap().ends_with("/cat.png.svg"));
}

#[test]
fn key_segment_uses_the_url_safe_alphabet() {
    // The wire key of this request has a standard base64 holding '+'.
    let req = resize_of("??>>~~", 1, 1, 1);
    let path = req.get_file_path().unwrap();
    let key = path.split('/').nth(2).unwrap();
    assert_eq!(key, "c3JjPSUzRiUzRiUzRSUzRX5-Jm9wPXImdz0xJmg9MSZxPTE=");
    assert_eq!(path.split('/').count(), 4);
    assert_ne!(key, req.encode_wire());
    assert_eq!(CachedImage::from_file_path(&path).unwrap(), req);
}

#[test]
fn source_segments_are_cleaned() {
    let req = resize_of("/../a//./b/../c.png/", 1, 1, 1);
    let path = req.get_file_path().unwrap();
    assert!(path.ends_with("/a/b/c.png.webp"), "{path}");
    assert_eq!(CachedImage::from_file_path(&path).unwrap(), req);
}

#[test]
fn long_source_segment_is_path_too_long() {
    // The key segment is the base64 of the whole wire key, so it bounds the source too:
    // a wire key of 189 bytes encodes to 252 characters, one of 190 to 256.
    let ok = "a".repeat(168);
    assert_eq!(resize_of(&ok, 1, 1, 1).encode_wire().len(), 189);
    assert!(resize_of(&ok, 1, 1, 1).get_file_path().is_ok());
    let long = "a".repeat(169);
    assert_eq!(resize_of(&long, 1, 1, 1).get_file_path(), Err(DecodeError::PathTooLong));
    let deep = format!("{}/{}", "b".repeat(100), "c".repeat(60));
    assert!(resize_of(&deep, 1, 1, 1).get_file_path().is_ok());
}

#[test]
fn foreign_paths_do_not_decode() {
    assert_eq!(CachedImage::from_file_path("cache/image/!!!/x.webp"), None);
    assert_eq!(CachedImage::from_file_path("other/image/c3JjPWE=/x.webp"), None);
    // valid base64, but not a wire key
    assert_eq!(CachedImage::from_file_path("cache/image/aGVsbG8=/x.webp"), None);
}

#[test]
fn file_path_from_root_joins_segments() {
    let req = resize_of("cat.png", 100, 100, 75);
    let rel = req.get_file_path().unwrap();
    assert_eq!(req.get_file_path_from_root("site/").unwrap(), format!("site/{rel}"));
    assert_eq!(req.get_file_path_from_root("").unwrap(), rel);
}

#[test]
fn absolute_root_stays_absolute() {
    let req = resize_of("cat.png", 100, 100, 75);
    let rel = req.get_file_path().unwrap();
    assert_eq!(req.get_file_path_from_root("/srv/site").unwrap(), format!("/srv/site/{rel}"));
    assert_eq!(req.get_file_path_from_root("/srv/site//").unwrap(), format!("/srv/site/{rel}"));
    assert_eq!(req.get_file_path_from_root("/").unwrap(), format!("/{rel}"));
}

#[test]
fn path_from_segments_trims_and_skips_empty() {
    assert_eq!(path_from_segments(vec!["/root/", "", "//", "a/b/", "c"]), "root/a/b/c");
    assert_eq!(path_from_segments(vec![]), "");
    assert_eq!(path_from_segments(vec!["ä/", "/ö"]), "ä/ö");
}
