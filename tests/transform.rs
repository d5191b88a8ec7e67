use leptos_image::{check_box, placeholder_raster, placeholder_svg, resize, TransformError};
use leptos_image::{Blur, CachedImage, CachedImageOption, Resize};
use image::GenericImageView;

fn sample_png(width: u32, height: u32) -> Vec<u8> {
    let img = image::RgbImage::from_fn(width, height, |x, y| {
        image::Rgb([(x * 7 % 256) as u8, (y * 13 % 256) as u8, 128])
    });
    let mut bytes: Vec<u8> = Vec::new();
    image::DynamicImage::ImageRgb8(img)
        .write_to(&mut std::io::Cursor::new(&mut bytes), image::ImageOutputFormat::Png)
        .unwrap();
    bytes
}

fn webp_of(img: &image::DynamicImage, quality: f32) -> Vec<u8> {
    let encoder = webp::Encoder::from_image(img).unwrap();
    encoder.encode(quality).to_vec()
}

fn blur_placeholder(source: &[u8], blur: &Blur) -> Result<String, TransformError> {
    let raster = placeholder_raster(source, blur)?;
    let webp = webp_of(&raster, 80.0);
    Ok(placeholder_svg(&webp, blur))
}

const TEST_BLUR: Blur = Blur { width: 25, height: 25, svg_height: 100, svg_width: 100, sigma: 20 };

#[test]
fn test_encode() {
    let result = blur_placeholder(&sample_png(64, 48), &TEST_BLUR);
    println!("{}", result.unwrap());
}

#[test]
fn test_save_svg() {
    let spec = CachedImage {
        src: "test.jpg".to_string(),
        option: CachedImageOption::Blur(TEST_BLUR),
    };
    let file_path = spec.get_file_path().unwrap();
    let result = blur_placeholder(&sample_png(64, 48), &TEST_BLUR);
    assert!(result.is_ok());
    assert!(file_path.ends_with("test.jpg.svg"));
}

#[test]
fn create_blur() {
    let result = blur_placeholder(&sample_png(120, 80), &TEST_BLUR);
    assert!(result.is_ok());
    println!("{}", result.unwrap());
}

#[test]
fn create_and_save_blur() {
    let spec = CachedImage {
        src: "example/image-example/public/cute_ferris.png".to_string(),
        option: CachedImageOption::Blur(TEST_BLUR),
    };
    let file_path = spec.get_file_path().unwrap();
    let result = blur_placeholder(&sample_png(120, 80), &TEST_BLUR);
    assert!(result.is_ok());
    println!("Saved SVG at {file_path}");
}

#[test]
fn create_opt_image() {
    let spec = CachedImage {
        src: "example/image-example/public/cute_ferris.png".to_string(),
        option: CachedImageOption::Resize(Resize { quality: 75, width: 100, height: 100 }),
    };
    let file_path = spec.get_file_path().unwrap();
    let result = resize(&sample_png(300, 200), 100, 100).map(|img| webp_of(&img, 75.0));
    assert!(result.is_ok());
    println!("Saved WebP at {file_path}");
}

#[test]
fn resize_fits_the_box_and_keeps_the_aspect_ratio() {
    let img = resize(&sample_png(300, 200), 100, 100).unwrap();
    assert_eq!(img.dimensions(), (100, 67));
    let webp = webp_of(&img, 75.0);
    assert!(!webp.is_empty());
}

#[test]
fn zero_dimensions_fail_cleanly() {
    let png = sample_png(10, 10);
    assert!(matches!(resize(&png, 0, 100), Err(TransformError::InvalidDimensions)));
    assert!(matches!(resize(&png, 100, 0), Err(TransformError::InvalidDimensions)));
    let blur = Blur { width: 0, height: 20, svg_width: 500, svg_height: 500, sigma: 15 };
    assert!(matches!(placeholder_raster(&png, &blur), Err(TransformError::InvalidDimensions)));
    assert_eq!(check_box(0, 0), Err(TransformError::InvalidDimensions));
}

#[test]
fn oversized_box_is_rejected() {
    assert_eq!(check_box(8192, 8192), Ok(()));
    assert_eq!(check_box(8193, 8192), Err(TransformError::InvalidDimensions));
    assert_eq!(check_box(u32::MAX, u32::MAX), Err(TransformError::InvalidDimensions));
}

#[test]
fn unreadable_source_is_a_decode_error() {
    assert!(matches!(resize(b"not an image", 10, 10), Err(TransformError::Decode)));
    assert!(matches!(placeholder_raster(b"", &TEST_BLUR), Err(TransformError::Decode)));
}

#[test]
fn placeholder_document_has_the_declared_viewport_and_one_image() {
    let blur = Blur { width: 20, height: 20, svg_width: 500, svg_height: 500, sigma: 15 };
    let svg = blur_placeholder(&sample_png(64, 64), &blur).unwrap();
    assert!(svg.contains("viewBox=\"0 0 500 500\""));
    assert_eq!(svg.matches("<image").count(), 1);
    assert_eq!(svg.matches("data:image/webp;base64,").count(), 1);
    assert!(svg.contains("stdDeviation=\"15\""));
    assert!(svg.contains("edgeMode=\"duplicate\""));
    assert!(svg.contains("<feFuncA type=\"discrete\" tableValues=\"1 1\"/>"));
}

#[test]
fn placeholder_embeds_the_raster_as_standard_base64() {
    let blur = Blur { width: 1, height: 1, svg_width: 3, svg_height: 4, sigma: 5 };
    // bytes whose base64 uses '+' and '/'
    let svg = placeholder_svg(&[0xfb, 0xff, 0xbf], &blur);
    assert!(svg.contains("href=\"data:image/webp;base64,+/+/\""), "{svg}");
    assert!(svg.starts_with("<svg xmlns=\"http://www.w3.org/2000/svg\""));
    assert!(svg.contains("viewBox=\"0 0 3 4\""));
    assert!(svg.ends_with("</svg>\n"));
}

#[test]
fn placeholder_is_deterministic() {
    let blur = Blur { width: 20, height: 20, svg_width: 500, svg_height: 500, sigma: 15 };
    let png = sample_png(64, 64);
    let first = blur_placeholder(&png, &blur).unwrap();
    let second = blur_placeholder(&png, &blur).unwrap();
    assert_eq!(first, second);
}
