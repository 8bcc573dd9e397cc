use imgsearch::errors::AppError;
use imgsearch::errors::classify_status;
use imgsearch::hashing::sign;
use imgsearch::paths::is_support_file;
use imgsearch::paths::lancedb_dir;
use imgsearch::paths::logs_dir;
use imgsearch::paths::thumbnail_dir;
use imgsearch::text::base_name;
use imgsearch::text::concat_str;
use imgsearch::text::extension;
use imgsearch::text::path_under;
use imgsearch::text::replace_prefix;
use imgsearch::text::starts_with_str;
use imgsearch::text::str_eq;
use imgsearch::thumbs::downscale_dims;
use imgsearch::thumbs::guess_format;
use imgsearch::thumbs::ImageFormat;

#[test]
fn str_eq_basic() {
    assert!(str_eq("abc", "abc"));
    assert!(!str_eq("abc", "abd"));
    assert!(!str_eq("abc", "ab"));
    assert!(str_eq("", ""));
}

#[test]
fn starts_with_basic() {
    assert!(starts_with_str("/photos/a.jpg", "/photos"));
    assert!(!starts_with_str("/photos", "/photos/a.jpg"));
    assert!(starts_with_str("abc", ""));
}

#[test]
fn concat_and_replace_prefix() {
    assert_eq!(concat_str("/a", "/b"), "/a/b");
    assert_eq!(replace_prefix("/old/dir/f.png", "/old", "/new"), "/new/dir/f.png");
    assert_eq!(replace_prefix("/old", "/old", "/new"), "/new");
}

#[test]
fn base_name_and_extension() {
    assert_eq!(base_name("/photos/cat.jpg"), "cat.jpg");
    assert_eq!(base_name("cat.jpg"), "cat.jpg");
    assert_eq!(base_name("/photos/"), "");
    assert_eq!(extension("/photos/cat.jpg"), Some("jpg".to_string()));
    assert_eq!(extension("/photos/archive.tar.gz"), Some("gz".to_string()));
    assert_eq!(extension("/photos/noext"), None);
    assert_eq!(extension("/photos/.hidden"), None);
    assert_eq!(extension("/photos.d/noext"), None);
}

#[test]
fn path_under_respects_separator_boundary() {
    assert!(path_under("/root/sub", "/root/sub"));
    assert!(path_under("/root/sub/a.jpg", "/root/sub"));
    assert!(!path_under("/root/subother", "/root/sub"));
    assert!(!path_under("/root/su", "/root/sub"));
}

#[test]
fn supported_files_by_extension() {
    assert!(is_support_file("/a/b.jpg"));
    assert!(is_support_file("/a/b.jpeg"));
    assert!(is_support_file("/a/b.png"));
    assert!(is_support_file("/a/b.webp"));
    assert!(!is_support_file("/a/b.txt"));
    assert!(!is_support_file("/a/b"));
    assert!(!is_support_file("/a/.png"));
}

#[test]
fn data_dir_layout() {
    assert_eq!(logs_dir("/home/u/.imgsearch"), "/home/u/.imgsearch/logs");
    assert_eq!(lancedb_dir("/home/u/.imgsearch"), "/home/u/.imgsearch/db");
    assert_eq!(
        thumbnail_dir("/home/u/.imgsearch", "abcd"),
        "/home/u/.imgsearch/thumbnails/abcd"
    );
}

#[test]
fn sign_is_sha256_hex() {
    // SHA-256 of "abc", independently known.
    assert_eq!(
        sign(b"abc"),
        "ba7816bf8f01cfea414140de5dae2223b00361a396177a9cb410ff61f20015ad"
    );
    assert_eq!(sign(b"abc").len(), 64);
    assert_ne!(sign(b"abc"), sign(b"abd"));
    assert_eq!(
        sign(b""),
        "e3b0c44298fc1c149afbf4c8996fb92427ae41e4649b934ca495991b7852b855"
    );
}

#[test]
fn guess_format_magic_bytes() {
    let png: Vec<u8> = vec![0x89, 0x50, 0x4e, 0x47, 0x0d, 0x0a, 0x1a, 0x0a, 1, 2, 3];
    assert!(matches!(guess_format(&png), Ok(ImageFormat::Png)));
    let jpg: Vec<u8> = vec![0xff, 0xd8, 0xff, 0xe0, 0x00];
    assert!(matches!(guess_format(&jpg), Ok(ImageFormat::Jpeg)));
    let webp: Vec<u8> = vec![
        0x52, 0x49, 0x46, 0x46, 0x00, 0x01, 0x02, 0x03, 0x57, 0x45, 0x42, 0x50, 9, 9,
    ];
    assert!(matches!(guess_format(&webp), Ok(ImageFormat::Webp)));
    let garbage: Vec<u8> = vec![0, 1, 2, 3, 4, 5, 6, 7, 8, 9, 10, 11, 12];
    assert!(matches!(guess_format(&garbage), Err(AppError::ImgFormat(_))));
    let empty: Vec<u8> = Vec::new();
    assert!(matches!(guess_format(&empty), Err(AppError::ImgFormat(_))));
}

#[test]
fn downscale_geometry() {
    // 600x400 lands at 512x341 (341 = floor(512*400/600)).
    assert_eq!(downscale_dims(600, 400), Some((512, 341)));
    // Narrow sources are kept verbatim.
    assert_eq!(downscale_dims(300, 200), None);
    assert_eq!(downscale_dims(511, 10_000), None);
    // The threshold itself is downscaled (to the same width).
    assert_eq!(downscale_dims(512, 200), Some((512, 200)));
    assert_eq!(downscale_dims(1024, 768), Some((512, 384)));
    // Floor division.
    assert_eq!(downscale_dims(1000, 999), Some((512, 511)));
}

#[test]
fn classify_status_maps_http_failures() {
    assert!(matches!(
        classify_status(412, "image_index count not enough".to_string()),
        AppError::RightsLimit(_)
    ));
    assert!(matches!(
        classify_status(401, "apikey has been invalid".to_string()),
        AppError::Auth(_)
    ));
    assert!(matches!(classify_status(500, "boom".to_string()), AppError::Internal(_)));
    assert!(matches!(classify_status(404, "gone".to_string()), AppError::Internal(_)));
}

#[test]
fn error_messages_carry_detail() {
    let e = AppError::Auth("server not ready".to_string());
    assert_eq!(e.message(), "server not ready");
    let e = AppError::Network("host unreachable".to_string());
    assert_eq!(e.message(), "host unreachable");
}
