use matugen::cache::{image_hash, to_lower_hex, ImageCache};
use matugen::color::{ColorFormat, Source};

#[test]
fn sha256_of_bytes() {
    assert_eq!(
        image_hash(b"abc"),
        "ba7816bf8f01cfea414140de5dae2223b00361a396177a9cb410ff61f20015ad"
    );
}

#[test]
fn lower_hex_bytes() {
    assert_eq!(to_lower_hex(&[0x00, 0x0f, 0xa0, 0xff]), "000fa0ff");
}

#[test]
fn cache_of_image() {
    let source = Source::Image { path: "/home/me/walls/forest.png".to_string() };
    let cache = ImageCache::new(&source, Some(b"abc"), "/cache/images".to_string());
    assert_eq!(cache.source.as_deref(), Some("/home/me/walls/forest.png"));
    assert_eq!(
        cache.get_name(),
        "forest.png.ba7816bf8f01cfea414140de5dae2223b00361a396177a9cb410ff61f20015ad.json"
    );
    assert_eq!(cache.cache_name(), Some(cache.get_name()));
}

#[test]
fn cache_without_image() {
    let source = Source::Color(ColorFormat::Hex { string: "#ffffff".to_string() });
    let cache = ImageCache::new(&source, Some(b"abc"), "/cache".to_string());
    assert!(cache.hash.is_none());
    assert!(cache.source.is_none());
    assert_eq!(cache.cache_name(), None);
    let unreadable = ImageCache::new(&Source::Image { path: "x.png".to_string() }, None, "/c".to_string());
    assert!(unreadable.hash.is_none());
    assert_eq!(unreadable.cache_name(), None);
}
