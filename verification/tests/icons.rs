use base64::Engine;
use mixflow::icons::{bmp_bytes, icon_data_uri, icon_dims_ok, IconCache};

#[test]
fn icon_dimensions_are_bounded() {
    assert!(icon_dims_ok(16, 16));
    assert!(icon_dims_ok(256, 1));
    assert!(!icon_dims_ok(0, 16));
    assert!(!icon_dims_ok(16, -1));
    assert!(!icon_dims_ok(257, 16));
}

#[test]
fn bmp_headers_describe_the_pixels() {
    let pixels: Vec<u8> = (0..16).collect(); // 2 x 2 BGRA
    let file = bmp_bytes(2, 2, &pixels);
    assert_eq!(file.len(), 54 + 16);
    assert_eq!(&file[0..2], b"BM");
    assert_eq!(&file[2..6], &70u32.to_le_bytes());
    assert_eq!(&file[6..10], &0u32.to_le_bytes());
    assert_eq!(&file[10..14], &54u32.to_le_bytes());
    assert_eq!(&file[14..18], &40u32.to_le_bytes());
    assert_eq!(&file[18..22], &2i32.to_le_bytes());
    assert_eq!(&file[22..26], &2i32.to_le_bytes());
    assert_eq!(&file[26..28], &1u16.to_le_bytes());
    assert_eq!(&file[28..30], &32u16.to_le_bytes());
    assert_eq!(&file[30..34], &0u32.to_le_bytes());
    assert_eq!(&file[34..38], &16u32.to_le_bytes());
    assert!(file[38..54].iter().all(|&b| b == 0));
    assert_eq!(&file[54..], &pixels[..]);
}

#[test]
fn large_icons_encode_their_sizes_little_endian() {
    let pixels = vec![7u8; 4 * 256 * 3];
    let file = bmp_bytes(256, 3, &pixels);
    assert_eq!(&file[2..6], &(54u32 + 3072).to_le_bytes());
    assert_eq!(&file[18..22], &256i32.to_le_bytes());
    assert_eq!(&file[34..38], &3072u32.to_le_bytes());
}

#[test]
fn the_data_uri_is_base64_of_the_bmp() {
    let pixels: Vec<u8> = vec![0x10, 0x20, 0x30, 0xff];
    let uri = icon_data_uri(1, 1, &pixels);
    let expected = format!(
        "data:image/bmp;base64,{}",
        base64::engine::general_purpose::STANDARD.encode(bmp_bytes(1, 1, &pixels))
    );
    assert_eq!(uri, expected);
    assert!(uri.starts_with("data:image/bmp;base64,Qk"));
    assert_eq!(uri.len(), "data:image/bmp;base64,".len() + 4 * ((58 + 2) / 3));
}

#[test]
fn the_icon_cache_reads_back_what_it_stored() {
    let mut c = IconCache::new();
    assert_eq!(c.get("C:\\a.exe"), None);
    c.put("C:\\a.exe", Some("data:x".to_string()));
    c.put("C:\\b.exe", None);
    assert_eq!(c.get("C:\\a.exe"), Some(Some("data:x".to_string())));
    assert_eq!(c.get("C:\\b.exe"), Some(None));
    c.put("C:\\a.exe", Some("data:y".to_string()));
    assert_eq!(c.get("C:\\a.exe"), Some(Some("data:y".to_string())));
    assert_eq!(c.get("C:\\c.exe"), None);
}
