use pdftool_core::{
    gs_device, image_extension, is_markdown_extension, page_list_string, strip_extension,
    u32_to_string, valid_quality,
};

#[test]
fn test_gs_device_known_formats() {
    assert_eq!(gs_device("png").unwrap(), "png16m");
    assert_eq!(gs_device("jpeg").unwrap(), "jpeg");
    assert_eq!(gs_device("jpg").unwrap(), "jpeg");
}

#[test]
fn test_gs_device_unknown_format() {
    assert_eq!(
        gs_device("bmp").unwrap_err(),
        "Unsupported format 'bmp'. Must be: png, jpeg"
    );
}

#[test]
fn test_image_extension() {
    assert_eq!(image_extension("jpg"), "jpeg");
    assert_eq!(image_extension("jpeg"), "jpeg");
    assert_eq!(image_extension("png"), "png");
}

#[test]
fn test_valid_qualities() {
    assert!(valid_quality("screen"));
    assert!(valid_quality("ebook"));
    assert!(valid_quality("printer"));
    assert!(valid_quality("prepress"));
    assert!(!valid_quality("draft"));
    assert!(!valid_quality("EBOOK"));
}

#[test]
fn test_markdown_extensions() {
    assert!(is_markdown_extension("md"));
    assert!(is_markdown_extension("MD"));
    assert!(is_markdown_extension("markdown"));
    assert!(is_markdown_extension("Markdown"));
    assert!(!is_markdown_extension("txt"));
    assert!(!is_markdown_extension("mdown"));
}

#[test]
fn test_strip_extension() {
    assert_eq!(strip_extension("report.pdf"), "report");
    assert_eq!(strip_extension("archive.tar.gz"), "archive.tar");
    assert_eq!(strip_extension("noext"), "noext");
    assert_eq!(strip_extension(".bashrc"), ".bashrc");
    assert_eq!(strip_extension(""), "");
}

#[test]
fn test_u32_to_string() {
    assert_eq!(u32_to_string(0), "0");
    assert_eq!(u32_to_string(42), "42");
    assert_eq!(u32_to_string(4294967295), "4294967295");
}

#[test]
fn test_page_list_string() {
    assert_eq!(page_list_string(&vec![1, 3, 4, 5, 8]), "1,3,4,5,8");
    assert_eq!(page_list_string(&vec![7]), "7");
    assert_eq!(page_list_string(&Vec::new()), "");
}
