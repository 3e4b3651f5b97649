use audion::ImageFormat;

#[test]
fn test_image_format_detection() {
    // JPEG
    let jpeg_bytes = vec![0xFF, 0xD8, 0xFF, 0xE0];
    assert!(matches!(ImageFormat::from_bytes(&jpeg_bytes), Some(ImageFormat::Jpeg)));

    // PNG
    let png_bytes = vec![0x89, 0x50, 0x4E, 0x47, 0x0D, 0x0A, 0x1A, 0x0A];
    assert!(matches!(ImageFormat::from_bytes(&png_bytes), Some(ImageFormat::Png)));

    // Invalid
    let invalid_bytes = vec![0x00, 0x00, 0x00, 0x00];
    assert!(ImageFormat::from_bytes(&invalid_bytes).is_none());
}

#[test]
fn test_format_extension() {
    assert_eq!(ImageFormat::Jpeg.extension(), "jpg");
    assert_eq!(ImageFormat::Png.extension(), "png");
    assert_eq!(ImageFormat::Webp.extension(), "webp");
}

#[test]
fn webp_needs_riff_and_form_type() {
    let mut webp = Vec::new();
    webp.extend_from_slice(b"RIFF");
    webp.extend_from_slice(&[0x10, 0x00, 0x00, 0x00]);
    webp.extend_from_slice(b"WEBP");
    assert!(matches!(ImageFormat::from_bytes(&webp), Some(ImageFormat::Webp)));

    // RIFF with another form type is rejected.
    let mut avi = Vec::new();
    avi.extend_from_slice(b"RIFF");
    avi.extend_from_slice(&[0x10, 0x00, 0x00, 0x00]);
    avi.extend_from_slice(b"AVI ");
    assert!(ImageFormat::from_bytes(&avi).is_none());
}

#[test]
fn short_blobs_are_rejected() {
    // Three bytes are not enough, even for a JPEG prefix.
    assert!(ImageFormat::from_bytes(&[0xFF, 0xD8, 0xFF]).is_none());
    assert!(ImageFormat::from_bytes(&[]).is_none());
}
