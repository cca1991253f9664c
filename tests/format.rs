use rust_thumbnails::{source_format, FormatError, SourceFormat};

#[test]
fn dispatch_by_extension() {
    assert_eq!(source_format("scene.hdr"), Ok(SourceFormat::Hdr));
    assert_eq!(source_format("/tmp/a.b.exr"), Ok(SourceFormat::Exr));
    assert_eq!(source_format("photo.png"), Err(FormatError::UnsupportedFormat));
    assert_eq!(source_format("hdr"), Err(FormatError::UnsupportedFormat));
    assert_eq!(source_format(".hdr"), Ok(SourceFormat::Hdr));
    assert_eq!(source_format("x.HDR"), Err(FormatError::UnsupportedFormat));
    assert_eq!(source_format(""), Err(FormatError::UnsupportedFormat));
}
