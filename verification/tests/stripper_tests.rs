use scrubfs::stripper::{is_supported, is_supported_extension, strip_source, temp_suffix, StripSource};

#[test]
fn supported_formats_are_recognised() {
    for ext in ["jpg", "jpeg", "png", "gif", "tiff", "tif", "bmp", "webp", "pdf", "docx", "xlsx",
        "pptx", "odt", "odp", "ods", "odg", "mp3", "flac", "ogg", "m4a", "mp4", "mkv", "epub", "zip"]
    {
        assert!(is_supported_extension(ext), "{}", ext);
    }
}

#[test]
fn other_formats_are_served_unchanged() {
    assert!(!is_supported_extension("txt"));
    assert!(!is_supported_extension(""));
    assert!(!is_supported_extension("jp"));
    assert!(!is_supported_extension("jpgx"));
}

#[test]
fn extension_case_is_ignored() {
    assert!(is_supported_extension("JPG"));
    assert!(is_supported_extension("PdF"));
    assert!(is_supported("/home/alice/Photos/IMG_0001.JPEG"));
}

#[test]
fn support_is_judged_by_the_last_extension() {
    assert!(is_supported("/home/alice/photo.jpg"));
    assert!(is_supported("/home/alice/backup.tar.zip"));
    assert!(!is_supported("/home/alice/photo.jpg.txt"));
    assert!(!is_supported("/home/alice/notes.txt"));
}

#[test]
fn files_without_extension_are_not_stripped() {
    assert!(!is_supported("/home/alice/README"));
    assert!(!is_supported("/home/alice/.jpg"));
    assert!(!is_supported("/home/alice/dir.jpg/file"));
    assert!(!is_supported(""));
}

#[test]
fn the_copy_keeps_the_extension() {
    assert_eq!(temp_suffix("/home/alice/Downloads/photo.JPG"), ".JPG");
    assert_eq!(temp_suffix("/home/alice/archive.tar.gz"), ".gz");
    assert_eq!(temp_suffix("report.pdf"), ".pdf");
}

#[test]
fn a_copy_without_extension_is_named_tmp() {
    assert_eq!(temp_suffix("/home/alice/README"), ".tmp");
    assert_eq!(temp_suffix("/home/alice/.bashrc"), ".tmp");
    assert_eq!(temp_suffix("/home/alice/dir/.."), ".tmp");
    assert_eq!(temp_suffix("/"), ".tmp");
    assert_eq!(temp_suffix("name."), ".");
}

#[test]
fn the_stripped_copy_is_served_only_when_the_stripper_succeeds() {
    assert_eq!(strip_source(true), StripSource::StrippedCopy);
    assert_eq!(strip_source(false), StripSource::Unchanged);
}
