//! Which files are read.
use texture_graph::file::{is_white_space, MAGIC_PREFIX};
use texture_graph::{
    check_magic, check_version, FileError, FileMetadata, Graph, TextureGraphFile,
    CURRENT_FORMAT_VERSION, FILE_EXTENSION,
};

/// The other direction is what the version is for: a file from a newer build is
/// refused rather than half-read.
#[test]
fn a_future_version_is_refused() {
    assert!(matches!(
        check_version(CURRENT_FORMAT_VERSION + 1).unwrap_err(),
        FileError::UnsupportedVersion(_)
    ));
    assert_eq!(check_version(u32::MAX), Err(FileError::UnsupportedVersion(u32::MAX)));
    for older in 0..=CURRENT_FORMAT_VERSION {
        assert_eq!(check_version(older), Ok(()));
    }
}

#[test]
fn rejects_non_texture_graph_file() {
    let err = check_magic("SomeOtherFormat(foo: 1)").unwrap_err();
    assert!(matches!(err, FileError::NotATextureGraph));
}

#[test]
fn the_magic_may_follow_white_space() {
    assert_eq!(check_magic(MAGIC_PREFIX), Ok(()));
    assert_eq!(check_magic("\u{2003}\r\n\t TextureGraphFile(format_version: 1"), Ok(()));
    for bad in ["", "  ", "TextureGraphFile", "xTextureGraphFile(", "TextureGraphfile("] {
        assert_eq!(check_magic(bad), Err(FileError::NotATextureGraph), "{bad:?}");
    }
}

#[test]
fn white_space_is_what_unicode_says() {
    for n in 0..=0x10_ffffu32 {
        if let Some(c) = char::from_u32(n) {
            assert_eq!(is_white_space(c), c.is_whitespace(), "{n:#x}");
        }
    }
}

#[test]
fn a_graph_is_packaged_at_the_current_version() {
    let meta = FileMetadata { name: "test".to_string(), ..FileMetadata::default() };
    assert!(meta.description.is_none() && meta.authors.is_empty() && meta.modified.is_empty());
    let file = TextureGraphFile::new(meta, Graph::new());
    assert_eq!(file.format_version, 2);
    assert_eq!(file.metadata.name, "test");
    assert_eq!(file.graph.layers.len(), 1);
    assert_eq!(FILE_EXTENSION, "tgraph");
}
