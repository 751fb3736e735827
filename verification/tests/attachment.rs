use imessage_database::attachment::{Attachment, MediaType};

use std::path::Path;

fn sample_attachment() -> Attachment {
    Attachment {
        rowid: 1,
        filename: Some("a/b/c.png".to_string()),
        mime_type: Some("image".to_string()),
        transfer_name: Some("c.png".to_string()),
        total_bytes: 100,
        hide_attachment: 0,
        copied_path: None,
    }
}

#[test]
fn can_get_path() {
    let attachment = sample_attachment();
    assert_eq!(attachment.path().map(Path::new), Some(Path::new("a/b/c.png")));
}

#[test]
fn cant_get_path_missing() {
    let mut attachment = sample_attachment();
    attachment.filename = None;
    assert_eq!(attachment.path(), None);
}

#[test]
fn can_get_extension() {
    let attachment = sample_attachment();
    assert_eq!(attachment.extension(), Some("png"));
}

#[test]
fn cant_get_extension_missing() {
    let mut attachment = sample_attachment();
    attachment.filename = None;
    assert_eq!(attachment.extension(), None);
}

#[test]
fn can_get_mime_type() {
    let attachment = sample_attachment();
    assert_eq!(attachment.mime_type(), MediaType::Image("image"));
}

#[test]
fn can_get_mime_type_fake() {
    let mut attachment = sample_attachment();
    attachment.mime_type = Some("bloop".to_string());
    assert_eq!(attachment.mime_type(), MediaType::Other("bloop"));
}

#[test]
fn can_get_mime_type_missing() {
    let mut attachment = sample_attachment();
    attachment.mime_type = None;
    assert_eq!(attachment.mime_type(), MediaType::Unknown);
}

#[test]
fn can_get_filename() {
    let attachment = sample_attachment();
    assert_eq!(attachment.filename(), "c.png");
}

#[test]
fn can_get_filename_no_transfer_name() {
    let mut attachment = sample_attachment();
    attachment.transfer_name = None;
    assert_eq!(attachment.filename(), "a/b/c.png");
}

#[test]
fn can_get_filename_no_filename() {
    let mut attachment = sample_attachment();
    attachment.filename = None;
    assert_eq!(attachment.filename(), "c.png");
}

#[test]
fn can_get_filename_no_meta() {
    let mut attachment = sample_attachment();
    attachment.transfer_name = None;
    attachment.filename = None;
    assert_eq!(attachment.filename(), "Attachment missing name metadata!");
}

#[test]
fn mime_types_classify_by_major_token() {
    let mut attachment = sample_attachment();
    attachment.mime_type = Some("video/mp4".to_string());
    assert_eq!(attachment.mime_type(), MediaType::Video("video/mp4"));
    attachment.mime_type = Some("audio/aac".to_string());
    assert_eq!(attachment.mime_type(), MediaType::Audio("audio/aac"));
    attachment.mime_type = Some("text/plain".to_string());
    assert_eq!(attachment.mime_type(), MediaType::Text("text/plain"));
    attachment.mime_type = Some("application/pdf".to_string());
    assert_eq!(attachment.mime_type(), MediaType::Application("application/pdf"));
    attachment.mime_type = Some("image/png".to_string());
    assert_eq!(attachment.mime_type(), MediaType::Image("image/png"));
}

#[test]
fn leading_dot_component_has_no_extension() {
    let mut attachment = sample_attachment();
    attachment.filename = Some("a/b/.hidden".to_string());
    assert_eq!(attachment.extension(), None);
}

#[test]
fn trailing_dot_gives_empty_extension() {
    let mut attachment = sample_attachment();
    attachment.filename = Some("a/b/c.".to_string());
    assert_eq!(attachment.extension(), Some(""));
}

#[test]
fn dotted_archive_has_last_extension() {
    let mut attachment = sample_attachment();
    attachment.filename = Some("dir/archive.tar.gz".to_string());
    assert_eq!(attachment.extension(), Some("gz"));
}
