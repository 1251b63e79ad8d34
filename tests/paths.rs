use media_gateway::classify::{classify, is_streamed, lowered_extension, FileType};
use media_gateway::error::GatewayError;
use media_gateway::path::{confine, percent_decode, resolve};

const ROOT: &[u8] = b"/srv/media";

fn resolved(p: &str) -> Result<String, GatewayError> {
    resolve(Some(p.as_bytes()), ROOT).map(|v| String::from_utf8(v).unwrap())
}

#[test]
fn absent_path_is_root() {
    assert_eq!(resolve(None, ROOT), Ok(ROOT.to_vec()));
}

#[test]
fn plain_path_joins_root() {
    assert_eq!(resolved("movies/a.mp4"), Ok("/srv/media/movies/a.mp4".to_string()));
    assert_eq!(resolved(""), Ok("/srv/media".to_string()));
}

#[test]
fn percent_encoding_is_decoded() {
    assert_eq!(resolved("my%20movies/%C3%A9t%c3%a9.mkv"), Ok("/srv/media/my movies/été.mkv".to_string()));
    assert_eq!(percent_decode(b"a%2Fb"), Some(b"a/b".to_vec()));
}

#[test]
fn invalid_percent_encoding_is_bad_request() {
    assert_eq!(resolved("a%zz"), Err(GatewayError::BadRequest));
    assert_eq!(resolved("a%2"), Err(GatewayError::BadRequest));
    assert_eq!(resolved("%"), Err(GatewayError::BadRequest));
}

#[test]
fn dot_segments_stay_inside_root() {
    assert_eq!(resolved("a/./b/../c"), Ok("/srv/media/a/c".to_string()));
    assert_eq!(resolved("a/.."), Ok("/srv/media".to_string()));
    assert_eq!(resolved("a//b/"), Ok("/srv/media/a/b".to_string()));
}

#[test]
fn escaping_root_is_bad_request() {
    assert_eq!(resolved(".."), Err(GatewayError::BadRequest));
    assert_eq!(resolved("../etc/passwd"), Err(GatewayError::BadRequest));
    assert_eq!(resolved("a/../../b"), Err(GatewayError::BadRequest));
    assert_eq!(resolved("%2e%2e/%2E%2E/x"), Err(GatewayError::BadRequest));
    assert_eq!(resolved("a%2F..%2F..%2Fx"), Err(GatewayError::BadRequest));
}

#[test]
fn absolute_looking_path_stays_inside_root() {
    assert_eq!(resolved("/etc/passwd"), Ok("/srv/media/etc/passwd".to_string()));
    assert_eq!(resolved("%2Fetc%2Fpasswd"), Ok("/srv/media/etc/passwd".to_string()));
}

#[test]
fn confine_checks_canonical_prefix() {
    assert_eq!(confine(ROOT, b"/srv/media"), Ok(()));
    assert_eq!(confine(ROOT, b"/srv/media/x/y"), Ok(()));
    assert_eq!(confine(ROOT, b"/srv/mediaX/y"), Err(GatewayError::BadRequest));
    assert_eq!(confine(ROOT, b"/srv"), Err(GatewayError::BadRequest));
    assert_eq!(confine(ROOT, b"/etc/passwd"), Err(GatewayError::BadRequest));
    assert_eq!(confine(b"/", b"/etc"), Ok(()));
}

#[test]
fn classify_by_extension() {
    assert_eq!(classify(b"/srv/media/a.mp4"), FileType::Video);
    assert_eq!(classify(b"/srv/media/A.MKV"), FileType::Video);
    assert_eq!(classify(b"clip.webm"), FileType::Video);
    assert_eq!(classify(b"song.flac"), FileType::Music);
    assert_eq!(classify(b"song.Mp3"), FileType::Music);
    assert_eq!(classify(b"notes.txt"), FileType::Text);
    assert_eq!(classify(b"subs.srt"), FileType::Text);
    assert_eq!(classify(b"photo.jpeg"), FileType::Other);
    assert_eq!(classify(b"archive.tar.gz"), FileType::Other);
}

#[test]
fn classify_without_extension_is_other() {
    assert_eq!(classify(b"README"), FileType::Other);
    assert_eq!(classify(b"dir.mp4/file"), FileType::Other);
    assert_eq!(classify(b"trailing."), FileType::Other);
    assert_eq!(classify(b""), FileType::Other);
}

#[test]
fn extension_is_lowered() {
    assert_eq!(lowered_extension(b"x/Y.TxT"), Some(b"txt".to_vec()));
    assert_eq!(lowered_extension(b"a.b/c"), None);
}

#[test]
fn media_types_are_streamed() {
    assert!(is_streamed(FileType::Video));
    assert!(is_streamed(FileType::Music));
    assert!(!is_streamed(FileType::Text));
    assert!(!is_streamed(FileType::Other));
}
