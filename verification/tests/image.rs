use radiumical_core::image::{build_multipart_content, guess_mime, load_image_part, mime_for_extension};
use radiumical_core::types::{ContentPart, MessageContent};

fn url_of(p: &ContentPart) -> &str {
    match p {
        ContentPart::Image { url } => url,
        ContentPart::Text { .. } => panic!("expected an image part"),
    }
}

#[test]
fn test_guess_mime() {
    assert_eq!(guess_mime("shots/a.PNG"), "image/png");
    assert_eq!(guess_mime("photo.jpeg"), "image/jpeg");
    assert_eq!(guess_mime("photo.JPG"), "image/jpeg");
    assert_eq!(guess_mime("anim.gif"), "image/gif");
    assert_eq!(guess_mime("x.webp"), "image/webp");
    assert_eq!(guess_mime("x.bmp"), "image/bmp");
    assert_eq!(guess_mime("logo.svg"), "image/svg+xml");
    assert_eq!(guess_mime("noext"), "image/png");
    assert_eq!(guess_mime(".hidden"), "image/png");
    assert_eq!(guess_mime("a.tiff"), "image/png");
}

#[test]
fn test_base64_data_url() {
    let p = load_image_part("a.png", b"hello");
    assert_eq!(url_of(&p), "data:image/png;base64,aGVsbG8=");
    let p = load_image_part("a.jpg", b"Man");
    assert_eq!(url_of(&p), "data:image/jpeg;base64,TWFu");
    let p = load_image_part("a.gif", b"");
    assert_eq!(url_of(&p), "data:image/gif;base64,");
    for (input, want) in [("f", "Zg=="), ("fo", "Zm8="), ("foo", "Zm9v"), ("foob", "Zm9vYg=="), ("fooba", "Zm9vYmE="), ("foobar", "Zm9vYmFy")] {
        let p = load_image_part("x.png", input.as_bytes());
        assert_eq!(url_of(&p), format!("data:image/png;base64,{want}"));
    }
    let p = load_image_part("x.png", &[0xfb, 0xff, 0xbf]);
    assert_eq!(url_of(&p), "data:image/png;base64,+/+/");
}

#[test]
fn test_build_multipart_content() {
    let images = vec![("a.png".to_string(), b"hi".to_vec()), ("b.webp".to_string(), vec![0u8, 1, 2])];
    match build_multipart_content("look", &images) {
        MessageContent::Parts(parts) => {
            assert_eq!(parts.len(), 3);
            assert!(matches!(&parts[0], ContentPart::Text { text } if text == "look"));
            assert_eq!(url_of(&parts[1]), "data:image/png;base64,aGk=");
            assert_eq!(url_of(&parts[2]), "data:image/webp;base64,AAEC");
        }
        MessageContent::Text(_) => panic!("expected parts"),
    }
}

#[test]
fn mime_for_lower_case_extensions() {
    assert_eq!(mime_for_extension("jpeg"), "image/jpeg");
    assert_eq!(mime_for_extension("svg"), "image/svg+xml");
    assert_eq!(mime_for_extension("JPG"), "image/png");
    assert_eq!(mime_for_extension("tiff"), "image/png");
}
