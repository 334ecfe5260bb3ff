use sync_http::mime::{ContentType, MediaType, MimeSuffix, MimeType};

#[test]
fn mime_parse_all_types() {
    let ct = ContentType::parse("*/*".into());
    assert_eq!(
        ct,
        Some(ContentType(
            MediaType::All,
            MimeType::All,
            MimeSuffix::NoSuffix,
            1000
        ))
    );
}

#[test]
fn mime_mismatched_type() {
    let ct = ContentType::parse("application/html".into());
    assert_eq!(ct, None);
}

#[test]
fn mime_parse_applications() {
    const NUM_TYPES: usize = 2;
    let app_types: [_; NUM_TYPES] = ["octet-stream", "json"];
    let mime_types: [_; NUM_TYPES] = [MimeType::OctetStream, MimeType::JSON];

    // Will cause error if more mime types are added
    match mime_types[0] {
        MimeType::All
        | MimeType::JSON
        | MimeType::OctetStream
        | MimeType::XHTML
        | MimeType::XML
        | MimeType::APNG
        | MimeType::AVIF
        | MimeType::GIF
        | MimeType::JPEG
        | MimeType::PNG
        | MimeType::SVG
        | MimeType::Webp
        | MimeType::CSS
        | MimeType::HTML
        | MimeType::Javascript
        | MimeType::Plain => {}
    }

    for i in 0..NUM_TYPES {
        let ct = ContentType::parse(format!("application/{}", app_types[i]));
        assert_eq!(
            ct,
            Some(ContentType(
                MediaType::Application,
                mime_types[i],
                MimeSuffix::NoSuffix,
                1000
            ))
        );
    }
}

#[test]
fn mime_parse_images() {
    const NUM_TYPES: usize = 7;
    let image_types: [_; NUM_TYPES] = ["apng", "avif", "gif", "jpeg", "png", "svg+xml", "webp"];
    let mime_types: [_; NUM_TYPES] = [
        MimeType::APNG,
        MimeType::AVIF,
        MimeType::GIF,
        MimeType::JPEG,
        MimeType::PNG,
        MimeType::SVG,
        MimeType::Webp,
    ];
    // the svg token carries its structured-syntax suffix
    let suffixes: [_; NUM_TYPES] = [
        MimeSuffix::NoSuffix,
        MimeSuffix::NoSuffix,
        MimeSuffix::NoSuffix,
        MimeSuffix::NoSuffix,
        MimeSuffix::NoSuffix,
        MimeSuffix::XML,
        MimeSuffix::NoSuffix,
    ];

    for i in 0..NUM_TYPES {
        let ct = ContentType::parse(format!("image/{}", image_types[i]));
        assert_eq!(
            ct,
            Some(ContentType(
                MediaType::Image,
                mime_types[i],
                suffixes[i],
                1000
            ))
        );
    }
}

#[test]
fn mime_parse_text() {
    const NUM_TYPES: usize = 4;
    let text_types: [_; NUM_TYPES] = ["css", "html", "javascript", "plain"];
    let mime_types: [_; NUM_TYPES] = [
        MimeType::CSS,
        MimeType::HTML,
        MimeType::Javascript,
        MimeType::Plain,
    ];

    for i in 0..NUM_TYPES {
        let ct = ContentType::parse(format!("text/{}", text_types[i]));
        assert_eq!(
            ct,
            Some(ContentType(
                MediaType::Text,
                mime_types[i],
                MimeSuffix::NoSuffix,
                1000
            ))
        );
    }
}

#[test]
fn tests_parse_all_types() {
    let ct = ContentType::parse("*/*".into());
    assert_eq!(
        ct,
        Some(ContentType(
            MediaType::All,
            MimeType::All,
            MimeSuffix::NoSuffix,
            1000
        ))
    );
}

#[test]
fn tests_mismatched_type() {
    let ct = ContentType::parse("application/html".into());
    assert_eq!(ct, None);
}

#[test]
fn tests_parse_applications() {
    const NUM_TYPES: usize = 2;
    let app_types: [_; NUM_TYPES] = ["octet-stream", "json"];
    let mime_types: [_; NUM_TYPES] = [MimeType::OctetStream, MimeType::JSON];

    for i in 0..NUM_TYPES {
        let ct = ContentType::parse(format!("application/{}", app_types[i]));
        assert_eq!(
            ct,
            Some(ContentType(
                MediaType::Application,
                mime_types[i],
                MimeSuffix::NoSuffix,
                1000
            ))
        );
    }
}

#[test]
fn tests_parse_images() {
    const NUM_TYPES: usize = 7;
    let image_types: [_; NUM_TYPES] = ["apng", "avif", "gif", "jpeg", "png", "svg", "webp"];
    let mime_types: [_; NUM_TYPES] = [
        MimeType::APNG,
        MimeType::AVIF,
        MimeType::GIF,
        MimeType::JPEG,
        MimeType::PNG,
        MimeType::SVG,
        MimeType::Webp,
    ];

    for i in 0..NUM_TYPES {
        let ct = ContentType::parse(format!("image/{}", image_types[i]));
        assert_eq!(
            ct,
            Some(ContentType(
                MediaType::Image,
                mime_types[i],
                MimeSuffix::NoSuffix,
                1000
            ))
        );
    }
}

#[test]
fn tests_parse_text() {
    const NUM_TYPES: usize = 4;
    let text_types: [_; NUM_TYPES] = ["css", "html", "javascript", "plain"];
    let mime_types: [_; NUM_TYPES] = [
        MimeType::CSS,
        MimeType::HTML,
        MimeType::Javascript,
        MimeType::Plain,
    ];

    for i in 0..NUM_TYPES {
        let ct = ContentType::parse(format!("text/{}", text_types[i]));
        assert_eq!(
            ct,
            Some(ContentType(
                MediaType::Text,
                mime_types[i],
                MimeSuffix::NoSuffix,
                1000
            ))
        );
    }
}

#[test]
fn mime_accept_list_keeps_partial_success() {
    // the mismatched second token is dropped, not an overall failure
    let cts = ContentType::parse_many("*/*,application/html".into());
    assert_eq!(
        cts,
        Some(vec![ContentType(
            MediaType::All,
            MimeType::All,
            MimeSuffix::NoSuffix,
            1000
        )])
    );
}

#[test]
fn mime_accept_list_fails_only_when_empty() {
    assert_eq!(ContentType::parse_many("garbage,also/garbage".into()), None);
}

#[test]
fn mime_quality_is_parsed_in_thousandths() {
    let ct = ContentType::parse("text/html;q=0.5".into());
    assert_eq!(
        ct,
        Some(ContentType(
            MediaType::Text,
            MimeType::HTML,
            MimeSuffix::NoSuffix,
            500
        ))
    );
    let ct = ContentType::parse("text/html;q=1".into());
    assert_eq!(
        ct,
        Some(ContentType(
            MediaType::Text,
            MimeType::HTML,
            MimeSuffix::NoSuffix,
            1000
        ))
    );
    let ct = ContentType::parse("text/html;q=0.1234".into());
    assert_eq!(
        ct,
        Some(ContentType(
            MediaType::Text,
            MimeType::HTML,
            MimeSuffix::NoSuffix,
            123
        ))
    );
}

#[test]
fn mime_bad_quality_is_a_hard_failure() {
    assert_eq!(ContentType::parse("text/html;q=abc".into()), None);
    assert_eq!(ContentType::parse("text/html;q=".into()), None);
    assert_eq!(ContentType::parse("text/html;q=1.2.3".into()), None);
}

#[test]
fn mime_known_suffix_is_kept() {
    let ct = ContentType::parse("application/json+gzip".into());
    assert_eq!(
        ct,
        Some(ContentType(
            MediaType::Application,
            MimeType::JSON,
            MimeSuffix::GZip,
            1000
        ))
    );
}

#[test]
fn mime_unknown_suffix_degrades_to_none() {
    let ct = ContentType::parse("application/json+blob".into());
    assert_eq!(
        ct,
        Some(ContentType(
            MediaType::Application,
            MimeType::JSON,
            MimeSuffix::NoSuffix,
            1000
        ))
    );
}

#[test]
fn mime_missing_slash_is_a_hard_failure() {
    assert_eq!(ContentType::parse("text".into()), None);
    assert_eq!(ContentType::parse("".into()), None);
}

#[test]
fn mime_associated_media_matches_vocabulary() {
    assert_eq!(MimeType::JSON.associated_media(), MediaType::Application);
    assert_eq!(MimeType::PNG.associated_media(), MediaType::Image);
    assert_eq!(MimeType::Plain.associated_media(), MediaType::Text);
    assert_eq!(MimeType::All.associated_media(), MediaType::All);
}

#[test]
fn mime_vocabulary_is_case_sensitive() {
    assert_eq!(MediaType::parse("TEXT"), None);
    assert_eq!(MimeType::parse("HTML"), None);
    assert_eq!(MediaType::parse("text"), Some(MediaType::Text));
    assert_eq!(MimeType::parse("html"), Some(MimeType::HTML));
    assert_eq!(MimeSuffix::parse("XML"), Some(MimeSuffix::NoSuffix));
    assert_eq!(MimeSuffix::parse("xml"), Some(MimeSuffix::XML));
}

#[test]
fn mime_quality_overflow_is_a_hard_failure() {
    // the largest quality a u32 holds in thousandths, and one past it
    let ct = ContentType::parse("text/html;q=4294967.295".into());
    assert_eq!(
        ct,
        Some(ContentType(
            MediaType::Text,
            MimeType::HTML,
            MimeSuffix::NoSuffix,
            4294967295
        ))
    );
    assert_eq!(ContentType::parse("text/html;q=4294967.296".into()), None);
}

#[test]
fn mime_extra_quality_sections_are_ignored() {
    // only the text between the first two q-separators is the quality
    let ct = ContentType::parse("text/html;q=0.5;q=9".into());
    assert_eq!(
        ct,
        Some(ContentType(
            MediaType::Text,
            MimeType::HTML,
            MimeSuffix::NoSuffix,
            500
        ))
    );
}
