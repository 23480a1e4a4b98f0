use htmx_rs_todo::forms::{
    content_type_for_filename, decode_form_value_exec, get_file_extension_from_content_type,
    is_supported_image_type, parse_checkbox_form, parse_optional_usize, parse_usize,
    split_field, PhotoUploadLimits,
};

#[test]
fn checkbox_form_reads_list_and_ingredients() {
    let f = parse_checkbox_form(b"list_id=2&ingredients=1+cup+flour&ingredients=2%20eggs");
    assert_eq!(f.list_id, 2);
    assert_eq!(f.ingredients, vec!["1 cup flour".to_string(), "2 eggs".to_string()]);
}

#[test]
fn checkbox_form_last_list_id_wins_and_bad_number_is_zero() {
    assert_eq!(parse_checkbox_form(b"list_id=3&list_id=5").list_id, 5);
    assert_eq!(parse_checkbox_form(b"list_id=3&list_id=abc").list_id, 0);
    assert_eq!(parse_checkbox_form(b"ingredients=x").list_id, 0);
}

#[test]
fn checkbox_form_skips_pieces_without_equals_and_other_fields() {
    let f = parse_checkbox_form(b"junk&&other=1&ingredients=&ingredients=a=b");
    assert_eq!(f.list_id, 0);
    assert_eq!(f.ingredients, vec!["".to_string(), "a=b".to_string()]);
}

#[test]
fn checkbox_form_invalid_utf8_reads_empty() {
    let f = parse_checkbox_form(&[0xff, 0xfe, b'=', b'1']);
    assert_eq!(f.list_id, 0);
    assert!(f.ingredients.is_empty());
    let e = parse_checkbox_form(b"");
    assert_eq!(e.list_id, 0);
    assert!(e.ingredients.is_empty());
}

#[test]
fn form_values_decode_plus_then_pct20() {
    assert_eq!(decode_form_value_exec("a+b%20c"), "a b c");
    assert_eq!(decode_form_value_exec("%2"), "%2");
    assert_eq!(decode_form_value_exec("%%20"), "% ");
    assert_eq!(decode_form_value_exec("%2B"), "%2B");
    let (k, v) = split_field("name=x+y").unwrap();
    assert_eq!((k.as_str(), v.as_str()), ("name", "x y"));
    assert!(split_field("novalue").is_none());
}

#[test]
fn usize_parsing_follows_from_str() {
    assert_eq!(parse_usize("42"), Some(42));
    assert_eq!(parse_usize("+7"), Some(7));
    assert_eq!(parse_usize("+"), None);
    assert_eq!(parse_usize(""), None);
    assert_eq!(parse_usize("1 "), None);
    assert_eq!(parse_usize("-1"), None);
    assert_eq!(parse_usize("18446744073709551615"), Some(usize::MAX));
    assert_eq!(parse_usize("18446744073709551616"), None);
    for s in ["0", "007", "123456", "+", "x1", "99999999999999999999"] {
        assert_eq!(parse_usize(s), s.parse::<usize>().ok());
    }
}

#[test]
fn optional_usize_empty_is_none() {
    assert_eq!(parse_optional_usize(None), Ok(None));
    assert_eq!(parse_optional_usize(Some(String::new())), Ok(None));
    assert_eq!(parse_optional_usize(Some("12".to_string())), Ok(Some(12)));
    assert!(parse_optional_usize(Some("x".to_string())).is_err());
}

#[test]
fn supported_image_types() {
    for t in ["image/jpeg", "image/jpg", "image/png", "image/webp"] {
        assert!(is_supported_image_type(t));
    }
    assert!(!is_supported_image_type("image/gif"));
    assert!(!is_supported_image_type("image/PNG"));
    assert!(!is_supported_image_type(""));
}

#[test]
fn extensions_by_content_type() {
    assert_eq!(get_file_extension_from_content_type("image/jpeg"), "jpg");
    assert_eq!(get_file_extension_from_content_type("image/jpg"), "jpg");
    assert_eq!(get_file_extension_from_content_type("image/png"), "png");
    assert_eq!(get_file_extension_from_content_type("image/webp"), "webp");
    assert_eq!(get_file_extension_from_content_type("text/plain"), "jpg");
}

#[test]
fn content_types_by_file_name() {
    assert_eq!(content_type_for_filename("a.jpg"), "image/jpeg");
    assert_eq!(content_type_for_filename("a.jpeg"), "image/jpeg");
    assert_eq!(content_type_for_filename("a.png"), "image/png");
    assert_eq!(content_type_for_filename("a.webp"), "image/webp");
    assert_eq!(content_type_for_filename("a.svg"), "application/octet-stream");
    assert_eq!(content_type_for_filename("png"), "application/octet-stream");
}

#[test]
fn photo_limits() {
    let l = PhotoUploadLimits::default();
    assert_eq!(l.max_photos, 10);
    assert_eq!(l.max_file_size, 10 * 1024 * 1024);
    assert!(!l.accepts_size(0));
    assert!(l.accepts_size(1));
    assert!(l.accepts_size(10 * 1024 * 1024));
    assert!(!l.accepts_size(10 * 1024 * 1024 + 1));
    assert_eq!(l.photos_to_take(3, 20), 7);
    assert_eq!(l.photos_to_take(3, 2), 2);
    assert_eq!(l.photos_to_take(10, 2), 0);
    assert_eq!(l.photos_to_take(12, 2), 0);
}
