use heven::{rgb, rgba, text_signature, LinearRGB, TextSpan, TextStyle};

#[test]
fn new_keeps_channels_in_order() {
    assert_eq!(LinearRGB::new(1, 2, 3, 4).as_bytes(), [1, 2, 3, 4]);
}

#[test]
fn rgb_is_opaque() {
    assert_eq!(rgb(10, 20, 30).as_bytes(), [10, 20, 30, 255]);
    assert_eq!(rgb(10, 20, 30), rgba(10, 20, 30, 255));
}

#[test]
fn rgba_keeps_alpha() {
    assert_eq!(rgba(80, 120, 180, 32).as_bytes(), [80, 120, 180, 32]);
    assert_ne!(rgba(80, 120, 180, 32), rgb(80, 120, 180));
}

#[test]
fn text_span_copies_content_and_style() {
    let style = TextStyle::new(rgb(200, 0, 0));
    let span = TextSpan::new("Hello", style);
    assert_eq!(span.content(), "Hello");
    assert_eq!(span.style().color(), rgb(200, 0, 0));
}

#[test]
fn signature_of_no_spans_is_zero() {
    assert_eq!(text_signature(&[]), 0);
}

#[test]
fn signature_mixes_length_bytes_and_color() {
    let spans = [TextSpan::new("ab", TextStyle::new(rgb(1, 2, 3)))];
    assert_eq!(text_signature(&spans), 32155186239);
}

#[test]
fn signature_wraps_and_counts_utf8_bytes() {
    let spans = [
        TextSpan::new("hi", TextStyle::new(rgb(0, 0, 0))),
        TextSpan::new("\u{e9}", TextStyle::new(rgba(9, 8, 7, 6))),
    ];
    assert_eq!(text_signature(&spans), 5547567087694955590);
}

#[test]
fn signature_sees_color_changes() {
    let red = [TextSpan::new("World", TextStyle::new(rgb(200, 0, 0)))];
    let red_again = [TextSpan::new("World", TextStyle::new(rgb(200, 0, 0)))];
    let green = [TextSpan::new("World", TextStyle::new(rgb(0, 50, 0)))];
    assert_eq!(text_signature(&red), text_signature(&red_again));
    assert_ne!(text_signature(&red), text_signature(&green));
}

#[test]
fn shaping_is_reused_until_the_signature_changes() {
    let mut cache: heven::ShapingCache<&str> = heven::ShapingCache::new();
    assert_eq!(cache.fresh(1, 10), None);
    cache.store(1, 10, "shaped");
    assert_eq!(cache.fresh(1, 10), Some(&"shaped"));
    assert_eq!(cache.fresh(1, 11), None);
    assert_eq!(cache.fresh(2, 10), None);
    cache.store(1, 11, "reshaped");
    assert_eq!(cache.fresh(1, 11), Some(&"reshaped"));
    assert_eq!(cache.fresh(1, 10), None);
    assert_eq!(cache.len(), 1);
}
