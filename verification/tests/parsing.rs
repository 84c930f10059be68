use gpx_analyzer::coord::parse_coord;
use gpx_analyzer::track::{extract_points, TrackPoint};
use gpx_analyzer::xml::{tokenize, Token};
use gpx_analyzer::Warning;

fn bytes(s: &str) -> Vec<u8> {
    s.as_bytes().to_vec()
}

fn coord(s: &str) -> Option<i64> {
    parse_coord(&bytes(s))
}

#[test]
fn coord_plain_decimals() {
    assert_eq!(coord("47.1234567"), Some(471_234_567));
    assert_eq!(coord("-0.5"), Some(-5_000_000));
    assert_eq!(coord("+12"), Some(120_000_000));
    assert_eq!(coord("0"), Some(0));
    assert_eq!(coord("3."), Some(30_000_000));
    assert_eq!(coord(".5"), Some(5_000_000));
    assert_eq!(coord("-.25"), Some(-2_500_000));
}

#[test]
fn coord_truncates_past_seven_fraction_digits() {
    assert_eq!(coord("0.123456789"), Some(1_234_567));
    assert_eq!(coord("1.00000019"), Some(10_000_001));
}

#[test]
fn coord_range_limits() {
    assert_eq!(coord("180.0000000"), Some(1_800_000_000));
    assert_eq!(coord("-180"), Some(-1_800_000_000));
    assert_eq!(coord("180.0000001"), None);
    assert_eq!(coord("181"), None);
    assert_eq!(coord("99999999999999999999"), None);
}

#[test]
fn coord_rejects_junk() {
    assert_eq!(coord(""), None);
    assert_eq!(coord("+"), None);
    assert_eq!(coord("."), None);
    assert_eq!(coord("1e5"), None);
    assert_eq!(coord(" 1"), None);
    assert_eq!(coord("1 "), None);
    assert_eq!(coord("abc"), None);
    assert_eq!(coord("1.2.3"), None);
    assert_eq!(coord("NaN"), None);
    assert_eq!(coord("inf"), None);
}

#[test]
fn tokenizer_basic_document() {
    let (toks, warns) = tokenize(&bytes(
        "<?xml version=\"1.0\"?><gpx><trkpt lat=\"1.0\" lon=\"2.0\"><time>T1</time></trkpt></gpx>",
    ));
    assert!(warns.is_empty());
    assert_eq!(toks.len(), 7);
    match &toks[1] {
        Token::Open { name, attrs } => {
            assert_eq!(name, &bytes("trkpt"));
            assert_eq!(attrs.len(), 2);
            assert_eq!(attrs[0].name, bytes("lat"));
            assert_eq!(attrs[0].value, bytes("1.0"));
            assert_eq!(attrs[1].name, bytes("lon"));
            assert_eq!(attrs[1].value, bytes("2.0"));
        }
        other => panic!("expected trkpt open tag, got {:?}", other),
    }
    match &toks[3] {
        Token::Text { content } => assert_eq!(content, &bytes("T1")),
        other => panic!("expected text, got {:?}", other),
    }
}

#[test]
fn tokenizer_skips_comments_cdata_and_doctype() {
    let (toks, warns) = tokenize(&bytes(
        "<!DOCTYPE gpx><!-- a <trkpt> in a comment --><![CDATA[<trkpt lat=\"1\">]]><a/>",
    ));
    assert!(warns.is_empty());
    assert_eq!(toks.len(), 1);
    assert!(matches!(&toks[0], Token::SelfClosed { name, .. } if name == &bytes("a")));
}

#[test]
fn tokenizer_trims_and_drops_empty_text() {
    let (toks, warns) = tokenize(&bytes("<a>  \n\t </a><b> x </b>"));
    assert!(warns.is_empty());
    let texts: Vec<&Token> = toks.iter().filter(|t| matches!(t, Token::Text { .. })).collect();
    assert_eq!(texts.len(), 1);
    assert!(matches!(texts[0], Token::Text { content } if content == &bytes("x")));
}

#[test]
fn tokenizer_unescapes_references() {
    let (toks, warns) = tokenize(&bytes("<a n=\"1&lt;2&amp;3\">x&gt;y&quot;&apos;</a>"));
    assert!(warns.is_empty());
    match &toks[0] {
        Token::Open { attrs, .. } => assert_eq!(attrs[0].value, bytes("1<2&3")),
        other => panic!("expected open tag, got {:?}", other),
    }
    assert!(matches!(&toks[1], Token::Text { content } if content == &bytes("x>y\"'")));
}

#[test]
fn tokenizer_keeps_unknown_reference_literally() {
    let (toks, _) = tokenize(&bytes("<a>x&unknown;y</a>"));
    assert!(matches!(&toks[1], Token::Text { content } if content == &bytes("x&unknown;y")));
}

#[test]
fn tokenizer_warns_and_resynchronizes_on_broken_tag() {
    let (toks, warns) = tokenize(&bytes("<a foo><b/>"));
    assert_eq!(warns, vec![Warning::MalformedToken { offset: 0 }]);
    assert_eq!(toks.len(), 1);
    assert!(matches!(&toks[0], Token::SelfClosed { name, .. } if name == &bytes("b")));
}

#[test]
fn tokenizer_warns_on_unterminated_comment() {
    let (toks, warns) = tokenize(&bytes("<a/><!-- never closed"));
    assert_eq!(toks.len(), 1);
    assert_eq!(warns, vec![Warning::MalformedToken { offset: 4 }]);
}

fn points_of(doc: &str) -> (Vec<TrackPoint>, Vec<Warning>) {
    let (toks, warns) = tokenize(&bytes(doc));
    assert!(warns.is_empty(), "unexpected tokenizer warnings: {:?}", warns);
    extract_points(&toks)
}

#[test]
fn extraction_document_order_and_time_binding() {
    let (points, warns) = points_of(
        "<gpx><trkseg>\
         <trkpt lat=\"1.0\" lon=\"2.0\"><time>T1</time></trkpt>\
         <trkpt lat=\"bad\" lon=\"3.0\"><time>T2</time></trkpt>\
         <trkpt lat=\"4.0\" lon=\"5.0\"><time>T3</time></trkpt>\
         </trkseg></gpx>",
    );
    assert_eq!(warns, vec![Warning::InvalidLatitude]);
    assert_eq!(points.len(), 2);
    assert_eq!(points[0].lat_e7, 10_000_000);
    assert_eq!(points[0].lon_e7, 20_000_000);
    assert_eq!(points[0].time, Some(bytes("T1")));
    assert_eq!(points[1].lat_e7, 40_000_000);
    assert_eq!(points[1].lon_e7, 50_000_000);
    // the skipped middle point does not shift time binding: T2 is dropped
    assert_eq!(points[1].time, Some(bytes("T3")));
}

#[test]
fn extraction_warns_longitude_first() {
    let (points, warns) = points_of("<trkpt lat=\"bad\" lon=\"bad\"></trkpt>");
    assert!(points.is_empty());
    assert_eq!(warns, vec![Warning::InvalidLongitude]);
}

#[test]
fn extraction_missing_attribute_skips_point() {
    let (points, warns) = points_of("<trkpt lat=\"1.0\"></trkpt>");
    assert!(points.is_empty());
    assert_eq!(warns, vec![Warning::InvalidLongitude]);
}

#[test]
fn extraction_ignores_time_outside_points() {
    let (points, _) = points_of(
        "<metadata><time>M</time></metadata>\
         <trkpt lat=\"1.0\" lon=\"1.0\"></trkpt>\
         <time>after</time>",
    );
    assert_eq!(points.len(), 1);
    assert_eq!(points[0].time, None);
}

#[test]
fn extraction_time_must_sit_directly_under_the_point() {
    let (points, _) = points_of(
        "<trkpt lat=\"1.0\" lon=\"1.0\"><extensions><time>X</time></extensions></trkpt>",
    );
    assert_eq!(points.len(), 1);
    assert_eq!(points[0].time, None);
}

#[test]
fn extraction_ignores_self_closing_points() {
    let (points, warns) = points_of("<trkpt lat=\"1.0\" lon=\"1.0\"/>");
    assert!(points.is_empty());
    assert!(warns.is_empty());
}

#[test]
fn extraction_last_time_wins_within_one_point() {
    let (points, _) = points_of(
        "<trkpt lat=\"1.0\" lon=\"1.0\"><time>A</time><time>B</time></trkpt>",
    );
    assert_eq!(points[0].time, Some(bytes("B")));
}

#[test]
fn attribute_quoting_and_spacing_variants() {
    let (points, warns) = points_of("<trkpt  lat = '1.5'  lon=\"-2.25\" ></trkpt>");
    assert!(warns.is_empty());
    assert_eq!(points.len(), 1);
    assert_eq!(points[0].lat_e7, 15_000_000);
    assert_eq!(points[0].lon_e7, -22_500_000);
}

#[test]
fn first_matching_attribute_wins() {
    let (points, _) = points_of("<trkpt lat=\"1.0\" lon=\"2.0\" lat=\"9.0\"></trkpt>");
    assert_eq!(points[0].lat_e7, 10_000_000);
}
