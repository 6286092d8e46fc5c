use tendril_stream::Accumulate;
use tendril_stream::Encoding;
use tendril_stream::EncodingRaw;
use tendril_stream::LossyDecoder;
use tendril_stream::TendrilSink;
use tendril_stream::Utf8LossyDecoder;

use encoding::all as enc;
use encoding::EncodingRef;

fn check_validate(input: &[&[u8]], expected: &[&str], errs: usize) {
    let validator = Utf8LossyDecoder::new(Accumulate::new());
    let chunks: Vec<Vec<u8>> = input.iter().map(|x| x.to_vec()).collect();
    let sink = validator.from_iter(&chunks);
    let (texts, errors) = sink.into_parts();
    let got: Vec<&str> = texts.iter().map(|t| t.as_str()).collect();
    assert_eq!(expected, &got[..]);
    assert_eq!(errs, errors.len());
}

#[test]
fn validate_utf8() {
    check_validate(&[], &[], 0);
    check_validate(&[b""], &[], 0);
    check_validate(&[b"xyz"], &["xyz"], 0);
    check_validate(&[b"x", b"y", b"z"], &["x", "y", "z"], 0);

    check_validate(&[b"xy\xEA\x99\xAEzw"], &["xy\u{a66e}zw"], 0);
    check_validate(&[b"xy\xEA", b"\x99\xAEzw"], &["xy", "\u{a66e}", "zw"], 0);
    check_validate(&[b"xy\xEA\x99", b"\xAEzw"], &["xy", "\u{a66e}", "zw"], 0);
    check_validate(&[b"xy\xEA", b"\x99", b"\xAEzw"], &["xy", "\u{a66e}", "zw"], 0);
    check_validate(&[b"\xEA", b"", b"\x99", b"", b"\xAE"], &["\u{a66e}"], 0);
    check_validate(&[b"", b"\xEA", b"", b"\x99", b"", b"\xAE", b""], &["\u{a66e}"], 0);

    check_validate(
        &[b"xy\xEA", b"\xFF", b"\x99\xAEz"],
        &["xy", "\u{fffd}", "\u{fffd}", "\u{fffd}", "\u{fffd}", "z"],
        4,
    );
    check_validate(&[b"xy\xEA\x99", b"\xFFz"], &["xy", "\u{fffd}", "\u{fffd}", "z"], 2);

    check_validate(&[b"\xC5\x91\xC5\x91\xC5\x91"], &["\u{151}\u{151}\u{151}"], 0);
    check_validate(&[b"\xC5\x91", b"\xC5\x91", b"\xC5\x91"], &["\u{151}", "\u{151}", "\u{151}"], 0);
    check_validate(
        &[b"\xC5", b"\x91\xC5", b"\x91\xC5", b"\x91"],
        &["\u{151}", "\u{151}", "\u{151}"],
        0,
    );
    check_validate(
        &[b"\xC5", b"\x91\xff", b"\x91\xC5", b"\x91"],
        &["\u{151}", "\u{fffd}", "\u{fffd}", "\u{151}"],
        2,
    );

    // incomplete char at end of input
    check_validate(&[b"\xC0"], &["\u{fffd}"], 1);
    check_validate(&[b"\xEA\x99"], &["\u{fffd}"], 1);
}

fn check_decode(e: EncodingRef, input: &[&[u8]], expected: &str, errs: usize) {
    let enc = Encoding::from_handle(EncodingRaw { reference: e });
    let mut decoder = LossyDecoder::new(enc, Accumulate::new());
    for x in input {
        decoder.process(&x.to_vec());
    }
    let sink = decoder.finish();
    let (texts, errors) = sink.into_parts();
    let mut all = String::new();
    for t in &texts {
        all.push_str(t);
    }
    assert_eq!(expected, all);
    assert_eq!(errs, errors.len());
}

#[test]
fn decode_ascii() {
    check_decode(enc::ASCII, &[], "", 0);
    check_decode(enc::ASCII, &[b""], "", 0);
    check_decode(enc::ASCII, &[b"xyz"], "xyz", 0);
    check_decode(enc::ASCII, &[b"xy", b"", b"", b"z"], "xyz", 0);
    check_decode(enc::ASCII, &[b"x", b"y", b"z"], "xyz", 0);

    check_decode(enc::ASCII, &[b"\xFF"], "\u{fffd}", 1);
    check_decode(enc::ASCII, &[b"x\xC0yz"], "x\u{fffd}yz", 1);
    check_decode(enc::ASCII, &[b"x", b"\xC0y", b"z"], "x\u{fffd}yz", 1);
    check_decode(enc::ASCII, &[b"x\xC0yz\xFF\xFFw"], "x\u{fffd}yz\u{fffd}\u{fffd}w", 3);
}

#[test]
fn decode_utf8() {
    check_decode(enc::UTF_8, &[], "", 0);
    check_decode(enc::UTF_8, &[b""], "", 0);
    check_decode(enc::UTF_8, &[b"xyz"], "xyz", 0);
    check_decode(enc::UTF_8, &[b"x", b"y", b"z"], "xyz", 0);

    check_decode(enc::UTF_8, &[b"\xEA\x99\xAE"], "\u{a66e}", 0);
    check_decode(enc::UTF_8, &[b"\xEA", b"\x99\xAE"], "\u{a66e}", 0);
    check_decode(enc::UTF_8, &[b"\xEA\x99", b"\xAE"], "\u{a66e}", 0);
    check_decode(enc::UTF_8, &[b"\xEA", b"\x99", b"\xAE"], "\u{a66e}", 0);
    check_decode(enc::UTF_8, &[b"\xEA", b"", b"\x99", b"", b"\xAE"], "\u{a66e}", 0);
    check_decode(enc::UTF_8, &[b"", b"\xEA", b"", b"\x99", b"", b"\xAE", b""], "\u{a66e}", 0);

    check_decode(enc::UTF_8, &[b"xy\xEA", b"\x99\xAEz"], "xy\u{a66e}z", 0);
    check_decode(
        enc::UTF_8,
        &[b"xy\xEA", b"\xFF", b"\x99\xAEz"],
        "xy\u{fffd}\u{fffd}\u{fffd}\u{fffd}z",
        4,
    );
    check_decode(enc::UTF_8, &[b"xy\xEA\x99", b"\xFFz"], "xy\u{fffd}\u{fffd}z", 2);

    // incomplete char at end of input
    check_decode(enc::UTF_8, &[b"\xC0"], "\u{fffd}", 1);
    check_decode(enc::UTF_8, &[b"\xEA\x99"], "\u{fffd}", 1);
}

#[test]
fn decode_koi8_u() {
    check_decode(
        enc::KOI8_U,
        &[b"\xfc\xce\xc5\xd2\xc7\xc9\xd1"],
        "\u{42d}\u{43d}\u{435}\u{440}\u{433}\u{438}\u{44f}",
        0,
    );
    check_decode(
        enc::KOI8_U,
        &[b"\xfc\xce", b"\xc5\xd2\xc7\xc9\xd1"],
        "\u{42d}\u{43d}\u{435}\u{440}\u{433}\u{438}\u{44f}",
        0,
    );
    check_decode(
        enc::KOI8_U,
        &[b"\xfc\xce", b"\xc5\xd2\xc7", b"\xc9\xd1"],
        "\u{42d}\u{43d}\u{435}\u{440}\u{433}\u{438}\u{44f}",
        0,
    );
    check_decode(
        enc::KOI8_U,
        &[b"\xfc\xce", b"", b"\xc5\xd2\xc7", b"\xc9\xd1", b""],
        "\u{42d}\u{43d}\u{435}\u{440}\u{433}\u{438}\u{44f}",
        0,
    );
}

#[test]
fn decode_windows_949() {
    check_decode(enc::WINDOWS_949, &[], "", 0);
    check_decode(enc::WINDOWS_949, &[b""], "", 0);
    check_decode(enc::WINDOWS_949, &[b"\xbe\xc8\xb3\xe7"], "\u{c548}\u{b155}", 0);
    check_decode(enc::WINDOWS_949, &[b"\xbe", b"\xc8\xb3\xe7"], "\u{c548}\u{b155}", 0);
    check_decode(enc::WINDOWS_949, &[b"\xbe", b"", b"\xc8\xb3\xe7"], "\u{c548}\u{b155}", 0);
    check_decode(
        enc::WINDOWS_949,
        &[b"\xbe\xc8\xb3\xe7\xc7\xcf\xbc\xbc\xbf\xe4"],
        "\u{c548}\u{b155}\u{d558}\u{c138}\u{c694}",
        0,
    );
    check_decode(
        enc::WINDOWS_949,
        &[b"\xbe\xc8\xb3\xe7\xc7"],
        "\u{c548}\u{b155}\u{fffd}",
        1,
    );

    check_decode(enc::WINDOWS_949, &[b"\xbe", b"", b"\xc8\xb3"], "\u{c548}\u{fffd}", 1);
    check_decode(enc::WINDOWS_949, &[b"\xbe\x28\xb3\xe7"], "\u{fffd}(\u{b155}", 1);
}

fn concat_validate(input: &[&[u8]]) -> (String, usize) {
    let validator = Utf8LossyDecoder::new(Accumulate::new());
    let chunks: Vec<Vec<u8>> = input.iter().map(|x| x.to_vec()).collect();
    let (texts, errors) = validator.from_iter(&chunks).into_parts();
    let mut all = String::new();
    for t in &texts {
        all.push_str(t);
    }
    (all, errors.len())
}

#[test]
fn rechunk_idempotent() {
    let whole: &[u8] = b"xy\xEA\x99\xAEzw";
    let expected = "xy\u{a66e}zw";
    assert_eq!(concat_validate(&[whole]), (expected.to_string(), 0));
    // every split into two consecutive chunks
    for cut in 0..=whole.len() {
        let got = concat_validate(&[&whole[..cut], &whole[cut..]]);
        assert_eq!(got, (expected.to_string(), 0));
    }
    // the byte-by-byte split
    let bytes: Vec<&[u8]> = whole.chunks(1).collect();
    assert_eq!(concat_validate(&bytes), (expected.to_string(), 0));
}

#[test]
fn replacement_count_matches_utf8() {
    let validator = Utf8LossyDecoder::new(Accumulate::new());
    let chunks = vec![b"xy\xEA\xFF\x99\xAEz".to_vec()];
    let (texts, errors) = validator.from_iter(&chunks).into_parts();
    let got: Vec<&str> = texts.iter().map(|t| t.as_str()).collect();
    assert_eq!(
        &got[..],
        &["xy", "\u{fffd}", "\u{fffd}", "\u{fffd}", "\u{fffd}", "z"]
    );
    let repls = texts.iter().filter(|t| t.as_str() == "\u{fffd}").count();
    assert_eq!(repls, errors.len());
    assert_eq!(errors.len(), 4);
}

#[test]
fn replacement_count_matches_legacy() {
    let enc = Encoding::from_handle(EncodingRaw { reference: enc::ASCII });
    let mut decoder = LossyDecoder::new(enc, Accumulate::new());
    decoder.process(&b"x\xC0yz\xFF\xFFw".to_vec());
    let (texts, errors) = decoder.finish().into_parts();
    let mut all = String::new();
    for t in &texts {
        all.push_str(t);
    }
    let repls = all.chars().filter(|c| *c == '\u{fffd}').count();
    assert_eq!(repls, errors.len());
    assert_eq!(errors.len(), 3);
}

#[test]
fn end_of_stream_incomplete() {
    let mut validator = Utf8LossyDecoder::new(Accumulate::new());
    validator.process(&b"\xC0".to_vec());
    let (texts, errors) = validator.finish().into_parts();
    assert_eq!(texts.len(), 1);
    assert_eq!(texts[0], "\u{fffd}");
    assert_eq!(errors.len(), 1);

    let mut validator = Utf8LossyDecoder::new(Accumulate::new());
    validator.process(&b"\xEA\x99".to_vec());
    let (texts, errors) = validator.finish().into_parts();
    assert_eq!(texts.len(), 1);
    assert_eq!(texts[0], "\u{fffd}");
    assert_eq!(errors.len(), 1);
    assert_eq!(errors[0], "incomplete byte sequence at end of stream");
}

#[test]
fn error_messages() {
    let mut validator = Utf8LossyDecoder::new(Accumulate::new());
    validator.process(&b"\xFF".to_vec());
    let (texts, errors) = validator.finish().into_parts();
    assert_eq!(texts, vec!["\u{fffd}".to_string()]);
    assert_eq!(errors, vec!["invalid byte sequence".to_string()]);
}

#[test]
fn empty_input_no_output() {
    let validator = Utf8LossyDecoder::new(Accumulate::new());
    let (texts, errors) = validator.finish().into_parts();
    assert_eq!(texts.len(), 0);
    assert_eq!(errors.len(), 0);

    let mut decoder = LossyDecoder::new(Encoding::utf8(), Accumulate::new());
    decoder.process(&Vec::new());
    decoder.process(&Vec::new());
    let (texts, errors) = decoder.finish().into_parts();
    assert_eq!(texts.len(), 0);
    assert_eq!(errors.len(), 0);
}

#[test]
fn error_passes_through() {
    let mut decoder = LossyDecoder::new(Encoding::utf8(), Accumulate::new());
    decoder.error("upstream trouble".to_string());
    decoder.process(&b"ok".to_vec());
    let (texts, errors) = decoder.finish().into_parts();
    assert_eq!(texts, vec!["ok".to_string()]);
    assert_eq!(errors, vec!["upstream trouble".to_string()]);
}

#[test]
fn sink_from_iter_chunks() {
    let mut sink = Accumulate::new();
    sink.from_iter(vec!["ab".to_string(), "cd".to_string()]);
    let (texts, errors) = sink.into_parts();
    assert_eq!(texts, vec!["ab".to_string(), "cd".to_string()]);
    assert_eq!(errors.len(), 0);
}

#[test]
fn sink_one_chunk() {
    let mut sink = Accumulate::new();
    sink.one("hello".to_string());
    let (texts, errors) = sink.into_parts();
    assert_eq!(texts, vec!["hello".to_string()]);
    assert_eq!(errors.len(), 0);
}
