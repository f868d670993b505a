use rustleak::naming::build_close_name;
use rustleak::naming::build_download_count_name;
use rustleak::naming::build_download_fragment_name;
use rustleak::naming::build_upload_name;
use rustleak::naming::parse_query_name;
use rustleak::naming::split_name;
use rustleak::naming::ParsedQuery;
use rustleak::text::bytes_eq;
use rustleak::text::bytes_start_with;
use rustleak::text::format_usize;
use rustleak::text::lower_bytes;
use rustleak::text::parse_usize;

#[test]
fn format_decimal() {
    assert_eq!(format_usize(0), b"0".to_vec());
    assert_eq!(format_usize(7), b"7".to_vec());
    assert_eq!(format_usize(10), b"10".to_vec());
    assert_eq!(format_usize(12345), b"12345".to_vec());
}

#[test]
fn parse_decimal() {
    assert_eq!(parse_usize(&b"0".to_vec()), Some(0));
    assert_eq!(parse_usize(&b"12345".to_vec()), Some(12345));
    assert_eq!(parse_usize(&b"007".to_vec()), Some(7));
    assert_eq!(parse_usize(&b"".to_vec()), None);
    assert_eq!(parse_usize(&b"12a".to_vec()), None);
    assert_eq!(parse_usize(&b"-3".to_vec()), None);
    assert_eq!(parse_usize(&b"99999999999999999999999999".to_vec()), None);
}

#[test]
fn byte_helpers() {
    assert_eq!(lower_bytes(&b"UpLoAd-27".to_vec()), b"upload-27".to_vec());
    assert!(bytes_eq(&b"abc".to_vec(), &b"abc".to_vec()));
    assert!(!bytes_eq(&b"abc".to_vec(), &b"abd".to_vec()));
    assert!(!bytes_eq(&b"abc".to_vec(), &b"ab".to_vec()));
    assert!(bytes_start_with(&b"upload.x".to_vec(), &b"upload.".to_vec()));
    assert!(!bytes_start_with(&b"up".to_vec(), &b"upload.".to_vec()));
}

#[test]
fn split_on_dots() {
    let parts = split_name(&b"a.bb..c".to_vec());
    assert_eq!(parts, vec![b"a".to_vec(), b"bb".to_vec(), b"".to_vec(), b"c".to_vec()]);
    assert_eq!(split_name(&b"".to_vec()), vec![b"".to_vec()]);
    assert_eq!(split_name(&b"nodots".to_vec()), vec![b"nodots".to_vec()]);
}

#[test]
fn built_names_are_bit_exact() {
    let name = build_upload_name(&b"MZXW6".to_vec(), 0, 3, &b"job1".to_vec(), &b"example.com".to_vec());
    assert_eq!(name, b"UPLOAD.MZXW6.0.3.job1.example.com".to_vec());
    let name = build_download_count_name(&b"job1".to_vec(), &b"example.com".to_vec());
    assert_eq!(name, b"DOWNLOAD.job1.example.com".to_vec());
    let name = build_download_fragment_name(&b"job1".to_vec(), 2, &b"example.com".to_vec());
    assert_eq!(name, b"DOWNLOAD.job1.2.example.com".to_vec());
    let name = build_close_name(&b"job1".to_vec(), &b"example.com".to_vec());
    assert_eq!(name, b"CLOSE.job1.example.com".to_vec());
}

#[test]
fn parse_upload_roundtrip_and_case_folding() {
    let built = build_upload_name(
        &b"MZXW6".to_vec(),
        1,
        3,
        &b"job1".to_vec(),
        &b"example.com".to_vec(),
    );
    let expected = ParsedQuery::Upload {
        fragment: b"MZXW6".to_vec(),
        seq: 1,
        maxseq: 3,
        code: b"job1".to_vec(),
    };
    assert_eq!(parse_query_name(&built), expected);
    // The same name after DNS case folding still parses as an upload.
    let folded = lower_bytes(&built);
    let expected_folded = ParsedQuery::Upload {
        fragment: b"mzxw6".to_vec(),
        seq: 1,
        maxseq: 3,
        code: b"job1".to_vec(),
    };
    assert_eq!(parse_query_name(&folded), expected_folded);
}

#[test]
fn parse_download_shapes() {
    let q = parse_query_name(&b"download.job1.example.com".to_vec());
    assert_eq!(q, ParsedQuery::DownloadCount { code: b"job1".to_vec() });
    let q = parse_query_name(&b"DOWNLOAD.job1.17.example.com".to_vec());
    assert_eq!(q, ParsedQuery::DownloadFragment { code: b"job1".to_vec(), seq: 17 });
    let q = parse_query_name(&b"download.job1".to_vec());
    assert_eq!(q, ParsedQuery::InvalidDownload);
}

#[test]
fn parse_close_shape() {
    let q = parse_query_name(&b"close.job1.example.com".to_vec());
    assert_eq!(q, ParsedQuery::Close { code: b"job1".to_vec() });
    let q = parse_query_name(&b"CLOSE.job1".to_vec());
    assert_eq!(q, ParsedQuery::Close { code: b"job1".to_vec() });
}

#[test]
fn short_upload_names_are_invalid_not_defaulted() {
    assert_eq!(parse_query_name(&b"upload.only.three".to_vec()), ParsedQuery::InvalidUpload);
    assert_eq!(parse_query_name(&b"upload.a.b.c".to_vec()), ParsedQuery::InvalidUpload);
}

#[test]
fn non_numeric_fields_are_invalid_not_zero() {
    // A sequence field that does not parse is a validation error, never a
    // silent zero.
    let q = parse_query_name(&b"upload.frag.x7.3.job1.example.com".to_vec());
    assert_eq!(q, ParsedQuery::InvalidUpload);
    let q = parse_query_name(&b"upload.frag.1.3x.job1.example.com".to_vec());
    assert_eq!(q, ParsedQuery::InvalidUpload);
    let q = parse_query_name(&b"upload.frag.99999999999999999999.3.job1.d".to_vec());
    assert_eq!(q, ParsedQuery::InvalidUpload);
}

#[test]
fn unrelated_names_are_unrecognized() {
    assert_eq!(parse_query_name(&b"www.example.com".to_vec()), ParsedQuery::Unrecognized);
    assert_eq!(parse_query_name(&b"upload".to_vec()), ParsedQuery::Unrecognized);
    assert_eq!(parse_query_name(&b"uploads.a.b.c.d.e".to_vec()), ParsedQuery::Unrecognized);
    assert_eq!(parse_query_name(&b"".to_vec()), ParsedQuery::Unrecognized);
}

#[test]
fn trailing_root_dot_is_harmless() {
    let q = parse_query_name(&b"upload.MZXW6.0.3.job1.example.com.".to_vec());
    let expected = ParsedQuery::Upload {
        fragment: b"MZXW6".to_vec(),
        seq: 0,
        maxseq: 3,
        code: b"job1".to_vec(),
    };
    assert_eq!(q, expected);
}
