use std::io::Write;

use iptv_rs::fetch::{fetch_plan, maybe_decompress_gzip, FetchError, FetchPlan};
use iptv_rs::hosts::is_remote;
use iptv_rs::source_list::parse_source_list;

fn gzip(data: &[u8]) -> Vec<u8> {
    let mut encoder = flate2::write::GzEncoder::new(Vec::new(), flate2::Compression::default());
    encoder.write_all(data).unwrap();
    encoder.finish().unwrap()
}

#[test]
fn unpacks_gzip_payloads() {
    let packed = gzip(b"<tv></tv>");
    assert_eq!(&packed[..2], &[0x1f, 0x8b]);
    assert_eq!(maybe_decompress_gzip(&packed).unwrap(), b"<tv></tv>".to_vec());
}

#[test]
fn passes_plain_payloads_through() {
    assert_eq!(maybe_decompress_gzip(b"plain").unwrap(), b"plain".to_vec());
    assert_eq!(maybe_decompress_gzip(b"\x1f").unwrap(), b"\x1f".to_vec());
    assert_eq!(maybe_decompress_gzip(b"").unwrap(), Vec::<u8>::new());
}

#[test]
fn broken_gzip_is_an_error() {
    assert_eq!(
        maybe_decompress_gzip(&[0x1f, 0x8b, 0x00, 0x01]),
        Err(FetchError::Gzip)
    );
}

#[test]
fn recognises_remote_addresses() {
    assert!(is_remote("http://a.test/x.m3u"));
    assert!(is_remote("HTTPS://a.test/x.m3u"));
    assert!(!is_remote("file:///data/x.m3u"));
    assert!(!is_remote("config/x.m3u"));
    assert!(!is_remote("ftp://a.test/x"));
}

#[test]
fn plans_where_bytes_come_from() {
    let entries = parse_source_list(
        "https://a.test/x.m3u UA=\"Mine\"\nhttp://b.test/y.m3u\nfile:///data/z.txt\nlocal/w.txt\n",
    );
    match fetch_plan(&entries[0], "default") {
        FetchPlan::Http { url, user_agent } => {
            assert_eq!(url, "https://a.test/x.m3u");
            assert_eq!(user_agent, "Mine");
        }
        other => panic!("unexpected plan {other:?}"),
    }
    match fetch_plan(&entries[1], "default") {
        FetchPlan::Http { user_agent, .. } => assert_eq!(user_agent, "default"),
        other => panic!("unexpected plan {other:?}"),
    }
    match fetch_plan(&entries[2], "default") {
        FetchPlan::File(p) => assert_eq!(p, "/data/z.txt"),
        other => panic!("unexpected plan {other:?}"),
    }
    match fetch_plan(&entries[3], "default") {
        FetchPlan::File(p) => assert_eq!(p, "local/w.txt"),
        other => panic!("unexpected plan {other:?}"),
    }
}
