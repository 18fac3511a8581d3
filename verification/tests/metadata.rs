use iptv_rs::metadata::{channels_from_metadata_bytes, channels_to_metadata_bytes, MetadataError};
use iptv_rs::models::{Channel, IpvType, Origin, Stream};

#[test]
fn round_trips_unicode_metadata() {
    let channels = vec![Channel {
        name: "央视一套".into(),
        group: Some("央视".into()),
        tvg_id: Some("cctv1".into()),
        logo: None,
        streams: vec![Stream {
            url: "http://a.test/live%20/央视.m3u8".into(),
            origin: Origin::Local,
            whitelist: false,
            source_order: 1,
            iptv_source: Some("home".into()),
            iptv_restricted: true,
            ipv_type: IpvType::Ipv4,
        }],
        order: 7,
    }];

    let bytes = channels_to_metadata_bytes(&channels);
    let decoded = channels_from_metadata_bytes(&bytes).unwrap();

    assert_eq!(decoded, channels);
}

#[test]
fn reads_legacy_metadata_without_restricted_flag() {
    let decoded = channels_from_metadata_bytes(
        b"iptv-rs-metadata-v1\nC\tCCTV-1\t\t\t\t1\nS\thttp://a.test/live.m3u8\tlocal\tfalse\t0\thome\tipv4\n",
    )
    .unwrap();

    let stream = &decoded[0].streams[0];
    assert_eq!(stream.iptv_source.as_deref(), Some("home"));
    assert!(!stream.iptv_restricted);
    assert_eq!(stream.ipv_type, IpvType::Ipv4);
}

#[test]
fn writes_escaped_fields() {
    let channels = vec![Channel {
        name: "a\tb%".into(),
        group: None,
        tvg_id: None,
        logo: Some("l".into()),
        streams: vec![Stream {
            url: "u\nv".into(),
            origin: Origin::SubscribeWhitelist,
            whitelist: true,
            source_order: 12,
            iptv_source: None,
            iptv_restricted: false,
            ipv_type: IpvType::Unknown,
        }],
        order: 3,
    }];
    let bytes = channels_to_metadata_bytes(&channels);
    assert_eq!(
        String::from_utf8(bytes.clone()).unwrap(),
        "iptv-rs-metadata-v2\nC\ta%09b%25\t\t\tl\t3\nS\tu%0Av\tsubscribe_whitelist\ttrue\t12\t\tfalse\tunknown\n"
    );
    assert_eq!(channels_from_metadata_bytes(&bytes).unwrap(), channels);
}

#[test]
fn reports_each_metadata_error() {
    let cases: Vec<(&[u8], MetadataError)> = vec![
        (b"\xff", MetadataError::NotUtf8),
        (b"other\n", MetadataError::UnsupportedHeader),
        (b"iptv-rs-metadata-v2\nS\tu\tlocal\tfalse\t0\t\tipv4\n", MetadataError::StreamBeforeChannel),
        (b"iptv-rs-metadata-v2\nX\n", MetadataError::UnknownRow),
        (b"iptv-rs-metadata-v2\nC\ta\n", MetadataError::ChannelFieldCount),
        (b"iptv-rs-metadata-v2\nC\ta\t\t\t\t1\nS\tu\n", MetadataError::StreamFieldCount),
        (b"iptv-rs-metadata-v2\nC\ta\t\t\t\tx\n", MetadataError::InvalidOrder),
        (b"iptv-rs-metadata-v2\nC\ta\t\t\t\t1\nS\tu\tlocal\tyes\t0\t\tipv4\n", MetadataError::InvalidWhitelistFlag),
        (b"iptv-rs-metadata-v2\nC\ta\t\t\t\t1\nS\tu\tlocal\tfalse\t-1\t\tipv4\n", MetadataError::InvalidSourceOrder),
        (b"iptv-rs-metadata-v2\nC\ta\t\t\t\t1\nS\tu\tlocal\tfalse\t0\t\tmaybe\tipv4\n", MetadataError::InvalidRestrictedFlag),
        (b"iptv-rs-metadata-v2\nC\ta\t\t\t\t1\nS\tu\tnowhere\tfalse\t0\t\tipv4\n", MetadataError::UnknownOrigin),
        (b"iptv-rs-metadata-v2\nC\ta%4\t\t\t\t1\n", MetadataError::TruncatedEscape),
        (b"iptv-rs-metadata-v2\nC\ta%zz\t\t\t\t1\n", MetadataError::InvalidHexDigit),
        (b"iptv-rs-metadata-v2\nC\ta%FF\t\t\t\t1\n", MetadataError::FieldNotUtf8),
    ];
    for (bytes, expected) in cases {
        assert_eq!(channels_from_metadata_bytes(bytes), Err(expected));
    }
}

#[test]
fn blank_rows_are_skipped_and_unknown_families_kept() {
    let decoded = channels_from_metadata_bytes(
        b"iptv-rs-metadata-v2\n\nC\tA\tG\t\t\t0\n  \nS\th\ttemplate\tfalse\t0\t\tfalse\tipv9\n",
    )
    .unwrap();
    assert_eq!(decoded.len(), 1);
    assert_eq!(decoded[0].group.as_deref(), Some("G"));
    assert_eq!(decoded[0].streams[0].origin, Origin::Template);
    assert_eq!(decoded[0].streams[0].ipv_type, IpvType::Unknown);
}
