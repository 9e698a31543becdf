use proxy_processor::error::ExportError;
use proxy_processor::exporter::{
    Exporter, LinkExporter, OutboundsEnum, SingBoxExporter, UrltestOutbound,
};
use proxy_processor::json::JsonValue;
use proxy_processor::models::{
    GeoIpInfo, Proxy, ProxyDetails, ProxyType, RealitySettings, TlsSettings, TransportSettings,
};
use proxy_processor::parser::parse_proxy;

fn render(v: &JsonValue) -> String {
    match v {
        JsonValue::Null => "null".to_string(),
        JsonValue::Bool(b) => b.to_string(),
        JsonValue::Number(n) => n.to_string(),
        JsonValue::String(s) => format!("\"{}\"", s),
        JsonValue::Array(items) => {
            format!("[{}]", items.iter().map(render).collect::<Vec<_>>().join(","))
        },
        JsonValue::Object(members) => format!(
            "{{{}}}",
            members
                .iter()
                .map(|(k, v)| format!("\"{}\":{}", k, render(v)))
                .collect::<Vec<_>>()
                .join(",")
        ),
    }
}

fn tls_off() -> TlsSettings {
    TlsSettings { enabled: false, server_name: None, alpn: None, fingerprint: None, reality: None }
}

fn ss_proxy(link: &str, geoip: Option<GeoIpInfo>) -> Proxy {
    Proxy {
        original_link: link.to_string(),
        address: "1.2.3.4".to_string(),
        port: 8388,
        remarks: None,
        proxy_type: ProxyType::Shadowsocks,
        details: ProxyDetails::Shadowsocks {
            method: "aes-256-gcm".to_string(),
            password: "pw".to_string(),
        },
        geoip,
    }
}

#[test]
fn link_exporter_writes_original_links() {
    let proxies = vec![ss_proxy("ss://a", None), ss_proxy("ss://b", None)];
    let out = LinkExporter::new().export(&proxies).unwrap();
    assert_eq!(out, "ss://a\nss://b");
    assert_eq!(LinkExporter::new().export(&[]).unwrap(), "");
    match LinkExporter::new().format_proxy(&proxies[0], 0).unwrap() {
        JsonValue::String(s) => assert_eq!(s, "ss://a"),
        other => panic!("unexpected value {:?}", other),
    }
}

#[test]
fn shadowsocks_outbound() {
    let v = SingBoxExporter::new().format_proxy(&ss_proxy("ss://a", None), 0).unwrap();
    assert_eq!(
        render(&v),
        r#"{"tag":"ss-1","server":"1.2.3.4","server_port":8388,"type":"shadowsocks","method":"aes-256-gcm","password":"pw"}"#
    );
}

#[test]
fn tag_uses_country_name_then_iso_code() {
    let named = GeoIpInfo { is_in_eu: true, iso_code: "DE".to_string(), name: Some("Germany".to_string()) };
    let v = SingBoxExporter::new().format_proxy(&ss_proxy("ss://a", Some(named)), 11).unwrap();
    assert!(render(&v).starts_with(r#"{"tag":"Germany-12","#));
    let unnamed = GeoIpInfo { is_in_eu: false, iso_code: "JP".to_string(), name: None };
    let v = SingBoxExporter::new().format_proxy(&ss_proxy("ss://a", Some(unnamed)), 99).unwrap();
    assert!(render(&v).starts_with(r#"{"tag":"JP-100","#));
}

#[test]
fn vless_outbound_with_tls_and_transport() {
    let proxy = parse_proxy(
        "vless://id@example.com:443?security=reality&pbk=KEY&sid=ab&sni=s.com&fp=chrome&type=grpc&serviceName=svc",
    )
    .unwrap();
    let v = SingBoxExporter::new().format_proxy(&proxy, 1).unwrap();
    assert_eq!(
        render(&v),
        r#"{"tag":"vless-2","server":"example.com","server_port":443,"type":"vless","uuid":"id","packet_encoding":"xudp","tls":{"enabled":true,"server_name":"s.com","utls":{"enabled":true,"fingerprint":"chrome"},"reality":{"enabled":true,"public_key":"KEY","short_id":"ab"}},"transport":{"type":"grpc","service_name":"svc"}}"#
    );
}

#[test]
fn vless_outbound_over_plain_tcp() {
    let proxy = parse_proxy("vless://id@example.com:80").unwrap();
    let v = SingBoxExporter::new().format_proxy(&proxy, 0).unwrap();
    assert_eq!(
        render(&v),
        r#"{"tag":"vless-1","server":"example.com","server_port":80,"type":"vless","uuid":"id","packet_encoding":"xudp"}"#
    );
}

#[test]
fn tls_and_transport_objects() {
    let off = SingBoxExporter::format_tls(&tls_off());
    assert_eq!(render(&off), r#"{"enabled":false}"#);
    let tls = TlsSettings {
        enabled: true,
        server_name: None,
        alpn: Some(vec!["h2".to_string()]),
        fingerprint: Some(String::new()),
        reality: Some(RealitySettings { enabled: false, public_key: "k".to_string(), short_id: String::new() }),
    };
    assert_eq!(render(&SingBoxExporter::format_tls(&tls)), r#"{"enabled":true,"alpn":["h2"]}"#);
    assert!(SingBoxExporter::format_transport(&TransportSettings::Tcp).is_none());
    let up = TransportSettings::HttpUpgrade { host: Some(vec!["a.com".to_string()]), path: "/u".to_string() };
    assert_eq!(
        render(&SingBoxExporter::format_transport(&up).unwrap()),
        r#"{"type":"http","host":["a.com"],"path":"/u"}"#
    );
    let http = TransportSettings::Http { host: None, path: "/".to_string(), method: "GET".to_string() };
    assert_eq!(
        render(&SingBoxExporter::format_transport(&http).unwrap()),
        r#"{"type":"http","path":"/","method":"GET"}"#
    );
    let ws = TransportSettings::WebSocket { path: "/ws".to_string() };
    assert_eq!(render(&SingBoxExporter::format_transport(&ws).unwrap()), r#"{"type":"ws","path":"/ws"}"#);
    assert_eq!(
        render(&SingBoxExporter::format_transport(&TransportSettings::Quic).unwrap()),
        r#"{"type":"quic"}"#
    );
}

#[test]
fn mismatched_details_and_unsupported_types_are_refused() {
    let mut p = ss_proxy("ss://a", None);
    p.proxy_type = ProxyType::Vless;
    match SingBoxExporter::new().format_proxy(&p, 0) {
        Err(ExportError::UnsupportedProtocol(m)) => {
            assert_eq!(m, "Mismatched proxy type and details for Vless")
        },
        other => panic!("unexpected result {:?}", other),
    }
    let mut p = ss_proxy("ss://a", None);
    p.details = ProxyDetails::Generic;
    match SingBoxExporter::new().format_proxy(&p, 0) {
        Err(ExportError::UnsupportedProtocol(m)) => {
            assert_eq!(m, "Mismatched proxy type and details for Shadowsocks")
        },
        other => panic!("unexpected result {:?}", other),
    }
    let mut p = ss_proxy("ss://a", None);
    p.proxy_type = ProxyType::Hysteria2;
    match SingBoxExporter::new().format_proxy(&p, 0) {
        Err(ExportError::UnsupportedProtocol(m)) => assert_eq!(m, "h2"),
        other => panic!("unexpected result {:?}", other),
    }
}

#[test]
fn sing_box_document_lists_tags_first() {
    let mut bad = ss_proxy("ss://c", None);
    bad.proxy_type = ProxyType::ShadowsocksR;
    let proxies = vec![ss_proxy("ss://a", None), bad, ss_proxy("ss://b", None)];
    let doc = SingBoxExporter::new().outbounds_document(&proxies);
    assert_eq!(doc.outbounds.len(), 3);
    match &doc.outbounds[0] {
        OutboundsEnum::UrltestOutbound(u) => {
            assert_eq!(u.outbounds, vec!["ss-1".to_string(), "ss-3".to_string()]);
            assert_eq!(u.proxy_type, "urltest");
            assert_eq!(u.tag, "urltest-out");
            assert_eq!(u.url, "https://www.gstatic.com/generate_204");
            assert_eq!(u.interval, "1m");
            assert_eq!(u.tolerance, 50);
            assert_eq!(u.idle_timeout, "10m");
            assert!(u.interrupt_exist_connections);
        },
        other => panic!("unexpected outbound {:?}", other),
    }
    match &doc.outbounds[2] {
        OutboundsEnum::Value(v) => assert!(render(v).starts_with(r#"{"tag":"ss-3","#)),
        other => panic!("unexpected outbound {:?}", other),
    }
}

#[test]
fn urltest_defaults() {
    let u = UrltestOutbound::default();
    assert!(u.outbounds.is_empty());
    assert_eq!(u.tolerance, 50);
}

#[test]
fn exported_links_read_back_line_by_line() {
    let proxies = vec![
        ss_proxy("ss://YWVzLTI1Ni1nY206cHc@1.2.3.4:8388#one", None),
        ss_proxy("vless://id@example.com:443?type=ws&path=%2F", None),
        ss_proxy("ss://c", None),
    ];
    let out = LinkExporter::new().export(&proxies).unwrap();
    let lines: Vec<&str> = out.split('\n').collect();
    let links: Vec<&str> = proxies.iter().map(|p| p.original_link.as_str()).collect();
    assert_eq!(lines, links);
}

#[test]
fn link_exporter_takes_a_line_ending() {
    let proxies = vec![ss_proxy("ss://a", None), ss_proxy("ss://b", None), ss_proxy("ss://c", None)];
    assert_eq!(LinkExporter::new().export_lines(&proxies, "\r\n").unwrap(), "ss://a\r\nss://b\r\nss://c");
    assert_eq!(LinkExporter::new().export_lines(&proxies[..1], "\r\n").unwrap(), "ss://a");
}
