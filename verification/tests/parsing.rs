use base64::Engine;
use proxy_processor::error::ProcessorError;
use proxy_processor::models::{ProxyDetails, ProxyType, TransportSettings};
use proxy_processor::parser::{
    decode_base64, param_get, parse_proxy, parse_tls_settings, parse_transport_settings,
    try_parse_proxy,
};

fn params(pairs: &[(&str, &str)]) -> Vec<(String, String)> {
    pairs.iter().map(|(k, v)| (k.to_string(), v.to_string())).collect()
}

#[test]
fn parses_vless_link_with_tls_and_websocket() {
    let link = "vless://uuid-123@example.com:443?security=tls&sni=sni.example.com&type=ws&path=%2Fws&alpn=h2,http/1.1&fp=chrome#My%20Server";
    let proxy = parse_proxy(link).unwrap();
    assert_eq!(
        proxy.original_link,
        "vless://uuid-123@example.com:443?security=tls&sni=sni.example.com&type=ws&path=/ws&alpn=h2,http/1.1&fp=chrome#My Server"
    );
    assert_eq!(proxy.address, "example.com");
    assert_eq!(proxy.port, 443);
    assert_eq!(proxy.remarks.as_deref(), Some("My Server"));
    assert_eq!(proxy.proxy_type, ProxyType::Vless);
    assert!(proxy.geoip.is_none());
    match proxy.details {
        ProxyDetails::Vless { uuid, flow, tls, transport } => {
            assert_eq!(uuid, "uuid-123");
            assert_eq!(flow, None);
            assert!(tls.enabled);
            assert_eq!(tls.server_name.as_deref(), Some("sni.example.com"));
            assert_eq!(tls.alpn, Some(vec!["h2".to_string(), "http/1.1".to_string()]));
            assert_eq!(tls.fingerprint.as_deref(), Some("chrome"));
            assert!(tls.reality.is_none());
            assert_eq!(transport, TransportSettings::WebSocket { path: "/ws".to_string() });
        },
        other => panic!("unexpected details {:?}", other),
    }
}

#[test]
fn parses_shadowsocks_link() {
    let proxy = parse_proxy("ss://YWVzLTI1Ni1nY206cGFzc3dvcmQ@1.2.3.4:8388#ss-node").unwrap();
    assert_eq!(proxy.proxy_type, ProxyType::Shadowsocks);
    assert_eq!(proxy.address, "1.2.3.4");
    assert_eq!(proxy.port, 8388);
    assert_eq!(proxy.remarks.as_deref(), Some("ss-node"));
    assert_eq!(proxy.original_link, "ss://YWVzLTI1Ni1nY206cGFzc3dvcmQ@1.2.3.4:8388#ss-node");
    assert_eq!(
        proxy.details,
        ProxyDetails::Shadowsocks { method: "aes-256-gcm".to_string(), password: "password".to_string() }
    );
}

#[test]
fn parses_base64_wrapped_link() {
    let proxy = parse_proxy("dmxlc3M6Ly9pZEBoLmNvbTo4MD90eXBlPWdycGMmc2VydmljZU5hbWU9c3Zj").unwrap();
    assert_eq!(proxy.original_link, "vless://id@h.com:80?type=grpc&serviceName=svc");
    assert_eq!(proxy.address, "h.com");
    assert_eq!(proxy.port, 80);
    assert_eq!(proxy.remarks, None);
    match proxy.details {
        ProxyDetails::Vless { uuid, tls, transport, .. } => {
            assert_eq!(uuid, "id");
            assert!(!tls.enabled);
            assert_eq!(transport, TransportSettings::Grpc { service_name: "svc".to_string() });
        },
        other => panic!("unexpected details {:?}", other),
    }
}

#[test]
fn reality_needs_public_key() {
    let err = parse_proxy("vless://id@example.com:443?security=reality").unwrap_err();
    assert_eq!(err, ProcessorError::MissingComponent("pbk"));
    let proxy = parse_proxy("vless://id@example.com:443?security=reality&pbk=KEY&sid=ab").unwrap();
    match proxy.details {
        ProxyDetails::Vless { tls, .. } => {
            let reality = tls.reality.unwrap();
            assert!(reality.enabled);
            assert_eq!(reality.public_key, "KEY");
            assert_eq!(reality.short_id, "ab");
        },
        other => panic!("unexpected details {:?}", other),
    }
}

#[test]
fn rejects_unknown_scheme() {
    assert_eq!(
        parse_proxy("http://example.com").unwrap_err(),
        ProcessorError::UnsupportedProtocol("http".to_string())
    );
}

#[test]
fn reports_missing_port_and_uuid() {
    assert_eq!(
        parse_proxy("vless://uuid@example.com").unwrap_err(),
        ProcessorError::MissingComponent("port")
    );
    assert_eq!(
        parse_proxy("vless://@example.com:443").unwrap_err(),
        ProcessorError::MissingComponent("uuid")
    );
}

#[test]
fn rejects_unknown_transport_and_websocket_without_path() {
    assert_eq!(
        parse_proxy("vless://id@example.com:443?type=kcp").unwrap_err(),
        ProcessorError::InvalidValue("transport type: kcp".to_string())
    );
    assert_eq!(
        parse_proxy("vless://id@example.com:443?type=ws").unwrap_err(),
        ProcessorError::MissingComponent("path")
    );
}

#[test]
fn shadowsocks_needs_method_and_password() {
    assert_eq!(
        parse_proxy("ss://YWVzLTI1Ni1nY20@1.2.3.4:8388").unwrap_err(),
        ProcessorError::MissingComponent("method:password")
    );
}

#[test]
fn text_without_base64_is_an_error() {
    assert_eq!(
        parse_proxy("!!!").unwrap_err(),
        ProcessorError::Base64DecodeFailed(
            "Could not find a valid Base64 characters in input".to_string()
        )
    );
}

#[test]
fn undecodable_links_are_not_readable() {
    assert!(try_parse_proxy("vless://id@example.com:443#%FF").is_none());
    assert!(try_parse_proxy("vless://%25FF@example.com:443").is_none());
    assert!(try_parse_proxy("vless://id@example.com:443").is_some());
}

#[test]
fn decode_base64_skips_garbage() {
    let (data, garbage) = decode_base64("  YWVzLTI1Ni1nY20!!").unwrap();
    assert_eq!(data, b"aes-256-gcm".to_vec());
    assert_eq!(garbage, "!!");
    let (data, garbage) = decode_base64("YWVzLTI1Ni1nY206cGFzc3dvcmQ=").unwrap();
    assert_eq!(data, b"aes-256-gcm:password".to_vec());
    assert_eq!(garbage, "=");
}

#[test]
fn decode_base64_gives_bytes_that_are_not_utf8() {
    let (data, garbage) = decode_base64("_w").unwrap();
    assert_eq!(data, vec![0xFFu8]);
    assert_eq!(garbage, "");
    assert_eq!(
        decode_base64("!!").unwrap_err(),
        ProcessorError::Base64DecodeFailed("Could not find a valid Base64 characters in input".to_string())
    );
}

#[test]
fn base64_text_that_is_not_utf8_is_an_error() {
    assert_eq!(
        parse_proxy("vless:/x").unwrap_err(),
        ProcessorError::Base64DecodeFailed("invalid utf-8 sequence".to_string())
    );
    assert_eq!(
        parse_proxy("_w").unwrap_err(),
        ProcessorError::Base64DecodeFailed("invalid utf-8 sequence".to_string())
    );
}

#[test]
fn later_parameters_win() {
    let ps = params(&[("type", "ws"), ("type", "grpc")]);
    assert_eq!(param_get(&ps, "type"), Some("grpc"));
    assert_eq!(param_get(&ps, "path"), None);
}

#[test]
fn tls_settings_from_parameters() {
    let off = parse_tls_settings(&params(&[("security", "none"), ("sni", "x")])).unwrap();
    assert!(!off.enabled);
    assert_eq!(off.server_name, None);
    let on = parse_tls_settings(&params(&[("security", "tls"), ("alpn", "a,,b")])).unwrap();
    assert!(on.enabled);
    assert_eq!(on.alpn, Some(vec!["a".to_string(), String::new(), "b".to_string()]));
    assert!(on.reality.is_none());
}

#[test]
fn transport_settings_from_parameters() {
    assert_eq!(parse_transport_settings(&params(&[])).unwrap(), TransportSettings::Tcp);
    assert_eq!(
        parse_transport_settings(&params(&[("type", "quic")])).unwrap(),
        TransportSettings::Quic
    );
    assert_eq!(
        parse_transport_settings(&params(&[("type", "tcp"), ("headerType", "http"), ("host", "a.com,b.com")]))
            .unwrap(),
        TransportSettings::Http {
            host: Some(vec!["a.com".to_string(), "b.com".to_string()]),
            path: "/".to_string(),
            method: String::new(),
        }
    );
    assert_eq!(
        parse_transport_settings(&params(&[("type", "httpupgrade"), ("path", "/up")])).unwrap(),
        TransportSettings::HttpUpgrade { host: None, path: "/up".to_string() }
    );
    assert_eq!(
        parse_transport_settings(&params(&[("type", "grpc")])).unwrap(),
        TransportSettings::Grpc { service_name: String::new() }
    );
}

#[test]
fn query_values_are_trimmed() {
    let proxy = parse_proxy("vless://id@example.com:443?type=ws&path=%20/p%20").unwrap();
    match proxy.details {
        ProxyDetails::Vless { transport, .. } => {
            assert_eq!(transport, TransportSettings::WebSocket { path: "/p".to_string() });
        },
        other => panic!("unexpected details {:?}", other),
    }
}

#[test]
fn base64_wrapped_link_reads_as_the_link() {
    for link in [
        "vless://id@example.com:443?type=ws&path=%2Fws#My%20Server",
        "ss://YWVzLTI1Ni1nY206cGFzc3dvcmQ@1.2.3.4:8388#ss-node",
        "vless://example.com:443",
        "trojan://pw@example.com:443",
    ] {
        let wrapped = base64::engine::general_purpose::URL_SAFE_NO_PAD.encode(link.as_bytes());
        assert_eq!(parse_proxy(&wrapped), parse_proxy(link));
    }
}

#[test]
fn stored_link_reads_back() {
    for link in [
        "vless://uuid-123@example.com:443?security=tls&sni=sni.example.com&type=ws&path=%2Fws#My%20Server",
        "ss://YWVzLTI1Ni1nY206cGFzc3dvcmQ@1.2.3.4:8388#ss-node",
        "dmxlc3M6Ly9pZEBoLmNvbTo4MD90eXBlPWdycGMmc2VydmljZU5hbWU9c3Zj",
    ] {
        let proxy = parse_proxy(link).unwrap();
        assert!(!proxy.original_link.contains('%'));
        assert!(proxy.original_link.contains('@'));
        assert_eq!(parse_proxy(&proxy.original_link), Ok(proxy.clone()));
    }
}
