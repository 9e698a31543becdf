use proxy_processor::models::{ParseProxyTypeError, ProxyType};
use proxy_processor::text::{decimal_string, split_char_str, trim_str};

#[test]
fn proxy_type_names() {
    assert_eq!(ProxyType::Shadowsocks.to_string(), "ss");
    assert_eq!(ProxyType::Hysteria2.to_string(), "h2");
    assert_eq!(ProxyType::from_name("VLESS"), Ok(ProxyType::Vless));
    assert_eq!(ProxyType::from_name("ShadowsocksR"), Ok(ProxyType::ShadowsocksR));
    assert_eq!(ProxyType::from_name("ss"), Ok(ProxyType::Shadowsocks));
    assert_eq!(ProxyType::from_name("SHADOWSOC\u{212A}S"), Ok(ProxyType::Shadowsocks));
    assert_eq!(ProxyType::from_name("socks"), Err(ParseProxyTypeError));
    assert_eq!("trojan".parse::<ProxyType>(), Ok(ProxyType::Trojan));
}

#[test]
fn names_read_back() {
    for t in [
        ProxyType::Vmess,
        ProxyType::Vless,
        ProxyType::Trojan,
        ProxyType::Shadowsocks,
        ProxyType::ShadowsocksR,
        ProxyType::Hysteria2,
    ] {
        assert_eq!(ProxyType::from_name(&t.to_string()), Ok(t));
    }
}

#[test]
fn text_helpers() {
    assert_eq!(trim_str("\u{3000} a b \t"), "a b");
    assert_eq!(split_char_str("", ','), vec![String::new()]);
    assert_eq!(split_char_str("a,b", ','), vec!["a".to_string(), "b".to_string()]);
    assert_eq!(decimal_string(0), "0");
    assert_eq!(decimal_string(1234), "1234");
}
