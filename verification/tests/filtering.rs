use proxy_processor::models::{FilterOptions, GeoIpInfo, Proxy, ProxyDetails, ProxyType};
use proxy_processor::processor::{is_proxy_in_countries, needs_geoip, passes_filters, process_and_filter};

fn proxy(link: &str, proxy_type: ProxyType, geoip: Option<GeoIpInfo>) -> Proxy {
    Proxy {
        original_link: link.to_string(),
        address: "example.com".to_string(),
        port: 443,
        remarks: None,
        proxy_type,
        details: ProxyDetails::Generic,
        geoip,
    }
}

fn geo(iso: &str, eu: bool) -> GeoIpInfo {
    GeoIpInfo { is_in_eu: eu, iso_code: iso.to_string(), name: None }
}

fn strings(items: &[&str]) -> Vec<String> {
    items.iter().map(|s| s.to_string()).collect()
}

#[test]
fn countries_match_by_code_or_eu() {
    assert!(is_proxy_in_countries(&Some(geo("DE", true)), &strings(&["DE"])));
    assert!(is_proxy_in_countries(&Some(geo("DE", true)), &strings(&["EU"])));
    assert!(!is_proxy_in_countries(&Some(geo("US", false)), &strings(&["EU"])));
    assert!(!is_proxy_in_countries(&None, &strings(&["EU", "US"])));
}

#[test]
fn lookups_only_where_countries_are_filtered() {
    let none = FilterOptions::default();
    assert!(!needs_geoip(&none, &proxy("a", ProxyType::Vless, None)));
    let with_countries = FilterOptions { include_countries: Some(strings(&["US"])), ..FilterOptions::default() };
    assert!(needs_geoip(&with_countries, &proxy("a", ProxyType::Vless, None)));
    assert!(!needs_geoip(&with_countries, &proxy("a", ProxyType::Vless, Some(geo("US", false)))));
}

#[test]
fn exclusion_needs_a_known_country() {
    let exclude = FilterOptions { exclude_countries: Some(strings(&["US"])), ..FilterOptions::default() };
    assert!(!passes_filters(&exclude, &proxy("a", ProxyType::Vless, None)));
    assert!(!passes_filters(&exclude, &proxy("a", ProxyType::Vless, Some(geo("US", false)))));
    assert!(passes_filters(&exclude, &proxy("a", ProxyType::Vless, Some(geo("JP", false)))));
}

#[test]
fn sorts_and_removes_duplicates() {
    let input = vec![
        proxy("vless://c", ProxyType::Vless, None),
        proxy("ss://a", ProxyType::Shadowsocks, None),
        proxy("vless://c", ProxyType::Vless, None),
        proxy("ss://b", ProxyType::Shadowsocks, None),
    ];
    let out = process_and_filter(input, &FilterOptions::default(), vec![None, None, None, None]);
    let links: Vec<&str> = out.iter().map(|p| p.original_link.as_str()).collect();
    assert_eq!(links, vec!["ss://a", "ss://b", "vless://c"]);
}

#[test]
fn prefix_comes_first() {
    let input = vec![
        proxy("ss://ab", ProxyType::Shadowsocks, None),
        proxy("ss://a", ProxyType::Shadowsocks, None),
    ];
    let out = process_and_filter(input, &FilterOptions::default(), vec![None, None]);
    let links: Vec<&str> = out.iter().map(|p| p.original_link.as_str()).collect();
    assert_eq!(links, vec!["ss://a", "ss://ab"]);
}

#[test]
fn filters_by_type() {
    let input = vec![
        proxy("vless://c", ProxyType::Vless, None),
        proxy("ss://a", ProxyType::Shadowsocks, None),
    ];
    let options = FilterOptions { proxy_types: Some(vec![ProxyType::Vless]), ..FilterOptions::default() };
    let out = process_and_filter(input, &options, vec![Some(geo("US", false)), None]);
    assert_eq!(out.len(), 1);
    assert_eq!(out[0].original_link, "vless://c");
    assert!(out[0].geoip.is_none());
}

#[test]
fn fills_countries_then_filters_by_them() {
    let input = vec![
        proxy("vless://a", ProxyType::Vless, None),
        proxy("vless://b", ProxyType::Vless, None),
        proxy("vless://c", ProxyType::Vless, Some(geo("JP", false))),
    ];
    let options = FilterOptions {
        include_countries: Some(strings(&["jp", "JP", "EU"])),
        ..FilterOptions::default()
    };
    let out = process_and_filter(input, &options, vec![Some(geo("DE", true)), Some(geo("US", false)), Some(geo("US", false))]);
    let links: Vec<&str> = out.iter().map(|p| p.original_link.as_str()).collect();
    assert_eq!(links, vec!["vless://a", "vless://c"]);
    assert_eq!(out[0].geoip, Some(geo("DE", true)));
    assert_eq!(out[1].geoip, Some(geo("JP", false)));
}

#[test]
fn filtering_twice_changes_nothing() {
    let input = vec![
        proxy("vless://b", ProxyType::Vless, None),
        proxy("vless://a", ProxyType::Vless, None),
    ];
    let options = FilterOptions { exclude_countries: Some(strings(&["US"])), ..FilterOptions::default() };
    let once = process_and_filter(input, &options, vec![Some(geo("DE", true)), Some(geo("FR", true))]);
    let n = once.len();
    let twice = process_and_filter(once.clone(), &options, vec![Some(geo("US", false)); n]);
    assert_eq!(once, twice);
    assert_eq!(n, 2);
}

#[test]
fn order_and_repeats_of_the_input_do_not_matter() {
    let forward = vec![
        proxy("ss://a", ProxyType::Shadowsocks, None),
        proxy("vless://b", ProxyType::Vless, None),
        proxy("ss://c", ProxyType::Shadowsocks, None),
    ];
    let backward = vec![
        proxy("ss://c", ProxyType::Shadowsocks, None),
        proxy("vless://b", ProxyType::Vless, None),
        proxy("ss://c", ProxyType::Shadowsocks, None),
        proxy("ss://a", ProxyType::Shadowsocks, None),
    ];
    let options = FilterOptions { proxy_types: Some(vec![ProxyType::Shadowsocks]), ..FilterOptions::default() };
    let one = process_and_filter(forward, &options, vec![None; 3]);
    let other = process_and_filter(backward, &options, vec![None; 4]);
    assert_eq!(one, other);
    assert_eq!(one.len(), 2);
}

#[test]
fn country_codes_match_regardless_of_case() {
    assert!(is_proxy_in_countries(&Some(geo("JP", false)), &strings(&["jp", "us"])));
    assert!(is_proxy_in_countries(&Some(geo("US", false)), &strings(&["jp", "us"])));
    assert!(is_proxy_in_countries(&Some(geo("DE", true)), &strings(&["eu"])));
    assert!(!is_proxy_in_countries(&Some(geo("DE", false)), &strings(&["eu"])));
    assert!(!is_proxy_in_countries(&Some(geo("JP", false)), &strings(&["jpn"])));
    let input = vec![
        proxy("vless://a", ProxyType::Vless, None),
        proxy("vless://b", ProxyType::Vless, None),
    ];
    let wanted = FilterOptions { include_countries: Some(strings(&["jp", "us"])), ..FilterOptions::default() };
    let out = process_and_filter(input.clone(), &wanted, vec![Some(geo("JP", false)), Some(geo("DE", true))]);
    let links: Vec<&str> = out.iter().map(|p| p.original_link.as_str()).collect();
    assert_eq!(links, vec!["vless://a"]);
    let exclude = FilterOptions { exclude_countries: Some(strings(&["jp"])), ..FilterOptions::default() };
    let out = process_and_filter(input, &exclude, vec![Some(geo("JP", false)), Some(geo("DE", true))]);
    let links: Vec<&str> = out.iter().map(|p| p.original_link.as_str()).collect();
    assert_eq!(links, vec!["vless://b"]);
}

#[test]
fn more_input_never_drops_a_proxy() {
    let small = vec![
        proxy("ss://a", ProxyType::Shadowsocks, None),
        proxy("vless://b", ProxyType::Vless, None),
    ];
    let mut large = small.clone();
    large.push(proxy("ss://0", ProxyType::Shadowsocks, None));
    large.push(proxy("vless://z", ProxyType::Vless, None));
    let options = FilterOptions::default();
    let few = process_and_filter(small, &options, vec![None; 2]);
    let many = process_and_filter(large, &options, vec![None; 4]);
    assert!(few.iter().all(|p| many.contains(p)));
    assert_eq!(many.len(), 4);
}

#[test]
fn without_country_filters_lookups_are_ignored() {
    let input = vec![
        proxy("ss://a", ProxyType::Shadowsocks, None),
        proxy("vless://b", ProxyType::Vless, None),
    ];
    let options = FilterOptions { proxy_types: Some(vec![ProxyType::Vless, ProxyType::Shadowsocks]), ..FilterOptions::default() };
    let one = process_and_filter(input.clone(), &options, vec![None, None]);
    let other = process_and_filter(input, &options, vec![Some(geo("US", false)), Some(geo("DE", true))]);
    assert_eq!(one, other);
    assert!(one.iter().all(|p| p.geoip.is_none()));
    assert_eq!(one.len(), 2);
}
