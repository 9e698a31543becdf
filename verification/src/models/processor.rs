//! Proxies as read from share links, their settings, and filter options.

use vstd::prelude::*;

verus! {

/// The view of an optional value through its element's view.
pub open spec fn opt_view<T: View>(o: Option<T>) -> Option<T::V> {
    match o {
        Some(x) => Some(x@),
        None => None,
    }
}

/// The protocol of a proxy.
#[derive(Debug, PartialEq, Eq, PartialOrd, Ord, Hash, Clone, Copy, Structural)]
pub enum ProxyType {
    Vmess,
    Vless,
    Trojan,
    Shadowsocks,
    ShadowsocksR,
    Hysteria2,
}

/// The error of reading a proxy type from its name.
#[derive(Debug, PartialEq, Eq, Clone, Copy, Structural)]
pub struct ParseProxyTypeError;

/// The short name of a proxy type, as it is displayed.
pub open spec fn proxy_type_name(t: ProxyType) -> Seq<char> {
    match t {
        ProxyType::Vmess => "vmess"@,
        ProxyType::Vless => "vless"@,
        ProxyType::Trojan => "trojan"@,
        ProxyType::Shadowsocks => "ss"@,
        ProxyType::ShadowsocksR => "ssr"@,
        ProxyType::Hysteria2 => "h2"@,
    }
}

/// The lower-case form of `c`, where that form is a single ASCII letter; `c` itself where
/// `c` is not an upper-case ASCII letter or the Kelvin sign, the only other character whose
/// lower-case form is ASCII.
pub open spec fn fold_case(c: char) -> char {
    if 'A' <= c && c <= 'Z' {
        ((c as u8) + 32) as char
    } else if c == '\u{212A}' {
        'k'
    } else {
        c
    }
}

pub open spec fn fold_case_seq(s: Seq<char>) -> Seq<char> {
    s.map_values(|c: char| fold_case(c))
}

/// The proxy type that a name stands for, compared without regard to case.
pub open spec fn proxy_type_from_name(s: Seq<char>) -> Option<ProxyType> {
    let l = fold_case_seq(s);
    if l == "vmess"@ {
        Some(ProxyType::Vmess)
    } else if l == "vless"@ {
        Some(ProxyType::Vless)
    } else if l == "trojan"@ {
        Some(ProxyType::Trojan)
    } else if l == "shadowsocks"@ || l == "ss"@ {
        Some(ProxyType::Shadowsocks)
    } else if l == "shadowsocksr"@ || l == "ssr"@ {
        Some(ProxyType::ShadowsocksR)
    } else if l == "hysteria2"@ || l == "h2"@ {
        Some(ProxyType::Hysteria2)
    } else {
        None
    }
}

/// TLS settings of a proxy.
#[derive(Debug, Clone, PartialEq, Eq, PartialOrd, Ord)]
pub struct TlsSettings {
    pub enabled: bool,
    pub server_name: Option<String>,
    pub alpn: Option<Vec<String>>,
    pub fingerprint: Option<String>,
    pub reality: Option<RealitySettings>,
}

/// REALITY settings of a proxy.
#[derive(Debug, Clone, PartialEq, Eq, PartialOrd, Ord)]
pub struct RealitySettings {
    pub enabled: bool,
    pub public_key: String,
    pub short_id: String,
}

/// The transport a proxy speaks over.
#[derive(Debug, Clone, PartialEq, Eq, PartialOrd, Ord)]
pub enum TransportSettings {
    Grpc { service_name: String },
    Http { host: Option<Vec<String>>, path: String, method: String },
    HttpUpgrade { host: Option<Vec<String>>, path: String },
    Quic,
    Tcp,
    WebSocket { path: String },
}

/// The protocol-specific part of a proxy.
#[derive(Debug, Clone, PartialEq, Eq, PartialOrd, Ord)]
pub enum ProxyDetails {
    Generic,
    Vmess { uuid: String, tls: TlsSettings, transport: TransportSettings },
    Vless { uuid: String, flow: Option<String>, tls: TlsSettings, transport: TransportSettings },
    Trojan { password: String, tls: TlsSettings, transport: TransportSettings },
    Shadowsocks { method: String, password: String },
}

/// A proxy read from a share link.
#[derive(Debug, Clone, PartialEq, Eq, PartialOrd, Ord)]
pub struct Proxy {
    pub original_link: String,
    pub address: String,
    pub port: u16,
    pub remarks: Option<String>,
    pub proxy_type: ProxyType,
    pub details: ProxyDetails,
    pub geoip: Option<GeoIpInfo>,
}

/// The country that a proxy's address belongs to.
#[derive(Debug, Clone, PartialEq, Eq, PartialOrd, Ord)]
pub struct GeoIpInfo {
    pub is_in_eu: bool,
    pub iso_code: String,
    pub name: Option<String>,
}

/// Which proxies to keep.
#[derive(Debug, Default)]
pub struct FilterOptions {
    pub proxy_types: Option<Vec<ProxyType>>,
    pub include_countries: Option<Vec<String>>,
    pub exclude_countries: Option<Vec<String>>,
}

#[verifier::ext_equal]
pub struct RealityView {
    pub enabled: bool,
    pub public_key: Seq<char>,
    pub short_id: Seq<char>,
}

#[verifier::ext_equal]
pub struct TlsView {
    pub enabled: bool,
    pub server_name: Option<Seq<char>>,
    pub alpn: Option<Seq<Seq<char>>>,
    pub fingerprint: Option<Seq<char>>,
    pub reality: Option<RealityView>,
}

#[verifier::ext_equal]
pub enum TransportView {
    Grpc { service_name: Seq<char> },
    Http { host: Option<Seq<Seq<char>>>, path: Seq<char>, method: Seq<char> },
    HttpUpgrade { host: Option<Seq<Seq<char>>>, path: Seq<char> },
    Quic,
    Tcp,
    WebSocket { path: Seq<char> },
}

#[verifier::ext_equal]
pub enum DetailsView {
    Generic,
    Vmess { uuid: Seq<char>, tls: TlsView, transport: TransportView },
    Vless { uuid: Seq<char>, flow: Option<Seq<char>>, tls: TlsView, transport: TransportView },
    Trojan { password: Seq<char>, tls: TlsView, transport: TransportView },
    Shadowsocks { method: Seq<char>, password: Seq<char> },
}

#[verifier::ext_equal]
pub struct GeoIpView {
    pub is_in_eu: bool,
    pub iso_code: Seq<char>,
    pub name: Option<Seq<char>>,
}

#[verifier::ext_equal]
pub struct ProxyView {
    pub original_link: Seq<char>,
    pub address: Seq<char>,
    pub port: u16,
    pub remarks: Option<Seq<char>>,
    pub proxy_type: ProxyType,
    pub details: DetailsView,
    pub geoip: Option<GeoIpView>,
}

#[verifier::ext_equal]
pub struct FilterView {
    pub proxy_types: Option<Seq<ProxyType>>,
    pub include_countries: Option<Seq<Seq<char>>>,
    pub exclude_countries: Option<Seq<Seq<char>>>,
}

impl View for RealitySettings {
    type V = RealityView;

    open spec fn view(&self) -> RealityView {
        RealityView { enabled: self.enabled, public_key: self.public_key@, short_id: self.short_id@ }
    }
}

impl View for TlsSettings {
    type V = TlsView;

    open spec fn view(&self) -> TlsView {
        TlsView {
            enabled: self.enabled,
            server_name: self.server_name.deep_view(),
            alpn: self.alpn.deep_view(),
            fingerprint: self.fingerprint.deep_view(),
            reality: opt_view(self.reality),
        }
    }
}

impl View for TransportSettings {
    type V = TransportView;

    open spec fn view(&self) -> TransportView {
        match self {
            TransportSettings::Grpc { service_name } => TransportView::Grpc {
                service_name: service_name@,
            },
            TransportSettings::Http { host, path, method } => TransportView::Http {
                host: host.deep_view(),
                path: path@,
                method: method@,
            },
            TransportSettings::HttpUpgrade { host, path } => TransportView::HttpUpgrade {
                host: host.deep_view(),
                path: path@,
            },
            TransportSettings::Quic => TransportView::Quic,
            TransportSettings::Tcp => TransportView::Tcp,
            TransportSettings::WebSocket { path } => TransportView::WebSocket { path: path@ },
        }
    }
}

impl View for ProxyDetails {
    type V = DetailsView;

    open spec fn view(&self) -> DetailsView {
        match self {
            ProxyDetails::Generic => DetailsView::Generic,
            ProxyDetails::Vmess { uuid, tls, transport } => DetailsView::Vmess {
                uuid: uuid@,
                tls: tls@,
                transport: transport@,
            },
            ProxyDetails::Vless { uuid, flow, tls, transport } => DetailsView::Vless {
                uuid: uuid@,
                flow: flow.deep_view(),
                tls: tls@,
                transport: transport@,
            },
            ProxyDetails::Trojan { password, tls, transport } => DetailsView::Trojan {
                password: password@,
                tls: tls@,
                transport: transport@,
            },
            ProxyDetails::Shadowsocks { method, password } => DetailsView::Shadowsocks {
                method: method@,
                password: password@,
            },
        }
    }
}

impl View for GeoIpInfo {
    type V = GeoIpView;

    open spec fn view(&self) -> GeoIpView {
        GeoIpView { is_in_eu: self.is_in_eu, iso_code: self.iso_code@, name: self.name.deep_view() }
    }
}

impl View for Proxy {
    type V = ProxyView;

    open spec fn view(&self) -> ProxyView {
        ProxyView {
            original_link: self.original_link@,
            address: self.address@,
            port: self.port,
            remarks: self.remarks.deep_view(),
            proxy_type: self.proxy_type,
            details: self.details@,
            geoip: opt_view(self.geoip),
        }
    }
}

impl View for FilterOptions {
    type V = FilterView;

    open spec fn view(&self) -> FilterView {
        FilterView {
            proxy_types: opt_view(self.proxy_types),
            include_countries: self.include_countries.deep_view(),
            exclude_countries: self.exclude_countries.deep_view(),
        }
    }
}

/// TLS switched off, with nothing set.
pub open spec fn tls_off() -> TlsView {
    TlsView { enabled: false, server_name: None, alpn: None, fingerprint: None, reality: None }
}

impl Default for TlsSettings {
    fn default() -> (r: Self)
        ensures
            r@ == tls_off(),
    {
        TlsSettings { enabled: false, server_name: None, alpn: None, fingerprint: None, reality: None }
    }
}

impl Default for RealitySettings {
    fn default() -> (r: Self)
        ensures
            r@ == (RealityView { enabled: false, public_key: seq![], short_id: seq![] }),
    {
        RealitySettings { enabled: false, public_key: String::new(), short_id: String::new() }
    }
}

impl Default for TransportSettings {
    fn default() -> (r: Self)
        ensures
            r@ == TransportView::Tcp,
    {
        TransportSettings::Tcp
    }
}

impl Default for ProxyDetails {
    fn default() -> (r: Self)
        ensures
            r@ == DetailsView::Generic,
    {
        ProxyDetails::Generic
    }
}


fn fold_case_exec(c: char) -> (r: char)
    ensures
        r == fold_case(c),
{
    if 'A' <= c && c <= 'Z' {
        ((c as u8) + 32) as char
    } else if c == '\u{212A}' {
        'k'
    } else {
        c
    }
}

/// Whether `s`, with its case folded, is `name`.
fn folded_eq(s: &str, name: &str) -> (r: bool)
    ensures
        r == (fold_case_seq(s@) == name@),
{
    let n = s.unicode_len();
    let m = name.unicode_len();
    if n != m {
        proof {
            assert(fold_case_seq(s@).len() == n);
        }
        return false;
    }
    let mut i: usize = 0;
    while i < n
        invariant
            n == s@.len(),
            m == name@.len(),
            n == m,
            i <= n,
            forall|j: int| 0 <= j < i ==> fold_case(s@[j]) == name@[j],
        decreases n - i,
    {
        if fold_case_exec(s.get_char(i)) != name.get_char(i) {
            proof {
                assert(fold_case_seq(s@)[i as int] != name@[i as int]);
            }
            return false;
        }
        i = i + 1;
    }
    proof {
        assert(fold_case_seq(s@) =~= name@);
    }
    true
}

impl ProxyType {
    /// The short name of the proxy type, as it is displayed.
    pub fn to_string(&self) -> (r: String)
        ensures
            r@ == proxy_type_name(*self),
    {
        match self {
            ProxyType::Vmess => "vmess".to_owned(),
            ProxyType::Vless => "vless".to_owned(),
            ProxyType::Trojan => "trojan".to_owned(),
            ProxyType::Shadowsocks => "ss".to_owned(),
            ProxyType::ShadowsocksR => "ssr".to_owned(),
            ProxyType::Hysteria2 => "h2".to_owned(),
        }
    }

    /// The proxy type that `s` names, regardless of case.
    pub fn from_name(s: &str) -> (r: Result<ProxyType, ParseProxyTypeError>)
        ensures
            match r {
                Ok(t) => proxy_type_from_name(s@) == Some(t),
                Err(_) => proxy_type_from_name(s@) is None,
            },
    {
        if folded_eq(s, "vmess") {
            Ok(ProxyType::Vmess)
        } else if folded_eq(s, "vless") {
            Ok(ProxyType::Vless)
        } else if folded_eq(s, "trojan") {
            Ok(ProxyType::Trojan)
        } else if folded_eq(s, "shadowsocks") || folded_eq(s, "ss") {
            Ok(ProxyType::Shadowsocks)
        } else if folded_eq(s, "shadowsocksr") || folded_eq(s, "ssr") {
            Ok(ProxyType::ShadowsocksR)
        } else if folded_eq(s, "hysteria2") || folded_eq(s, "h2") {
            Ok(ProxyType::Hysteria2)
        } else {
            Err(ParseProxyTypeError)
        }
    }
}

impl core::str::FromStr for ProxyType {
    type Err = ParseProxyTypeError;

    fn from_str(s: &str) -> (r: Result<Self, Self::Err>)
        ensures
            match r {
                Ok(t) => proxy_type_from_name(s@) == Some(t),
                Err(_) => proxy_type_from_name(s@) is None,
            },
    {
        ProxyType::from_name(s)
    }
}

/// The name that a proxy type is displayed by reads back as that proxy type.
pub proof fn lemma_proxy_type_name_round_trip(t: ProxyType)
    ensures
        proxy_type_from_name(proxy_type_name(t)) == Some(t),
{
    reveal_strlit("vmess");
    reveal_strlit("vless");
    reveal_strlit("trojan");
    reveal_strlit("ss");
    reveal_strlit("ssr");
    reveal_strlit("h2");
    reveal_strlit("shadowsocks");
    reveal_strlit("shadowsocksr");
    reveal_strlit("hysteria2");
    let n = proxy_type_name(t);
    assert forall|i: int| 0 <= i < n.len() implies fold_case(#[trigger] n[i]) == n[i] by {
        assert('a' <= n[i] <= 'z' || '0' <= n[i] <= '9');
    }
    assert(fold_case_seq(n) =~= n);
    match t {
        ProxyType::Vmess => {},
        ProxyType::Vless => { assert(n[1] != "vmess"@[1]); },
        ProxyType::Trojan => { assert(n.len() != 5); },
        ProxyType::Shadowsocks => { assert(n.len() == 2); assert(n[0] != "h2"@[0]); },
        ProxyType::ShadowsocksR => { assert(n.len() == 3); assert(n[0] != "h2"@[0]); },
        ProxyType::Hysteria2 => { assert(n[0] != "ss"@[0]); },
    }
}

} // verus!
