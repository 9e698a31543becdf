//! Writing proxies out as share links or as sing-box outbounds.

use vstd::prelude::*;

use crate::error::ExportError;
use crate::json::{
    get_string_member, json_members_view, json_view, member_value, push_member, string_array,
    string_member, strings_json, JsonValue, JsonView,
};
use crate::models::processor::{proxy_type_name, opt_view};
use crate::models::{
    DetailsView, Proxy, ProxyDetails, ProxyType, ProxyView, RealitySettings, TlsSettings, TlsView,
    TransportSettings, TransportView,
};
use crate::text::{concat_str, decimal, decimal_string, seq_join};

verus! {

/// The line ending put between exported links.
pub open spec fn line_ending() -> Seq<char> {
    "\n"@
}

/// Formats proxies one by one.
pub trait Exporter {
    /// Whether `format_proxy` is defined on the proxy at that index.
    spec fn accepts(&self, proxy: ProxyView, index: int) -> bool;

    /// The JSON form of `proxy`, the `index`th of the proxies being exported.
    fn format_proxy(&self, proxy: &Proxy, index: usize) -> (r: Result<JsonValue, ExportError>)
        requires
            self.accepts(proxy@, index as int),
    ;
}

/// Exports each proxy as the link it was read from.
pub struct LinkExporter;

impl LinkExporter {
    pub fn new() -> (r: Self) {
        LinkExporter
    }
}

impl Default for LinkExporter {
    fn default() -> (r: Self) {
        LinkExporter
    }
}

impl Exporter for LinkExporter {
    open spec fn accepts(&self, proxy: ProxyView, index: int) -> bool {
        true
    }

    fn format_proxy(&self, proxy: &Proxy, index: usize) -> (r: Result<JsonValue, ExportError>)
        ensures
            r matches Ok(v) && v@ == JsonView::String(proxy@.original_link),
    {
        Ok(JsonValue::String(proxy.original_link.clone()))
    }
}

/// Calls `itertools::Itertools::join` on the strings. Claimed: the strings in order, with
/// `sep` between each two neighbours.
#[verifier::external_body]
fn join_strings(items: &Vec<String>, sep: &str) -> (r: String)
    ensures
        r@ == seq_join(items.deep_view(), sep@),
{
    itertools::Itertools::join(&mut items.iter(), sep)
}

/// The original links of the proxies.
pub open spec fn original_links(proxies: Seq<Proxy>) -> Seq<Seq<char>> {
    proxies.map_values(|p: Proxy| p.original_link@)
}

impl LinkExporter {
    /// The proxies' original links, one per line.
    pub fn export(&self, proxies: &[Proxy]) -> (r: Result<String, ExportError>)
        ensures
            r matches Ok(s) && s@ == seq_join(original_links(proxies@), line_ending()),
    {
        self.export_lines(proxies, "\n")
    }

    /// The proxies' original links, with `line_ending` between each two (a platform's own
    /// line ending, such as `"\r\n"`).
    pub fn export_lines(&self, proxies: &[Proxy], line_ending: &str) -> (r: Result<String, ExportError>)
        ensures
            r matches Ok(s) && s@ == seq_join(original_links(proxies@), line_ending@),
    {
        let mut lines: Vec<String> = Vec::new();
        let mut i: usize = 0;
        while i < proxies.len()
            invariant
                i <= proxies@.len(),
                lines.deep_view() == original_links(proxies@).take(i as int),
            decreases proxies@.len() - i,
        {
            match self.format_proxy(&proxies[i], i) {
                Ok(JsonValue::String(s)) => {
                    let ghost before = lines.deep_view();
                    lines.push(s);
                    proof {
                        assert(lines.deep_view() =~= before.push(proxies@[i as int].original_link@));
                        assert(original_links(proxies@).take(i + 1) =~= original_links(proxies@).take(i as int).push(proxies@[i as int].original_link@));
                    }
                },
                _ => {
                    proof {
                        assert(false);
                    }
                },
            }
            i = i + 1;
        }
        proof {
            assert(original_links(proxies@).take(i as int) =~= original_links(proxies@));
        }
        Ok(join_strings(&lines, line_ending))
    }
}


/// Exports proxies as sing-box outbounds behind a `urltest` selector.
pub struct SingBoxExporter;

impl SingBoxExporter {
    pub fn new() -> (r: Self) {
        SingBoxExporter
    }
}

impl Default for SingBoxExporter {
    fn default() -> (r: Self) {
        SingBoxExporter
    }
}

/// A member when the value is present, else nothing.
pub open spec fn optional_member(key: Seq<char>, value: Option<JsonView>) -> Seq<(Seq<char>, JsonView)> {
    match value {
        Some(v) => seq![(key, v)],
        None => seq![],
    }
}

pub open spec fn string_json(s: Option<Seq<char>>) -> Option<JsonView> {
    match s {
        Some(x) => Some(JsonView::String(x)),
        None => None,
    }
}

pub open spec fn strings_array_json(s: Option<Seq<Seq<char>>>) -> Option<JsonView> {
    match s {
        Some(x) => Some(JsonView::Array(strings_json(x))),
        None => None,
    }
}

/// The `utls` member: present where the fingerprint is set and not empty.
pub open spec fn utls_json(fingerprint: Option<Seq<char>>) -> Option<JsonView> {
    match fingerprint {
        Some(fp) => if fp.len() > 0 {
            Some(
                JsonView::Object(
                    seq![("enabled"@, JsonView::Bool(true)), ("fingerprint"@, JsonView::String(fp))],
                ),
            )
        } else {
            None
        },
        None => None,
    }
}

/// The `reality` member: present where REALITY is set and enabled.
pub open spec fn reality_json(t: TlsView) -> Option<JsonView> {
    match t.reality {
        Some(r) => if r.enabled {
            Some(
                JsonView::Object(
                    seq![
                        ("enabled"@, JsonView::Bool(true)),
                        ("public_key"@, JsonView::String(r.public_key)),
                        ("short_id"@, JsonView::String(r.short_id)),
                    ],
                ),
            )
        } else {
            None
        },
        None => None,
    }
}

/// The sing-box `tls` object of TLS settings.
pub open spec fn spec_format_tls(t: TlsView) -> JsonView {
    if !t.enabled {
        JsonView::Object(seq![("enabled"@, JsonView::Bool(false))])
    } else {
        JsonView::Object(
            seq![("enabled"@, JsonView::Bool(true))]
                + optional_member("server_name"@, string_json(t.server_name))
                + optional_member("alpn"@, strings_array_json(t.alpn))
                + optional_member("utls"@, utls_json(t.fingerprint))
                + optional_member("reality"@, reality_json(t)),
        )
    }
}

/// The sing-box `transport` object of transport settings; none for plain TCP.
pub open spec fn spec_format_transport(t: TransportView) -> Option<JsonView> {
    match t {
        TransportView::Quic => Some(JsonView::Object(seq![("type"@, JsonView::String("quic"@))])),
        TransportView::Grpc { service_name } => Some(
            JsonView::Object(
                seq![
                    ("type"@, JsonView::String("grpc"@)),
                    ("service_name"@, JsonView::String(service_name)),
                ],
            ),
        ),
        TransportView::Http { host, path, method } => Some(
            JsonView::Object(
                seq![("type"@, JsonView::String("http"@))] + optional_member(
                    "host"@,
                    strings_array_json(host),
                ) + seq![
                    ("path"@, JsonView::String(path)),
                    ("method"@, JsonView::String(method)),
                ],
            ),
        ),
        TransportView::HttpUpgrade { host, path } => Some(
            JsonView::Object(
                seq![("type"@, JsonView::String("http"@))] + optional_member(
                    "host"@,
                    strings_array_json(host),
                ) + seq![("path"@, JsonView::String(path))],
            ),
        ),
        TransportView::WebSocket { path } => Some(
            JsonView::Object(
                seq![("type"@, JsonView::String("ws"@)), ("path"@, JsonView::String(path))],
            ),
        ),
        TransportView::Tcp => None,
    }
}

fn optional_string(key: &str, value: &Option<String>, members: &mut Vec<(String, JsonValue)>)
    ensures
        json_members_view(final(members)@) == json_members_view(old(members)@) + optional_member(
            key@,
            string_json(value.deep_view()),
        ),
{
    match value {
        Some(v) => push_member(members, key, JsonValue::String(v.clone())),
        None => {},
    }
    proof {
        assert(json_members_view(members@) =~= json_members_view(old(members)@) + optional_member(
            key@,
            string_json(value.deep_view()),
        ));
    }
}

fn optional_strings(key: &str, value: &Option<Vec<String>>, members: &mut Vec<(String, JsonValue)>)
    ensures
        json_members_view(final(members)@) == json_members_view(old(members)@) + optional_member(
            key@,
            strings_array_json(value.deep_view()),
        ),
{
    match value {
        Some(v) => push_member(members, key, string_array(v)),
        None => {},
    }
    proof {
        assert(json_members_view(members@) =~= json_members_view(old(members)@) + optional_member(
            key@,
            strings_array_json(value.deep_view()),
        ));
    }
}

impl SingBoxExporter {
    /// The sing-box `tls` object of TLS settings.
    pub fn format_tls(tls_settings: &TlsSettings) -> (r: JsonValue)
        ensures
            r@ == spec_format_tls(tls_settings@),
    {
        let mut members: Vec<(String, JsonValue)> = Vec::new();
        if !tls_settings.enabled {
            push_member(&mut members, "enabled", JsonValue::Bool(false));
            proof {
                assert(json_members_view(members@) =~= seq![("enabled"@, JsonView::Bool(false))]);
            }
            return JsonValue::Object(members);
        }
        push_member(&mut members, "enabled", JsonValue::Bool(true));
        let ghost first = json_members_view(members@);
        proof {
            assert(first =~= seq![("enabled"@, JsonView::Bool(true))]);
        }
        optional_string("server_name", &tls_settings.server_name, &mut members);
        optional_strings("alpn", &tls_settings.alpn, &mut members);
        let ghost before_utls = json_members_view(members@);
        match &tls_settings.fingerprint {
            Some(fingerprint) => {
                if fingerprint.as_str().unicode_len() > 0 {
                    let mut utls: Vec<(String, JsonValue)> = Vec::new();
                    push_member(&mut utls, "enabled", JsonValue::Bool(true));
                    push_member(&mut utls, "fingerprint", JsonValue::String(fingerprint.clone()));
                    proof {
                        assert(json_members_view(utls@) =~= seq![
                            ("enabled"@, JsonView::Bool(true)),
                            ("fingerprint"@, JsonView::String(fingerprint@)),
                        ]);
                    }
                    push_member(&mut members, "utls", JsonValue::Object(utls));
                }
            },
            None => {},
        }
        proof {
            assert(json_members_view(members@) =~= before_utls + optional_member(
                "utls"@,
                utls_json(tls_settings@.fingerprint),
            ));
        }
        let ghost before_reality = json_members_view(members@);
        match &tls_settings.reality {
            Some(reality) => {
                if reality.enabled {
                    let mut r: Vec<(String, JsonValue)> = Vec::new();
                    push_member(&mut r, "enabled", JsonValue::Bool(true));
                    push_member(&mut r, "public_key", JsonValue::String(reality.public_key.clone()));
                    push_member(&mut r, "short_id", JsonValue::String(reality.short_id.clone()));
                    proof {
                        assert(json_members_view(r@) =~= seq![
                            ("enabled"@, JsonView::Bool(true)),
                            ("public_key"@, JsonView::String(reality.public_key@)),
                            ("short_id"@, JsonView::String(reality.short_id@)),
                        ]);
                    }
                    push_member(&mut members, "reality", JsonValue::Object(r));
                }
            },
            None => {},
        }
        proof {
            assert(json_members_view(members@) =~= before_reality + optional_member(
                "reality"@,
                reality_json(tls_settings@),
            ));
            assert(json_members_view(members@) =~= seq![("enabled"@, JsonView::Bool(true))]
                + optional_member("server_name"@, string_json(tls_settings@.server_name))
                + optional_member("alpn"@, strings_array_json(tls_settings@.alpn))
                + optional_member("utls"@, utls_json(tls_settings@.fingerprint))
                + optional_member("reality"@, reality_json(tls_settings@)));
        }
        JsonValue::Object(members)
    }

    /// The sing-box `transport` object of transport settings; `None` for plain TCP.
    pub fn format_transport(transport_settings: &TransportSettings) -> (r: Option<JsonValue>)
        ensures
            opt_view(r) == spec_format_transport(transport_settings@),
    {
        let mut members: Vec<(String, JsonValue)> = Vec::new();
        match transport_settings {
            TransportSettings::Quic => {
                push_member(&mut members, "type", JsonValue::String("quic".to_owned()));
                proof {
                    assert(json_members_view(members@) =~= seq![("type"@, JsonView::String("quic"@))]);
                }
            },
            TransportSettings::Grpc { service_name } => {
                push_member(&mut members, "type", JsonValue::String("grpc".to_owned()));
                push_member(&mut members, "service_name", JsonValue::String(service_name.clone()));
                proof {
                    assert(json_members_view(members@) =~= seq![
                        ("type"@, JsonView::String("grpc"@)),
                        ("service_name"@, JsonView::String(service_name@)),
                    ]);
                }
            },
            TransportSettings::Http { host, path, method } => {
                push_member(&mut members, "type", JsonValue::String("http".to_owned()));
                optional_strings("host", host, &mut members);
                push_member(&mut members, "path", JsonValue::String(path.clone()));
                push_member(&mut members, "method", JsonValue::String(method.clone()));
                proof {
                    assert(json_members_view(members@) =~= seq![("type"@, JsonView::String("http"@))]
                        + optional_member("host"@, strings_array_json(host.deep_view())) + seq![
                        ("path"@, JsonView::String(path@)),
                        ("method"@, JsonView::String(method@)),
                    ]);
                }
            },
            TransportSettings::HttpUpgrade { host, path } => {
                push_member(&mut members, "type", JsonValue::String("http".to_owned()));
                optional_strings("host", host, &mut members);
                push_member(&mut members, "path", JsonValue::String(path.clone()));
                proof {
                    assert(json_members_view(members@) =~= seq![("type"@, JsonView::String("http"@))]
                        + optional_member("host"@, strings_array_json(host.deep_view())) + seq![
                        ("path"@, JsonView::String(path@)),
                    ]);
                }
            },
            TransportSettings::WebSocket { path } => {
                push_member(&mut members, "type", JsonValue::String("ws".to_owned()));
                push_member(&mut members, "path", JsonValue::String(path.clone()));
                proof {
                    assert(json_members_view(members@) =~= seq![
                        ("type"@, JsonView::String("ws"@)),
                        ("path"@, JsonView::String(path@)),
                    ]);
                }
            },
            TransportSettings::Tcp => {
                return None;
            },
        }
        let v = JsonValue::Object(members);
        proof {
            assert(Some(v@) =~= spec_format_transport(transport_settings@));
        }
        Some(v)
    }
}


/// The tag of the `index`th exported proxy: its country's name (else its ISO code) where
/// it has one, else its type's name, then `-` and its position counted from one.
pub open spec fn proxy_tag(p: ProxyView, index: int) -> Seq<char> {
    let prefix = match p.geoip {
        Some(g) => match g.name {
            Some(n) => n,
            None => g.iso_code,
        },
        None => proxy_type_name(p.proxy_type),
    };
    prefix + "-"@ + decimal((index + 1) as nat)
}

/// The sing-box outbound of a proxy, or the message of why it cannot have one.
pub open spec fn spec_format_proxy(p: ProxyView, index: int) -> Result<JsonView, Seq<char>> {
    let head = seq![
        ("tag"@, JsonView::String(proxy_tag(p, index))),
        ("server"@, JsonView::String(p.address)),
        ("server_port"@, JsonView::Number(p.port as u64)),
    ];
    match p.proxy_type {
        ProxyType::Vless => match p.details {
            DetailsView::Vless { uuid, flow, tls, transport } => Ok(
                JsonView::Object(
                    head + seq![
                        ("type"@, JsonView::String("vless"@)),
                        ("uuid"@, JsonView::String(uuid)),
                        ("packet_encoding"@, JsonView::String("xudp"@)),
                    ] + (if tls.enabled {
                        seq![("tls"@, spec_format_tls(tls))]
                    } else {
                        seq![]
                    }) + optional_member("transport"@, spec_format_transport(transport)),
                ),
            ),
            _ => Err("Mismatched proxy type and details for Vless"@),
        },
        ProxyType::Shadowsocks => match p.details {
            DetailsView::Shadowsocks { method, password } => Ok(
                JsonView::Object(
                    head + seq![
                        ("type"@, JsonView::String("shadowsocks"@)),
                        ("method"@, JsonView::String(method)),
                        ("password"@, JsonView::String(password)),
                    ],
                ),
            ),
            _ => Err("Mismatched proxy type and details for Shadowsocks"@),
        },
        other => Err(proxy_type_name(other)),
    }
}

/// Whether the sing-box exporter has a rule for the proxy's type (it has none for vmess and
/// trojan) and its position can be counted from one.
pub open spec fn sing_box_accepts(p: ProxyView, index: int) -> bool {
    p.proxy_type != ProxyType::Vmess && p.proxy_type != ProxyType::Trojan && index < usize::MAX
}

impl Exporter for SingBoxExporter {
    open spec fn accepts(&self, proxy: ProxyView, index: int) -> bool {
        sing_box_accepts(proxy, index)
    }

    fn format_proxy(&self, proxy: &Proxy, index: usize) -> (r: Result<JsonValue, ExportError>)
        ensures
            match r {
                Ok(v) => spec_format_proxy(proxy@, index as int) == Ok::<JsonView, Seq<char>>(v@),
                Err(e) => e matches ExportError::UnsupportedProtocol(m) && spec_format_proxy(
                    proxy@,
                    index as int,
                ) == Err::<JsonView, Seq<char>>(m@),
            },
    {
        let number = decimal_string((index + 1) as u64);
        let prefix = match &proxy.geoip {
            Some(geo) => match &geo.name {
                Some(n) => n.clone(),
                None => geo.iso_code.clone(),
            },
            None => proxy.proxy_type.to_string(),
        };
        let dashed = concat_str(prefix.as_str(), "-");
        let tag = concat_str(dashed.as_str(), number.as_str());
        let mut members: Vec<(String, JsonValue)> = Vec::new();
        push_member(&mut members, "tag", JsonValue::String(tag));
        push_member(&mut members, "server", JsonValue::String(proxy.address.clone()));
        push_member(&mut members, "server_port", JsonValue::Number(proxy.port as u64));
        let ghost head = json_members_view(members@);
        proof {
            assert(head =~= seq![
                ("tag"@, JsonView::String(proxy_tag(proxy@, index as int))),
                ("server"@, JsonView::String(proxy@.address)),
                ("server_port"@, JsonView::Number(proxy@.port as u64)),
            ]);
        }
        match proxy.proxy_type {
            ProxyType::Vless => match &proxy.details {
                ProxyDetails::Vless { uuid, flow: _, tls, transport } => {
                    push_member(&mut members, "type", JsonValue::String("vless".to_owned()));
                    push_member(&mut members, "uuid", JsonValue::String(uuid.clone()));
                    push_member(&mut members, "packet_encoding", JsonValue::String("xudp".to_owned()));
                    let ghost with_type = json_members_view(members@);
                    if tls.enabled {
                        push_member(&mut members, "tls", Self::format_tls(tls));
                    }
                    let ghost with_tls = json_members_view(members@);
                    match Self::format_transport(transport) {
                        Some(t) => push_member(&mut members, "transport", t),
                        None => {},
                    }
                    proof {
                        assert(with_type =~= head + seq![
                            ("type"@, JsonView::String("vless"@)),
                            ("uuid"@, JsonView::String(uuid@)),
                            ("packet_encoding"@, JsonView::String("xudp"@)),
                        ]);
                        assert(with_tls =~= with_type + (if tls@.enabled {
                            seq![("tls"@, spec_format_tls(tls@))]
                        } else {
                            seq![]
                        }));
                        assert(json_members_view(members@) =~= with_tls + optional_member(
                            "transport"@,
                            spec_format_transport(transport@),
                        ));
                    }
                },
                _ => {
                    return Err(
                        ExportError::UnsupportedProtocol(
                            "Mismatched proxy type and details for Vless".to_owned(),
                        ),
                    );
                },
            },
            ProxyType::Shadowsocks => match &proxy.details {
                ProxyDetails::Shadowsocks { method, password } => {
                    push_member(&mut members, "type", JsonValue::String("shadowsocks".to_owned()));
                    push_member(&mut members, "method", JsonValue::String(method.clone()));
                    push_member(&mut members, "password", JsonValue::String(password.clone()));
                    proof {
                        assert(json_members_view(members@) =~= head + seq![
                            ("type"@, JsonView::String("shadowsocks"@)),
                            ("method"@, JsonView::String(method@)),
                            ("password"@, JsonView::String(password@)),
                        ]);
                    }
                },
                _ => {
                    return Err(
                        ExportError::UnsupportedProtocol(
                            "Mismatched proxy type and details for Shadowsocks".to_owned(),
                        ),
                    );
                },
            },
            ProxyType::ShadowsocksR | ProxyType::Hysteria2 => {
                return Err(ExportError::UnsupportedProtocol(proxy.proxy_type.to_string()));
            },
            ProxyType::Vmess | ProxyType::Trojan => {
                proof {
                    assert(false);
                }
                return Err(ExportError::UnsupportedProtocol(proxy.proxy_type.to_string()));
            },
        }
        Ok(JsonValue::Object(members))
    }
}


/// The sing-box `urltest` outbound that picks among the exported outbounds.
#[derive(Debug)]
pub struct UrltestOutbound {
    pub proxy_type: String,
    pub tag: String,
    pub outbounds: Vec<String>,
    pub url: String,
    pub interval: String,
    pub tolerance: i64,
    pub idle_timeout: String,
    pub interrupt_exist_connections: bool,
}

#[verifier::ext_equal]
pub struct UrltestView {
    pub proxy_type: Seq<char>,
    pub tag: Seq<char>,
    pub outbounds: Seq<Seq<char>>,
    pub url: Seq<char>,
    pub interval: Seq<char>,
    pub tolerance: i64,
    pub idle_timeout: Seq<char>,
    pub interrupt_exist_connections: bool,
}

impl View for UrltestOutbound {
    type V = UrltestView;

    open spec fn view(&self) -> UrltestView {
        UrltestView {
            proxy_type: self.proxy_type@,
            tag: self.tag@,
            outbounds: self.outbounds.deep_view(),
            url: self.url@,
            interval: self.interval@,
            tolerance: self.tolerance,
            idle_timeout: self.idle_timeout@,
            interrupt_exist_connections: self.interrupt_exist_connections,
        }
    }
}

/// The `urltest` outbound over the given tags, with its fixed settings.
pub open spec fn urltest_view(tags: Seq<Seq<char>>) -> UrltestView {
    UrltestView {
        proxy_type: "urltest"@,
        tag: "urltest-out"@,
        outbounds: tags,
        url: "https://www.gstatic.com/generate_204"@,
        interval: "1m"@,
        tolerance: 50,
        idle_timeout: "10m"@,
        interrupt_exist_connections: true,
    }
}

impl Default for UrltestOutbound {
    fn default() -> (r: Self)
        ensures
            r@ == urltest_view(seq![]),
    {
        let r = UrltestOutbound {
            proxy_type: "urltest".to_owned(),
            tag: "urltest-out".to_owned(),
            outbounds: Vec::new(),
            url: "https://www.gstatic.com/generate_204".to_owned(),
            interval: "1m".to_owned(),
            tolerance: 50,
            idle_timeout: "10m".to_owned(),
            interrupt_exist_connections: true,
        };
        proof {
            assert(r@ =~= urltest_view(seq![]));
        }
        r
    }
}

/// One entry of the sing-box `outbounds` list.
#[derive(Debug)]
pub enum OutboundsEnum {
    UrltestOutbound(UrltestOutbound),
    Value(JsonValue),
}

pub enum OutboundView {
    Urltest(UrltestView),
    Value(JsonView),
}

impl View for OutboundsEnum {
    type V = OutboundView;

    open spec fn view(&self) -> OutboundView {
        match self {
            OutboundsEnum::UrltestOutbound(u) => OutboundView::Urltest(u@),
            OutboundsEnum::Value(v) => OutboundView::Value(v@),
        }
    }
}

/// The sing-box document: `{"outbounds": [...]}`.
#[derive(Debug)]
pub struct OutboundsJson {
    pub outbounds: Vec<OutboundsEnum>,
}

impl View for OutboundsJson {
    type V = Seq<OutboundView>;

    open spec fn view(&self) -> Seq<OutboundView> {
        self.outbounds@.map_values(|o: OutboundsEnum| o@)
    }
}

/// The outbounds of the first `n` proxies with their tags: those that format, and whose
/// outbound has a string `tag`, in order.
pub open spec fn tagged_outbounds(ps: Seq<ProxyView>, n: int) -> Seq<(JsonView, Seq<char>)>
    decreases n,
{
    if n <= 0 {
        seq![]
    } else {
        tagged_outbounds(ps, n - 1) + match spec_format_proxy(ps[n - 1], n - 1) {
            Ok(v) => match string_member(v, "tag"@) {
                Some(t) => seq![(v, t)],
                None => seq![],
            },
            Err(_) => seq![],
        }
    }
}

/// The sing-box document of the proxies: the `urltest` selector over the tags, then each
/// outbound.
pub open spec fn sing_box_document(ps: Seq<ProxyView>) -> Seq<OutboundView> {
    let t = tagged_outbounds(ps, ps.len() as int);
    seq![OutboundView::Urltest(urltest_view(t.map_values(|x: (JsonView, Seq<char>)| x.1)))]
        + t.map_values(|x: (JsonView, Seq<char>)| OutboundView::Value(x.0))
}

pub open spec fn proxy_views(proxies: Seq<Proxy>) -> Seq<ProxyView> {
    proxies.map_values(|p: Proxy| p@)
}

impl SingBoxExporter {
    /// The sing-box document of the proxies: their outbounds behind a `urltest` selector.
    /// Proxies that cannot be formatted are left out.
    pub fn outbounds_document(&self, proxies: &[Proxy]) -> (r: OutboundsJson)
        requires
            forall|i: int| 0 <= i < proxies@.len() ==> #[trigger] proxies@[i].proxy_type != ProxyType::Vmess
                && proxies@[i].proxy_type != ProxyType::Trojan,
        ensures
            r@ == sing_box_document(proxy_views(proxies@)),
    {
        let ghost ps = proxy_views(proxies@);
        let mut outbounds: Vec<OutboundsEnum> = Vec::new();
        let mut tags: Vec<String> = Vec::new();
        let mut i: usize = 0;
        while i < proxies.len()
            invariant
                i <= proxies@.len(),
                ps == proxy_views(proxies@),
                forall|j: int| 0 <= j < proxies@.len() ==> #[trigger] proxies@[j].proxy_type != ProxyType::Vmess
                    && proxies@[j].proxy_type != ProxyType::Trojan,
                outbounds@.map_values(|o: OutboundsEnum| o@) =~= tagged_outbounds(ps, i as int).map_values(
                    |x: (JsonView, Seq<char>)| OutboundView::Value(x.0),
                ),
                tags.deep_view() =~= tagged_outbounds(ps, i as int).map_values(
                    |x: (JsonView, Seq<char>)| x.1,
                ),
            decreases proxies@.len() - i,
        {
            let ghost before_o = outbounds@;
            let ghost before_t = tags.deep_view();
            proof {
                assert(ps[i as int] == proxies@[i as int]@);
            }
            match self.format_proxy(&proxies[i], i) {
                Ok(v) => {
                    match get_string_member(&v, "tag") {
                        Some(t) => {
                            proof {
                                assert(tagged_outbounds(ps, i + 1) =~= tagged_outbounds(ps, i as int)
                                    + seq![(v@, t@)]);
                            }
                            let ghost vv = v@;
                            tags.push(t);
                            let entry = OutboundsEnum::Value(v);
                            proof {
                                assert(entry@ == OutboundView::Value(vv));
                            }
                            outbounds.push(entry);
                            proof {
                                assert(tags.deep_view() =~= before_t.push(t@));
                                assert(outbounds@ =~= before_o.push(entry));
                                assert(outbounds@.map_values(|o: OutboundsEnum| o@) =~= before_o.map_values(|o: OutboundsEnum| o@).push(OutboundView::Value(vv)));
                            }
                        },
                        None => {
                            proof {
                                assert(tagged_outbounds(ps, i + 1) =~= tagged_outbounds(ps, i as int));
                            }
                        },
                    }
                },
                Err(_) => {
                    proof {
                        assert(tagged_outbounds(ps, i + 1) =~= tagged_outbounds(ps, i as int));
                    }
                },
            }
            i = i + 1;
        }
        let mut urltest = UrltestOutbound::default();
        urltest.outbounds = tags;
        let ghost values = outbounds@;
        outbounds.insert(0, OutboundsEnum::UrltestOutbound(urltest));
        let r = OutboundsJson { outbounds };
        proof {
            assert(proxies@.len() == ps.len());
            assert(urltest@ =~= urltest_view(tagged_outbounds(ps, ps.len() as int).map_values(
                |x: (JsonView, Seq<char>)| x.1,
            )));
            assert(r.outbounds@ =~= seq![OutboundsEnum::UrltestOutbound(urltest)] + values);
            assert(r@ =~= sing_box_document(ps));
        }
        r
    }
}

} // verus!
