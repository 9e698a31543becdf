//! Reading share links into proxies.

use vstd::prelude::*;
use vstd::utf8::{decode_utf8, valid_utf8};

use crate::decode::{
    base64_url_decode, base64_url_decoded, percent_decode, percent_decoded, string_from_utf8,
};
use crate::error::{result_view, ProcessorError, ProcessorErrorView};
use crate::models::processor::tls_off;
use crate::models::{
    DetailsView, Proxy, ProxyDetails, ProxyType, ProxyView, RealitySettings, RealityView,
    TlsSettings, TlsView, TransportSettings, TransportView,
};
use crate::text::{
    concat_str, contains, contains_str, split_char, split_char_str, split_once, split_once_str,
    str_eq, trim, trim_str,
};
use crate::url_parts::{parse_url, url_components, UrlPartsView};
use crate::laws::lemma_stored_link_reads_back;

verus! {

// ---------------------------------------------------------------------------------------------
// Query parameters
// ---------------------------------------------------------------------------------------------

/// Query pairs with their values trimmed.
pub open spec fn trimmed_params(q: Seq<(Seq<char>, Seq<char>)>) -> Seq<(Seq<char>, Seq<char>)> {
    q.map_values(|p: (Seq<char>, Seq<char>)| (p.0, trim(p.1)))
}

/// The value of the last pair whose key is `key`: where a key repeats, the later pair wins.
pub open spec fn param_value(ps: Seq<(Seq<char>, Seq<char>)>, key: Seq<char>) -> Option<Seq<char>>
    decreases ps.len(),
{
    if ps.len() == 0 {
        None
    } else if ps.last().0 == key {
        Some(ps.last().1)
    } else {
        param_value(ps.drop_last(), key)
    }
}

pub open spec fn value_or(o: Option<Seq<char>>, default: Seq<char>) -> Seq<char> {
    match o {
        Some(v) => v,
        None => default,
    }
}

/// The comma-separated list in an optional value.
pub open spec fn comma_list(o: Option<Seq<char>>) -> Option<Seq<Seq<char>>> {
    match o {
        Some(v) => Some(split_char(v, ',')),
        None => None,
    }
}

/// The query pairs with every value trimmed.
fn trim_params(query: &Vec<(String, String)>) -> (r: Vec<(String, String)>)
    ensures
        r.deep_view() == trimmed_params(query.deep_view()),
{
    let mut out: Vec<(String, String)> = Vec::new();
    let mut i: usize = 0;
    while i < query.len()
        invariant
            i <= query.len(),
            out.deep_view() == trimmed_params(query.deep_view()).take(i as int),
        decreases query.len() - i,
    {
        let key = query[i].0.clone();
        let value = trim_str(query[i].1.as_str()).to_owned();
        let ghost before = out.deep_view();
        out.push((key, value));
        proof {
            assert(out.deep_view() =~= before.push((key@, value@)));
            assert(trimmed_params(query.deep_view()).take(i + 1) =~= trimmed_params(
                query.deep_view(),
            ).take(i as int).push((key@, value@)));
        }
        i = i + 1;
    }
    proof {
        assert(trimmed_params(query.deep_view()).take(i as int) =~= trimmed_params(query.deep_view()));
    }
    out
}

/// The value of the last parameter named `key`.
pub fn param_get<'a>(params: &'a Vec<(String, String)>, key: &str) -> (r: Option<&'a str>)
    ensures
        match r {
            Some(v) => param_value(params.deep_view(), key@) == Some(v@),
            None => param_value(params.deep_view(), key@) is None,
        },
{
    let mut i: usize = params.len();
    proof {
        assert(params.deep_view().take(i as int) =~= params.deep_view());
    }
    while i > 0
        invariant
            i <= params.len(),
            param_value(params.deep_view(), key@) == param_value(
                params.deep_view().take(i as int),
                key@,
            ),
        decreases i,
    {
        proof {
            assert(params.deep_view().take(i as int).drop_last() =~= params.deep_view().take(
                i - 1,
            ));
        }
        if str_eq(params[i - 1].0.as_str(), key) {
            return Some(params[i - 1].1.as_str());
        }
        i = i - 1;
    }
    proof {
        assert(params.deep_view().take(0).len() == 0);
    }
    None
}

fn owned(o: Option<&str>) -> (r: Option<String>)
    ensures
        r.deep_view() == match o {
            Some(v) => Some(v@),
            None => None::<Seq<char>>,
        },
{
    match o {
        Some(v) => Some(v.to_owned()),
        None => None,
    }
}

/// Whether an optional value is `name`.
fn is_value(o: Option<&str>, name: &str) -> (r: bool)
    ensures
        r == match o {
            Some(v) => v@ == name@,
            None => false,
        },
{
    match o {
        Some(v) => str_eq(v, name),
        None => false,
    }
}

// ---------------------------------------------------------------------------------------------
// TLS and transport settings
// ---------------------------------------------------------------------------------------------

/// The TLS settings that the parameters describe.
pub open spec fn spec_tls(ps: Seq<(Seq<char>, Seq<char>)>) -> Result<TlsView, ProcessorErrorView> {
    let security = param_value(ps, "security"@);
    let reality = security == Some("reality"@);
    if !(security == Some("tls"@) || reality) {
        Ok(tls_off())
    } else if reality && param_value(ps, "pbk"@) is None {
        Err(ProcessorErrorView::MissingComponent("pbk"@))
    } else {
        Ok(
            TlsView {
                enabled: true,
                server_name: param_value(ps, "sni"@),
                alpn: comma_list(param_value(ps, "alpn"@)),
                fingerprint: param_value(ps, "fp"@),
                reality: if reality {
                    Some(
                        RealityView {
                            enabled: true,
                            public_key: param_value(ps, "pbk"@).unwrap(),
                            short_id: value_or(param_value(ps, "sid"@), seq![]),
                        },
                    )
                } else {
                    None
                },
            },
        )
    }
}

/// Reads the TLS settings from query parameters: off unless `security` is `tls` or `reality`;
/// `reality` needs a public key (`pbk`).
pub fn parse_tls_settings(params: &Vec<(String, String)>) -> (r: Result<TlsSettings, ProcessorError>)
    ensures
        result_view(r) == spec_tls(params.deep_view()),
{
    let security = param_get(params, "security");
    let is_tls = is_value(security, "tls");
    let is_reality = is_value(security, "reality");
    if !is_tls && !is_reality {
        return Ok(TlsSettings::default());
    }
    let reality = if is_reality {
        match param_get(params, "pbk") {
            Some(pbk) => {
                let short_id = match param_get(params, "sid") {
                    Some(sid) => sid.to_owned(),
                    None => String::new(),
                };
                Some(RealitySettings { enabled: true, public_key: pbk.to_owned(), short_id })
            },
            None => {
                return Err(ProcessorError::MissingComponent("pbk"));
            },
        }
    } else {
        None
    };
    let alpn = match param_get(params, "alpn") {
        Some(a) => Some(split_char_str(a, ',')),
        None => None,
    };
    let tls = TlsSettings {
        enabled: true,
        server_name: owned(param_get(params, "sni")),
        alpn,
        fingerprint: owned(param_get(params, "fp")),
        reality,
    };
    proof {
        assert(Ok::<TlsView, ProcessorErrorView>(tls@) =~= spec_tls(params.deep_view()));
    }
    Ok(tls)
}

/// The HTTP transport that the parameters describe.
pub open spec fn spec_http_transport(ps: Seq<(Seq<char>, Seq<char>)>) -> TransportView {
    TransportView::Http {
        host: comma_list(param_value(ps, "host"@)),
        path: value_or(param_value(ps, "path"@), "/"@),
        method: value_or(param_value(ps, "method"@), seq![]),
    }
}

/// The transport that the parameters describe, by their `type`.
pub open spec fn spec_transport(ps: Seq<(Seq<char>, Seq<char>)>) -> Result<TransportView, ProcessorErrorView> {
    match param_value(ps, "type"@) {
        None => Ok(TransportView::Tcp),
        Some(t) => {
            if t == "quic"@ {
                Ok(TransportView::Quic)
            } else if t == "grpc"@ {
                Ok(TransportView::Grpc { service_name: value_or(param_value(ps, "serviceName"@), seq![]) })
            } else if t == "ws"@ {
                match param_value(ps, "path"@) {
                    Some(p) => Ok(TransportView::WebSocket { path: p }),
                    None => Err(ProcessorErrorView::MissingComponent("path"@)),
                }
            } else if t == "http"@ {
                Ok(spec_http_transport(ps))
            } else if t == "httpupgrade"@ {
                Ok(
                    TransportView::HttpUpgrade {
                        host: comma_list(param_value(ps, "host"@)),
                        path: value_or(param_value(ps, "path"@), "/"@),
                    },
                )
            } else if t == "tcp"@ {
                if param_value(ps, "headerType"@) == Some("http"@) {
                    Ok(spec_http_transport(ps))
                } else {
                    Ok(TransportView::Tcp)
                }
            } else {
                Err(ProcessorErrorView::InvalidValue("transport type: "@ + t))
            }
        },
    }
}

fn host_list(params: &Vec<(String, String)>) -> (r: Option<Vec<String>>)
    ensures
        r.deep_view() == comma_list(param_value(params.deep_view(), "host"@)),
{
    match param_get(params, "host") {
        Some(h) => Some(split_char_str(h, ',')),
        None => None,
    }
}

fn path_or_root(params: &Vec<(String, String)>) -> (r: String)
    ensures
        r@ == value_or(param_value(params.deep_view(), "path"@), "/"@),
{
    match param_get(params, "path") {
        Some(p) => p.to_owned(),
        None => "/".to_owned(),
    }
}

fn http_transport(params: &Vec<(String, String)>) -> (r: TransportSettings)
    ensures
        r@ == spec_http_transport(params.deep_view()),
{
    let host = host_list(params);
    let path = path_or_root(params);
    let method = match param_get(params, "method") {
        Some(m) => m.to_owned(),
        None => String::new(),
    };
    TransportSettings::Http { host, path, method }
}

/// Reads the transport settings from query parameters by their `type`: none means TCP,
/// `ws` needs a `path`, an unknown type is an invalid value.
pub fn parse_transport_settings(params: &Vec<(String, String)>) -> (r: Result<TransportSettings, ProcessorError>)
    ensures
        result_view(r) == spec_transport(params.deep_view()),
{
    match param_get(params, "type") {
        None => Ok(TransportSettings::Tcp),
        Some(t) => {
            if str_eq(t, "quic") {
                Ok(TransportSettings::Quic)
            } else if str_eq(t, "grpc") {
                let service_name = match param_get(params, "serviceName") {
                    Some(s) => s.to_owned(),
                    None => String::new(),
                };
                Ok(TransportSettings::Grpc { service_name })
            } else if str_eq(t, "ws") {
                match param_get(params, "path") {
                    Some(p) => Ok(TransportSettings::WebSocket { path: p.to_owned() }),
                    None => Err(ProcessorError::MissingComponent("path")),
                }
            } else if str_eq(t, "http") {
                Ok(http_transport(params))
            } else if str_eq(t, "httpupgrade") {
                let host = host_list(params);
                let path = path_or_root(params);
                Ok(TransportSettings::HttpUpgrade { host, path })
            } else if str_eq(t, "tcp") {
                if is_value(param_get(params, "headerType"), "http") {
                    Ok(http_transport(params))
                } else {
                    Ok(TransportSettings::Tcp)
                }
            } else {
                Err(ProcessorError::InvalidValue(concat_str("transport type: ", t)))
            }
        },
    }
}


// ---------------------------------------------------------------------------------------------
// Base64 inside a larger string
// ---------------------------------------------------------------------------------------------

/// A character that can begin URL-safe Base64 text.
pub open spec fn is_base64_start(c: char) -> bool {
    ('0' <= c && c <= '9') || ('a' <= c && c <= 'z') || ('A' <= c && c <= 'Z') || c == '-' || c
        == '_'
}

/// The first index at or after `i` of a character that can begin Base64 text.
pub open spec fn first_base64_start(s: Seq<char>, i: int) -> Option<int>
    decreases s.len() - i,
{
    if i < 0 || i >= s.len() {
        None
    } else if is_base64_start(s[i]) {
        Some(i)
    } else {
        first_base64_start(s, i + 1)
    }
}

/// The longest prefix `s[start..end']` with `end' <= end` that decodes as Base64, decoded to
/// bytes, with the rest of `s` after it.
pub open spec fn base64_search(s: Seq<char>, start: int, end: int) -> Result<(Seq<u8>, Seq<char>), ProcessorErrorView>
    decreases end - start,
{
    if end <= start {
        Err(ProcessorErrorView::Base64DecodeFailed("Could not find a valid Base64 substring to decode"@))
    } else {
        match base64_url_decoded(s.subrange(start, end)) {
            Some(bytes) => Ok((bytes, s.subrange(end, s.len() as int))),
            None => base64_search(s, start, end - 1),
        }
    }
}

/// The Base64 text found in `s`, decoded to bytes, with the garbage that follows it: the text
/// starts at the first character that can begin Base64, and is the longest run from there that
/// decodes.
pub open spec fn spec_decode_base64(s: Seq<char>) -> Result<(Seq<u8>, Seq<char>), ProcessorErrorView> {
    match first_base64_start(s, 0) {
        None => Err(
            ProcessorErrorView::Base64DecodeFailed(
                "Could not find a valid Base64 characters in input"@,
            ),
        ),
        Some(start) => base64_search(s, start, s.len() as int),
    }
}

/// The text that the bytes of `spec_decode_base64` encode as UTF-8, without the garbage; an
/// error where they are not UTF-8.
pub open spec fn spec_decode_base64_text(s: Seq<char>) -> Result<Seq<char>, ProcessorErrorView> {
    match spec_decode_base64(s) {
        Ok((bytes, _)) => if valid_utf8(bytes) {
            Ok(decode_utf8(bytes))
        } else {
            Err(ProcessorErrorView::Base64DecodeFailed("invalid utf-8 sequence"@))
        },
        Err(e) => Err(e),
    }
}

fn is_base64_start_exec(c: char) -> (r: bool)
    ensures
        r == is_base64_start(c),
{
    ('0' <= c && c <= '9') || ('a' <= c && c <= 'z') || ('A' <= c && c <= 'Z') || c == '-' || c
        == '_'
}

/// Decodes the Base64 text found in `input`, trying ever shorter runs from the first
/// Base64 character, and returns the decoded bytes with the garbage that follows them. It
/// fails only where no run decodes.
pub fn decode_base64(input: &str) -> (r: Result<(Vec<u8>, String), ProcessorError>)
    ensures
        result_view(r) == spec_decode_base64(input@),
        r matches Ok((_, garbage)) ==> input@.len() >= garbage@.len()
            && garbage@ == input@.subrange(input@.len() - garbage@.len(), input@.len() as int),
{
    let n = input.unicode_len();
    let mut start: usize = 0;
    while start < n && !is_base64_start_exec(input.get_char(start))
        invariant
            n == input@.len(),
            start <= n,
            first_base64_start(input@, 0) == first_base64_start(input@, start as int),
        decreases n - start,
    {
        start = start + 1;
    }
    if start == n {
        return Err(
            ProcessorError::Base64DecodeFailed(
                "Could not find a valid Base64 characters in input".to_owned(),
            ),
        );
    }
    let mut end: usize = n;
    while end > start
        invariant
            n == input@.len(),
            start < n,
            start <= end <= n,
            first_base64_start(input@, 0) == Some(start as int),
            spec_decode_base64(input@) == base64_search(input@, start as int, end as int),
        decreases end,
    {
        let candidate = input.substring_char(start, end);
        match base64_url_decode(candidate) {
            Some(bytes) => {
                let garbage = input.substring_char(end, n).to_owned();
                return Ok((bytes, garbage));
            },
            None => {},
        }
        end = end - 1;
    }
    Err(
        ProcessorError::Base64DecodeFailed(
            "Could not find a valid Base64 substring to decode".to_owned(),
        ),
    )
}

/// The text of the Base64 found in `input`: its bytes read as UTF-8.
fn decode_base64_text(input: &str) -> (r: Result<String, ProcessorError>)
    ensures
        result_view(r) == spec_decode_base64_text(input@),
{
    match decode_base64(input) {
        Ok((bytes, _)) => match string_from_utf8(bytes) {
            Some(data) => Ok(data),
            None => Err(ProcessorError::Base64DecodeFailed("invalid utf-8 sequence".to_owned())),
        },
        Err(e) => Err(e),
    }
}


// ---------------------------------------------------------------------------------------------
// Links
// ---------------------------------------------------------------------------------------------

/// The view of an outcome that may be undefined: `None` where the link cannot be read
/// without a failed percent-decoding.
pub open spec fn outcome_view<T: View>(o: Option<Result<T, ProcessorError>>) -> Option<Result<T::V, ProcessorErrorView>> {
    match o {
        Some(r) => Some(result_view(r)),
        None => None,
    }
}

/// The percent-decoded text, or nothing where it is not UTF-8.
pub open spec fn decoded_or_empty(s: Seq<char>) -> Seq<char> {
    match percent_decoded(s) {
        Some(d) => d,
        None => seq![],
    }
}

/// The protocol-specific part of a vless or Shadowsocks link, from the URL's username and
/// its trimmed query parameters; `None` where the username does not percent-decode.
pub open spec fn spec_details(vless: bool, username: Seq<char>, ps: Seq<(Seq<char>, Seq<char>)>) -> Option<Result<DetailsView, ProcessorErrorView>> {
    if vless {
        if username.len() == 0 {
            Some(Err(ProcessorErrorView::MissingComponent("uuid"@)))
        } else {
            match percent_decoded(username) {
                None => None,
                Some(uuid) => match spec_tls(ps) {
                    Err(e) => Some(Err(e)),
                    Ok(tls) => match spec_transport(ps) {
                        Err(e) => Some(Err(e)),
                        Ok(transport) => Some(
                            Ok(
                                DetailsView::Vless {
                                    uuid,
                                    flow: param_value(ps, "flow"@),
                                    tls,
                                    transport,
                                },
                            ),
                        ),
                    },
                },
            }
        }
    } else {
        if username.len() == 0 {
            Some(Err(ProcessorErrorView::MissingComponent("method:password"@)))
        } else {
            match percent_decoded(username) {
                None => None,
                Some(base) => match spec_decode_base64_text(base) {
                    Err(e) => Some(Err(e)),
                    Ok(conf) => match split_once(conf, ":"@) {
                        None => Some(Err(ProcessorErrorView::MissingComponent("method:password"@))),
                        Some((method, password)) => Some(
                            Ok(DetailsView::Shadowsocks { method, password }),
                        ),
                    },
                },
            }
        }
    }
}

/// A proxy read from a `vless://` or `ss://` URL.
pub open spec fn spec_parse_url(vless: bool, link: Seq<char>) -> Option<Result<ProxyView, ProcessorErrorView>> {
    match url_components(link) {
        Err(msg) => Some(Err(ProcessorErrorView::UrlParse(msg))),
        Ok(u) => match u.host {
            None => Some(Err(ProcessorErrorView::MissingComponent("address/host"@))),
            Some(address) => match u.port {
                None => Some(Err(ProcessorErrorView::MissingComponent("port"@))),
                Some(port) => match spec_details(vless, u.username, trimmed_params(u.query)) {
                    None => None,
                    Some(Err(e)) => Some(Err(e)),
                    Some(Ok(details)) => Some(
                        Ok(
                            ProxyView {
                                original_link: link,
                                address,
                                port,
                                remarks: match u.fragment {
                                    Some(f) => Some(decoded_or_empty(f)),
                                    None => None,
                                },
                                proxy_type: if vless {
                                    ProxyType::Vless
                                } else {
                                    ProxyType::Shadowsocks
                                },
                                details,
                                geoip: None,
                            },
                        ),
                    ),
                },
            },
        },
    }
}

/// A proxy read from a percent-decoded link `scheme://data`; `data` without `@` is Base64.
pub open spec fn spec_parse_decoded(link: Seq<char>) -> Option<Result<ProxyView, ProcessorErrorView>> {
    match split_once(link, "://"@) {
        None => Some(Err(ProcessorErrorView::InvalidLinkFormat(link))),
        Some((scheme, data)) => if scheme == "vless"@ || scheme == "ss"@ {
            let data = if !contains(data, "@"@) {
                spec_decode_base64_text(data)
            } else {
                Ok(data)
            };
            match data {
                Err(e) => Some(Err(e)),
                Ok(d) => spec_parse_url(scheme == "vless"@, scheme + "://"@ + d),
            }
        } else {
            Some(Err(ProcessorErrorView::UnsupportedProtocol(scheme)))
        },
    }
}

/// The link itself where it has a scheme separator, else the Base64 text found in it.
pub open spec fn spec_normalize(link: Seq<char>) -> Result<Seq<char>, ProcessorErrorView> {
    if !contains(link, "://"@) {
        spec_decode_base64_text(link)
    } else {
        Ok(link)
    }
}

/// What reading `link` as a proxy gives: `None` where a percent-decoding that the reading
/// relies on fails (of the whole link, or of the URL's username).
pub open spec fn spec_parse_proxy(link: Seq<char>) -> Option<Result<ProxyView, ProcessorErrorView>> {
    match spec_normalize(link) {
        Err(e) => Some(Err(e)),
        Ok(l) => match percent_decoded(l) {
            None => None,
            Some(d) => spec_parse_decoded(d),
        },
    }
}

fn parse_details(vless: bool, username: &str, params: &Vec<(String, String)>) -> (r: Option<Result<ProxyDetails, ProcessorError>>)
    ensures
        outcome_view(r) == spec_details(vless, username@, params.deep_view()),
{
    if vless {
        if username.unicode_len() == 0 {
            return Some(Err(ProcessorError::MissingComponent("uuid")));
        }
        let uuid = match percent_decode(username) {
            Some(u) => u,
            None => {
                return None;
            },
        };
        let tls = match parse_tls_settings(params) {
            Ok(t) => t,
            Err(e) => {
                return Some(Err(e));
            },
        };
        let transport = match parse_transport_settings(params) {
            Ok(t) => t,
            Err(e) => {
                return Some(Err(e));
            },
        };
        let flow = owned(param_get(params, "flow"));
        Some(Ok(ProxyDetails::Vless { uuid, flow, tls, transport }))
    } else {
        if username.unicode_len() == 0 {
            return Some(Err(ProcessorError::MissingComponent("method:password")));
        }
        let base = match percent_decode(username) {
            Some(b) => b,
            None => {
                return None;
            },
        };
        let conf = match decode_base64_text(base.as_str()) {
            Ok(c) => c,
            Err(e) => {
                return Some(Err(e));
            },
        };
        match split_once_str(conf.as_str(), ":") {
            Some((method, password)) => Some(
                Ok(ProxyDetails::Shadowsocks { method: method.to_owned(), password: password.to_owned() }),
            ),
            None => Some(Err(ProcessorError::MissingComponent("method:password"))),
        }
    }
}

fn parse_url_link(vless: bool, link: String) -> (r: Option<Result<Proxy, ProcessorError>>)
    ensures
        outcome_view(r) == spec_parse_url(vless, link@),
        r matches Some(Ok(p)) ==> contains(p.original_link@, "@"@),
{
    let url = match parse_url(link.as_str()) {
        Ok(u) => u,
        Err(msg) => {
            return Some(Err(ProcessorError::UrlParse(msg)));
        },
    };
    let params = trim_params(&url.query);
    let address = match url.host {
        Some(h) => h,
        None => {
            return Some(Err(ProcessorError::MissingComponent("address/host")));
        },
    };
    let port = match url.port {
        Some(p) => p,
        None => {
            return Some(Err(ProcessorError::MissingComponent("port")));
        },
    };
    let remarks = match &url.fragment {
        Some(f) => match percent_decode(f.as_str()) {
            Some(d) => Some(d),
            None => Some(String::new()),
        },
        None => None,
    };
    let details = match parse_details(vless, url.username.as_str(), &params) {
        None => {
            return None;
        },
        Some(Err(e)) => {
            return Some(Err(e));
        },
        Some(Ok(d)) => d,
    };
    let proxy_type = if vless {
        ProxyType::Vless
    } else {
        ProxyType::Shadowsocks
    };
    let proxy = Proxy {
        original_link: link,
        address,
        port,
        remarks,
        proxy_type,
        details,
        geoip: None,
    };
    proof {
        assert(Some(Ok::<ProxyView, ProcessorErrorView>(proxy@)) =~= spec_parse_url(vless, link@));
    }
    Some(Ok(proxy))
}

fn parse_decoded(link: String) -> (r: Option<Result<Proxy, ProcessorError>>)
    ensures
        outcome_view(r) == spec_parse_decoded(link@),
        r matches Some(Ok(p)) ==> contains(p.original_link@, "@"@),
{
    match split_once_str(link.as_str(), "://") {
        None => Some(Err(ProcessorError::InvalidLinkFormat(link))),
        Some((scheme, data)) => {
            let vless = str_eq(scheme, "vless");
            if !vless && !str_eq(scheme, "ss") {
                return Some(Err(ProcessorError::UnsupportedProtocol(scheme.to_owned())));
            }
            let data = if !contains_str(data, "@") {
                match decode_base64_text(data) {
                    Ok(d) => d,
                    Err(e) => {
                        return Some(Err(e));
                    },
                }
            } else {
                data.to_owned()
            };
            let with_separator = concat_str(scheme, "://");
            let inner = concat_str(with_separator.as_str(), data.as_str());
            parse_url_link(vless, inner)
        },
    }
}

/// Reads `link` as a proxy, where every percent-decoding it needs succeeds; `None` elsewhere.
fn parse_outcome(link: &str) -> (r: Option<Result<Proxy, ProcessorError>>)
    ensures
        outcome_view(r) == spec_parse_proxy(link@),
        r matches Some(Ok(p)) ==> contains(p.original_link@, "@"@),
{
    let normalized = if !contains_str(link, "://") {
        match decode_base64_text(link) {
            Ok(d) => d,
            Err(e) => {
                return Some(Err(e));
            },
        }
    } else {
        link.to_owned()
    };
    match percent_decode(normalized.as_str()) {
        None => None,
        Some(decoded) => parse_decoded(decoded),
    }
}

/// Reads a share link (`vless://...` or `ss://...`, or Base64 text that holds one) as a
/// proxy. The link must percent-decode, and so must the username of its URL. The link that a
/// proxy stores, where it has no `%`, reads back as the same proxy.
pub fn parse_proxy(link: &str) -> (r: Result<Proxy, ProcessorError>)
    requires
        spec_parse_proxy(link@) is Some,
    ensures
        Some(result_view(r)) == spec_parse_proxy(link@),
        r matches Ok(p) ==> contains(p.original_link@, "@"@),
        r matches Ok(p) ==> ((forall|i: int| 0 <= i < p.original_link@.len() ==> p.original_link@[i] != '%')
            ==> spec_parse_proxy(p.original_link@) == Some(Ok::<ProxyView, ProcessorErrorView>(p@))),
{
    match parse_outcome(link) {
        Some(r) => {
            proof {
                if r is Ok {
                    let p = r->Ok_0;
                    if forall|i: int| 0 <= i < p.original_link@.len() ==> p.original_link@[i] != '%' {
                        lemma_stored_link_reads_back(link@, p@);
                    }
                }
            }
            r
        },
        None => {
            proof {
                assert(false);
            }
            Err(ProcessorError::InvalidLinkFormat(String::new()))
        },
    }
}

/// Whether `parse_proxy` can read `link`: whether the percent-decodings it relies on succeed.
pub fn is_readable_link(link: &str) -> (r: bool)
    ensures
        r == (spec_parse_proxy(link@) is Some),
{
    parse_outcome(link).is_some()
}

/// Reads a share link as `parse_proxy` does, and gives `None` where `parse_proxy` cannot,
/// because a percent-decoding does not give UTF-8.
pub fn try_parse_proxy(link: &str) -> (r: Option<Result<Proxy, ProcessorError>>)
    ensures
        outcome_view(r) == spec_parse_proxy(link@),
        r matches Some(Ok(p)) ==> ((forall|i: int| 0 <= i < p.original_link@.len() ==> p.original_link@[i] != '%')
            ==> spec_parse_proxy(p.original_link@) == Some(Ok::<ProxyView, ProcessorErrorView>(p@))),
{
    if is_readable_link(link) {
        Some(parse_proxy(link))
    } else {
        None
    }
}

} // verus!
