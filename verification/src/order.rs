//! The order that proxies are listed in: field by field, in the order the fields are
//! declared, as `derive(Ord)` orders them. Each proxy is encoded as a sequence of numbers
//! whose lexicographic order is that order; the encoding is one-to-one.

use vstd::prelude::*;

use crate::models::{
    DetailsView, GeoIpInfo, Proxy, ProxyDetails, ProxyType, ProxyView, RealitySettings,
    RealityView, TlsSettings, TlsView, TransportSettings, TransportView,
};

verus! {

/// A string: `1` and the code of each character, then `0`, so that a prefix comes first.
pub open spec fn str_key(s: Seq<char>, rest: Seq<int>) -> Seq<int>
    decreases s.len(),
{
    if s.len() == 0 {
        seq![0int] + rest
    } else {
        seq![1int, s[0] as int] + str_key(s.drop_first(), rest)
    }
}

pub open spec fn num_key(n: int, rest: Seq<int>) -> Seq<int> {
    seq![n] + rest
}

pub open spec fn flag_key(b: bool, rest: Seq<int>) -> Seq<int> {
    num_key(if b { 1int } else { 0int }, rest)
}

pub open spec fn opt_str_key(o: Option<Seq<char>>, rest: Seq<int>) -> Seq<int> {
    match o {
        None => num_key(0, rest),
        Some(s) => num_key(1, str_key(s, rest)),
    }
}

/// A list of strings: `1` before each element, `0` after the last.
pub open spec fn strs_key(v: Seq<Seq<char>>, rest: Seq<int>) -> Seq<int>
    decreases v.len(),
{
    if v.len() == 0 {
        num_key(0, rest)
    } else {
        num_key(1, str_key(v[0], strs_key(v.drop_first(), rest)))
    }
}

pub open spec fn opt_strs_key(o: Option<Seq<Seq<char>>>, rest: Seq<int>) -> Seq<int> {
    match o {
        None => num_key(0, rest),
        Some(v) => num_key(1, strs_key(v, rest)),
    }
}

pub open spec fn reality_key(o: Option<RealityView>, rest: Seq<int>) -> Seq<int> {
    match o {
        None => num_key(0, rest),
        Some(r) => num_key(1, flag_key(r.enabled, str_key(r.public_key, str_key(r.short_id, rest)))),
    }
}

pub open spec fn tls_key(t: TlsView, rest: Seq<int>) -> Seq<int> {
    flag_key(
        t.enabled,
        opt_str_key(
            t.server_name,
            opt_strs_key(t.alpn, opt_str_key(t.fingerprint, reality_key(t.reality, rest))),
        ),
    )
}

pub open spec fn transport_key(t: TransportView, rest: Seq<int>) -> Seq<int> {
    match t {
        TransportView::Grpc { service_name } => num_key(0, str_key(service_name, rest)),
        TransportView::Http { host, path, method } => num_key(
            1,
            opt_strs_key(host, str_key(path, str_key(method, rest))),
        ),
        TransportView::HttpUpgrade { host, path } => num_key(2, opt_strs_key(host, str_key(path, rest))),
        TransportView::Quic => num_key(3, rest),
        TransportView::Tcp => num_key(4, rest),
        TransportView::WebSocket { path } => num_key(5, str_key(path, rest)),
    }
}

pub open spec fn details_key(d: DetailsView, rest: Seq<int>) -> Seq<int> {
    match d {
        DetailsView::Generic => num_key(0, rest),
        DetailsView::Vmess { uuid, tls, transport } => num_key(
            1,
            str_key(uuid, tls_key(tls, transport_key(transport, rest))),
        ),
        DetailsView::Vless { uuid, flow, tls, transport } => num_key(
            2,
            str_key(uuid, opt_str_key(flow, tls_key(tls, transport_key(transport, rest)))),
        ),
        DetailsView::Trojan { password, tls, transport } => num_key(
            3,
            str_key(password, tls_key(tls, transport_key(transport, rest))),
        ),
        DetailsView::Shadowsocks { method, password } => num_key(
            4,
            str_key(method, str_key(password, rest)),
        ),
    }
}

pub open spec fn type_index(t: ProxyType) -> int {
    match t {
        ProxyType::Vmess => 0,
        ProxyType::Vless => 1,
        ProxyType::Trojan => 2,
        ProxyType::Shadowsocks => 3,
        ProxyType::ShadowsocksR => 4,
        ProxyType::Hysteria2 => 5,
    }
}

pub open spec fn geoip_key(o: Option<crate::models::GeoIpView>, rest: Seq<int>) -> Seq<int> {
    match o {
        None => num_key(0, rest),
        Some(g) => num_key(1, flag_key(g.is_in_eu, str_key(g.iso_code, opt_str_key(g.name, rest)))),
    }
}

/// The encoding of a proxy, field by field.
pub open spec fn proxy_key_then(p: ProxyView, rest: Seq<int>) -> Seq<int> {
    str_key(
        p.original_link,
        str_key(
            p.address,
            num_key(
                p.port as int,
                opt_str_key(
                    p.remarks,
                    num_key(
                        type_index(p.proxy_type),
                        details_key(p.details, geoip_key(p.geoip, rest)),
                    ),
                ),
            ),
        ),
    )
}

pub open spec fn proxy_key(p: ProxyView) -> Seq<int> {
    proxy_key_then(p, seq![])
}

// ---------------------------------------------------------------------------------------------
// The encoding is one-to-one
// ---------------------------------------------------------------------------------------------

pub proof fn lemma_num_key_inj(a: int, b: int, r1: Seq<int>, r2: Seq<int>)
    requires
        num_key(a, r1) == num_key(b, r2),
    ensures
        a == b,
        r1 == r2,
{
    assert(num_key(a, r1)[0] == a);
    assert(num_key(a, r1).drop_first() =~= r1);
    assert(num_key(b, r2).drop_first() =~= r2);
}

pub proof fn lemma_flag_key_inj(a: bool, b: bool, r1: Seq<int>, r2: Seq<int>)
    requires
        flag_key(a, r1) == flag_key(b, r2),
    ensures
        a == b,
        r1 == r2,
{
    lemma_num_key_inj(if a { 1int } else { 0int }, if b { 1int } else { 0int }, r1, r2);
}

pub proof fn lemma_str_key_inj(a: Seq<char>, b: Seq<char>, r1: Seq<int>, r2: Seq<int>)
    requires
        str_key(a, r1) == str_key(b, r2),
    ensures
        a == b,
        r1 == r2,
    decreases a.len(),
{
    let x = str_key(a, r1);
    let y = str_key(b, r2);
    if a.len() == 0 && b.len() == 0 {
        assert(x.drop_first() =~= r1);
        assert(y.drop_first() =~= r2);
        assert(a =~= b);
    } else if a.len() == 0 {
        assert(x[0] == 0 && y[0] == 1);
    } else if b.len() == 0 {
        assert(x[0] == 1 && y[0] == 0);
    } else {
        assert(x[1] == a[0] as int && y[1] == b[0] as int);
        assert(x.subrange(2, x.len() as int) =~= str_key(a.drop_first(), r1));
        assert(y.subrange(2, y.len() as int) =~= str_key(b.drop_first(), r2));
        lemma_str_key_inj(a.drop_first(), b.drop_first(), r1, r2);
        assert(a =~= seq![a[0]] + a.drop_first());
        assert(b =~= seq![b[0]] + b.drop_first());
    }
}

pub proof fn lemma_opt_str_key_inj(a: Option<Seq<char>>, b: Option<Seq<char>>, r1: Seq<int>, r2: Seq<int>)
    requires
        opt_str_key(a, r1) == opt_str_key(b, r2),
    ensures
        a == b,
        r1 == r2,
{
    match (a, b) {
        (Some(x), Some(y)) => {
            lemma_num_key_inj(1, 1, str_key(x, r1), str_key(y, r2));
            lemma_str_key_inj(x, y, r1, r2);
        },
        (Some(x), None) => {
            lemma_num_key_inj(1, 0, str_key(x, r1), r2);
        },
        (None, Some(y)) => {
            lemma_num_key_inj(0, 1, r1, str_key(y, r2));
        },
        (None, None) => {
            lemma_num_key_inj(0, 0, r1, r2);
        },
    }
}

pub proof fn lemma_strs_key_inj(a: Seq<Seq<char>>, b: Seq<Seq<char>>, r1: Seq<int>, r2: Seq<int>)
    requires
        strs_key(a, r1) == strs_key(b, r2),
    ensures
        a == b,
        r1 == r2,
    decreases a.len(),
{
    if a.len() == 0 && b.len() == 0 {
        lemma_num_key_inj(0, 0, r1, r2);
        assert(a =~= b);
    } else if a.len() == 0 {
        lemma_num_key_inj(0, 1, r1, str_key(b[0], strs_key(b.drop_first(), r2)));
    } else if b.len() == 0 {
        lemma_num_key_inj(1, 0, str_key(a[0], strs_key(a.drop_first(), r1)), r2);
    } else {
        lemma_num_key_inj(
            1,
            1,
            str_key(a[0], strs_key(a.drop_first(), r1)),
            str_key(b[0], strs_key(b.drop_first(), r2)),
        );
        lemma_str_key_inj(a[0], b[0], strs_key(a.drop_first(), r1), strs_key(b.drop_first(), r2));
        lemma_strs_key_inj(a.drop_first(), b.drop_first(), r1, r2);
        assert(a =~= seq![a[0]] + a.drop_first());
        assert(b =~= seq![b[0]] + b.drop_first());
    }
}

pub proof fn lemma_opt_strs_key_inj(a: Option<Seq<Seq<char>>>, b: Option<Seq<Seq<char>>>, r1: Seq<int>, r2: Seq<int>)
    requires
        opt_strs_key(a, r1) == opt_strs_key(b, r2),
    ensures
        a == b,
        r1 == r2,
{
    match (a, b) {
        (Some(x), Some(y)) => {
            lemma_num_key_inj(1, 1, strs_key(x, r1), strs_key(y, r2));
            lemma_strs_key_inj(x, y, r1, r2);
        },
        (Some(x), None) => {
            lemma_num_key_inj(1, 0, strs_key(x, r1), r2);
        },
        (None, Some(y)) => {
            lemma_num_key_inj(0, 1, r1, strs_key(y, r2));
        },
        (None, None) => {
            lemma_num_key_inj(0, 0, r1, r2);
        },
    }
}

pub proof fn lemma_reality_key_inj(a: Option<RealityView>, b: Option<RealityView>, r1: Seq<int>, r2: Seq<int>)
    requires
        reality_key(a, r1) == reality_key(b, r2),
    ensures
        a == b,
        r1 == r2,
{
    match (a, b) {
        (Some(x), Some(y)) => {
            lemma_num_key_inj(
                1,
                1,
                flag_key(x.enabled, str_key(x.public_key, str_key(x.short_id, r1))),
                flag_key(y.enabled, str_key(y.public_key, str_key(y.short_id, r2))),
            );
            lemma_flag_key_inj(
                x.enabled,
                y.enabled,
                str_key(x.public_key, str_key(x.short_id, r1)),
                str_key(y.public_key, str_key(y.short_id, r2)),
            );
            lemma_str_key_inj(x.public_key, y.public_key, str_key(x.short_id, r1), str_key(y.short_id, r2));
            lemma_str_key_inj(x.short_id, y.short_id, r1, r2);
        },
        (Some(x), None) => {
            lemma_num_key_inj(1, 0, flag_key(x.enabled, str_key(x.public_key, str_key(x.short_id, r1))), r2);
        },
        (None, Some(y)) => {
            lemma_num_key_inj(0, 1, r1, flag_key(y.enabled, str_key(y.public_key, str_key(y.short_id, r2))));
        },
        (None, None) => {
            lemma_num_key_inj(0, 0, r1, r2);
        },
    }
}

pub proof fn lemma_tls_key_inj(a: TlsView, b: TlsView, r1: Seq<int>, r2: Seq<int>)
    requires
        tls_key(a, r1) == tls_key(b, r2),
    ensures
        a == b,
        r1 == r2,
{
    let a4 = reality_key(a.reality, r1);
    let b4 = reality_key(b.reality, r2);
    let a3 = opt_str_key(a.fingerprint, a4);
    let b3 = opt_str_key(b.fingerprint, b4);
    let a2 = opt_strs_key(a.alpn, a3);
    let b2 = opt_strs_key(b.alpn, b3);
    let a1 = opt_str_key(a.server_name, a2);
    let b1 = opt_str_key(b.server_name, b2);
    lemma_flag_key_inj(a.enabled, b.enabled, a1, b1);
    lemma_opt_str_key_inj(a.server_name, b.server_name, a2, b2);
    lemma_opt_strs_key_inj(a.alpn, b.alpn, a3, b3);
    lemma_opt_str_key_inj(a.fingerprint, b.fingerprint, a4, b4);
    lemma_reality_key_inj(a.reality, b.reality, r1, r2);
}


pub proof fn lemma_transport_key_inj(a: TransportView, b: TransportView, r1: Seq<int>, r2: Seq<int>)
    requires
        transport_key(a, r1) == transport_key(b, r2),
    ensures
        a == b,
        r1 == r2,
{
    let ta: int = match a {
        TransportView::Grpc { .. } => 0,
        TransportView::Http { .. } => 1,
        TransportView::HttpUpgrade { .. } => 2,
        TransportView::Quic => 3,
        TransportView::Tcp => 4,
        TransportView::WebSocket { .. } => 5,
    };
    let tb: int = match b {
        TransportView::Grpc { .. } => 0,
        TransportView::Http { .. } => 1,
        TransportView::HttpUpgrade { .. } => 2,
        TransportView::Quic => 3,
        TransportView::Tcp => 4,
        TransportView::WebSocket { .. } => 5,
    };
    assert(transport_key(a, r1)[0] == ta);
    assert(transport_key(b, r2)[0] == tb);
    let ra = transport_key(a, r1).drop_first();
    let rb = transport_key(b, r2).drop_first();
    match (a, b) {
        (TransportView::Grpc { service_name: x }, TransportView::Grpc { service_name: y }) => {
            assert(ra =~= str_key(x, r1));
            assert(rb =~= str_key(y, r2));
            lemma_str_key_inj(x, y, r1, r2);
        },
        (TransportView::Http { host: h1, path: p1, method: m1 }, TransportView::Http { host: h2, path: p2, method: m2 }) => {
            assert(ra =~= opt_strs_key(h1, str_key(p1, str_key(m1, r1))));
            assert(rb =~= opt_strs_key(h2, str_key(p2, str_key(m2, r2))));
            lemma_opt_strs_key_inj(h1, h2, str_key(p1, str_key(m1, r1)), str_key(p2, str_key(m2, r2)));
            lemma_str_key_inj(p1, p2, str_key(m1, r1), str_key(m2, r2));
            lemma_str_key_inj(m1, m2, r1, r2);
        },
        (TransportView::HttpUpgrade { host: h1, path: p1 }, TransportView::HttpUpgrade { host: h2, path: p2 }) => {
            assert(ra =~= opt_strs_key(h1, str_key(p1, r1)));
            assert(rb =~= opt_strs_key(h2, str_key(p2, r2)));
            lemma_opt_strs_key_inj(h1, h2, str_key(p1, r1), str_key(p2, r2));
            lemma_str_key_inj(p1, p2, r1, r2);
        },
        (TransportView::Quic, TransportView::Quic) => {
            assert(ra =~= r1);
            assert(rb =~= r2);
        },
        (TransportView::Tcp, TransportView::Tcp) => {
            assert(ra =~= r1);
            assert(rb =~= r2);
        },
        (TransportView::WebSocket { path: x }, TransportView::WebSocket { path: y }) => {
            assert(ra =~= str_key(x, r1));
            assert(rb =~= str_key(y, r2));
            lemma_str_key_inj(x, y, r1, r2);
        },
        _ => {
            assert(ta != tb);
        },
    }
}

pub proof fn lemma_details_key_inj(a: DetailsView, b: DetailsView, r1: Seq<int>, r2: Seq<int>)
    requires
        details_key(a, r1) == details_key(b, r2),
    ensures
        a == b,
        r1 == r2,
{
    let ta: int = match a {
        DetailsView::Generic => 0,
        DetailsView::Vmess { .. } => 1,
        DetailsView::Vless { .. } => 2,
        DetailsView::Trojan { .. } => 3,
        DetailsView::Shadowsocks { .. } => 4,
    };
    let tb: int = match b {
        DetailsView::Generic => 0,
        DetailsView::Vmess { .. } => 1,
        DetailsView::Vless { .. } => 2,
        DetailsView::Trojan { .. } => 3,
        DetailsView::Shadowsocks { .. } => 4,
    };
    assert(details_key(a, r1)[0] == ta);
    assert(details_key(b, r2)[0] == tb);
    let ra = details_key(a, r1).drop_first();
    let rb = details_key(b, r2).drop_first();
    match (a, b) {
        (DetailsView::Generic, DetailsView::Generic) => {
            assert(ra =~= r1);
            assert(rb =~= r2);
        },
        (DetailsView::Vmess { uuid: u1, tls: t1, transport: x1 }, DetailsView::Vmess { uuid: u2, tls: t2, transport: x2 }) => {
            assert(ra =~= str_key(u1, tls_key(t1, transport_key(x1, r1))));
            assert(rb =~= str_key(u2, tls_key(t2, transport_key(x2, r2))));
            lemma_str_key_inj(u1, u2, tls_key(t1, transport_key(x1, r1)), tls_key(t2, transport_key(x2, r2)));
            lemma_tls_key_inj(t1, t2, transport_key(x1, r1), transport_key(x2, r2));
            lemma_transport_key_inj(x1, x2, r1, r2);
        },
        (DetailsView::Vless { uuid: u1, flow: f1, tls: t1, transport: x1 }, DetailsView::Vless { uuid: u2, flow: f2, tls: t2, transport: x2 }) => {
            assert(ra =~= str_key(u1, opt_str_key(f1, tls_key(t1, transport_key(x1, r1)))));
            assert(rb =~= str_key(u2, opt_str_key(f2, tls_key(t2, transport_key(x2, r2)))));
            lemma_str_key_inj(u1, u2, opt_str_key(f1, tls_key(t1, transport_key(x1, r1))), opt_str_key(f2, tls_key(t2, transport_key(x2, r2))));
            lemma_opt_str_key_inj(f1, f2, tls_key(t1, transport_key(x1, r1)), tls_key(t2, transport_key(x2, r2)));
            lemma_tls_key_inj(t1, t2, transport_key(x1, r1), transport_key(x2, r2));
            lemma_transport_key_inj(x1, x2, r1, r2);
        },
        (DetailsView::Trojan { password: u1, tls: t1, transport: x1 }, DetailsView::Trojan { password: u2, tls: t2, transport: x2 }) => {
            assert(ra =~= str_key(u1, tls_key(t1, transport_key(x1, r1))));
            assert(rb =~= str_key(u2, tls_key(t2, transport_key(x2, r2))));
            lemma_str_key_inj(u1, u2, tls_key(t1, transport_key(x1, r1)), tls_key(t2, transport_key(x2, r2)));
            lemma_tls_key_inj(t1, t2, transport_key(x1, r1), transport_key(x2, r2));
            lemma_transport_key_inj(x1, x2, r1, r2);
        },
        (DetailsView::Shadowsocks { method: m1, password: p1 }, DetailsView::Shadowsocks { method: m2, password: p2 }) => {
            assert(ra =~= str_key(m1, str_key(p1, r1)));
            assert(rb =~= str_key(m2, str_key(p2, r2)));
            lemma_str_key_inj(m1, m2, str_key(p1, r1), str_key(p2, r2));
            lemma_str_key_inj(p1, p2, r1, r2);
        },
        _ => {
            assert(ta != tb);
        },
    }
}

pub proof fn lemma_geoip_key_inj(a: Option<crate::models::GeoIpView>, b: Option<crate::models::GeoIpView>, r1: Seq<int>, r2: Seq<int>)
    requires
        geoip_key(a, r1) == geoip_key(b, r2),
    ensures
        a == b,
        r1 == r2,
{
    match (a, b) {
        (Some(x), Some(y)) => {
            lemma_num_key_inj(
                1,
                1,
                flag_key(x.is_in_eu, str_key(x.iso_code, opt_str_key(x.name, r1))),
                flag_key(y.is_in_eu, str_key(y.iso_code, opt_str_key(y.name, r2))),
            );
            lemma_flag_key_inj(
                x.is_in_eu,
                y.is_in_eu,
                str_key(x.iso_code, opt_str_key(x.name, r1)),
                str_key(y.iso_code, opt_str_key(y.name, r2)),
            );
            lemma_str_key_inj(x.iso_code, y.iso_code, opt_str_key(x.name, r1), opt_str_key(y.name, r2));
            lemma_opt_str_key_inj(x.name, y.name, r1, r2);
        },
        (Some(x), None) => {
            lemma_num_key_inj(1, 0, flag_key(x.is_in_eu, str_key(x.iso_code, opt_str_key(x.name, r1))), r2);
        },
        (None, Some(y)) => {
            lemma_num_key_inj(0, 1, r1, flag_key(y.is_in_eu, str_key(y.iso_code, opt_str_key(y.name, r2))));
        },
        (None, None) => {
            lemma_num_key_inj(0, 0, r1, r2);
        },
    }
}

/// Different proxies have different encodings.
pub proof fn lemma_proxy_key_injective(a: ProxyView, b: ProxyView)
    requires
        proxy_key(a) == proxy_key(b),
    ensures
        a == b,
{
    let e: Seq<int> = seq![];
    let a6 = geoip_key(a.geoip, e);
    let b6 = geoip_key(b.geoip, e);
    let a5 = details_key(a.details, a6);
    let b5 = details_key(b.details, b6);
    let a4 = num_key(type_index(a.proxy_type), a5);
    let b4 = num_key(type_index(b.proxy_type), b5);
    let a3 = opt_str_key(a.remarks, a4);
    let b3 = opt_str_key(b.remarks, b4);
    let a2 = num_key(a.port as int, a3);
    let b2 = num_key(b.port as int, b3);
    let a1 = str_key(a.address, a2);
    let b1 = str_key(b.address, b2);
    lemma_str_key_inj(a.original_link, b.original_link, a1, b1);
    lemma_str_key_inj(a.address, b.address, a2, b2);
    lemma_num_key_inj(a.port as int, b.port as int, a3, b3);
    lemma_opt_str_key_inj(a.remarks, b.remarks, a4, b4);
    lemma_num_key_inj(type_index(a.proxy_type), type_index(b.proxy_type), a5, b5);
    lemma_details_key_inj(a.details, b.details, a6, b6);
    lemma_geoip_key_inj(a.geoip, b.geoip, e, e);
    assert(a.proxy_type == b.proxy_type);
}


// ---------------------------------------------------------------------------------------------
// Computing the encoding
// ---------------------------------------------------------------------------------------------

/// The encoding held in a vector that is filled from the end: its last element comes first.
pub open spec fn key_of(v: Seq<u32>) -> Seq<int> {
    Seq::new(v.len(), |i: int| v[v.len() - 1 - i] as int)
}

/// Puts `x` in front of the encoding.
fn prepend(out: &mut Vec<u32>, x: u32)
    ensures
        key_of(final(out)@) == seq![x as int] + key_of(old(out)@),
{
    out.push(x);
    proof {
        assert(key_of(out@) =~= seq![x as int] + key_of(old(out)@));
    }
}

fn prepend_flag(out: &mut Vec<u32>, b: bool)
    ensures
        key_of(final(out)@) == flag_key(b, key_of(old(out)@)),
{
    prepend(out, if b { 1 } else { 0 });
}

fn prepend_str(out: &mut Vec<u32>, s: &str)
    ensures
        key_of(final(out)@) == str_key(s@, key_of(old(out)@)),
{
    let ghost rest = key_of(out@);
    let n = s.unicode_len();
    prepend(out, 0);
    proof {
        assert(s@.subrange(n as int, n as int).len() == 0);
    }
    let mut i: usize = n;
    while i > 0
        invariant
            n == s@.len(),
            i <= n,
            key_of(out@) == str_key(s@.subrange(i as int, n as int), rest),
        decreases i,
    {
        let c = s.get_char(i - 1);
        let ghost before = key_of(out@);
        prepend(out, c as u32);
        prepend(out, 1);
        proof {
            let sub = s@.subrange(i - 1, n as int);
            assert(sub[0] == c);
            assert(sub.drop_first() =~= s@.subrange(i as int, n as int));
            assert(key_of(out@) =~= seq![1int, c as int] + before);
        }
        i = i - 1;
    }
    proof {
        assert(s@.subrange(0, n as int) =~= s@);
    }
}

fn prepend_opt_str(out: &mut Vec<u32>, o: &Option<String>)
    ensures
        key_of(final(out)@) == opt_str_key(o.deep_view(), key_of(old(out)@)),
{
    match o {
        Some(s) => {
            prepend_str(out, s.as_str());
            prepend(out, 1);
        },
        None => prepend(out, 0),
    }
}

fn prepend_strs(out: &mut Vec<u32>, v: &Vec<String>)
    ensures
        key_of(final(out)@) == strs_key(v.deep_view(), key_of(old(out)@)),
{
    let ghost rest = key_of(out@);
    let ghost dv = v.deep_view();
    prepend(out, 0);
    proof {
        assert(dv.subrange(v.len() as int, v.len() as int).len() == 0);
    }
    let mut i: usize = v.len();
    while i > 0
        invariant
            dv == v.deep_view(),
            i <= v.len(),
            key_of(out@) == strs_key(dv.subrange(i as int, v.len() as int), rest),
        decreases i,
    {
        let ghost before = key_of(out@);
        prepend_str(out, v[i - 1].as_str());
        prepend(out, 1);
        proof {
            let sub = dv.subrange(i - 1, v.len() as int);
            assert(sub[0] == v[i - 1]@);
            assert(sub.drop_first() =~= dv.subrange(i as int, v.len() as int));
        }
        i = i - 1;
    }
    proof {
        assert(dv.subrange(0, v.len() as int) =~= dv);
    }
}

fn prepend_opt_strs(out: &mut Vec<u32>, o: &Option<Vec<String>>)
    ensures
        key_of(final(out)@) == opt_strs_key(o.deep_view(), key_of(old(out)@)),
{
    match o {
        Some(v) => {
            prepend_strs(out, v);
            prepend(out, 1);
        },
        None => prepend(out, 0),
    }
}

fn prepend_reality(out: &mut Vec<u32>, o: &Option<RealitySettings>)
    ensures
        key_of(final(out)@) == reality_key(crate::models::processor::opt_view(*o), key_of(old(out)@)),
{
    match o {
        Some(r) => {
            prepend_str(out, r.short_id.as_str());
            prepend_str(out, r.public_key.as_str());
            prepend_flag(out, r.enabled);
            prepend(out, 1);
        },
        None => prepend(out, 0),
    }
}

fn prepend_tls(out: &mut Vec<u32>, t: &TlsSettings)
    ensures
        key_of(final(out)@) == tls_key(t@, key_of(old(out)@)),
{
    prepend_reality(out, &t.reality);
    prepend_opt_str(out, &t.fingerprint);
    prepend_opt_strs(out, &t.alpn);
    prepend_opt_str(out, &t.server_name);
    prepend_flag(out, t.enabled);
}

fn prepend_transport(out: &mut Vec<u32>, t: &TransportSettings)
    ensures
        key_of(final(out)@) == transport_key(t@, key_of(old(out)@)),
{
    match t {
        TransportSettings::Grpc { service_name } => {
            prepend_str(out, service_name.as_str());
            prepend(out, 0);
        },
        TransportSettings::Http { host, path, method } => {
            prepend_str(out, method.as_str());
            prepend_str(out, path.as_str());
            prepend_opt_strs(out, host);
            prepend(out, 1);
        },
        TransportSettings::HttpUpgrade { host, path } => {
            prepend_str(out, path.as_str());
            prepend_opt_strs(out, host);
            prepend(out, 2);
        },
        TransportSettings::Quic => prepend(out, 3),
        TransportSettings::Tcp => prepend(out, 4),
        TransportSettings::WebSocket { path } => {
            prepend_str(out, path.as_str());
            prepend(out, 5);
        },
    }
}

fn prepend_details(out: &mut Vec<u32>, d: &ProxyDetails)
    ensures
        key_of(final(out)@) == details_key(d@, key_of(old(out)@)),
{
    match d {
        ProxyDetails::Generic => prepend(out, 0),
        ProxyDetails::Vmess { uuid, tls, transport } => {
            prepend_transport(out, transport);
            prepend_tls(out, tls);
            prepend_str(out, uuid.as_str());
            prepend(out, 1);
        },
        ProxyDetails::Vless { uuid, flow, tls, transport } => {
            prepend_transport(out, transport);
            prepend_tls(out, tls);
            prepend_opt_str(out, flow);
            prepend_str(out, uuid.as_str());
            prepend(out, 2);
        },
        ProxyDetails::Trojan { password, tls, transport } => {
            prepend_transport(out, transport);
            prepend_tls(out, tls);
            prepend_str(out, password.as_str());
            prepend(out, 3);
        },
        ProxyDetails::Shadowsocks { method, password } => {
            prepend_str(out, password.as_str());
            prepend_str(out, method.as_str());
            prepend(out, 4);
        },
    }
}

fn prepend_geoip(out: &mut Vec<u32>, o: &Option<GeoIpInfo>)
    ensures
        key_of(final(out)@) == geoip_key(crate::models::processor::opt_view(*o), key_of(old(out)@)),
{
    match o {
        Some(g) => {
            prepend_opt_str(out, &g.name);
            prepend_str(out, g.iso_code.as_str());
            prepend_flag(out, g.is_in_eu);
            prepend(out, 1);
        },
        None => prepend(out, 0),
    }
}

fn type_index_exec(t: ProxyType) -> (r: u32)
    ensures
        r as int == type_index(t),
{
    match t {
        ProxyType::Vmess => 0,
        ProxyType::Vless => 1,
        ProxyType::Trojan => 2,
        ProxyType::Shadowsocks => 3,
        ProxyType::ShadowsocksR => 4,
        ProxyType::Hysteria2 => 5,
    }
}

/// The encoding of a proxy, held from the end.
pub fn proxy_key_exec(p: &Proxy) -> (r: Vec<u32>)
    ensures
        key_of(r@) == proxy_key(p@),
{
    let mut out: Vec<u32> = Vec::new();
    proof {
        assert(key_of(out@) =~= Seq::<int>::empty());
    }
    prepend_geoip(&mut out, &p.geoip);
    prepend_details(&mut out, &p.details);
    prepend(&mut out, type_index_exec(p.proxy_type));
    prepend_opt_str(&mut out, &p.remarks);
    prepend(&mut out, p.port as u32);
    prepend_str(&mut out, p.address.as_str());
    prepend_str(&mut out, p.original_link.as_str());
    out
}


// ---------------------------------------------------------------------------------------------
// Lexicographic order
// ---------------------------------------------------------------------------------------------

/// `a` comes strictly before `b`: at the first place they differ `a` is smaller, or `a` is
/// a proper prefix of `b`.
pub open spec fn lex_lt(a: Seq<int>, b: Seq<int>) -> bool
    decreases a.len(),
{
    if a.len() == 0 {
        b.len() > 0
    } else if b.len() == 0 {
        false
    } else if a[0] < b[0] {
        true
    } else if a[0] > b[0] {
        false
    } else {
        lex_lt(a.drop_first(), b.drop_first())
    }
}

pub proof fn lemma_lex_irreflexive(a: Seq<int>)
    ensures
        !lex_lt(a, a),
    decreases a.len(),
{
    if a.len() > 0 {
        lemma_lex_irreflexive(a.drop_first());
    }
}

pub proof fn lemma_lex_transitive(a: Seq<int>, b: Seq<int>, c: Seq<int>)
    requires
        lex_lt(a, b),
        lex_lt(b, c),
    ensures
        lex_lt(a, c),
    decreases a.len(),
{
    if a.len() > 0 && b.len() > 0 && c.len() > 0 {
        if a[0] == b[0] && b[0] == c[0] {
            lemma_lex_transitive(a.drop_first(), b.drop_first(), c.drop_first());
        }
    }
}

pub proof fn lemma_lex_total(a: Seq<int>, b: Seq<int>)
    ensures
        a == b || lex_lt(a, b) || lex_lt(b, a),
    decreases a.len(),
{
    if a.len() > 0 && b.len() > 0 && a[0] == b[0] {
        lemma_lex_total(a.drop_first(), b.drop_first());
        if a.drop_first() == b.drop_first() {
            assert(a =~= seq![a[0]] + a.drop_first());
            assert(b =~= seq![b[0]] + b.drop_first());
        }
    } else if a.len() == 0 && b.len() == 0 {
        assert(a =~= b);
    }
}

pub proof fn lemma_lex_asymmetric(a: Seq<int>, b: Seq<int>)
    requires
        lex_lt(a, b),
    ensures
        !lex_lt(b, a),
{
    if lex_lt(b, a) {
        lemma_lex_transitive(a, b, a);
        lemma_lex_irreflexive(a);
    }
}

/// How two encodings compare.
pub enum KeyOrder {
    Less,
    Equal,
    Greater,
}

/// Compares two encodings held from the end.
pub fn compare_keys(a: &Vec<u32>, b: &Vec<u32>) -> (r: KeyOrder)
    ensures
        r is Less <==> lex_lt(key_of(a@), key_of(b@)),
        r is Equal <==> key_of(a@) == key_of(b@),
        r is Greater <==> lex_lt(key_of(b@), key_of(a@)),
{
    let ghost ka = key_of(a@);
    let ghost kb = key_of(b@);
    let n = a.len();
    let m = b.len();
    let mut i: usize = 0;
    proof {
        assert(ka.skip(0) =~= ka);
        assert(kb.skip(0) =~= kb);
    }
    while i < n && i < m
        invariant
            n == a@.len(),
            m == b@.len(),
            ka == key_of(a@),
            kb == key_of(b@),
            i <= n,
            i <= m,
            ka.take(i as int) == kb.take(i as int),
            lex_lt(ka, kb) == lex_lt(ka.skip(i as int), kb.skip(i as int)),
            lex_lt(kb, ka) == lex_lt(kb.skip(i as int), ka.skip(i as int)),
        decreases n - i,
    {
        let x = a[n - 1 - i];
        let y = b[m - 1 - i];
        proof {
            assert(ka.skip(i as int)[0] == x as int);
            assert(kb.skip(i as int)[0] == y as int);
            assert(ka.skip(i as int).drop_first() =~= ka.skip(i + 1));
            assert(kb.skip(i as int).drop_first() =~= kb.skip(i + 1));
        }
        if x < y {
            proof {
                lemma_lex_asymmetric(ka, kb);
                assert(ka[i as int] != kb[i as int]);
            }
            return KeyOrder::Less;
        }
        if x > y {
            proof {
                lemma_lex_asymmetric(kb, ka);
                assert(ka[i as int] != kb[i as int]);
            }
            return KeyOrder::Greater;
        }
        proof {
            assert(ka.take(i + 1) =~= ka.take(i as int).push(x as int));
            assert(kb.take(i + 1) =~= kb.take(i as int).push(y as int));
        }
        i = i + 1;
    }
    proof {
        assert(ka.skip(i as int).len() == n - i);
        assert(kb.skip(i as int).len() == m - i);
    }
    if n == m {
        proof {
            assert(ka =~= ka.take(i as int));
            assert(kb =~= kb.take(i as int));
        }
        KeyOrder::Equal
    } else if n < m {
        proof {
            assert(ka.len() != kb.len());
        }
        KeyOrder::Less
    } else {
        proof {
            assert(ka.len() != kb.len());
        }
        KeyOrder::Greater
    }
}

} // verus!
