//! Properties that relate reading, filtering and exporting.

use vstd::prelude::*;

use crate::error::ProcessorErrorView;
use crate::exporter::{optional_member, reality_json, spec_format_tls, string_json, strings_array_json, utls_json, spec_format_transport, line_ending, proxy_tag, sing_box_accepts, sing_box_document, spec_format_proxy, tagged_outbounds, OutboundView};
use crate::json::{member_value, string_member, strings_json, JsonView};
use crate::text::{decimal, digit_char};
use crate::models::processor::{fold_case_seq, proxy_type_from_name, proxy_type_name};
use crate::models::{DetailsView, ProxyType, ProxyView, RealityView, TlsView, TransportView};
use crate::parser::{spec_decode_base64, spec_tls, param_value, spec_transport, base64_search, first_base64_start, is_base64_start, spec_decode_base64_text, spec_details, spec_parse_decoded, spec_parse_proxy, spec_parse_url, spec_normalize, trimmed_params};
use crate::decode::{base64_url_decoded, percent_decode_bytes, percent_decoded};
use vstd::utf8::{
    decode_utf8, encode_scalar, encode_utf8, has_width_1_encoding, last_continuation_byte,
    leading_byte_width_1, leading_byte_width_2, leading_byte_width_3, leading_byte_width_4,
    second_last_continuation_byte, third_last_continuation_byte, valid_utf8,
};
use crate::text::{is_white_space, trim_end, trim_start, trim, ascii_lower, eq_ignore_ascii_case, contains, find, lemma_find_from, matches_at, seq_join, split_char, split_char_from, split_once};
use crate::url_parts::url_components;
use crate::models::{GeoIpInfo, GeoIpView, Proxy, FilterView};
use crate::order::{details_key, geoip_key, num_key, opt_str_key, str_key, type_index, lemma_lex_asymmetric, lemma_lex_irreflexive, lex_lt, proxy_key};
use crate::processor::{non_empty, excluded_countries, included_countries, names_country, candidate, candidates, in_countries, keeps, listed_from, strictly_ordered, views, wants_geoip, with_geoip};

verus! {

proof fn lemma_parse_url_shape(vless: bool, link: Seq<char>, p: ProxyView)
    requires
        spec_parse_url(vless, link) == Some(Ok::<ProxyView, ProcessorErrorView>(p)),
    ensures
        p.original_link == link,
        p.proxy_type == (if vless { ProxyType::Vless } else { ProxyType::Shadowsocks }),
        vless ==> p.details is Vless,
        !vless ==> p.details is Shadowsocks,
{
    let u = url_components(link)->Ok_0;
    let d = spec_details(vless, u.username, trimmed_params(u.query));
    assert(d matches Some(Ok(x)) && x == p.details);
}

/// A proxy read from a link is a vless or Shadowsocks proxy with the details of its type,
/// its link names its type as the scheme, and the sing-box exporter formats it at any
/// position.
pub proof fn lemma_parsed_proxy_is_exportable(link: Seq<char>, p: ProxyView, index: int)
    requires
        spec_parse_proxy(link) == Some(Ok::<ProxyView, ProcessorErrorView>(p)),
        0 <= index < usize::MAX,
    ensures
        p.proxy_type == ProxyType::Vless || p.proxy_type == ProxyType::Shadowsocks,
        p.geoip is None,
        exists|rest: Seq<char>| p.original_link == proxy_type_name(p.proxy_type) + "://"@ + rest,
        sing_box_accepts(p, index),
        spec_format_proxy(p, index) is Ok,
{
    let l = spec_normalize(link)->Ok_0;
    let d = percent_decoded(l)->Some_0;
    assert(spec_parse_decoded(d) == Some(Ok::<ProxyView, ProcessorErrorView>(p)));
    let (scheme, data) = split_once(d, "://"@)->Some_0;
    assert(scheme == "vless"@ || scheme == "ss"@);
    let vless = scheme == "vless"@;
    let inner = crate::parser::spec_decode_base64_text(data);
    let data2 = if !crate::text::contains(data, "@"@) { inner } else { Ok(data) };
    let rest = data2->Ok_0;
    assert(spec_parse_url(vless, scheme + "://"@ + rest) == Some(Ok::<ProxyView, ProcessorErrorView>(p)));
    lemma_parse_url_shape(vless, scheme + "://"@ + rest, p);
    assert(p.original_link == proxy_type_name(p.proxy_type) + "://"@ + rest);
}


/// The number that a string of decimal digits spells.
pub open spec fn digits_value(s: Seq<char>) -> int
    decreases s.len(),
{
    if s.len() == 0 {
        0
    } else {
        digits_value(s.drop_last()) * 10 + (s.last() as int - '0' as int)
    }
}

proof fn lemma_digit_char(d: nat)
    requires
        d < 10,
    ensures
        digit_char(d) as int == '0' as int + d,
{
    assert('0' as int == 48);
    assert('9' as int == 57);
    if d == 0 { assert('0' as int == 48); }
    else if d == 1 { assert('1' as int == 49); }
    else if d == 2 { assert('2' as int == 50); }
    else if d == 3 { assert('3' as int == 51); }
    else if d == 4 { assert('4' as int == 52); }
    else if d == 5 { assert('5' as int == 53); }
    else if d == 6 { assert('6' as int == 54); }
    else if d == 7 { assert('7' as int == 55); }
    else if d == 8 { assert('8' as int == 56); }
    else { assert('9' as int == 57); }
}

proof fn lemma_decimal_value(n: nat)
    ensures
        digits_value(decimal(n)) == n,
        forall|i: int| 0 <= i < decimal(n).len() ==> '0' <= #[trigger] decimal(n)[i] <= '9',
    decreases n,
{
    if n < 10 {
        lemma_digit_char(n);
        assert(decimal(n).drop_last() =~= Seq::<char>::empty());
        assert(digits_value(decimal(n).drop_last()) == 0);
    } else {
        lemma_digit_char(n % 10);
        lemma_decimal_value(n / 10);
        let d = decimal(n);
        assert(d.drop_last() =~= decimal(n / 10));
        assert(d.last() == digit_char(n % 10));
        assert(d =~= decimal(n / 10) + seq![digit_char(n % 10)]);
        assert((n / 10) * 10 + n % 10 == n) by (nonlinear_arith);
        assert(digits_value(d) == digits_value(decimal(n / 10)) * 10 + (d.last() as int - '0' as int));
        assert forall|i: int| 0 <= i < d.len() implies '0' <= #[trigger] d[i] <= '9' by {
            if i < d.len() - 1 {
                assert(d[i] == decimal(n / 10)[i]);
            }
        }
    }
}

/// Tags of different positions differ, whatever the proxies: the number after the last `-`
/// is the position counted from one.
pub proof fn lemma_tags_of_positions_differ(p: ProxyView, q: ProxyView, i: int, j: int)
    requires
        0 <= i,
        0 <= j,
        i != j,
    ensures
        proxy_tag(p, i) != proxy_tag(q, j),
{
    let d1 = decimal((i + 1) as nat);
    let d2 = decimal((j + 1) as nat);
    lemma_decimal_value((i + 1) as nat);
    lemma_decimal_value((j + 1) as nat);
    let t1 = proxy_tag(p, i);
    let t2 = proxy_tag(q, j);
    reveal_strlit("-");
    let p1 = t1.subrange(0, t1.len() - d1.len() - 1);
    let p2 = t2.subrange(0, t2.len() - d2.len() - 1);
    assert(t1 =~= p1 + seq!['-'] + d1);
    assert(t2 =~= p2 + seq!['-'] + d2);
    if t1 == t2 {
        let len = t1.len();
        assert(t1[len - d1.len() - 1] == '-');
        assert(t2[len - d2.len() - 1] == '-');
        if d1.len() < d2.len() {
            assert(t2[len - d1.len() - 1] == d2[d2.len() - d1.len() - 1]);
            assert(false);
        } else if d2.len() < d1.len() {
            assert(t1[len - d2.len() - 1] == d1[d1.len() - d2.len() - 1]);
            assert(false);
        } else {
            assert(d1 =~= t1.subrange(len - d1.len(), len as int));
            assert(d2 =~= t2.subrange(len - d2.len(), len as int));
        }
    }
}

proof fn lemma_formatted_tag(p: ProxyView, index: int)
    requires
        spec_format_proxy(p, index) is Ok,
    ensures
        string_member(spec_format_proxy(p, index)->Ok_0, "tag"@) == Some(proxy_tag(p, index)),
{
    let v = spec_format_proxy(p, index)->Ok_0;
    let members = v->Object_0;
    assert(members[0] == ("tag"@, JsonView::String(proxy_tag(p, index))));
}

proof fn lemma_tagged_outbounds_distinct(ps: Seq<ProxyView>, n: int)
    requires
        0 <= n <= ps.len(),
    ensures
        forall|m: int| 0 <= m < tagged_outbounds(ps, n).len() ==> exists|j: int| 0 <= j < n && (#[trigger] tagged_outbounds(ps, n)[m]).1 == proxy_tag(ps[j], j),
        forall|a: int, b: int| 0 <= a < b < tagged_outbounds(ps, n).len() ==> (#[trigger] tagged_outbounds(ps, n)[a]).1 != (#[trigger] tagged_outbounds(ps, n)[b]).1,
    decreases n,
{
    if n > 0 {
        lemma_tagged_outbounds_distinct(ps, n - 1);
        let prev = tagged_outbounds(ps, n - 1);
        let cur = tagged_outbounds(ps, n);
        if cur.len() > prev.len() {
            lemma_formatted_tag(ps[n - 1], n - 1);
            let last = cur[cur.len() - 1];
            assert(last.1 == proxy_tag(ps[n - 1], n - 1));
            assert forall|m: int| 0 <= m < prev.len() implies #[trigger] cur[m] == prev[m] by {}
            assert forall|m: int| 0 <= m < cur.len() implies exists|j: int| 0 <= j < n && (#[trigger] cur[m]).1 == proxy_tag(ps[j], j) by {
                if m < prev.len() {
                    assert(cur[m] == prev[m]);
                }
            }
            assert forall|a: int, b: int| 0 <= a < b < cur.len() implies (#[trigger] cur[a]).1 != (#[trigger] cur[b]).1 by {
                assert(cur[a] == prev[a]);
                if b == cur.len() - 1 {
                    let j = choose|j: int| 0 <= j < n - 1 && prev[a].1 == proxy_tag(ps[j], j);
                    lemma_tags_of_positions_differ(ps[j], ps[n - 1], j, n - 1);
                } else {
                    assert(cur[b] == prev[b]);
                }
            }
        } else {
            assert(cur =~= prev);
        }
    }
}

/// In the sing-box document, the `urltest` selector lists each outbound's tag once: no two
/// exported outbounds share a tag.
pub proof fn lemma_sing_box_tags_distinct(ps: Seq<ProxyView>)
    ensures
        sing_box_document(ps)[0] matches OutboundView::Urltest(u) && forall|a: int, b: int|
            0 <= a < b < u.outbounds.len() ==> u.outbounds[a] != u.outbounds[b],
{
    lemma_tagged_outbounds_distinct(ps, ps.len() as int);
    let t = tagged_outbounds(ps, ps.len() as int);
    let tags = t.map_values(|x: (JsonView, Seq<char>)| x.1);
    assert forall|a: int, b: int| 0 <= a < b < tags.len() implies tags[a] != tags[b] by {
        assert(tags[a] == t[a].1 && tags[b] == t[b].1);
    }
}


/// Keys strictly increasing along a list of proxy views.
pub open spec fn ordered_views(s: Seq<ProxyView>) -> bool {
    forall|i: int, k: int| 0 <= i < k < s.len() ==> lex_lt(proxy_key(#[trigger] s[i]), proxy_key(#[trigger] s[k]))
}

proof fn lemma_ordered_views(items: Seq<Proxy>)
    requires
        strictly_ordered(items),
    ensures
        ordered_views(views(items)),
{
    let v = views(items);
    assert forall|i: int, k: int| 0 <= i < k < v.len() implies lex_lt(proxy_key(#[trigger] v[i]), proxy_key(#[trigger] v[k])) by {
        assert(v[i] == items[i]@ && v[k] == items[k]@);
    }
}

/// Two strictly ordered lists with the same members are the same list.
proof fn lemma_ordered_unique(a: Seq<ProxyView>, b: Seq<ProxyView>)
    requires
        ordered_views(a),
        ordered_views(b),
        forall|x: ProxyView| #[trigger] listed_from(a, 0, x) == listed_from(b, 0, x),
    ensures
        a == b,
    decreases a.len(),
{
    reveal(listed_from);
    if a.len() == 0 {
        if b.len() > 0 {
            assert(listed_from(b, 0, b[0]));
            assert(listed_from(a, 0, b[0]));
        }
        assert(a =~= b);
    } else {
        assert(listed_from(a, 0, a[0]));
        assert(b.len() > 0);
        assert(listed_from(b, 0, b[0]));
        assert(listed_from(b, 0, a[0]));
        assert(listed_from(a, 0, b[0]));
        let k = choose|k: int| 0 <= k < b.len() && b[k] == a[0];
        let m = choose|m: int| 0 <= m < a.len() && a[m] == b[0];
        if a[0] != b[0] {
            assert(k > 0 && m > 0);
            assert(lex_lt(proxy_key(b[0]), proxy_key(b[k])));
            assert(lex_lt(proxy_key(a[0]), proxy_key(a[m])));
            lemma_lex_asymmetric(proxy_key(a[0]), proxy_key(b[0]));
        }
        let at = a.drop_first();
        let bt = b.drop_first();
        assert forall|i: int, j: int| 0 <= i < j < at.len() implies lex_lt(proxy_key(#[trigger] at[i]), proxy_key(#[trigger] at[j])) by {
            assert(at[i] == a[i + 1] && at[j] == a[j + 1]);
        }
        assert forall|i: int, j: int| 0 <= i < j < bt.len() implies lex_lt(proxy_key(#[trigger] bt[i]), proxy_key(#[trigger] bt[j])) by {
            assert(bt[i] == b[i + 1] && bt[j] == b[j + 1]);
        }
        assert forall|x: ProxyView| #[trigger] listed_from(at, 0, x) == listed_from(bt, 0, x) by {
            if listed_from(at, 0, x) {
                let i = choose|i: int| 0 <= i < at.len() && at[i] == x;
                assert(a[i + 1] == x);
                assert(listed_from(a, 0, x));
                assert(listed_from(b, 0, x));
                let j = choose|j: int| 0 <= j < b.len() && b[j] == x;
                if j == 0 {
                    assert(lex_lt(proxy_key(a[0]), proxy_key(a[i + 1])));
                    lemma_lex_irreflexive(proxy_key(x));
                }
                assert(bt[j - 1] == x);
                assert(listed_from(bt, 0, x));
            }
            if listed_from(bt, 0, x) {
                let j = choose|j: int| 0 <= j < bt.len() && bt[j] == x;
                assert(b[j + 1] == x);
                assert(listed_from(b, 0, x));
                assert(listed_from(a, 0, x));
                let i = choose|i: int| 0 <= i < a.len() && a[i] == x;
                if i == 0 {
                    assert(lex_lt(proxy_key(b[0]), proxy_key(b[j + 1])));
                    lemma_lex_irreflexive(proxy_key(x));
                }
                assert(at[i - 1] == x);
                assert(listed_from(at, 0, x));
            }
        }
        lemma_ordered_unique(at, bt);
        assert(a =~= seq![a[0]] + at);
        assert(b =~= seq![b[0]] + bt);
    }
}

/// A proxy that the filters keep already has the country they need: looking one up for it
/// changes nothing.
pub proof fn lemma_kept_needs_no_lookup(f: FilterView, p: ProxyView, looked_up: Option<crate::models::GeoIpView>)
    requires
        keeps(f, p),
    ensures
        with_geoip(p, f, looked_up) == p,
{
    reveal(keeps);
}

/// Filtering is idempotent: filtering again, with the same filters, what filtering gave,
/// gives it back unchanged, whatever countries are looked up the second time.
pub proof fn lemma_filter_idempotent(first: Seq<Proxy>, gs: Seq<Option<GeoIpInfo>>, f: FilterView, second: Seq<Proxy>)
    requires
        gs.len() == first.len(),
        strictly_ordered(first),
        forall|i: int| 0 <= i < first.len() ==> keeps(f, #[trigger] first[i]@),
        strictly_ordered(second),
        forall|i: int| 0 <= i < second.len() ==> keeps(f, #[trigger] second[i]@) && listed_from(candidates(first, gs, f), 0, second[i]@),
        forall|j: int| 0 <= j < first.len() && keeps(f, #[trigger] candidate(first, gs, f, j)) ==> listed_from(views(second), 0, candidate(first, gs, f, j)),
    ensures
        views(second) == views(first),
{
    let a = views(first);
    let b = views(second);
    let cs = candidates(first, gs, f);
    assert forall|j: int| 0 <= j < first.len() implies #[trigger] cs[j] == a[j] by {
        reveal(candidate);
        lemma_kept_needs_no_lookup(f, first[j]@, crate::models::processor::opt_view(gs[j]));
    }
    assert(cs =~= a);
    lemma_ordered_views(first);
    lemma_ordered_views(second);
    assert forall|x: ProxyView| #[trigger] listed_from(a, 0, x) == listed_from(b, 0, x) by {
        reveal(listed_from);
        if listed_from(a, 0, x) {
            let j = choose|j: int| 0 <= j < a.len() && a[j] == x;
            assert(candidate(first, gs, f, j) == cs[j]);
            assert(keeps(f, first[j]@));
            assert(listed_from(views(second), 0, candidate(first, gs, f, j)));
        }
        if listed_from(b, 0, x) {
            let i = choose|i: int| 0 <= i < b.len() && b[i] == x;
            assert(b[i] == second[i]@);
            assert(listed_from(cs, 0, second[i]@));
        }
    }
    lemma_ordered_unique(a, b);
}

/// What filtering gives depends only on which proxies it is handed (with their looked-up
/// countries), not on their order or on how often each occurs.
pub proof fn lemma_filter_order_independent(
    ps1: Seq<Proxy>,
    gs1: Seq<Option<GeoIpInfo>>,
    ps2: Seq<Proxy>,
    gs2: Seq<Option<GeoIpInfo>>,
    f: FilterView,
    r1: Seq<Proxy>,
    r2: Seq<Proxy>,
)
    requires
        gs1.len() == ps1.len(),
        gs2.len() == ps2.len(),
        forall|x: ProxyView| #[trigger] listed_from(candidates(ps1, gs1, f), 0, x) == listed_from(candidates(ps2, gs2, f), 0, x),
        strictly_ordered(r1),
        forall|i: int| 0 <= i < r1.len() ==> keeps(f, #[trigger] r1[i]@) && listed_from(candidates(ps1, gs1, f), 0, r1[i]@),
        forall|j: int| 0 <= j < ps1.len() && keeps(f, #[trigger] candidate(ps1, gs1, f, j)) ==> listed_from(views(r1), 0, candidate(ps1, gs1, f, j)),
        strictly_ordered(r2),
        forall|i: int| 0 <= i < r2.len() ==> keeps(f, #[trigger] r2[i]@) && listed_from(candidates(ps2, gs2, f), 0, r2[i]@),
        forall|j: int| 0 <= j < ps2.len() && keeps(f, #[trigger] candidate(ps2, gs2, f, j)) ==> listed_from(views(r2), 0, candidate(ps2, gs2, f, j)),
    ensures
        views(r1) == views(r2),
{
    let a = views(r1);
    let b = views(r2);
    let c1 = candidates(ps1, gs1, f);
    let c2 = candidates(ps2, gs2, f);
    assert forall|x: ProxyView| #[trigger] listed_from(a, 0, x) == listed_from(b, 0, x) by {
        reveal(listed_from);
        if listed_from(a, 0, x) {
            let i = choose|i: int| 0 <= i < a.len() && a[i] == x;
            assert(a[i] == r1[i]@);
            assert(keeps(f, r1[i]@) && listed_from(c1, 0, x));
            assert(listed_from(c2, 0, x));
            let j = choose|j: int| 0 <= j < c2.len() && c2[j] == x;
            assert(c2[j] == candidate(ps2, gs2, f, j));
            assert(listed_from(views(r2), 0, candidate(ps2, gs2, f, j)));
        }
        if listed_from(b, 0, x) {
            let i = choose|i: int| 0 <= i < b.len() && b[i] == x;
            assert(b[i] == r2[i]@);
            assert(keeps(f, r2[i]@) && listed_from(c2, 0, x));
            assert(listed_from(c1, 0, x));
            let j = choose|j: int| 0 <= j < c1.len() && c1[j] == x;
            assert(c1[j] == candidate(ps1, gs1, f, j));
            assert(listed_from(views(r1), 0, candidate(ps1, gs1, f, j)));
        }
    }
    lemma_ordered_views(r1);
    lemma_ordered_views(r2);
    lemma_ordered_unique(a, b);
}

/// Splitting from `i` on, where no `c` follows, gives the rest as one piece.
proof fn lemma_split_without_separator(s: Seq<char>, c: char, start: int, i: int)
    requires
        0 <= start <= i <= s.len(),
        forall|k: int| i <= k < s.len() ==> s[k] != c,
    ensures
        split_char_from(s, c, start, i) == seq![s.subrange(start, s.len() as int)],
    decreases s.len() - i,
{
    if i < s.len() {
        lemma_split_without_separator(s, c, start, i + 1);
    }
}

/// Splitting `x`, a separator and a last piece free of separators, gives the pieces of `x`
/// and then the last piece.
proof fn lemma_split_appended(x: Seq<char>, c: char, l: Seq<char>, start: int, i: int)
    requires
        0 <= start <= i <= x.len(),
        forall|k: int| 0 <= k < l.len() ==> l[k] != c,
    ensures
        split_char_from(x + seq![c] + l, c, start, i) == split_char_from(x, c, start, i) + seq![l],
    decreases x.len() - i,
{
    let s = x + seq![c] + l;
    if i >= x.len() {
        assert(s[i] == c);
        assert forall|k: int| i + 1 <= k < s.len() implies s[k] != c by {
            assert(s[k] == l[k - i - 1]);
        }
        lemma_split_without_separator(s, c, i + 1, i + 1);
        assert(s.subrange(i + 1, s.len() as int) =~= l);
        assert(s.subrange(start, i) =~= x.subrange(start, x.len() as int));
        assert(split_char_from(x, c, start, i) == seq![x.subrange(start, x.len() as int)]);
    } else {
        assert(s[i] == x[i]);
        lemma_split_appended(x, c, l, start, i + 1);
        if x[i] == c {
            lemma_split_appended(x, c, l, i + 1, i + 1);
            assert(s.subrange(start, i) =~= x.subrange(start, i));
        }
    }
}

/// Links without line breaks, exported one per line, split back at the line breaks into
/// the same links.
pub proof fn lemma_link_lines_read_back(links: Seq<Seq<char>>)
    requires
        links.len() > 0,
        forall|i: int, k: int| 0 <= i < links.len() && 0 <= k < links[i].len() ==> #[trigger] links[i][k] != '\n',
    ensures
        split_char(seq_join(links, line_ending()), '\n') == links,
    decreases links.len(),
{
    reveal_strlit("\n");
    if links.len() == 1 {
        lemma_split_without_separator(links[0], '\n', 0, 0);
        assert(links[0].subrange(0, links[0].len() as int) =~= links[0]);
        assert(links =~= seq![links[0]]);
    } else {
        let init = links.drop_last();
        assert forall|i: int, k: int| 0 <= i < init.len() && 0 <= k < init[i].len() implies #[trigger] init[i][k] != '\n' by {
            assert(init[i] == links[i]);
        }
        lemma_link_lines_read_back(init);
        let x = seq_join(init, line_ending());
        let last = links.last();
        assert forall|k: int| 0 <= k < last.len() implies last[k] != '\n' by {
            assert(links[links.len() - 1][k] != '\n');
        }
        assert(line_ending() =~= seq!['\n']);
        lemma_split_appended(x, '\n', last, 0, 0);
        assert(links =~= init.push(last));
    }
}

/// The proxy `p` occurs in `ps` with the country `g` looked up for it.
pub open spec fn occurs_in(ps: Seq<Proxy>, gs: Seq<Option<GeoIpInfo>>, p: Proxy, g: Option<GeoIpInfo>) -> bool {
    exists|k: int| 0 <= k < ps.len() && ps[k] == p && gs[k] == g
}

/// Every proxy of the first input occurs in the second with the same looked-up country.
pub open spec fn all_occur_in(ps1: Seq<Proxy>, gs1: Seq<Option<GeoIpInfo>>, ps2: Seq<Proxy>, gs2: Seq<Option<GeoIpInfo>>) -> bool {
    forall|j: int| 0 <= j < ps1.len() ==> #[trigger] occurs_in(ps2, gs2, ps1[j], gs1[j])
}

/// Each proxy is kept or dropped on its own: where every proxy of one input, with the
/// country looked up for it, also occurs in a second input, every proxy that filtering the
/// first gives is also among those that filtering the second gives.
pub proof fn lemma_filter_monotone(
    ps1: Seq<Proxy>,
    gs1: Seq<Option<GeoIpInfo>>,
    ps2: Seq<Proxy>,
    gs2: Seq<Option<GeoIpInfo>>,
    f: FilterView,
    r1: Seq<Proxy>,
    r2: Seq<Proxy>,
)
    requires
        gs1.len() == ps1.len(),
        gs2.len() == ps2.len(),
        all_occur_in(ps1, gs1, ps2, gs2),
        forall|i: int| 0 <= i < r1.len() ==> keeps(f, #[trigger] r1[i]@) && listed_from(candidates(ps1, gs1, f), 0, r1[i]@),
        forall|j: int| 0 <= j < ps2.len() && keeps(f, #[trigger] candidate(ps2, gs2, f, j)) ==> listed_from(views(r2), 0, candidate(ps2, gs2, f, j)),
    ensures
        forall|i: int| 0 <= i < r1.len() ==> listed_from(views(r2), 0, #[trigger] r1[i]@),
{
    assert forall|i: int| 0 <= i < r1.len() implies listed_from(views(r2), 0, #[trigger] r1[i]@) by {
        reveal(listed_from);
        let c1 = candidates(ps1, gs1, f);
        assert(listed_from(c1, 0, r1[i]@));
        let j = choose|j: int| 0 <= j < c1.len() && c1[j] == r1[i]@;
        assert(occurs_in(ps2, gs2, ps1[j], gs1[j]));
        let k = choose|k: int| 0 <= k < ps2.len() && ps2[k] == ps1[j] && gs2[k] == gs1[j];
        reveal(candidate);
        assert(candidate(ps2, gs2, f, k) == candidate(ps1, gs1, f, j));
        assert(keeps(f, r1[i]@));
        assert(listed_from(views(r2), 0, candidate(ps2, gs2, f, k)));
    }
}

/// Inputs that hold the same proxies with the same looked-up countries, in whatever order and
/// however often, filter to the same list.
pub proof fn lemma_filter_same_proxies(
    ps1: Seq<Proxy>,
    gs1: Seq<Option<GeoIpInfo>>,
    ps2: Seq<Proxy>,
    gs2: Seq<Option<GeoIpInfo>>,
    f: FilterView,
    r1: Seq<Proxy>,
    r2: Seq<Proxy>,
)
    requires
        gs1.len() == ps1.len(),
        gs2.len() == ps2.len(),
        all_occur_in(ps1, gs1, ps2, gs2),
        all_occur_in(ps2, gs2, ps1, gs1),
        strictly_ordered(r1),
        forall|i: int| 0 <= i < r1.len() ==> keeps(f, #[trigger] r1[i]@) && listed_from(candidates(ps1, gs1, f), 0, r1[i]@),
        forall|j: int| 0 <= j < ps1.len() && keeps(f, #[trigger] candidate(ps1, gs1, f, j)) ==> listed_from(views(r1), 0, candidate(ps1, gs1, f, j)),
        strictly_ordered(r2),
        forall|i: int| 0 <= i < r2.len() ==> keeps(f, #[trigger] r2[i]@) && listed_from(candidates(ps2, gs2, f), 0, r2[i]@),
        forall|j: int| 0 <= j < ps2.len() && keeps(f, #[trigger] candidate(ps2, gs2, f, j)) ==> listed_from(views(r2), 0, candidate(ps2, gs2, f, j)),
    ensures
        views(r1) == views(r2),
{
    lemma_filter_monotone(ps1, gs1, ps2, gs2, f, r1, r2);
    lemma_filter_monotone(ps2, gs2, ps1, gs1, f, r2, r1);
    let a = views(r1);
    let b = views(r2);
    assert forall|x: ProxyView| #[trigger] listed_from(a, 0, x) == listed_from(b, 0, x) by {
        reveal(listed_from);
        if listed_from(a, 0, x) {
            let i = choose|i: int| 0 <= i < a.len() && a[i] == x;
            assert(a[i] == r1[i]@);
            assert(listed_from(views(r2), 0, r1[i]@));
        }
        if listed_from(b, 0, x) {
            let i = choose|i: int| 0 <= i < b.len() && b[i] == x;
            assert(b[i] == r2[i]@);
            assert(listed_from(views(r1), 0, r2[i]@));
        }
    }
    lemma_ordered_views(r1);
    lemma_ordered_views(r2);
    lemma_ordered_unique(a, b);
}

/// The proxies paired with the countries looked up for them.
pub open spec fn lookups(ps: Seq<Proxy>, gs: Seq<Option<GeoIpInfo>>) -> Seq<(Proxy, Option<GeoIpInfo>)> {
    Seq::new(ps.len(), |j: int| (ps[j], gs[j]))
}

/// Filtering a reordering of the input, each proxy kept with its looked-up country, gives
/// the same list.
pub proof fn lemma_filter_permutation(
    ps1: Seq<Proxy>,
    gs1: Seq<Option<GeoIpInfo>>,
    ps2: Seq<Proxy>,
    gs2: Seq<Option<GeoIpInfo>>,
    f: FilterView,
    r1: Seq<Proxy>,
    r2: Seq<Proxy>,
)
    requires
        gs1.len() == ps1.len(),
        gs2.len() == ps2.len(),
        lookups(ps1, gs1).to_multiset() == lookups(ps2, gs2).to_multiset(),
        strictly_ordered(r1),
        forall|i: int| 0 <= i < r1.len() ==> keeps(f, #[trigger] r1[i]@) && listed_from(candidates(ps1, gs1, f), 0, r1[i]@),
        forall|j: int| 0 <= j < ps1.len() && keeps(f, #[trigger] candidate(ps1, gs1, f, j)) ==> listed_from(views(r1), 0, candidate(ps1, gs1, f, j)),
        strictly_ordered(r2),
        forall|i: int| 0 <= i < r2.len() ==> keeps(f, #[trigger] r2[i]@) && listed_from(candidates(ps2, gs2, f), 0, r2[i]@),
        forall|j: int| 0 <= j < ps2.len() && keeps(f, #[trigger] candidate(ps2, gs2, f, j)) ==> listed_from(views(r2), 0, candidate(ps2, gs2, f, j)),
    ensures
        views(r1) == views(r2),
{
    let l1 = lookups(ps1, gs1);
    let l2 = lookups(ps2, gs2);
    l1.to_multiset_ensures();
    l2.to_multiset_ensures();
    assert forall|j: int| 0 <= j < ps1.len() implies #[trigger] occurs_in(ps2, gs2, ps1[j], gs1[j]) by {
        assert(l1[j] == (ps1[j], gs1[j]));
        assert(l1.contains(l1[j]));
        assert(l2.to_multiset().count(l1[j]) > 0);
        assert(l2.contains(l1[j]));
        let k = choose|k: int| 0 <= k < l2.len() && l2[k] == l1[j];
        assert(l2[k] == (ps2[k], gs2[k]));
    }
    assert forall|k: int| 0 <= k < ps2.len() implies #[trigger] occurs_in(ps1, gs1, ps2[k], gs2[k]) by {
        assert(l2[k] == (ps2[k], gs2[k]));
        assert(l2.contains(l2[k]));
        assert(l1.to_multiset().count(l2[k]) > 0);
        assert(l1.contains(l2[k]));
        let j = choose|j: int| 0 <= j < l1.len() && l1[j] == l2[k];
        assert(l1[j] == (ps1[j], gs1[j]));
    }
    lemma_filter_same_proxies(ps1, gs1, ps2, gs2, f, r1, r2);
}

/// Without country filters the looked-up countries are ignored: whatever countries are looked
/// up, filtering gives the same list, each proxy in it as it was handed over, so without a
/// country where none had one.
pub proof fn lemma_no_country_filters_ignore_lookups(
    ps: Seq<Proxy>,
    gs1: Seq<Option<GeoIpInfo>>,
    gs2: Seq<Option<GeoIpInfo>>,
    f: FilterView,
    r1: Seq<Proxy>,
    r2: Seq<Proxy>,
)
    requires
        !wants_geoip(f),
        gs1.len() == ps.len(),
        gs2.len() == ps.len(),
        strictly_ordered(r1),
        forall|i: int| 0 <= i < r1.len() ==> keeps(f, #[trigger] r1[i]@) && listed_from(candidates(ps, gs1, f), 0, r1[i]@),
        forall|j: int| 0 <= j < ps.len() && keeps(f, #[trigger] candidate(ps, gs1, f, j)) ==> listed_from(views(r1), 0, candidate(ps, gs1, f, j)),
        strictly_ordered(r2),
        forall|i: int| 0 <= i < r2.len() ==> keeps(f, #[trigger] r2[i]@) && listed_from(candidates(ps, gs2, f), 0, r2[i]@),
        forall|j: int| 0 <= j < ps.len() && keeps(f, #[trigger] candidate(ps, gs2, f, j)) ==> listed_from(views(r2), 0, candidate(ps, gs2, f, j)),
    ensures
        views(r1) == views(r2),
        forall|i: int| 0 <= i < r1.len() ==> listed_from(views(ps), 0, #[trigger] r1[i]@),
        (forall|j: int| 0 <= j < ps.len() ==> (#[trigger] ps[j]).geoip is None) ==> forall|i: int| 0 <= i < r1.len() ==> (#[trigger] r1[i]).geoip is None,
{
    let c1 = candidates(ps, gs1, f);
    let c2 = candidates(ps, gs2, f);
    assert(c1 =~= views(ps)) by {
        reveal(candidate);
    }
    assert(c2 =~= views(ps)) by {
        reveal(candidate);
    }
    lemma_filter_order_independent(ps, gs1, ps, gs2, f, r1, r2);
    if forall|j: int| 0 <= j < ps.len() ==> (#[trigger] ps[j]).geoip is None {
        assert forall|i: int| 0 <= i < r1.len() implies (#[trigger] r1[i]).geoip is None by {
            reveal(listed_from);
            assert(listed_from(c1, 0, r1[i]@));
            let j = choose|j: int| 0 <= j < c1.len() && c1[j] == r1[i]@;
            assert(ps[j].geoip is None);
            assert(c1[j] == ps[j]@);
        }
    }
}

/// A text in which the first character of `pat` never occurs does not contain `pat`.
proof fn lemma_lacks_first_char(s: Seq<char>, pat: Seq<char>)
    requires
        pat.len() > 0,
        forall|k: int| 0 <= k < s.len() ==> s[k] != pat[0],
    ensures
        !contains(s, pat),
{
    lemma_find_from(s, pat, 0);
    if find(s, pat) is Some {
        let k = find(s, pat)->Some_0;
        assert(matches_at(s, pat, k));
        assert(s.subrange(k, k + pat.len())[0] == s[k]);
    }
}

/// A link wrapped whole in URL-safe Base64 reads as the link itself: where `wrapped` is made
/// of Base64 characters and decodes to the UTF-8 bytes of `link`, and `link` has a scheme
/// separator, both give the same outcome.
pub proof fn lemma_base64_wrapped_link(wrapped: Seq<char>, link: Seq<char>, bytes: Seq<u8>)
    requires
        wrapped.len() > 0,
        forall|k: int| 0 <= k < wrapped.len() ==> is_base64_start(#[trigger] wrapped[k]),
        base64_url_decoded(wrapped) == Some(bytes),
        valid_utf8(bytes),
        decode_utf8(bytes) == link,
        contains(link, "://"@),
    ensures
        spec_parse_proxy(wrapped) == spec_parse_proxy(link),
{
    reveal_strlit("://");
    assert forall|k: int| 0 <= k < wrapped.len() implies wrapped[k] != "://"@[0] by {
        assert(is_base64_start(wrapped[k]));
    }
    lemma_lacks_first_char(wrapped, "://"@);
    assert(first_base64_start(wrapped, 0) == Some(0int));
    assert(wrapped.subrange(0, wrapped.len() as int) =~= wrapped);
    assert(base64_search(wrapped, 0, wrapped.len() as int) == Ok::<(Seq<u8>, Seq<char>), ProcessorErrorView>(
        (bytes, wrapped.subrange(wrapped.len() as int, wrapped.len() as int)),
    ));
    assert(spec_decode_base64_text(wrapped) == Ok::<Seq<char>, ProcessorErrorView>(link));
    assert(spec_normalize(wrapped) == spec_normalize(link));
}

/// No byte of a character's UTF-8 encoding is `%` (37), unless the character is `%`.
proof fn lemma_scalar_has_no_percent(c: char)
    requires
        c != '%',
    ensures
        forall|k: int| 0 <= k < encode_scalar(c as u32).len() ==> #[trigger] encode_scalar(c as u32)[k] != 37u8,
{
    let v = c as u32;
    assert(v != 37u32);
    if has_width_1_encoding(v) {
        assert(v <= 0x7F ==> (v & 0x7F) as u8 == v) by (bit_vector);
        assert(leading_byte_width_1(v) != 37u8);
    } else {
        assert(forall|y: u8| #![auto] (0x80u8 | y) != 37u8) by (bit_vector);
        assert(forall|y: u8| #![auto] (0xC0u8 | y) != 37u8) by (bit_vector);
        assert(forall|y: u8| #![auto] (0xE0u8 | y) != 37u8) by (bit_vector);
        assert(forall|y: u8| #![auto] (0xF0u8 | y) != 37u8) by (bit_vector);
        assert(last_continuation_byte(v) != 37u8);
        assert(second_last_continuation_byte(v) != 37u8);
        assert(third_last_continuation_byte(v) != 37u8);
        assert(leading_byte_width_2(v) != 37u8);
        assert(leading_byte_width_3(v) != 37u8);
        assert(leading_byte_width_4(v) != 37u8);
    }
}

/// The UTF-8 encoding of a text without `%` has no byte 37.
proof fn lemma_encoding_has_no_percent(s: Seq<char>)
    requires
        forall|i: int| 0 <= i < s.len() ==> s[i] != '%',
    ensures
        forall|k: int| 0 <= k < encode_utf8(s).len() ==> #[trigger] encode_utf8(s)[k] != 37u8,
    decreases s.len(),
{
    if s.len() > 0 {
        lemma_scalar_has_no_percent(s[0]);
        lemma_encoding_has_no_percent(s.drop_first());
        let head = encode_scalar(s[0] as u32);
        let tail = encode_utf8(s.drop_first());
        assert(encode_utf8(s) == head + tail);
        assert forall|k: int| 0 <= k < encode_utf8(s).len() implies #[trigger] encode_utf8(s)[k] != 37u8 by {
            if k < head.len() {
                assert(encode_utf8(s)[k] == head[k]);
            } else {
                assert(encode_utf8(s)[k] == tail[k - head.len()]);
            }
        }
    }
}

/// Bytes without `%` percent-decode to themselves.
proof fn lemma_percent_decode_identity(b: Seq<u8>)
    requires
        forall|k: int| 0 <= k < b.len() ==> b[k] != 37u8,
    ensures
        percent_decode_bytes(b) == b,
    decreases b.len(),
{
    if b.len() > 0 {
        lemma_percent_decode_identity(b.drop_first());
        assert(b =~= seq![b[0]] + b.drop_first());
    }
}

/// A text without `%` percent-decodes to itself.
proof fn lemma_no_percent_decodes_to_itself(s: Seq<char>)
    requires
        forall|i: int| 0 <= i < s.len() ==> s[i] != '%',
    ensures
        percent_decoded(s) == Some(s),
{
    broadcast use vstd::utf8::encode_utf8_valid_utf8, vstd::utf8::encode_utf8_decode_utf8;
    lemma_encoding_has_no_percent(s);
    lemma_percent_decode_identity(encode_utf8(s));
}

/// A `vless` or `ss` link splits at the separator right after its scheme.
proof fn lemma_split_after_scheme(scheme: Seq<char>, data: Seq<char>)
    requires
        scheme == "vless"@ || scheme == "ss"@,
    ensures
        split_once(scheme + "://"@ + data, "://"@) == Some((scheme, data)),
{
    reveal_strlit("://");
    reveal_strlit("vless");
    reveal_strlit("ss");
    let s = scheme + "://"@ + data;
    let n = scheme.len() as int;
    let pat = "://"@;
    assert(s.subrange(n, n + 3) =~= pat);
    assert(matches_at(s, pat, n));
    assert forall|j: int| 0 <= j < n implies !matches_at(s, pat, j) by {
        assert(s[j] == scheme[j]);
        if matches_at(s, pat, j) {
            assert(s.subrange(j, j + 3)[0] == s[j]);
        }
    }
    lemma_find_from(s, pat, 0);
    assert(find(s, pat) == Some(n));
    assert(s.subrange(0, n) =~= scheme);
    assert(s.subrange(n + 3, s.len() as int) =~= data);
}

/// A proxy read from a link reads back from the link it stores, where that link has no `%`
/// and holds the `@` that ends the URL's user information.
pub proof fn lemma_stored_link_reads_back(link: Seq<char>, p: ProxyView)
    requires
        spec_parse_proxy(link) == Some(Ok::<ProxyView, ProcessorErrorView>(p)),
        forall|i: int| 0 <= i < p.original_link.len() ==> p.original_link[i] != '%',
        contains(p.original_link, "@"@),
    ensures
        spec_parse_proxy(p.original_link) == Some(Ok::<ProxyView, ProcessorErrorView>(p)),
{
    reveal_strlit("://");
    reveal_strlit("@");
    let l = spec_normalize(link)->Ok_0;
    let d = percent_decoded(l)->Some_0;
    assert(spec_parse_decoded(d) == Some(Ok::<ProxyView, ProcessorErrorView>(p)));
    let (scheme, data) = split_once(d, "://"@)->Some_0;
    assert(scheme == "vless"@ || scheme == "ss"@);
    let vless = scheme == "vless"@;
    let rest = (if !contains(data, "@"@) { spec_decode_base64_text(data) } else { Ok(data) })->Ok_0;
    let stored = scheme + "://"@ + rest;
    assert(spec_parse_url(vless, stored) == Some(Ok::<ProxyView, ProcessorErrorView>(p)));
    lemma_parse_url_shape(vless, stored, p);
    assert(p.original_link == stored);
    // The stored link is read as it stands.
    let n = scheme.len() as int;
    assert(stored.subrange(n, n + 3) =~= "://"@);
    lemma_find_from(stored, "://"@, 0);
    assert(matches_at(stored, "://"@, n));
    assert(contains(stored, "://"@));
    assert(spec_normalize(stored) == Ok::<Seq<char>, ProcessorErrorView>(stored));
    lemma_no_percent_decodes_to_itself(stored);
    lemma_split_after_scheme(scheme, rest);
    // The `@` is not in the scheme or the separator, so it is in the data.
    lemma_find_from(stored, "@"@, 0);
    let k = find(stored, "@"@)->Some_0;
    assert(matches_at(stored, "@"@, k));
    assert(stored.subrange(k, k + 1)[0] == stored[k]);
    assert(stored[k] == '@');
    reveal_strlit("vless");
    reveal_strlit("ss");
    assert(k >= n + 3);
    let r = k - n - 3;
    assert(rest[r] == '@');
    assert(rest.subrange(r, r + 1) =~= "@"@);
    assert(matches_at(rest, "@"@, r));
    lemma_find_from(rest, "@"@, 0);
    assert(contains(rest, "@"@));
    assert(spec_parse_decoded(stored) == spec_parse_url(vless, stored));
}

/// The hosts named by a `host` parameter: its value cut at each comma.
pub open spec fn hosts_named(ps: Seq<(Seq<char>, Seq<char>)>) -> Option<Seq<Seq<char>>> {
    match param_value(ps, "host"@) {
        Some(h) => Some(split_char(h, ',')),
        None => None,
    }
}

/// The HTTP path named by a `path` parameter, `/` where there is none.
pub open spec fn path_named(ps: Seq<(Seq<char>, Seq<char>)>) -> Seq<char> {
    match param_value(ps, "path"@) {
        Some(p) => p,
        None => "/"@,
    }
}

/// How the transport is read from a link's parameters, by the last `type` among them: none,
/// or `tcp` without an HTTP header, is plain TCP; `quic` is QUIC; `grpc` takes its service name
/// (empty by default); `ws` takes its path and fails without one; `http`, and `tcp` with an
/// HTTP header, take the hosts, the path (`/` by default) and the method (empty by default);
/// `httpupgrade` takes the hosts and the path; any other type is refused and named.
pub proof fn lemma_transport_by_type(ps: Seq<(Seq<char>, Seq<char>)>)
    ensures
        param_value(ps, "type"@) is None ==> spec_transport(ps) == Ok::<TransportView, ProcessorErrorView>(TransportView::Tcp),
        param_value(ps, "type"@) == Some("quic"@) ==> spec_transport(ps) == Ok::<TransportView, ProcessorErrorView>(TransportView::Quic),
        param_value(ps, "type"@) == Some("grpc"@) ==> spec_transport(ps) == Ok::<TransportView, ProcessorErrorView>(
            TransportView::Grpc {
                service_name: match param_value(ps, "serviceName"@) {
                    Some(n) => n,
                    None => seq![],
                },
            },
        ),
        param_value(ps, "type"@) == Some("ws"@) ==> spec_transport(ps) == match param_value(ps, "path"@) {
            Some(p) => Ok::<TransportView, ProcessorErrorView>(TransportView::WebSocket { path: p }),
            None => Err(ProcessorErrorView::MissingComponent("path"@)),
        },
        param_value(ps, "type"@) == Some("http"@) || (param_value(ps, "type"@) == Some("tcp"@)
            && param_value(ps, "headerType"@) == Some("http"@)) ==> spec_transport(ps) == Ok::<TransportView, ProcessorErrorView>(
            TransportView::Http {
                host: hosts_named(ps),
                path: path_named(ps),
                method: match param_value(ps, "method"@) {
                    Some(m) => m,
                    None => seq![],
                },
            },
        ),
        param_value(ps, "type"@) == Some("tcp"@) && param_value(ps, "headerType"@) != Some("http"@)
            ==> spec_transport(ps) == Ok::<TransportView, ProcessorErrorView>(TransportView::Tcp),
        param_value(ps, "type"@) == Some("httpupgrade"@) ==> spec_transport(ps) == Ok::<TransportView, ProcessorErrorView>(
            TransportView::HttpUpgrade { host: hosts_named(ps), path: path_named(ps) },
        ),
        param_value(ps, "type"@) matches Some(t) ==> (t != "quic"@ && t != "grpc"@ && t != "ws"@ && t != "http"@
            && t != "httpupgrade"@ && t != "tcp"@ ==> spec_transport(ps) == Err::<TransportView, ProcessorErrorView>(
            ProcessorErrorView::InvalidValue("transport type: "@ + t),
        )),
{
    reveal_strlit("quic");
    reveal_strlit("grpc");
    reveal_strlit("ws");
    reveal_strlit("http");
    reveal_strlit("httpupgrade");
    reveal_strlit("tcp");
    assert("grpc"@ != "quic"@) by {
        assert("grpc"@[0] != "quic"@[0]);
    }
    assert("ws"@ != "quic"@ && "ws"@ != "grpc"@) by {
        assert("ws"@.len() != "quic"@.len());
    }
    assert("http"@ != "quic"@ && "http"@ != "grpc"@ && "http"@ != "ws"@) by {
        assert("http"@[0] != "quic"@[0] && "http"@[0] != "grpc"@[0]);
    }
    assert("httpupgrade"@ != "quic"@ && "httpupgrade"@ != "grpc"@ && "httpupgrade"@ != "ws"@ && "httpupgrade"@ != "http"@) by {
        assert("httpupgrade"@.len() == 11);
    }
    assert("tcp"@ != "quic"@ && "tcp"@ != "grpc"@ && "tcp"@ != "ws"@ && "tcp"@ != "http"@ && "tcp"@ != "httpupgrade"@) by {
        assert("tcp"@.len() == 3);
    }
}

/// Whether a country code written in a filter names the country: its ISO code, or `EU` for a
/// country in the EU, in any ASCII case.
pub open spec fn code_names(code: Seq<char>, g: GeoIpView) -> bool {
    eq_ignore_ascii_case(code, g.iso_code) || (g.is_in_eu && eq_ignore_ascii_case(code, "EU"@))
}

/// What a proxy that the filters keep satisfies, each filter on its own, whatever the others
/// are: its type is one of the listed types; where countries are included, one of them names
/// its country; where countries are excluded, it has a country and none of them names it.
pub proof fn lemma_kept_passes_each_filter(f: FilterView, p: ProxyView)
    requires
        keeps(f, p),
    ensures
        f.proxy_types matches Some(ts) ==> ts.contains(p.proxy_type),
        f.include_countries matches Some(cs) ==> (p.geoip matches Some(g) && exists|i: int| 0 <= i < cs.len() && #[trigger] code_names(cs[i], g)),
        f.exclude_countries matches Some(cs) ==> (p.geoip matches Some(g) && forall|i: int| 0 <= i < cs.len() ==> !#[trigger] code_names(cs[i], g)),
{
    reveal(keeps);
    if f.include_countries is Some {
        let cs = f.include_countries->Some_0;
        let g = p.geoip->Some_0;
        if names_country(cs, g.iso_code) {
            let i = choose|i: int| 0 <= i < cs.len() && #[trigger] eq_ignore_ascii_case(cs[i], g.iso_code);
            assert(code_names(cs[i], g));
        } else {
            let i = choose|i: int| 0 <= i < cs.len() && #[trigger] eq_ignore_ascii_case(cs[i], "EU"@);
            assert(code_names(cs[i], g));
        }
    }
    if f.exclude_countries is Some {
        let cs = f.exclude_countries->Some_0;
        let g = p.geoip->Some_0;
        assert forall|i: int| 0 <= i < cs.len() implies !#[trigger] code_names(cs[i], g) by {
            if eq_ignore_ascii_case(cs[i], g.iso_code) {
                assert(names_country(cs, g.iso_code));
            }
            if g.is_in_eu && eq_ignore_ascii_case(cs[i], "EU"@) {
                assert(names_country(cs, "EU"@));
            }
        }
    }
}

/// A proxy that passes each filter on its own is kept.
pub proof fn lemma_passing_each_filter_is_kept(f: FilterView, p: ProxyView)
    requires
        f.proxy_types matches Some(ts) ==> ts.contains(p.proxy_type),
        f.include_countries matches Some(cs) ==> (p.geoip matches Some(g) && exists|i: int| 0 <= i < cs.len() && #[trigger] code_names(cs[i], g)),
        f.exclude_countries matches Some(cs) ==> (p.geoip matches Some(g) && forall|i: int| 0 <= i < cs.len() ==> !#[trigger] code_names(cs[i], g)),
    ensures
        keeps(f, p),
{
    reveal(keeps);
    if f.include_countries is Some {
        let cs = f.include_countries->Some_0;
        let g = p.geoip->Some_0;
        let i = choose|i: int| 0 <= i < cs.len() && #[trigger] code_names(cs[i], g);
        if eq_ignore_ascii_case(cs[i], g.iso_code) {
            assert(names_country(cs, g.iso_code));
        } else {
            assert(names_country(cs, "EU"@));
        }
    }
    if f.exclude_countries is Some {
        let cs = f.exclude_countries->Some_0;
        let g = p.geoip->Some_0;
        if names_country(cs, g.iso_code) {
            let i = choose|i: int| 0 <= i < cs.len() && #[trigger] eq_ignore_ascii_case(cs[i], g.iso_code);
            assert(code_names(cs[i], g));
        }
        if g.is_in_eu && names_country(cs, "EU"@) {
            let i = choose|i: int| 0 <= i < cs.len() && #[trigger] eq_ignore_ascii_case(cs[i], "EU"@);
            assert(code_names(cs[i], g));
        }
    }
}

/// JSON strings of the texts, as an array.
pub open spec fn text_array(items: Seq<Seq<char>>) -> JsonView {
    JsonView::Array(items.map_values(|x: Seq<char>| JsonView::String(x)))
}

/// The members of a JSON object, where the value is one.
pub open spec fn object_members(v: Option<JsonView>) -> Seq<(Seq<char>, JsonView)> {
    match v {
        Some(JsonView::Object(ms)) => ms,
        _ => seq![],
    }
}

/// What the sing-box transport object of a transport holds: plain TCP has none; every other
/// transport names its `type` (`quic`, `grpc`, `ws`, or `http` for both HTTP transports) and
/// carries its settings: the gRPC service name, the WebSocket path, and for HTTP the hosts as
/// an array where there are any, the path, and (for plain HTTP) the method.
pub proof fn lemma_transport_object(t: TransportView)
    ensures
        (t is Tcp) == (spec_format_transport(t) is None),
        !(t is Tcp) ==> spec_format_transport(t) matches Some(JsonView::Object(_)),
        t is Quic ==> member_value(object_members(spec_format_transport(t)), "type"@) == Some(JsonView::String("quic"@)),
        t matches TransportView::Grpc { service_name } ==> {
            let ms = object_members(spec_format_transport(t));
            &&& member_value(ms, "type"@) == Some(JsonView::String("grpc"@))
            &&& member_value(ms, "service_name"@) == Some(JsonView::String(service_name))
        },
        t matches TransportView::WebSocket { path } ==> {
            let ms = object_members(spec_format_transport(t));
            &&& member_value(ms, "type"@) == Some(JsonView::String("ws"@))
            &&& member_value(ms, "path"@) == Some(JsonView::String(path))
        },
        t matches TransportView::Http { host, path, method } ==> {
            let ms = object_members(spec_format_transport(t));
            &&& member_value(ms, "type"@) == Some(JsonView::String("http"@))
            &&& member_value(ms, "host"@) == match host {
                Some(hs) => Some(text_array(hs)),
                None => None::<JsonView>,
            }
            &&& member_value(ms, "path"@) == Some(JsonView::String(path))
            &&& member_value(ms, "method"@) == Some(JsonView::String(method))
        },
        t matches TransportView::HttpUpgrade { host, path } ==> {
            let ms = object_members(spec_format_transport(t));
            &&& member_value(ms, "type"@) == Some(JsonView::String("http"@))
            &&& member_value(ms, "host"@) == match host {
                Some(hs) => Some(text_array(hs)),
                None => None::<JsonView>,
            }
            &&& member_value(ms, "path"@) == Some(JsonView::String(path))
            &&& member_value(ms, "method"@) is None
        },
{
    reveal_strlit("type");
    reveal_strlit("host");
    reveal_strlit("path");
    reveal_strlit("method");
    reveal_strlit("service_name");
    reveal_with_fuel(member_value, 5);
    assert("path"@ != "type"@ && "method"@ != "type"@ && "host"@ != "type"@ && "service_name"@ != "type"@) by {
        assert("path"@[0] != "type"@[0] && "host"@[0] != "type"@[0]);
    }
    assert("path"@ != "host"@ && "method"@ != "host"@ && "method"@ != "path"@) by {
        assert("path"@[0] != "host"@[0]);
    }
    match t {
        TransportView::Http { host, path, method } => {
            let ms = object_members(spec_format_transport(t));
            match host {
                Some(hs) => {
                    assert(ms =~= seq![("type"@, JsonView::String("http"@)), ("host"@, text_array(hs)), ("path"@, JsonView::String(path)), ("method"@, JsonView::String(method))]);
                    assert(ms.subrange(1, 4) =~= seq![("host"@, text_array(hs)), ("path"@, JsonView::String(path)), ("method"@, JsonView::String(method))]);
                    assert(ms.subrange(1, 4).subrange(1, 3) =~= seq![("path"@, JsonView::String(path)), ("method"@, JsonView::String(method))]);
                    assert(ms.subrange(1, 4).subrange(1, 3).subrange(1, 2) =~= seq![("method"@, JsonView::String(method))]);
                },
                None => {
                    assert(ms =~= seq![("type"@, JsonView::String("http"@)), ("path"@, JsonView::String(path)), ("method"@, JsonView::String(method))]);
                    assert(ms.subrange(1, 3) =~= seq![("path"@, JsonView::String(path)), ("method"@, JsonView::String(method))]);
                    assert(ms.subrange(1, 3).subrange(1, 2) =~= seq![("method"@, JsonView::String(method))]);
                    assert(ms.subrange(1, 3).subrange(1, 2).subrange(1, 1) =~= Seq::<(Seq<char>, JsonView)>::empty());
                },
            }
        },
        TransportView::HttpUpgrade { host, path } => {
            let ms = object_members(spec_format_transport(t));
            match host {
                Some(hs) => {
                    assert(ms =~= seq![("type"@, JsonView::String("http"@)), ("host"@, text_array(hs)), ("path"@, JsonView::String(path))]);
                    assert(ms.subrange(1, 3) =~= seq![("host"@, text_array(hs)), ("path"@, JsonView::String(path))]);
                    assert(ms.subrange(1, 3).subrange(1, 2) =~= seq![("path"@, JsonView::String(path))]);
                    assert(ms.subrange(1, 3).subrange(1, 2).subrange(1, 1) =~= Seq::<(Seq<char>, JsonView)>::empty());
                },
                None => {
                    assert(ms =~= seq![("type"@, JsonView::String("http"@)), ("path"@, JsonView::String(path))]);
                    assert(ms.subrange(1, 2) =~= seq![("path"@, JsonView::String(path))]);
                    assert(ms.subrange(1, 2).subrange(1, 1) =~= Seq::<(Seq<char>, JsonView)>::empty());
                },
            }
        },
        TransportView::Grpc { service_name } => {
            let ms = object_members(spec_format_transport(t));
            assert(ms =~= seq![("type"@, JsonView::String("grpc"@)), ("service_name"@, JsonView::String(service_name))]);
            assert(ms.subrange(1, 2) =~= seq![("service_name"@, JsonView::String(service_name))]);
        },
        TransportView::WebSocket { path } => {
            let ms = object_members(spec_format_transport(t));
            assert(ms =~= seq![("type"@, JsonView::String("ws"@)), ("path"@, JsonView::String(path))]);
            assert(ms.subrange(1, 2) =~= seq![("path"@, JsonView::String(path))]);
        },
        _ => {},
    }
}

/// Whether a country entry is marked for exclusion by a leading `!`.
pub open spec fn marked(c: Seq<char>) -> bool {
    c.len() > 0 && c[0] == '!'
}

/// `x` is an entry of `cs` without the mark.
pub open spec fn unmarked_entry(cs: Seq<Seq<char>>, x: Seq<char>) -> bool {
    exists|i: int| 0 <= i < cs.len() && !marked(cs[i]) && cs[i] == x
}

/// `x` is the text after the mark of a marked entry of `cs`.
pub open spec fn stripped_entry(cs: Seq<Seq<char>>, x: Seq<char>) -> bool {
    exists|i: int| 0 <= i < cs.len() && marked(cs[i]) && cs[i].drop_first() == x
}

/// How a country list splits: each included country is an entry without the mark, and
/// every such entry is included; each excluded country is the text after the mark of a
/// marked entry, and every marked entry's text after the mark is excluded.
pub proof fn lemma_country_split(cs: Seq<Seq<char>>)
    ensures
        forall|k: int| 0 <= k < included_countries(cs).len() ==> unmarked_entry(cs, #[trigger] included_countries(cs)[k]),
        forall|i: int| 0 <= i < cs.len() && !marked(cs[i]) ==> included_countries(cs).contains(#[trigger] cs[i]),
        forall|k: int| 0 <= k < excluded_countries(cs).len() ==> stripped_entry(cs, #[trigger] excluded_countries(cs)[k]),
        forall|i: int| 0 <= i < cs.len() && marked(cs[i]) ==> excluded_countries(cs).contains(#[trigger] cs[i].drop_first()),
{
    let unmarked = |c: Seq<char>| !(c.len() > 0 && c[0] == '!');
    let is_marked = |c: Seq<char>| c.len() > 0 && c[0] == '!';
    let inc = cs.filter(unmarked);
    let mk = cs.filter(is_marked);
    assert(included_countries(cs) == inc);
    assert(excluded_countries(cs) == mk.map_values(|c: Seq<char>| c.drop_first()));
    assert forall|k: int| 0 <= k < included_countries(cs).len() implies unmarked_entry(cs, #[trigger] included_countries(cs)[k]) by {
        cs.lemma_filter_pred(unmarked, k);
        assert(inc.contains(inc[k]));
        cs.lemma_filter_contains_rev(unmarked, inc[k]);
        let i = choose|i: int| 0 <= i < cs.len() && cs[i] == inc[k];
        assert(!marked(cs[i]) && included_countries(cs)[k] == cs[i]);
    }
    assert forall|i: int| 0 <= i < cs.len() && !marked(cs[i]) implies inc.contains(#[trigger] cs[i]) by {
        cs.lemma_filter_contains(unmarked, i);
    }
    assert forall|k: int| 0 <= k < excluded_countries(cs).len() implies stripped_entry(cs, #[trigger] excluded_countries(cs)[k]) by {
        cs.lemma_filter_pred(is_marked, k);
        assert(mk.contains(mk[k]));
        cs.lemma_filter_contains_rev(is_marked, mk[k]);
        let i = choose|i: int| 0 <= i < cs.len() && cs[i] == mk[k];
        assert(excluded_countries(cs)[k] == mk[k].drop_first());
        assert(marked(cs[i]) && excluded_countries(cs)[k] == cs[i].drop_first());
    }
    assert forall|i: int| 0 <= i < cs.len() && marked(cs[i]) implies excluded_countries(cs).contains(#[trigger] cs[i].drop_first()) by {
        cs.lemma_filter_contains(is_marked, i);
        let k = choose|k: int| 0 <= k < mk.len() && mk[k] == cs[i];
        assert(excluded_countries(cs)[k] == cs[i].drop_first());
    }
}

/// The full name of a proxy type, as a `--types` filter may spell it.
pub open spec fn full_type_name(t: ProxyType) -> Seq<char> {
    match t {
        ProxyType::Vmess => "vmess"@,
        ProxyType::Vless => "vless"@,
        ProxyType::Trojan => "trojan"@,
        ProxyType::Shadowsocks => "shadowsocks"@,
        ProxyType::ShadowsocksR => "shadowsocksr"@,
        ProxyType::Hysteria2 => "hysteria2"@,
    }
}

/// A name written with ASCII letters in any case folds to that name in lower case.
proof fn lemma_fold_ascii_name(s: Seq<char>, name: Seq<char>)
    requires
        eq_ignore_ascii_case(s, name),
        forall|i: int| 0 <= i < name.len() ==> ('a' <= #[trigger] name[i] <= 'z' || '0' <= name[i] <= '9'),
    ensures
        fold_case_seq(s) == name,
{
    assert forall|i: int| 0 <= i < s.len() implies #[trigger] fold_case_seq(s)[i] == name[i] by {
        assert(ascii_lower(s[i]) == ascii_lower(name[i]));
        assert('a' <= name[i] <= 'z' || '0' <= name[i] <= '9');
    }
    assert(fold_case_seq(s) =~= name);
}

/// Every proxy type reads from its full name and from its short name, in any ASCII case:
/// `vmess`, `vless`, `trojan`, `shadowsocks` or `ss`, `shadowsocksr` or `ssr`, `hysteria2` or
/// `h2`.
pub proof fn lemma_type_names_read(t: ProxyType, s: Seq<char>)
    requires
        eq_ignore_ascii_case(s, full_type_name(t)) || eq_ignore_ascii_case(s, proxy_type_name(t)),
    ensures
        proxy_type_from_name(s) == Some(t),
{
    reveal_strlit("vmess");
    reveal_strlit("vless");
    reveal_strlit("trojan");
    reveal_strlit("ss");
    reveal_strlit("ssr");
    reveal_strlit("h2");
    reveal_strlit("shadowsocks");
    reveal_strlit("shadowsocksr");
    reveal_strlit("hysteria2");
    let name = if eq_ignore_ascii_case(s, full_type_name(t)) { full_type_name(t) } else { proxy_type_name(t) };
    assert forall|i: int| 0 <= i < name.len() implies ('a' <= #[trigger] name[i] <= 'z' || '0' <= name[i] <= '9') by {}
    lemma_fold_ascii_name(s, name);
    assert("vmess"@ != "vless"@) by { assert("vmess"@[1] != "vless"@[1]); }
    assert("hysteria2"@ != "shadowsocks"@ && "hysteria2"@ != "shadowsocksr"@) by { assert("hysteria2"@[0] != "shadowsocks"@[0]); }
    assert("h2"@ != "ss"@) by { assert("h2"@[0] != "ss"@[0]); }
}

/// How TLS is read from a link's parameters, by the last `security` among them: anything but
/// `tls` or `reality` leaves TLS off with nothing set; `tls` turns it on with the server name
/// (`sni`), the protocols (`alpn`, cut at commas) and the fingerprint (`fp`) as given, and no
/// REALITY; `reality` does the same and adds REALITY with the public key (`pbk`) and the
/// short id (`sid`, empty by default), and is refused without a public key.
pub proof fn lemma_tls_by_security(ps: Seq<(Seq<char>, Seq<char>)>)
    ensures
        param_value(ps, "security"@) != Some("tls"@) && param_value(ps, "security"@) != Some("reality"@)
            ==> spec_tls(ps) == Ok::<TlsView, ProcessorErrorView>(
            TlsView { enabled: false, server_name: None, alpn: None, fingerprint: None, reality: None },
        ),
        param_value(ps, "security"@) == Some("reality"@) && param_value(ps, "pbk"@) is None
            ==> spec_tls(ps) == Err::<TlsView, ProcessorErrorView>(ProcessorErrorView::MissingComponent("pbk"@)),
        param_value(ps, "security"@) == Some("tls"@) || (param_value(ps, "security"@) == Some("reality"@)
            && param_value(ps, "pbk"@) is Some) ==> (spec_tls(ps) matches Ok(t) && {
            &&& t.enabled
            &&& t.server_name == param_value(ps, "sni"@)
            &&& t.alpn == match param_value(ps, "alpn"@) {
                Some(a) => Some(split_char(a, ',')),
                None => None::<Seq<Seq<char>>>,
            }
            &&& t.fingerprint == param_value(ps, "fp"@)
            &&& (param_value(ps, "security"@) == Some("tls"@) ==> t.reality is None)
            &&& (param_value(ps, "security"@) == Some("reality"@) ==> t.reality == Some(RealityView {
                enabled: true,
                public_key: param_value(ps, "pbk"@)->Some_0,
                short_id: match param_value(ps, "sid"@) {
                    Some(x) => x,
                    None => seq![],
                },
            }))
        }),
{
    reveal_strlit("tls");
    reveal_strlit("reality");
    assert("tls"@ != "reality"@) by {
        assert("tls"@.len() != "reality"@.len());
    }
}

/// The first member with a key in two runs of members: in the first run where it has one,
/// else in the second.
proof fn lemma_member_concat(a: Seq<(Seq<char>, JsonView)>, b: Seq<(Seq<char>, JsonView)>, key: Seq<char>)
    ensures
        member_value(a + b, key) == match member_value(a, key) {
            Some(v) => Some(v),
            None => member_value(b, key),
        },
    decreases a.len(),
{
    if a.len() > 0 {
        assert((a + b).subrange(1, (a + b).len() as int) =~= a.subrange(1, a.len() as int) + b);
        lemma_member_concat(a.subrange(1, a.len() as int), b, key);
    } else {
        assert(a + b =~= b);
    }
}

/// The value of a key in a run of one member.
proof fn lemma_member_single(k: Seq<char>, v: JsonView, key: Seq<char>)
    ensures
        member_value(seq![(k, v)], key) == if k == key { Some(v) } else { None::<JsonView> },
{
    reveal_with_fuel(member_value, 2);
    assert(seq![(k, v)].subrange(1, 1) =~= Seq::<(Seq<char>, JsonView)>::empty());
}

/// The value of a key in an optional member.
proof fn lemma_member_optional(k: Seq<char>, v: Option<JsonView>, key: Seq<char>)
    ensures
        member_value(optional_member(k, v), key) == if k == key { v } else { None::<JsonView> },
{
    match v {
        Some(x) => lemma_member_single(k, x, key),
        None => {},
    }
}

/// `a` where it holds a value, else `b`.
pub open spec fn or_else(a: Option<JsonView>, b: Option<JsonView>) -> Option<JsonView> {
    match a {
        Some(v) => Some(v),
        None => b,
    }
}

/// The first member with a key in five runs of members.
proof fn lemma_member_concat5(
    m0: Seq<(Seq<char>, JsonView)>,
    m1: Seq<(Seq<char>, JsonView)>,
    m2: Seq<(Seq<char>, JsonView)>,
    m3: Seq<(Seq<char>, JsonView)>,
    m4: Seq<(Seq<char>, JsonView)>,
    key: Seq<char>,
)
    ensures
        member_value(m0 + m1 + m2 + m3 + m4, key) == or_else(member_value(m0, key), or_else(member_value(m1, key),
            or_else(member_value(m2, key), or_else(member_value(m3, key), member_value(m4, key))))),
{
    lemma_member_concat(m0 + m1 + m2 + m3, m4, key);
    lemma_member_concat(m0 + m1 + m2, m3, key);
    lemma_member_concat(m0 + m1, m2, key);
    lemma_member_concat(m0, m1, key);
}

/// What the sing-box `tls` object of TLS settings holds: only `enabled: false` where TLS is
/// off; where it is on, `enabled: true`, the server name and the protocols where they are
/// set, `utls` with the fingerprint where one is set and not empty, and `reality` with the
/// public key and short id where REALITY is set and enabled.
pub proof fn lemma_tls_object(t: TlsView)
    ensures
        !t.enabled ==> spec_format_tls(t) == JsonView::Object(seq![("enabled"@, JsonView::Bool(false))]),
        t.enabled ==> (spec_format_tls(t) matches JsonView::Object(ms) && {
            &&& member_value(ms, "enabled"@) == Some(JsonView::Bool(true))
            &&& member_value(ms, "server_name"@) == match t.server_name {
                Some(n) => Some(JsonView::String(n)),
                None => None::<JsonView>,
            }
            &&& member_value(ms, "alpn"@) == match t.alpn {
                Some(a) => Some(text_array(a)),
                None => None::<JsonView>,
            }
            &&& member_value(ms, "utls"@) == match t.fingerprint {
                Some(fp) => if fp.len() > 0 {
                    Some(JsonView::Object(seq![("enabled"@, JsonView::Bool(true)), ("fingerprint"@, JsonView::String(fp))]))
                } else {
                    None::<JsonView>
                },
                None => None::<JsonView>,
            }
            &&& member_value(ms, "reality"@) == match t.reality {
                Some(r) => if r.enabled {
                    Some(JsonView::Object(seq![
                        ("enabled"@, JsonView::Bool(true)),
                        ("public_key"@, JsonView::String(r.public_key)),
                        ("short_id"@, JsonView::String(r.short_id)),
                    ]))
                } else {
                    None::<JsonView>
                },
                None => None::<JsonView>,
            }
        }),
{
    reveal_strlit("enabled");
    reveal_strlit("server_name");
    reveal_strlit("alpn");
    reveal_strlit("utls");
    reveal_strlit("reality");
    if t.enabled {
        let m0 = seq![("enabled"@, JsonView::Bool(true))];
        let m1 = optional_member("server_name"@, string_json(t.server_name));
        let m2 = optional_member("alpn"@, strings_array_json(t.alpn));
        let m3 = optional_member("utls"@, utls_json(t.fingerprint));
        let m4 = optional_member("reality"@, reality_json(t));
        let ms = m0 + m1 + m2 + m3 + m4;
        assert(spec_format_tls(t) == JsonView::Object(ms));
        assert(strings_json(seq![]) =~= seq![]);
        if t.alpn is Some {
            assert(strings_json(t.alpn->Some_0) =~= t.alpn->Some_0.map_values(|x: Seq<char>| JsonView::String(x)));
        }
        assert("enabled"@ != "server_name"@ && "enabled"@ != "alpn"@ && "enabled"@ != "utls"@ && "enabled"@ != "reality"@
            && "server_name"@ != "alpn"@ && "server_name"@ != "utls"@ && "server_name"@ != "reality"@
            && "alpn"@ != "utls"@ && "alpn"@ != "reality"@ && "utls"@ != "reality"@) by {
            assert("enabled"@[0] != "server_name"@[0] && "enabled"@[0] != "alpn"@[0] && "enabled"@[0] != "utls"@[0]
                && "enabled"@[0] != "reality"@[0] && "server_name"@[0] != "alpn"@[0] && "server_name"@[0] != "utls"@[0]
                && "server_name"@[0] != "reality"@[0] && "alpn"@[0] != "utls"@[0] && "alpn"@[0] != "reality"@[0]
                && "utls"@[0] != "reality"@[0]);
        }
        lemma_member_concat5(m0, m1, m2, m3, m4, "enabled"@);
        lemma_member_concat5(m0, m1, m2, m3, m4, "server_name"@);
        lemma_member_concat5(m0, m1, m2, m3, m4, "alpn"@);
        lemma_member_concat5(m0, m1, m2, m3, m4, "utls"@);
        lemma_member_concat5(m0, m1, m2, m3, m4, "reality"@);
        lemma_member_single("enabled"@, JsonView::Bool(true), "enabled"@);
        lemma_member_single("enabled"@, JsonView::Bool(true), "server_name"@);
        lemma_member_single("enabled"@, JsonView::Bool(true), "alpn"@);
        lemma_member_single("enabled"@, JsonView::Bool(true), "utls"@);
        lemma_member_single("enabled"@, JsonView::Bool(true), "reality"@);
        lemma_member_optional("server_name"@, string_json(t.server_name), "enabled"@);
        lemma_member_optional("server_name"@, string_json(t.server_name), "server_name"@);
        lemma_member_optional("server_name"@, string_json(t.server_name), "alpn"@);
        lemma_member_optional("server_name"@, string_json(t.server_name), "utls"@);
        lemma_member_optional("server_name"@, string_json(t.server_name), "reality"@);
        lemma_member_optional("alpn"@, strings_array_json(t.alpn), "enabled"@);
        lemma_member_optional("alpn"@, strings_array_json(t.alpn), "server_name"@);
        lemma_member_optional("alpn"@, strings_array_json(t.alpn), "alpn"@);
        lemma_member_optional("alpn"@, strings_array_json(t.alpn), "utls"@);
        lemma_member_optional("alpn"@, strings_array_json(t.alpn), "reality"@);
        lemma_member_optional("utls"@, utls_json(t.fingerprint), "enabled"@);
        lemma_member_optional("utls"@, utls_json(t.fingerprint), "server_name"@);
        lemma_member_optional("utls"@, utls_json(t.fingerprint), "alpn"@);
        lemma_member_optional("utls"@, utls_json(t.fingerprint), "utls"@);
        lemma_member_optional("utls"@, utls_json(t.fingerprint), "reality"@);
        lemma_member_optional("reality"@, reality_json(t), "enabled"@);
        lemma_member_optional("reality"@, reality_json(t), "server_name"@);
        lemma_member_optional("reality"@, reality_json(t), "alpn"@);
        lemma_member_optional("reality"@, reality_json(t), "utls"@);
        lemma_member_optional("reality"@, reality_json(t), "reality"@);
        assert(member_value(ms, "enabled"@) == Some(JsonView::Bool(true)));
        assert(member_value(ms, "server_name"@) == string_json(t.server_name));
        assert(member_value(ms, "alpn"@) == strings_array_json(t.alpn));
        assert(member_value(ms, "utls"@) == utls_json(t.fingerprint));
        assert(member_value(ms, "reality"@) == reality_json(t));
    }
}

/// The value of the `i`th member, where no member before it has its key.
proof fn lemma_member_at(ms: Seq<(Seq<char>, JsonView)>, i: int)
    requires
        0 <= i < ms.len(),
        forall|j: int| 0 <= j < i ==> ms[j].0 != ms[i].0,
    ensures
        member_value(ms, ms[i].0) == Some(ms[i].1),
    decreases i,
{
    if i > 0 {
        let rest = ms.subrange(1, ms.len() as int);
        assert(rest[i - 1] == ms[i]);
        lemma_member_at(rest, i - 1);
    }
}

/// A key that no member has has no value.
proof fn lemma_member_missing(ms: Seq<(Seq<char>, JsonView)>, key: Seq<char>)
    requires
        forall|j: int| 0 <= j < ms.len() ==> ms[j].0 != key,
    ensures
        member_value(ms, key) is None,
    decreases ms.len(),
{
    if ms.len() > 0 {
        let rest = ms.subrange(1, ms.len() as int);
        assert forall|j: int| 0 <= j < rest.len() implies rest[j].0 != key by {
            assert(rest[j] == ms[j + 1]);
        }
        lemma_member_missing(rest, key);
    }
}

/// The tag of an outbound: the country's name (or its ISO code) where the proxy has a
/// country, else the proxy type's name, then `-` and the position counted from one.
pub open spec fn expected_tag(p: ProxyView, index: int) -> Seq<char> {
    let label = match p.geoip {
        Some(g) => match g.name {
            Some(n) => n,
            None => g.iso_code,
        },
        None => proxy_type_name(p.proxy_type),
    };
    label + "-"@ + decimal((index + 1) as nat)
}

/// What the sing-box outbound of a proxy holds. Every outbound has its tag, the server and
/// its port. A vless proxy adds `type: vless`, its UUID, `packet_encoding: xudp`, the `tls`
/// object where TLS is on and the transport object where the transport has one. A
/// Shadowsocks proxy adds `type: shadowsocks`, its method and its password. A proxy whose
/// details are not of its type, or of another type, has no outbound.
pub proof fn lemma_outbound_object(p: ProxyView, index: int)
    requires
        0 <= index,
    ensures
        p.proxy_type == ProxyType::Vless && !(p.details is Vless) ==> spec_format_proxy(p, index)
            == Err::<JsonView, Seq<char>>("Mismatched proxy type and details for Vless"@),
        p.proxy_type == ProxyType::Shadowsocks && !(p.details is Shadowsocks) ==> spec_format_proxy(p, index)
            == Err::<JsonView, Seq<char>>("Mismatched proxy type and details for Shadowsocks"@),
        p.proxy_type != ProxyType::Vless && p.proxy_type != ProxyType::Shadowsocks ==> spec_format_proxy(p, index)
            == Err::<JsonView, Seq<char>>(proxy_type_name(p.proxy_type)),
        p.proxy_type == ProxyType::Vless && p.details is Vless ==> (spec_format_proxy(p, index) matches Ok(JsonView::Object(ms)) && {
            &&& member_value(ms, "tag"@) == Some(JsonView::String(expected_tag(p, index)))
            &&& member_value(ms, "server"@) == Some(JsonView::String(p.address))
            &&& member_value(ms, "server_port"@) == Some(JsonView::Number(p.port as u64))
            &&& member_value(ms, "type"@) == Some(JsonView::String("vless"@))
            &&& member_value(ms, "uuid"@) == Some(JsonView::String(p.details->Vless_uuid))
            &&& member_value(ms, "packet_encoding"@) == Some(JsonView::String("xudp"@))
            &&& member_value(ms, "tls"@) == if p.details->Vless_tls.enabled {
                Some(spec_format_tls(p.details->Vless_tls))
            } else {
                None::<JsonView>
            }
            &&& member_value(ms, "transport"@) == spec_format_transport(p.details->Vless_transport)
        }),
        p.proxy_type == ProxyType::Shadowsocks && p.details is Shadowsocks ==> (spec_format_proxy(p, index) matches Ok(JsonView::Object(ms)) && {
            &&& member_value(ms, "tag"@) == Some(JsonView::String(expected_tag(p, index)))
            &&& member_value(ms, "server"@) == Some(JsonView::String(p.address))
            &&& member_value(ms, "server_port"@) == Some(JsonView::Number(p.port as u64))
            &&& member_value(ms, "type"@) == Some(JsonView::String("shadowsocks"@))
            &&& member_value(ms, "method"@) == Some(JsonView::String(p.details->Shadowsocks_method))
            &&& member_value(ms, "password"@) == Some(JsonView::String(p.details->Shadowsocks_password))
        }),
{
    reveal_strlit("tag");
    reveal_strlit("server");
    reveal_strlit("server_port");
    reveal_strlit("type");
    reveal_strlit("uuid");
    reveal_strlit("packet_encoding");
    reveal_strlit("tls");
    reveal_strlit("transport");
    reveal_strlit("method");
    reveal_strlit("password");
    assert("tag"@ != "tls"@) by { assert("tag"@[1] != "tls"@[1]); }
    assert("type"@ != "uuid"@) by { assert("type"@[0] != "uuid"@[0]); }
    assert("server"@ != "method"@) by { assert("server"@[0] != "method"@[0]); }
    assert("tag"@.len() == 3 && "server"@.len() == 6 && "server_port"@.len() == 11 && "type"@.len() == 4
        && "uuid"@.len() == 4 && "packet_encoding"@.len() == 15 && "tls"@.len() == 3 && "transport"@.len() == 9
        && "method"@.len() == 6 && "password"@.len() == 8);
    let head = seq![
        ("tag"@, JsonView::String(proxy_tag(p, index))),
        ("server"@, JsonView::String(p.address)),
        ("server_port"@, JsonView::Number(p.port as u64)),
    ];
    assert(proxy_tag(p, index) == expected_tag(p, index));
    match p.details {
        DetailsView::Vless { uuid, flow, tls, transport } => {
            if p.proxy_type == ProxyType::Vless {
                let tm = if tls.enabled { seq![("tls"@, spec_format_tls(tls))] } else { seq![] };
                let om = optional_member("transport"@, spec_format_transport(transport));
                let body = seq![
                    ("type"@, JsonView::String("vless"@)),
                    ("uuid"@, JsonView::String(uuid)),
                    ("packet_encoding"@, JsonView::String("xudp"@)),
                ];
                let ms = head + body + tm + om;
                assert(spec_format_proxy(p, index) == Ok::<JsonView, Seq<char>>(JsonView::Object(ms)));
                assert(ms[0].0 == "tag"@ && ms[1].0 == "server"@ && ms[2].0 == "server_port"@);
                assert(ms[3].0 == "type"@ && ms[4].0 == "uuid"@ && ms[5].0 == "packet_encoding"@);
                lemma_member_at(ms, 0);
                lemma_member_at(ms, 1);
                lemma_member_at(ms, 2);
                lemma_member_at(ms, 3);
                lemma_member_at(ms, 4);
                lemma_member_at(ms, 5);
                if tls.enabled {
                    assert(ms[6].0 == "tls"@);
                    lemma_member_at(ms, 6);
                } else {
                    assert(tm =~= Seq::<(Seq<char>, JsonView)>::empty());
                    assert forall|j: int| 0 <= j < ms.len() implies ms[j].0 != "tls"@ by {
                        if j >= 6 {
                            assert(ms[j] == om[j - 6]);
                            assert(om[j - 6].0 == "transport"@);
                        }
                    }
                    lemma_member_missing(ms, "tls"@);
                }
                match spec_format_transport(transport) {
                    Some(v) => {
                        let k = ms.len() - 1;
                        assert(ms[k] == ("transport"@, v));
                        lemma_member_at(ms, k);
                    },
                    None => {
                        lemma_member_missing(ms, "transport"@);
                    },
                }
            }
        },
        DetailsView::Shadowsocks { method, password } => {
            if p.proxy_type == ProxyType::Shadowsocks {
                let ms = head + seq![
                    ("type"@, JsonView::String("shadowsocks"@)),
                    ("method"@, JsonView::String(method)),
                    ("password"@, JsonView::String(password)),
                ];
                assert(spec_format_proxy(p, index) == Ok::<JsonView, Seq<char>>(JsonView::Object(ms)));
                assert(ms[0].0 == "tag"@ && ms[1].0 == "server"@ && ms[2].0 == "server_port"@);
                assert(ms[3].0 == "type"@ && ms[4].0 == "method"@ && ms[5].0 == "password"@);
                lemma_member_at(ms, 0);
                lemma_member_at(ms, 1);
                lemma_member_at(ms, 2);
                lemma_member_at(ms, 3);
                lemma_member_at(ms, 4);
                lemma_member_at(ms, 5);
            }
        },
        _ => {},
    }
}

/// A character of the URL-safe Base64 alphabet.
pub open spec fn base64_char(c: char) -> bool {
    ('0' <= c && c <= '9') || ('a' <= c && c <= 'z') || ('A' <= c && c <= 'Z') || c == '-' || c == '_'
}

proof fn lemma_first_start(s: Seq<char>, i: int)
    requires
        0 <= i,
    ensures
        first_base64_start(s, i) matches Some(k) ==> i <= k < s.len() && base64_char(s[k])
            && forall|j: int| i <= j < k ==> !base64_char(#[trigger] s[j]),
        first_base64_start(s, i) is None ==> forall|j: int| i <= j < s.len() ==> !base64_char(#[trigger] s[j]),
    decreases s.len() - i,
{
    if i < s.len() && !is_base64_start(s[i]) {
        lemma_first_start(s, i + 1);
    }
}

proof fn lemma_search(s: Seq<char>, start: int, end: int)
    requires
        0 <= start <= end <= s.len(),
    ensures
        base64_search(s, start, end) matches Ok((b, g)) ==> {
            let e = s.len() - g.len();
            &&& start < e <= end
            &&& g == s.subrange(e, s.len() as int)
            &&& base64_url_decoded(s.subrange(start, e)) == Some(b)
            &&& forall|x: int| e < x <= end ==> #[trigger] base64_url_decoded(s.subrange(start, x)) is None
        },
        base64_search(s, start, end) matches Err(x) ==> x == ProcessorErrorView::Base64DecodeFailed(
            "Could not find a valid Base64 substring to decode"@,
        ) && forall|x: int| start < x <= end ==> #[trigger] base64_url_decoded(s.subrange(start, x)) is None,
    decreases end - start,
{
    if end > start && base64_url_decoded(s.subrange(start, end)) is None {
        lemma_search(s, start, end - 1);
    }
}

/// How Base64 is found in a text: it starts at the first character of the Base64 alphabet
/// (there is an error where there is none), and runs to the farthest end from which the
/// text so far decodes; what follows is the garbage. Where no run from that start decodes,
/// the search fails.
pub proof fn lemma_base64_found(s: Seq<char>)
    ensures
        (forall|k: int| 0 <= k < s.len() ==> !base64_char(#[trigger] s[k])) ==> spec_decode_base64(s)
            == Err::<(Seq<u8>, Seq<char>), ProcessorErrorView>(
            ProcessorErrorView::Base64DecodeFailed("Could not find a valid Base64 characters in input"@),
        ),
        forall|start: int| 0 <= start < s.len() && base64_char(#[trigger] s[start])
            && (forall|k: int| 0 <= k < start ==> !base64_char(#[trigger] s[k])) ==> {
            &&& spec_decode_base64(s) matches Ok((b, g)) ==> {
                let e = s.len() - g.len();
                &&& start < e
                &&& g == s.subrange(e, s.len() as int)
                &&& base64_url_decoded(s.subrange(start, e)) == Some(b)
                &&& forall|x: int| e < x <= s.len() ==> #[trigger] base64_url_decoded(s.subrange(start, x)) is None
            }
            &&& spec_decode_base64(s) is Err ==> spec_decode_base64(s) == Err::<(Seq<u8>, Seq<char>), ProcessorErrorView>(
                ProcessorErrorView::Base64DecodeFailed("Could not find a valid Base64 substring to decode"@),
            ) && forall|x: int| start < x <= s.len() ==> #[trigger] base64_url_decoded(s.subrange(start, x)) is None
        },
{
    lemma_first_start(s, 0);
    if first_base64_start(s, 0) is Some {
        let k = first_base64_start(s, 0)->Some_0;
        lemma_search(s, k, s.len() as int);
        assert forall|start: int| 0 <= start < s.len() && base64_char(#[trigger] s[start])
            && (forall|j: int| 0 <= j < start ==> !base64_char(#[trigger] s[j])) implies start == k by {
            if start < k {
                assert(!base64_char(s[start]));
            }
            if start > k {
                assert(!base64_char(s[k]));
            }
        }
    }
}

/// Where a text splits at its first `:`: the part before has no `:`, and the parts with
/// the `:` between them give the text back; a text that does not split has no `:`.
proof fn lemma_split_at_colon(s: Seq<char>)
    ensures
        split_once(s, ":"@) matches Some((a, b)) ==> s == a + ":"@ + b && forall|k: int| 0 <= k < a.len() ==> a[k] != ':',
        split_once(s, ":"@) is None ==> forall|k: int| 0 <= k < s.len() ==> s[k] != ':',
{
    reveal_strlit(":");
    lemma_find_from(s, ":"@, 0);
    if find(s, ":"@) is Some {
        let i = find(s, ":"@)->Some_0;
        assert(s.subrange(i, i + 1)[0] == s[i]);
        assert(s =~= s.subrange(0, i) + ":"@ + s.subrange(i + 1, s.len() as int));
        assert forall|k: int| 0 <= k < i implies s[k] != ':' by {
            if s[k] == ':' {
                assert(s.subrange(k, k + 1) =~= ":"@);
                assert(matches_at(s, ":"@, k));
            }
        }
    } else {
        assert forall|k: int| 0 <= k < s.len() implies s[k] != ':' by {
            if s[k] == ':' {
                assert(s.subrange(k, k + 1) =~= ":"@);
                assert(matches_at(s, ":"@, k));
            }
        }
    }
}

/// How the protocol part is read from a URL's username and parameters. A vless link needs
/// a username, which percent-decoded is the UUID, and takes its `flow`, TLS and transport from
/// the parameters. A Shadowsocks link needs a username, which percent-decoded is Base64 text
/// of `method:password`: the method is what comes before the first `:`, the password the rest;
/// text without a `:` is refused.
pub proof fn lemma_details_read(vless: bool, username: Seq<char>, ps: Seq<(Seq<char>, Seq<char>)>)
    ensures
        vless && username.len() == 0 ==> spec_details(vless, username, ps) == Some(
            Err::<DetailsView, ProcessorErrorView>(ProcessorErrorView::MissingComponent("uuid"@)),
        ),
        !vless && username.len() == 0 ==> spec_details(vless, username, ps) == Some(
            Err::<DetailsView, ProcessorErrorView>(ProcessorErrorView::MissingComponent("method:password"@)),
        ),
        username.len() > 0 ==> ((spec_details(vless, username, ps) is None) == (percent_decoded(username) is None)),
        vless && username.len() > 0 && percent_decoded(username) is Some ==> spec_details(vless, username, ps) == Some(
            match (spec_tls(ps), spec_transport(ps)) {
                (Err(e), _) => Err::<DetailsView, ProcessorErrorView>(e),
                (Ok(_), Err(e)) => Err(e),
                (Ok(tls), Ok(transport)) => Ok(DetailsView::Vless {
                    uuid: percent_decoded(username)->Some_0,
                    flow: param_value(ps, "flow"@),
                    tls,
                    transport,
                }),
            },
        ),
        !vless && username.len() > 0 && percent_decoded(username) is Some ==> {
            let text = spec_decode_base64_text(percent_decoded(username)->Some_0);
            &&& text matches Err(e) ==> spec_details(vless, username, ps) == Some(Err::<DetailsView, ProcessorErrorView>(e))
            &&& text matches Ok(conf) ==> {
                &&& (forall|k: int| 0 <= k < conf.len() ==> conf[k] != ':') ==> spec_details(vless, username, ps) == Some(
                    Err::<DetailsView, ProcessorErrorView>(ProcessorErrorView::MissingComponent("method:password"@)),
                )
                &&& spec_details(vless, username, ps) matches Some(Ok(d)) ==> (d matches DetailsView::Shadowsocks { method, password }
                    && conf == method + ":"@ + password && forall|k: int| 0 <= k < method.len() ==> method[k] != ':')
                &&& (exists|k: int| 0 <= k < conf.len() && conf[k] == ':') ==> spec_details(vless, username, ps) matches Some(Ok(_))
            }
        },
{
    if !vless && username.len() > 0 && percent_decoded(username) is Some {
        let text = spec_decode_base64_text(percent_decoded(username)->Some_0);
        if text is Ok {
            let conf = text->Ok_0;
            lemma_split_at_colon(conf);
            reveal_strlit(":");
            if split_once(conf, ":"@) is Some {
                let (a, b) = split_once(conf, ":"@)->Some_0;
                assert(conf[a.len() as int] == (a + ":"@ + b)[a.len() as int]);
                assert(conf[a.len() as int] == ':');
            }
        }
    }
}

/// How a link is read. A link with a scheme separator is percent-decoded as it stands; any
/// other text is first read as the Base64 text found in it. The decoded link must have a
/// separator; its scheme, before the first one, must be `vless` or `ss`. The data after it is
/// used as it stands where it holds an `@`, else read as Base64 text, and the URL made of the
/// scheme, the separator and that data gives the proxy.
pub proof fn lemma_link_read(link: Seq<char>, d: Seq<char>)
    ensures
        contains(link, "://"@) ==> spec_parse_proxy(link) == match percent_decoded(link) {
            None => None,
            Some(x) => spec_parse_decoded(x),
        },
        !contains(link, "://"@) ==> spec_parse_proxy(link) == match spec_decode_base64_text(link) {
            Err(e) => Some(Err::<ProxyView, ProcessorErrorView>(e)),
            Ok(t) => match percent_decoded(t) {
                None => None,
                Some(x) => spec_parse_decoded(x),
            },
        },
        !contains(d, "://"@) ==> spec_parse_decoded(d) == Some(Err::<ProxyView, ProcessorErrorView>(ProcessorErrorView::InvalidLinkFormat(d))),
        split_once(d, "://"@) matches Some((scheme, data)) ==> {
            &&& scheme != "vless"@ && scheme != "ss"@ ==> spec_parse_decoded(d) == Some(
                Err::<ProxyView, ProcessorErrorView>(ProcessorErrorView::UnsupportedProtocol(scheme)),
            )
            &&& (scheme == "vless"@ || scheme == "ss"@) && contains(data, "@"@) ==> spec_parse_decoded(d)
                == spec_parse_url(scheme == "vless"@, scheme + "://"@ + data)
            &&& (scheme == "vless"@ || scheme == "ss"@) && !contains(data, "@"@) ==> spec_parse_decoded(d) == match spec_decode_base64_text(data) {
                Err(e) => Some(Err::<ProxyView, ProcessorErrorView>(e)),
                Ok(x) => spec_parse_url(scheme == "vless"@, scheme + "://"@ + x),
            }
        },
{
    assert(contains(d, "://"@) == (split_once(d, "://"@) is Some));
}

/// How the proxy is taken from a `vless://` or `ss://` URL. A URL that does not parse is
/// refused with the parser's message; one without a host or a port is refused. Otherwise the
/// proxy is at that host and port, stores the URL as its link, has the fragment, percent-
/// decoded (empty where that is not UTF-8), as its remarks, the type of the scheme, no country,
/// and the details read from the username and the query pairs with their values trimmed.
pub proof fn lemma_url_read(vless: bool, link: Seq<char>)
    ensures
        url_components(link) matches Err(m) ==> spec_parse_url(vless, link) == Some(
            Err::<ProxyView, ProcessorErrorView>(ProcessorErrorView::UrlParse(m)),
        ),
        url_components(link) matches Ok(u) ==> {
            &&& u.host is None ==> spec_parse_url(vless, link) == Some(
                Err::<ProxyView, ProcessorErrorView>(ProcessorErrorView::MissingComponent("address/host"@)),
            )
            &&& u.host is Some && u.port is None ==> spec_parse_url(vless, link) == Some(
                Err::<ProxyView, ProcessorErrorView>(ProcessorErrorView::MissingComponent("port"@)),
            )
            &&& u.host is Some && u.port is Some ==> spec_parse_url(vless, link) == match spec_details(
                vless,
                u.username,
                u.query.map_values(|q: (Seq<char>, Seq<char>)| (q.0, trim(q.1))),
            ) {
                None => None,
                Some(Err(e)) => Some(Err::<ProxyView, ProcessorErrorView>(e)),
                Some(Ok(details)) => Some(Ok(ProxyView {
                    original_link: link,
                    address: u.host->Some_0,
                    port: u.port->Some_0,
                    remarks: match u.fragment {
                        Some(f) => Some(match percent_decoded(f) {
                            Some(x) => x,
                            None => seq![],
                        }),
                        None => None,
                    },
                    proxy_type: if vless { ProxyType::Vless } else { ProxyType::Shadowsocks },
                    details,
                    geoip: None,
                })),
            }
        },
{
    if url_components(link) is Ok {
        let u = url_components(link)->Ok_0;
        assert(trimmed_params(u.query) =~= u.query.map_values(|q: (Seq<char>, Seq<char>)| (q.0, trim(q.1))));
    }
}

/// `a` comes before `b` in text order: it is a proper prefix of `b`, or at the first place
/// they differ its character has the smaller code.
pub open spec fn text_before(a: Seq<char>, b: Seq<char>) -> bool {
    ||| a.len() < b.len() && a == b.subrange(0, a.len() as int)
    ||| exists|i: int| 0 <= i < a.len() && i < b.len() && a.subrange(0, i) == b.subrange(0, i)
        && (#[trigger] a[i] as int) < (b[i] as int)
}

proof fn lemma_str_key_before(a: Seq<char>, b: Seq<char>, r1: Seq<int>, r2: Seq<int>)
    requires
        text_before(a, b),
    ensures
        lex_lt(str_key(a, r1), str_key(b, r2)),
    decreases a.len(),
{
    let ka = str_key(a, r1);
    let kb = str_key(b, r2);
    if a.len() == 0 {
        assert(b.len() > 0);
        assert(ka[0] == 0 && kb[0] == 1);
    } else {
        assert(b.len() > 0);
        assert(ka[0] == 1 && kb[0] == 1);
        assert(ka[1] == a[0] as int && kb[1] == b[0] as int);
        if (a[0] as int) < (b[0] as int) {
            assert(ka.drop_first()[0] < kb.drop_first()[0]);
            assert(lex_lt(ka.drop_first(), kb.drop_first()));
        } else {
            let a1 = a.drop_first();
            let b1 = b.drop_first();
            if a.len() < b.len() && a == b.subrange(0, a.len() as int) {
                assert(a[0] == b[0]);
                assert(a1 =~= b1.subrange(0, a1.len() as int));
            } else {
                let i = choose|i: int| 0 <= i < a.len() && i < b.len() && a.subrange(0, i) == b.subrange(0, i)
                    && (#[trigger] a[i] as int) < (b[i] as int);
                assert(i > 0) by {
                    if i == 0 {
                        assert((a[0] as int) < (b[0] as int));
                    }
                }
                assert(a[0] == a.subrange(0, i)[0] && b[0] == b.subrange(0, i)[0]);
                assert(a1.subrange(0, i - 1) =~= b1.subrange(0, i - 1)) by {
                    assert forall|j: int| 0 <= j < i - 1 implies a1[j] == b1[j] by {
                        assert(a.subrange(0, i)[j + 1] == b.subrange(0, i)[j + 1]);
                    }
                }
                assert(a1[i - 1] == a[i] && b1[i - 1] == b[i]);
            }
            assert(text_before(a1, b1));
            lemma_str_key_before(a1, b1, r1, r2);
            assert(ka.drop_first().drop_first() =~= str_key(a1, r1));
            assert(kb.drop_first().drop_first() =~= str_key(b1, r2));
            assert(a[0] == b[0]);
            assert(lex_lt(ka.drop_first().drop_first(), kb.drop_first().drop_first()));
            assert(ka.drop_first()[0] == kb.drop_first()[0]);
            assert(lex_lt(ka.drop_first(), kb.drop_first()));
        }
    }
}

/// Filtering lists its proxies in the text order of their links: of two listed proxies, the
/// one whose link comes first in text order comes first.
pub proof fn lemma_listed_by_link(r: Seq<Proxy>)
    requires
        strictly_ordered(r),
    ensures
        forall|i: int, k: int| 0 <= i < r.len() && 0 <= k < r.len()
            && text_before(#[trigger] r[i]@.original_link, #[trigger] r[k]@.original_link) ==> i < k,
{
    assert forall|i: int, k: int| 0 <= i < r.len() && 0 <= k < r.len()
        && text_before(#[trigger] r[i]@.original_link, #[trigger] r[k]@.original_link) implies i < k by {
        lemma_str_key_before(r[i]@.original_link, r[k]@.original_link,
            proxy_key_then_rest(r[i]@), proxy_key_then_rest(r[k]@));
        assert(proxy_key(r[i]@) == str_key(r[i]@.original_link, proxy_key_then_rest(r[i]@)));
        assert(proxy_key(r[k]@) == str_key(r[k]@.original_link, proxy_key_then_rest(r[k]@)));
        if k < i {
            lemma_lex_asymmetric(proxy_key(r[k]@), proxy_key(r[i]@));
        } else if k == i {
            lemma_lex_irreflexive(proxy_key(r[i]@));
        }
    }
}

/// The encoding of a proxy after its link.
spec fn proxy_key_then_rest(p: ProxyView) -> Seq<int> {
    str_key(
        p.address,
        num_key(
            p.port as int,
            opt_str_key(
                p.remarks,
                num_key(type_index(p.proxy_type), details_key(p.details, geoip_key(p.geoip, seq![]))),
            ),
        ),
    )
}

/// A proxy that the sing-box exporter formats: a vless or Shadowsocks proxy with details of
/// its type.
pub open spec fn formattable(p: ProxyView) -> bool {
    ||| p.proxy_type == ProxyType::Vless && p.details is Vless
    ||| p.proxy_type == ProxyType::Shadowsocks && p.details is Shadowsocks
}

proof fn lemma_tagged_all(ps: Seq<ProxyView>, n: int)
    requires
        0 <= n <= ps.len(),
        forall|k: int| 0 <= k < ps.len() ==> formattable(#[trigger] ps[k]),
    ensures
        tagged_outbounds(ps, n).len() == n,
        forall|k: int| 0 <= k < n ==> spec_format_proxy(ps[k], k) == Ok::<JsonView, Seq<char>>(#[trigger] tagged_outbounds(ps, n)[k].0)
            && string_member(tagged_outbounds(ps, n)[k].0, "tag"@) == Some(tagged_outbounds(ps, n)[k].1),
    decreases n,
{
    if n > 0 {
        lemma_tagged_all(ps, n - 1);
        let p = ps[n - 1];
        lemma_outbound_object(p, n - 1);
        let v = spec_format_proxy(p, n - 1)->Ok_0;
        assert(string_member(v, "tag"@) is Some);
        let prev = tagged_outbounds(ps, n - 1);
        let t = string_member(v, "tag"@)->Some_0;
        assert(tagged_outbounds(ps, n) == prev + seq![(v, t)]);
        assert forall|k: int| 0 <= k < n implies spec_format_proxy(ps[k], k) == Ok::<JsonView, Seq<char>>(#[trigger] tagged_outbounds(ps, n)[k].0)
            && string_member(tagged_outbounds(ps, n)[k].0, "tag"@) == Some(tagged_outbounds(ps, n)[k].1) by {
            if k < n - 1 {
                assert(tagged_outbounds(ps, n)[k] == prev[k]);
            }
        }
    }
}

/// The sing-box document: first the `urltest` selector (tag `urltest-out`, testing
/// `https://www.gstatic.com/generate_204` every minute, with a tolerance of 50, a 10-minute idle
/// timeout, interrupting existing connections), listing in order the tags of the outbounds
/// that follow it, each of which carries that tag. Where every proxy can be formatted, the
/// outbounds are those of all the proxies, in order, each formatted at its position.
pub proof fn lemma_document_shape(ps: Seq<ProxyView>)
    ensures
        ({
            let doc = sing_box_document(ps);
            &&& doc.len() >= 1
            &&& doc[0] matches OutboundView::Urltest(u) && {
                &&& u.proxy_type == "urltest"@
                &&& u.tag == "urltest-out"@
                &&& u.url == "https://www.gstatic.com/generate_204"@
                &&& u.interval == "1m"@
                &&& u.tolerance == 50
                &&& u.idle_timeout == "10m"@
                &&& u.interrupt_exist_connections
                &&& u.outbounds.len() == doc.len() - 1
                &&& forall|k: int| 1 <= k < doc.len() ==> (#[trigger] doc[k] matches OutboundView::Value(v)
                    && string_member(v, "tag"@) == Some(u.outbounds[k - 1]))
            }
        }),
        (forall|k: int| 0 <= k < ps.len() ==> formattable(#[trigger] ps[k])) ==> ({
            let doc = sing_box_document(ps);
            &&& doc.len() == ps.len() + 1
            &&& forall|k: int| 0 <= k < ps.len() ==> (#[trigger] doc[k + 1] matches OutboundView::Value(v)
                && spec_format_proxy(ps[k], k) == Ok::<JsonView, Seq<char>>(v))
        }),
{
    let t = tagged_outbounds(ps, ps.len() as int);
    lemma_tagged_tags(ps, ps.len() as int);
    let doc = sing_box_document(ps);
    assert forall|k: int| 1 <= k < doc.len() implies (#[trigger] doc[k] matches OutboundView::Value(v)
        && string_member(v, "tag"@) == Some(t.map_values(|x: (JsonView, Seq<char>)| x.1)[k - 1])) by {
        assert(doc[k] == OutboundView::Value(t[k - 1].0));
    }
    if forall|k: int| 0 <= k < ps.len() ==> formattable(#[trigger] ps[k]) {
        lemma_tagged_all(ps, ps.len() as int);
        assert forall|k: int| 0 <= k < ps.len() implies (#[trigger] doc[k + 1] matches OutboundView::Value(v)
            && spec_format_proxy(ps[k], k) == Ok::<JsonView, Seq<char>>(v)) by {
            assert(doc[k + 1] == OutboundView::Value(t[k].0));
        }
    }
}

proof fn lemma_tagged_tags(ps: Seq<ProxyView>, n: int)
    requires
        0 <= n <= ps.len(),
    ensures
        forall|k: int| 0 <= k < tagged_outbounds(ps, n).len() ==> string_member(#[trigger] tagged_outbounds(ps, n)[k].0, "tag"@)
            == Some(tagged_outbounds(ps, n)[k].1),
    decreases n,
{
    if n > 0 {
        lemma_tagged_tags(ps, n - 1);
        let prev = tagged_outbounds(ps, n - 1);
        let cur = tagged_outbounds(ps, n);
        assert forall|k: int| 0 <= k < cur.len() implies string_member(#[trigger] cur[k].0, "tag"@) == Some(cur[k].1) by {
            if k < prev.len() {
                assert(cur[k] == prev[k]);
            }
        }
    }
}

/// A parameter's value is the one of its last pair: adding a pair sets its key to the new
/// value and leaves every other key as it was; a key with no pair has no value.
pub proof fn lemma_last_pair_wins(ps: Seq<(Seq<char>, Seq<char>)>, k: Seq<char>, v: Seq<char>, other: Seq<char>)
    requires
        other != k,
    ensures
        param_value(ps.push((k, v)), k) == Some(v),
        param_value(ps.push((k, v)), other) == param_value(ps, other),
        (forall|i: int| 0 <= i < ps.len() ==> (#[trigger] ps[i]).0 != other) ==> param_value(ps, other) is None,
    decreases ps.len(),
{
    assert(ps.push((k, v)).drop_last() =~= ps);
    if ps.len() > 0 && forall|i: int| 0 <= i < ps.len() ==> (#[trigger] ps[i]).0 != other {
        let init = ps.drop_last();
        assert(ps.last() == ps[ps.len() - 1]);
        assert forall|i: int| 0 <= i < init.len() implies (#[trigger] init[i]).0 != other by {
            assert(init[i] == ps[i]);
        }
        lemma_last_pair_wins(init, k, v, other);
    }
}

/// Where the filters ask for countries, a proxy without one is filtered with the country
/// looked up for it; any other proxy is filtered as it is. Nothing else about it changes.
pub proof fn lemma_lookup_fills_only_missing(p: ProxyView, f: FilterView, looked_up: Option<GeoIpView>)
    ensures
        ({
            let c = with_geoip(p, f, looked_up);
            &&& c.original_link == p.original_link && c.address == p.address && c.port == p.port
            &&& c.remarks == p.remarks && c.proxy_type == p.proxy_type && c.details == p.details
            &&& c.geoip == if (f.include_countries is Some || f.exclude_countries is Some) && p.geoip is None {
                looked_up
            } else {
                p.geoip
            }
        }),
{
}

proof fn lemma_trim_start_shape(s: Seq<char>)
    ensures
        trim_start(s).len() <= s.len(),
        trim_start(s) == s.subrange(s.len() - trim_start(s).len(), s.len() as int),
        forall|i: int| 0 <= i < s.len() - trim_start(s).len() ==> is_white_space(#[trigger] s[i]),
        trim_start(s).len() > 0 ==> !is_white_space(trim_start(s)[0]),
    decreases s.len(),
{
    if s.len() > 0 && is_white_space(s[0]) {
        lemma_trim_start_shape(s.drop_first());
        assert forall|i: int| 0 <= i < s.len() - trim_start(s).len() implies is_white_space(#[trigger] s[i]) by {
            if i > 0 {
                assert(s[i] == s.drop_first()[i - 1]);
            }
        }
        assert(s.drop_first().subrange(s.drop_first().len() - trim_start(s).len(), s.drop_first().len() as int)
            =~= s.subrange(s.len() - trim_start(s).len(), s.len() as int));
    } else {
        assert(s.subrange(0, s.len() as int) =~= s);
    }
}

proof fn lemma_trim_end_shape(s: Seq<char>)
    ensures
        trim_end(s).len() <= s.len(),
        trim_end(s) == s.subrange(0, trim_end(s).len() as int),
        forall|i: int| trim_end(s).len() <= i < s.len() ==> is_white_space(#[trigger] s[i]),
        trim_end(s).len() > 0 ==> !is_white_space(trim_end(s).last()),
    decreases s.len(),
{
    if s.len() > 0 && is_white_space(s.last()) {
        lemma_trim_end_shape(s.drop_last());
        assert forall|i: int| trim_end(s).len() <= i < s.len() implies is_white_space(#[trigger] s[i]) by {
            if i < s.len() - 1 {
                assert(s[i] == s.drop_last()[i]);
            }
        }
        assert(s.drop_last().subrange(0, trim_end(s).len() as int) =~= s.subrange(0, trim_end(s).len() as int));
    } else {
        assert(s.subrange(0, s.len() as int) =~= s);
    }
}

/// Trimming takes white space off both ends and nothing else: the text is white space, the
/// trimmed text, then white space, and the trimmed text neither starts nor ends with white
/// space.
pub proof fn lemma_trim_shape(s: Seq<char>)
    ensures
        ({
            let t = trim(s);
            exists|a: int| #![trigger s.subrange(a, a + t.len())] 0 <= a && a + t.len() <= s.len() && s.subrange(a, a + t.len()) == t
                && (forall|i: int| 0 <= i < a ==> is_white_space(#[trigger] s[i]))
                && (forall|i: int| a + t.len() <= i < s.len() ==> is_white_space(#[trigger] s[i]))
        }),
        trim(s).len() > 0 ==> !is_white_space(trim(s)[0]) && !is_white_space(trim(s).last()),
{
    let m = trim_start(s);
    lemma_trim_start_shape(s);
    lemma_trim_end_shape(m);
    let t = trim(s);
    let a = s.len() - m.len();
    assert(t == m.subrange(0, t.len() as int));
    assert(s.subrange(a, a + t.len()) =~= t) by {
        assert forall|j: int| 0 <= j < t.len() implies s.subrange(a, a + t.len())[j] == t[j] by {
            assert(m[j] == s[a + j]);
        }
    }
    assert forall|i: int| a + t.len() <= i < s.len() implies is_white_space(#[trigger] s[i]) by {
        assert(s[i] == m[i - a]);
    }
    if t.len() > 0 {
        assert(t[0] == m[0]);
    }
}

/// A side of the country split is no filter at all exactly when no entry goes to it, and is
/// otherwise the list of its countries.
pub proof fn lemma_empty_side_is_no_filter(cs: Seq<Seq<char>>)
    ensures
        (non_empty(included_countries(cs)) is None) == (forall|i: int| 0 <= i < cs.len() ==> marked(#[trigger] cs[i])),
        (non_empty(excluded_countries(cs)) is None) == (forall|i: int| 0 <= i < cs.len() ==> !marked(#[trigger] cs[i])),
        non_empty(included_countries(cs)) matches Some(x) ==> x == included_countries(cs),
        non_empty(excluded_countries(cs)) matches Some(x) ==> x == excluded_countries(cs),
{
    lemma_country_split(cs);
    if exists|i: int| 0 <= i < cs.len() && !marked(#[trigger] cs[i]) {
        let i = choose|i: int| 0 <= i < cs.len() && !marked(#[trigger] cs[i]);
        assert(included_countries(cs).contains(cs[i]));
    }
    if exists|i: int| 0 <= i < cs.len() && marked(#[trigger] cs[i]) {
        let i = choose|i: int| 0 <= i < cs.len() && marked(#[trigger] cs[i]);
        assert(excluded_countries(cs).contains(cs[i].drop_first()));
    }
    if included_countries(cs).len() > 0 {
        assert(unmarked_entry(cs, included_countries(cs)[0]));
    }
    if excluded_countries(cs).len() > 0 {
        assert(stripped_entry(cs, excluded_countries(cs)[0]));
    }
}

/// A proxy is in the listed countries exactly when it has a country and one of the listed
/// codes names it (its ISO code, or `EU` for an EU country, in any ASCII case).
pub proof fn lemma_in_countries_named(geoip: Option<GeoIpView>, cs: Seq<Seq<char>>)
    ensures
        in_countries(geoip, cs) == (geoip matches Some(g) && exists|i: int| 0 <= i < cs.len() && #[trigger] code_names(cs[i], g)),
{
    if geoip is Some {
        let g = geoip->Some_0;
        if names_country(cs, g.iso_code) {
            let i = choose|i: int| 0 <= i < cs.len() && #[trigger] eq_ignore_ascii_case(cs[i], g.iso_code);
            assert(code_names(cs[i], g));
        } else if g.is_in_eu && names_country(cs, "EU"@) {
            let i = choose|i: int| 0 <= i < cs.len() && #[trigger] eq_ignore_ascii_case(cs[i], "EU"@);
            assert(code_names(cs[i], g));
        }
        if exists|i: int| 0 <= i < cs.len() && #[trigger] code_names(cs[i], g) {
            let i = choose|i: int| 0 <= i < cs.len() && #[trigger] code_names(cs[i], g);
            if eq_ignore_ascii_case(cs[i], g.iso_code) {
                assert(names_country(cs, g.iso_code));
            } else {
                assert(names_country(cs, "EU"@));
            }
        }
    }
}

} // verus!
