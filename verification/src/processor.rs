//! Filtering proxies by type and country, and listing them in order without repeats.

use vstd::prelude::*;

use crate::models::processor::opt_view;
use crate::models::{FilterOptions, FilterView, GeoIpInfo, GeoIpView, Proxy, ProxyType, ProxyView};
use crate::order::{
    compare_keys, key_of, lemma_lex_asymmetric, lemma_lex_irreflexive, lemma_lex_transitive,
    lemma_proxy_key_injective, lex_lt, proxy_key, proxy_key_exec, KeyOrder,
};
use crate::text::{eq_ignore_ascii_case, str_eq_ignore_ascii_case};

verus! {

/// Whether one of `countries` is `code`, taking ASCII letters regardless of case.
pub open spec fn names_country(countries: Seq<Seq<char>>, code: Seq<char>) -> bool {
    exists|i: int| 0 <= i < countries.len() && #[trigger] eq_ignore_ascii_case(countries[i], code)
}

/// Whether the country is one of `countries`, or is in the EU and `countries` names `EU`;
/// country codes match regardless of ASCII case.
pub open spec fn in_countries(geoip: Option<GeoIpView>, countries: Seq<Seq<char>>) -> bool {
    match geoip {
        Some(g) => names_country(countries, g.iso_code) || (g.is_in_eu && names_country(countries, "EU"@)),
        None => false,
    }
}

/// Whether the filters ask for countries, so that proxies need their country.
pub open spec fn wants_geoip(f: FilterView) -> bool {
    f.include_countries is Some || f.exclude_countries is Some
}

/// The proxy with the country looked up for it, where the filters need one and it has none.
pub open spec fn with_geoip(p: ProxyView, f: FilterView, looked_up: Option<GeoIpView>) -> ProxyView {
    if wants_geoip(f) && p.geoip is None {
        ProxyView { geoip: looked_up, ..p }
    } else {
        p
    }
}

/// Whether the filters keep the proxy: its type is allowed, its country is included, and it
/// has a country that is not excluded.
#[verifier::opaque]
pub open spec fn keeps(f: FilterView, p: ProxyView) -> bool {
    &&& match f.proxy_types {
        Some(ts) => ts.contains(p.proxy_type),
        None => true,
    }
    &&& match f.include_countries {
        Some(cs) => in_countries(p.geoip, cs),
        None => true,
    }
    &&& match f.exclude_countries {
        Some(cs) => p.geoip is Some && !in_countries(p.geoip, cs),
        None => true,
    }
}

/// The `j`th proxy as it is filtered: with its looked-up country where it needs one.
#[verifier::opaque]
pub open spec fn candidate(ps: Seq<Proxy>, gs: Seq<Option<GeoIpInfo>>, f: FilterView, j: int) -> ProxyView {
    with_geoip(ps[j]@, f, opt_view(gs[j]))
}

/// Keys strictly increasing along the list, so that no proxy occurs twice.
pub open spec fn strictly_ordered(items: Seq<Proxy>) -> bool {
    forall|i: int, k: int| 0 <= i < k < items.len() ==> lex_lt(proxy_key(#[trigger] items[i]@), proxy_key(#[trigger] items[k]@))
}

fn names_country_exec(items: &Vec<String>, code: &str) -> (r: bool)
    ensures
        r == names_country(items.deep_view(), code@),
{
    let mut i: usize = 0;
    while i < items.len()
        invariant
            i <= items.len(),
            forall|j: int| 0 <= j < i ==> !eq_ignore_ascii_case(#[trigger] items.deep_view()[j], code@),
        decreases items.len() - i,
    {
        if str_eq_ignore_ascii_case(items[i].as_str(), code) {
            proof {
                assert(items.deep_view()[i as int] == items@[i as int]@);
                assert(eq_ignore_ascii_case(items.deep_view()[i as int], code@));
            }
            return true;
        }
        proof {
            assert(items.deep_view()[i as int] == items@[i as int]@);
        }
        i = i + 1;
    }
    false
}

fn contains_type(items: &Vec<ProxyType>, t: ProxyType) -> (r: bool)
    ensures
        r == items@.contains(t),
{
    let mut i: usize = 0;
    while i < items.len()
        invariant
            i <= items.len(),
            forall|j: int| 0 <= j < i ==> items@[j] != t,
        decreases items.len() - i,
    {
        if items[i] == t {
            proof {
                assert(items@[i as int] == t);
            }
            return true;
        }
        i = i + 1;
    }
    false
}

/// Whether the proxy's country is one of `countries` (or in the EU, where `countries` names
/// `EU`), with codes compared regardless of ASCII case; never where it has no country.
pub fn is_proxy_in_countries(geoip: &Option<GeoIpInfo>, countries: &Vec<String>) -> (r: bool)
    ensures
        r == in_countries(opt_view(*geoip), countries.deep_view()),
{
    match geoip {
        Some(g) => names_country_exec(countries, g.iso_code.as_str()) || (g.is_in_eu
            && names_country_exec(countries, "EU")),
        None => false,
    }
}

/// Whether the proxy's country must be looked up before filtering: the filters ask for
/// countries and the proxy has none yet.
pub fn needs_geoip(filter_options: &FilterOptions, proxy: &Proxy) -> (r: bool)
    ensures
        r == (wants_geoip(filter_options@) && proxy@.geoip is None),
{
    (filter_options.include_countries.is_some() || filter_options.exclude_countries.is_some())
        && proxy.geoip.is_none()
}

/// Whether the filters keep the proxy.
pub fn passes_filters(filter_options: &FilterOptions, proxy: &Proxy) -> (r: bool)
    ensures
        r == keeps(filter_options@, proxy@),
{
    let type_ok = match &filter_options.proxy_types {
        Some(ts) => contains_type(ts, proxy.proxy_type),
        None => true,
    };
    let include_ok = match &filter_options.include_countries {
        Some(cs) => is_proxy_in_countries(&proxy.geoip, cs),
        None => true,
    };
    let exclude_ok = match &filter_options.exclude_countries {
        Some(cs) => proxy.geoip.is_some() && !is_proxy_in_countries(&proxy.geoip, cs),
        None => true,
    };
    proof {
        reveal(keeps);
    }
    type_ok && include_ok && exclude_ok
}


/// `x` is one of `s[lo..]`.
#[verifier::opaque]
pub open spec fn listed_from<A>(s: Seq<A>, lo: int, x: A) -> bool {
    exists|j: int| lo <= j < s.len() && s[j] == x
}

pub open spec fn views(s: Seq<Proxy>) -> Seq<ProxyView> {
    s.map_values(|p: Proxy| p@)
}

/// Puts `p` into the ordered list unless an equal proxy is already there.
fn insert_ordered(keys: &mut Vec<Vec<u32>>, items: &mut Vec<Proxy>, p: Proxy)
    requires
        old(keys)@.len() == old(items)@.len(),
        forall|i: int| 0 <= i < old(items)@.len() ==> key_of(#[trigger] old(keys)@[i]@) == proxy_key(old(items)@[i]@),
        strictly_ordered(old(items)@),
    ensures
        final(keys)@.len() == final(items)@.len(),
        forall|i: int| 0 <= i < final(items)@.len() ==> key_of(#[trigger] final(keys)@[i]@) == proxy_key(final(items)@[i]@),
        strictly_ordered(final(items)@),
        forall|i: int| 0 <= i < final(items)@.len() ==> #[trigger] views(final(items)@)[i] == p@
            || listed_from(views(old(items)@), 0, views(final(items)@)[i]),
        listed_from(views(final(items)@), 0, p@),
        forall|k: int| 0 <= k < old(items)@.len() ==> listed_from(views(final(items)@), 0, #[trigger] views(old(items)@)[k]),
{
    reveal(listed_from);
    let key = proxy_key_exec(&p);
    let ghost kx = proxy_key(p@);
    let n = items.len();
    let mut pos: usize = 0;
    while pos < n && matches!(compare_keys(&keys[pos], &key), KeyOrder::Less)
        invariant
            n == items@.len(),
            n == keys@.len(),
            pos <= n,
            key_of(key@) == kx,
            forall|i: int| 0 <= i < n ==> key_of(#[trigger] keys@[i]@) == proxy_key(items@[i]@),
            forall|i: int| 0 <= i < pos ==> lex_lt(proxy_key(#[trigger] items@[i]@), kx),
        decreases n - pos,
    {
        pos = pos + 1;
    }
    let ghost old_items = items@;
    let ghost ov = views(old_items);
    if pos < n {
        match compare_keys(&keys[pos], &key) {
            KeyOrder::Equal => {
                proof {
                    lemma_proxy_key_injective(items@[pos as int]@, p@);
                    assert(ov[pos as int] == p@);
                    assert forall|k: int| 0 <= k < old_items.len() implies listed_from(ov, 0, #[trigger] ov[k]) by {
                        assert(ov[k] == ov[k]);
                    }
                }
                return;
            },
            _ => {},
        }
    }
    proof {
        // Everything from `pos` on comes after `p`.
        assert forall|i: int| pos <= i < n implies lex_lt(kx, proxy_key(#[trigger] old_items[i]@)) by {
            assert(lex_lt(kx, proxy_key(old_items[pos as int]@)));
            if i > pos {
                lemma_lex_transitive(kx, proxy_key(old_items[pos as int]@), proxy_key(old_items[i]@));
            }
        }
    }
    keys.insert(pos, key);
    items.insert(pos, p);
    proof {
        let ni = items@;
        let nv = views(ni);
        assert(ni =~= old_items.insert(pos as int, p));
        assert forall|i: int, k: int| 0 <= i < k < ni.len() implies lex_lt(proxy_key(#[trigger] ni[i]@), proxy_key(#[trigger] ni[k]@)) by {
            if k < pos {
                assert(ni[i] == old_items[i] && ni[k] == old_items[k]);
            } else if k == pos {
                assert(ni[i] == old_items[i]);
            } else if i == pos {
                assert(ni[k] == old_items[k - 1]);
            } else if i < pos {
                assert(ni[i] == old_items[i] && ni[k] == old_items[k - 1]);
                lemma_lex_transitive(proxy_key(ni[i]@), kx, proxy_key(ni[k]@));
            } else {
                assert(ni[i] == old_items[i - 1] && ni[k] == old_items[k - 1]);
            }
        }
        assert forall|i: int| 0 <= i < ni.len() implies #[trigger] nv[i] == p@ || listed_from(ov, 0, nv[i]) by {
            if i < pos {
                assert(ov[i] == nv[i]);
            } else if i > pos {
                assert(ov[i - 1] == nv[i]);
            }
        }
        assert(nv[pos as int] == p@);
        assert forall|k: int| 0 <= k < old_items.len() implies listed_from(nv, 0, #[trigger] ov[k]) by {
            if k < pos {
                assert(nv[k] == ov[k]);
            } else {
                assert(nv[k + 1] == ov[k]);
            }
        }
    }
}

/// Every listed item passes `keep` and is one of `cands[lo..]`.
pub open spec fn drawn_from<A>(items: Seq<A>, cands: Seq<A>, keep: spec_fn(A) -> bool, lo: int) -> bool {
    forall|i: int| 0 <= i < items.len() ==> keep(#[trigger] items[i]) && listed_from(cands, lo, items[i])
}

/// Every one of `cands[lo..]` that passes `keep` is listed.
pub open spec fn covers<A>(items: Seq<A>, cands: Seq<A>, keep: spec_fn(A) -> bool, lo: int) -> bool {
    forall|j: int| lo <= j < cands.len() && keep(#[trigger] cands[j]) ==> listed_from(items, 0, cands[j])
}

proof fn lemma_skip_candidate<A>(items: Seq<A>, cands: Seq<A>, keep: spec_fn(A) -> bool, k: int)
    requires
        0 <= k < cands.len(),
        drawn_from(items, cands, keep, k + 1),
        covers(items, cands, keep, k + 1),
        !keep(cands[k]),
    ensures
        drawn_from(items, cands, keep, k),
        covers(items, cands, keep, k),
{
    reveal(listed_from);
    assert forall|i: int| 0 <= i < items.len() implies keep(#[trigger] items[i]) && listed_from(cands, k, items[i]) by {
        let j = choose|j: int| k + 1 <= j < cands.len() && cands[j] == items[i];
    }
}

proof fn lemma_add_candidate<A>(before: Seq<A>, after: Seq<A>, cands: Seq<A>, keep: spec_fn(A) -> bool, k: int)
    requires
        0 <= k < cands.len(),
        drawn_from(before, cands, keep, k + 1),
        covers(before, cands, keep, k + 1),
        keep(cands[k]),
        forall|i: int| 0 <= i < after.len() ==> #[trigger] after[i] == cands[k] || listed_from(before, 0, after[i]),
        listed_from(after, 0, cands[k]),
        forall|m: int| 0 <= m < before.len() ==> listed_from(after, 0, #[trigger] before[m]),
    ensures
        drawn_from(after, cands, keep, k),
        covers(after, cands, keep, k),
{
    assert forall|i: int| 0 <= i < after.len() implies keep(#[trigger] after[i]) && listed_from(cands, k, after[i]) by {
        reveal(listed_from);
        if after[i] != cands[k] {
            let m = choose|m: int| 0 <= m < before.len() && before[m] == after[i];
            assert(keep(before[m]) && listed_from(cands, k + 1, before[m]));
            let j = choose|j: int| k + 1 <= j < cands.len() && cands[j] == before[m];
        }
    }
    assert forall|j: int| k <= j < cands.len() && keep(#[trigger] cands[j]) implies listed_from(after, 0, cands[j]) by {
        if j > k {
            assert(listed_from(before, 0, cands[j]));
            reveal(listed_from);
            let m = choose|m: int| 0 <= m < before.len() && before[m] == cands[j];
            assert(listed_from(after, 0, before[m]));
        }
    }
}

pub open spec fn candidates(ps: Seq<Proxy>, gs: Seq<Option<GeoIpInfo>>, f: FilterView) -> Seq<ProxyView> {
    Seq::new(ps.len(), |j: int| candidate(ps, gs, f, j))
}

pub open spec fn keeper(f: FilterView) -> spec_fn(ProxyView) -> bool {
    |v: ProxyView| keeps(f, v)
}

/// Gives the proxies their looked-up countries where the filters need them (`geoip[j]` is
/// the country looked up for `proxies[j]`), keeps those that pass the filters, and lists them
/// in order without repeats.
pub fn process_and_filter(proxies: Vec<Proxy>, filter_options: &FilterOptions, geoip: Vec<Option<GeoIpInfo>>) -> (r: Vec<Proxy>)
    requires
        proxies@.len() == geoip@.len(),
    ensures
        strictly_ordered(r@),
        forall|i: int| 0 <= i < r@.len() ==> keeps(filter_options@, #[trigger] r@[i]@) && listed_from(
            candidates(proxies@, geoip@, filter_options@), 0, r@[i]@),
        forall|j: int| 0 <= j < proxies@.len() && keeps(filter_options@, #[trigger] candidate(proxies@, geoip@, filter_options@, j))
            ==> listed_from(views(r@), 0, candidate(proxies@, geoip@, filter_options@, j)),
{
    let ghost ps = proxies@;
    let ghost gs = geoip@;
    let ghost f = filter_options@;
    let n = proxies.len();
    let mut rest = proxies;
    let mut looked_up = geoip;
    let mut keys: Vec<Vec<u32>> = Vec::new();
    let mut items: Vec<Proxy> = Vec::new();
    proof {
        assert(ps.take(n as int) =~= ps);
        assert(gs.take(n as int) =~= gs);
    }
    while rest.len() > 0
        invariant
            rest@.len() == looked_up@.len(),
            rest@.len() <= n,
            n == ps.len(),
            n == gs.len(),
            f == filter_options@,
            rest@ == ps.take(rest@.len() as int),
            looked_up@ == gs.take(rest@.len() as int),
            keys@.len() == items@.len(),
            forall|i: int| 0 <= i < items@.len() ==> key_of(#[trigger] keys@[i]@) == proxy_key(items@[i]@),
            strictly_ordered(items@),
            drawn_from(views(items@), candidates(ps, gs, f), keeper(f), rest@.len() as int),
            covers(views(items@), candidates(ps, gs, f), keeper(f), rest@.len() as int),
        decreases rest@.len(),
    {
        let ghost k = (rest@.len() - 1) as int;
        let mut p = rest.pop().unwrap();
        let g = looked_up.pop().unwrap();
        proof {
            assert(p == ps[k]);
            assert(g == gs[k]);
            assert(rest@ =~= ps.take(k));
            assert(looked_up@ =~= gs.take(k));
        }
        if needs_geoip(filter_options, &p) {
            p.geoip = g;
        }
        proof {
            reveal(candidate);
            assert(p@ == candidate(ps, gs, f, k));
            assert(candidates(ps, gs, f)[k] == p@);
        }
        if passes_filters(filter_options, &p) {
            let ghost before = items@;
            insert_ordered(&mut keys, &mut items, p);
            proof {
                lemma_add_candidate(views(before), views(items@), candidates(ps, gs, f), keeper(f), k);
            }
        } else {
            proof {
                assert(!keeper(f)(candidates(ps, gs, f)[k]));
                lemma_skip_candidate(views(items@), candidates(ps, gs, f), keeper(f), k);
            }
        }
    }
    proof {
        let iv = views(items@);
        let cs = candidates(ps, gs, f);
        assert forall|i: int| 0 <= i < items@.len() implies keeps(f, #[trigger] items@[i]@) && listed_from(cs, 0, items@[i]@) by {
            assert(iv[i] == items@[i]@);
            assert(keeper(f)(iv[i]));
        }
        assert forall|j: int| 0 <= j < ps.len() && keeps(f, #[trigger] candidate(ps, gs, f, j))
            implies listed_from(iv, 0, candidate(ps, gs, f, j)) by {
            assert(cs[j] == candidate(ps, gs, f, j));
            assert(keeper(f)(cs[j]));
        }
    }
    items
}


/// The countries to keep: those not marked with a leading `!`.
pub open spec fn included_countries(cs: Seq<Seq<char>>) -> Seq<Seq<char>> {
    cs.filter(|c: Seq<char>| !(c.len() > 0 && c[0] == '!'))
}

/// The countries to drop: those marked with a leading `!`, without the mark.
pub open spec fn excluded_countries(cs: Seq<Seq<char>>) -> Seq<Seq<char>> {
    cs.filter(|c: Seq<char>| c.len() > 0 && c[0] == '!').map_values(|c: Seq<char>| c.drop_first())
}

pub open spec fn non_empty(s: Seq<Seq<char>>) -> Option<Seq<Seq<char>>> {
    if s.len() > 0 {
        Some(s)
    } else {
        None
    }
}

/// Splits a country list into the countries to keep and, marked with `!`, those to
/// drop; an empty side is no filter at all.
pub fn split_countries(countries: &Vec<String>) -> (r: (Option<Vec<String>>, Option<Vec<String>>))
    ensures
        r.0.deep_view() == non_empty(included_countries(countries.deep_view())),
        r.1.deep_view() == non_empty(excluded_countries(countries.deep_view())),
{
    let ghost cs = countries.deep_view();
    let mut kept: Vec<String> = Vec::new();
    let mut dropped: Vec<String> = Vec::new();
    let mut i: usize = 0;
    while i < countries.len()
        invariant
            cs == countries.deep_view(),
            i <= countries.len(),
            kept.deep_view() == included_countries(cs.take(i as int)),
            dropped.deep_view() == excluded_countries(cs.take(i as int)),
        decreases countries.len() - i,
    {
        let c = countries[i].as_str();
        let ghost ci = cs[i as int];
        proof {
            assert(cs.take(i + 1) =~= cs.take(i as int).push(ci));
            reveal_with_fuel(Seq::filter, 1);
            assert(cs.take(i + 1).drop_last() =~= cs.take(i as int));
        }
        let marked = c.unicode_len() > 0 && c.get_char(0) == '!';
        if marked {
            let n = c.unicode_len();
            let stripped = c.substring_char(1, n).to_owned();
            let ghost before = dropped.deep_view();
            dropped.push(stripped);
            proof {
                assert(stripped@ =~= ci.drop_first());
                assert(dropped.deep_view() =~= before.push(ci.drop_first()));
                assert(excluded_countries(cs.take(i + 1)) =~= excluded_countries(cs.take(i as int)).push(ci.drop_first()));
                assert(included_countries(cs.take(i + 1)) =~= included_countries(cs.take(i as int)));
            }
        } else {
            let ghost before = kept.deep_view();
            kept.push(c.to_owned());
            proof {
                assert(kept.deep_view() =~= before.push(ci));
                assert(included_countries(cs.take(i + 1)) =~= included_countries(cs.take(i as int)).push(ci));
                assert(excluded_countries(cs.take(i + 1)) =~= excluded_countries(cs.take(i as int)));
            }
        }
        i = i + 1;
    }
    proof {
        assert(cs.take(i as int) =~= cs);
    }
    let inc = if kept.len() > 0 { Some(kept) } else { None };
    let exc = if dropped.len() > 0 { Some(dropped) } else { None };
    (inc, exc)
}

} // verus!
