//! Candidate-address sourcing: Cloudflare range detection, the built-in
//! fallback list, parsing of the online best-address feed, and the ordered,
//! deduplicated, length-capped merge of candidate lists.

use crate::text::{split_char_spec, split_on_char, str_eq, trim_spec, trim_str};
use vstd::prelude::*;

verus! {

/// The most endpoints probed concurrently in a batch.
pub const MAX_ENDPOINT_CONCURRENCY: u64 = 6;

/// The most candidate addresses probed per endpoint.
pub const MAX_TEST_IPS: usize = 15;

/// `p` is a prefix of `s`.
pub open spec fn has_prefix(s: Seq<char>, p: Seq<char>) -> bool {
    p.len() <= s.len() && s.subrange(0, p.len() as int) == p
}

/// Executable prefix test matching `has_prefix`.
pub fn str_starts_with(s: &str, p: &str) -> (r: bool)
    ensures
        r == has_prefix(s@, p@),
{
    let slen = s.unicode_len();
    let plen = p.unicode_len();
    if plen > slen {
        return false;
    }
    let mut i: usize = 0;
    while i < plen
        invariant
            0 <= i <= plen,
            plen <= slen,
            slen == s@.len(),
            plen == p@.len(),
            forall|k: int| 0 <= k < i ==> s@[k] == p@[k],
        decreases plen - i,
    {
        if s.get_char(i) != p.get_char(i) {
            proof {
                assert(s@.subrange(0, plen as int)[i as int] != p@[i as int]);
            }
            return false;
        }
        i = i + 1;
    }
    proof {
        assert(s@.subrange(0, plen as int) =~= p@);
    }
    true
}

/// An address inside one of the recognized Cloudflare IPv4 ranges.
pub open spec fn is_cf_ip_spec(s: Seq<char>) -> bool {
    ||| has_prefix(s, "104.16."@)
    ||| has_prefix(s, "104.17."@)
    ||| has_prefix(s, "104.18."@)
    ||| has_prefix(s, "104.19."@)
    ||| has_prefix(s, "104.20."@)
    ||| has_prefix(s, "104.21."@)
    ||| has_prefix(s, "104.22."@)
    ||| has_prefix(s, "104.23."@)
    ||| has_prefix(s, "104.24."@)
    ||| has_prefix(s, "104.25."@)
    ||| has_prefix(s, "104.26."@)
    ||| has_prefix(s, "104.27."@)
    ||| has_prefix(s, "172.67."@)
    ||| has_prefix(s, "162.159."@)
}

/// Whether an address lies in a recognized Cloudflare range.
pub fn is_cloudflare_ip(ip: &str) -> (r: bool)
    ensures
        r == is_cf_ip_spec(ip@),
{
    str_starts_with(ip, "104.16.") || str_starts_with(ip, "104.17.") || str_starts_with(
        ip,
        "104.18.",
    ) || str_starts_with(ip, "104.19.") || str_starts_with(ip, "104.20.") || str_starts_with(
        ip,
        "104.21.",
    ) || str_starts_with(ip, "104.22.") || str_starts_with(ip, "104.23.") || str_starts_with(
        ip,
        "104.24.",
    ) || str_starts_with(ip, "104.25.") || str_starts_with(ip, "104.26.") || str_starts_with(
        ip,
        "104.27.",
    ) || str_starts_with(ip, "172.67.") || str_starts_with(ip, "162.159.")
}

/// The recognized Cloudflare range prefixes, for inspection.
pub fn cf_ranges() -> (r: Vec<String>)
    ensures
        r.deep_view() =~= seq![
            "104.16."@, "104.17."@, "104.18."@, "104.19."@, "104.20."@, "104.21."@, "104.22."@,
            "104.23."@, "104.24."@, "104.25."@, "104.26."@, "104.27."@, "172.67."@, "162.159."@,
        ],
        r.len() == 14,
{
    let mut v: Vec<String> = Vec::new();
    v.push("104.16.".to_owned());
    v.push("104.17.".to_owned());
    v.push("104.18.".to_owned());
    v.push("104.19.".to_owned());
    v.push("104.20.".to_owned());
    v.push("104.21.".to_owned());
    v.push("104.22.".to_owned());
    v.push("104.23.".to_owned());
    v.push("104.24.".to_owned());
    v.push("104.25.".to_owned());
    v.push("104.26.".to_owned());
    v.push("104.27.".to_owned());
    v.push("172.67.".to_owned());
    v.push("162.159.".to_owned());
    v
}

/// The built-in fallback list of well-known Cloudflare addresses, used when
/// the online feed cannot be fetched.
pub fn default_cf_ips() -> (r: Vec<String>)
    ensures
        r.deep_view() =~= seq![
            "104.16.0.1"@, "104.17.0.1"@, "104.18.0.1"@, "104.19.0.1"@, "104.20.0.1"@,
            "104.21.0.1"@, "104.22.0.1"@, "104.23.0.1"@, "172.67.0.1"@, "172.67.100.1"@,
            "162.159.0.1"@,
        ],
        r.len() == 11,
{
    let mut v: Vec<String> = Vec::new();
    v.push("104.16.0.1".to_owned());
    v.push("104.17.0.1".to_owned());
    v.push("104.18.0.1".to_owned());
    v.push("104.19.0.1".to_owned());
    v.push("104.20.0.1".to_owned());
    v.push("104.21.0.1".to_owned());
    v.push("104.22.0.1".to_owned());
    v.push("104.23.0.1".to_owned());
    v.push("172.67.0.1".to_owned());
    v.push("172.67.100.1".to_owned());
    v.push("162.159.0.1".to_owned());
    v
}

/// The first occurrences of the values in `src`, in order.
pub open spec fn dedup_spec(src: Seq<Seq<char>>) -> Seq<Seq<char>>
    decreases src.len(),
{
    if src.len() == 0 {
        Seq::empty()
    } else {
        let p = dedup_spec(src.drop_last());
        if p.contains(src.last()) {
            p
        } else {
            p.push(src.last())
        }
    }
}

/// At most the first `n` values of `s`.
pub open spec fn take_at_most(s: Seq<Seq<char>>, n: int) -> Seq<Seq<char>> {
    if n <= s.len() {
        s.take(n)
    } else {
        s
    }
}

/// Deduplicated sequences hold no repeated value.
pub proof fn lemma_dedup_distinct(src: Seq<Seq<char>>)
    ensures
        forall|i: int, j: int|
            0 <= i < j < dedup_spec(src).len() ==> #[trigger] dedup_spec(src)[i]
                != #[trigger] dedup_spec(src)[j],
        forall|i: int|
            0 <= i < dedup_spec(src).len() ==> src.contains(#[trigger] dedup_spec(src)[i]),
    decreases src.len(),
{
    if src.len() > 0 {
        let p = dedup_spec(src.drop_last());
        lemma_dedup_distinct(src.drop_last());
        let r = dedup_spec(src);
        assert forall|i: int| 0 <= i < r.len() implies src.contains(#[trigger] r[i]) by {
            if i < p.len() {
                assert(src.drop_last().contains(p[i]));
                let w = choose|w: int| 0 <= w < src.drop_last().len() && src.drop_last()[w] == p[i];
                assert(src[w] == p[i]);
            } else {
                assert(r[i] == src.last());
                assert(src[src.len() - 1] == src.last());
            }
        }
        if !p.contains(src.last()) {
            assert forall|i: int, j: int| 0 <= i < j < r.len() implies #[trigger] r[i]
                != #[trigger] r[j] by {
                if j < p.len() {
                } else {
                    assert(r[j] == src.last());
                    assert(r[i] == p[i]);
                    assert(!p.contains(src.last()));
                }
            }
        }
    }
}

/// Merges two candidate lists: the first list keeps priority, duplicates
/// are dropped on first-occurrence order, and the result is capped.
pub fn merge_candidate_ips(first: Vec<String>, second: &Vec<String>, limit: usize) -> (r: Vec<
    String,
>)
    requires
        first.len() + second.len() <= usize::MAX,
    ensures
        r.deep_view() == take_at_most(dedup_spec(first.deep_view() + second.deep_view()),
            limit as int),
        r.len() <= limit,
        forall|i: int, j: int|
            0 <= i < j < r.deep_view().len() ==> #[trigger] r.deep_view()[i]
                != #[trigger] r.deep_view()[j],
{
    let ghost combined = first.deep_view() + second.deep_view();
    let mut out: Vec<String> = Vec::new();
    let fl = first.len();
    let total = fl + second.len();
    let mut k: usize = 0;
    proof {
        assert(combined.take(0) =~= Seq::<Seq<char>>::empty());
        assert(out.deep_view() =~= take_at_most(dedup_spec(combined.take(0)), limit as int));
    }
    while k < total
        invariant
            0 <= k <= total,
            fl == first.len(),
            total == fl + second.len(),
            combined == first.deep_view() + second.deep_view(),
            combined.len() == total,
            out.deep_view() == take_at_most(dedup_spec(combined.take(k as int)), limit as int),
            out.len() <= limit,
            out.len() < limit ==> out.deep_view() == dedup_spec(combined.take(k as int)),
        decreases total - k,
    {
        let item: &String = if k < fl {
            &first[k]
        } else {
            &second[k - fl]
        };
        proof {
            assert(item@ == combined[k as int]);
            assert(combined.take(k as int + 1).drop_last() =~= combined.take(k as int));
            assert(combined.take(k as int + 1).last() == combined[k as int]);
        }
        let ghost p = dedup_spec(combined.take(k as int));
        if out.len() < limit {
            let mut dup = false;
            let mut j: usize = 0;
            while j < out.len()
                invariant
                    0 <= j <= out.len(),
                    out.deep_view() == p,
                    dup ==> p.contains(item@),
                    !dup ==> forall|w: int| 0 <= w < j ==> p[w] != item@,
                decreases out.len() - j,
            {
                proof {
                    assert(out@[j as int]@ == p[j as int]);
                }
                if str_eq(out[j].as_str(), item.as_str()) {
                    dup = true;
                    proof {
                        assert(p[j as int] == item@);
                    }
                    j = out.len();
                } else {
                    j = j + 1;
                }
            }
            if !dup {
                proof {
                    assert(!p.contains(item@)) by {
                        if p.contains(item@) {
                            let w = choose|w: int| 0 <= w < p.len() && p[w] == item@;
                        }
                    }
                }
                let ghost out0 = out.deep_view();
                out.push(item.clone());
                proof {
                    assert(out.deep_view() =~= out0.push(item@));
                    assert(dedup_spec(combined.take(k as int + 1)) == p.push(item@));
                    assert(out.deep_view() == take_at_most(
                        dedup_spec(combined.take(k as int + 1)),
                        limit as int,
                    )) by {
                        if p.push(item@).len() <= limit {
                            assert(take_at_most(p.push(item@), limit as int) =~= p.push(item@));
                        }
                    }
                }
            } else {
                proof {
                    assert(dedup_spec(combined.take(k as int + 1)) == p);
                }
            }
        } else {
            proof {
                let p2 = dedup_spec(combined.take(k as int + 1));
                assert(p2 == p || p2 == p.push(combined[k as int]));
                assert(take_at_most(p2, limit as int) =~= take_at_most(p, limit as int)) by {
                    assert(p.len() >= limit);
                    if p2 == p.push(combined[k as int]) {
                        assert(p2.take(limit as int) =~= p.take(limit as int));
                    }
                }
            }
        }
        k = k + 1;
    }
    proof {
        assert(combined.take(total as int) =~= combined);
        lemma_dedup_distinct(combined);
        let dv = out.deep_view();
        let full = dedup_spec(combined);
        assert forall|i: int, j: int| 0 <= i < j < dv.len() implies #[trigger] dv[i]
            != #[trigger] dv[j] by {
            assert(dv[i] == full[i] && dv[j] == full[j]);
        }
    }
    out
}

/// One piece of the online feed after splitting on every separator, then
/// trimming; kept if it is nonempty and is not a comment.
pub open spec fn kept_entry(p: Seq<char>) -> Seq<Seq<char>> {
    let t = trim_spec(p);
    if t.len() > 0 && t[0] != '#' {
        seq![t]
    } else {
        Seq::empty()
    }
}

/// Splits every piece on a further separator, keeping piece order.
pub open spec fn split_all(ps: Seq<Seq<char>>, sep: char) -> Seq<Seq<char>>
    decreases ps.len(),
{
    if ps.len() == 0 {
        Seq::empty()
    } else {
        split_char_spec(ps[0], sep) + split_all(ps.drop_first(), sep)
    }
}

/// The kept entries of the pieces, in order.
pub open spec fn kept_entries(ps: Seq<Seq<char>>) -> Seq<Seq<char>>
    decreases ps.len(),
{
    if ps.len() == 0 {
        Seq::empty()
    } else {
        kept_entry(ps[0]) + kept_entries(ps.drop_first())
    }
}

/// The addresses named by the online feed: the text split on commas,
/// newlines, and carriage returns, each piece trimmed, empty pieces and
/// `#`-comments dropped.
pub open spec fn cf_list_spec(s: Seq<char>) -> Seq<Seq<char>> {
    kept_entries(split_all(split_all(split_char_spec(s, ','), '\n'), '\r'))
}

/// Splits every piece of a list on one separator.
fn split_each(ps: Vec<String>, sep: char) -> (r: Vec<String>)
    ensures
        r.deep_view() == split_all(ps.deep_view(), sep),
{
    let ghost gps = ps.deep_view();
    let mut out: Vec<String> = Vec::new();
    let n = ps.len();
    let mut k: usize = 0;
    proof {
        assert(gps.skip(0) =~= gps);
        assert(out.deep_view() + split_all(gps.skip(0), sep) =~= split_all(gps, sep));
    }
    while k < n
        invariant
            0 <= k <= n,
            n == ps.len(),
            gps == ps.deep_view(),
            gps.len() == n,
            split_all(gps, sep) =~= out.deep_view() + split_all(gps.skip(k as int), sep),
        decreases n - k,
    {
        proof {
            assert(ps@[k as int]@ == gps[k as int]);
            assert(gps.skip(k as int)[0] == gps[k as int]);
            assert(gps.skip(k as int).drop_first() =~= gps.skip(k as int + 1));
        }
        let pieces = split_on_char(ps[k].as_str(), sep);
        let ghost out0 = out.deep_view();
        let pn = pieces.len();
        let mut j: usize = 0;
        while j < pn
            invariant
                0 <= j <= pn,
                pn == pieces.len(),
                out.deep_view() =~= out0 + pieces.deep_view().take(j as int),
            decreases pn - j,
        {
            proof {
                assert(pieces@[j as int]@ == pieces.deep_view()[j as int]);
                assert(pieces.deep_view().take(j as int + 1) =~= pieces.deep_view().take(
                    j as int,
                ).push(pieces.deep_view()[j as int]));
            }
            let ghost o1 = out.deep_view();
            out.push(pieces[j].clone());
            proof {
                assert(out.deep_view() =~= o1.push(pieces.deep_view()[j as int]));
            }
            j = j + 1;
        }
        proof {
            assert(pieces.deep_view().take(pn as int) =~= pieces.deep_view());
            assert(out.deep_view() =~= out0 + split_char_spec(gps[k as int], sep));
        }
        k = k + 1;
    }
    proof {
        assert(gps.skip(n as int) =~= Seq::<Seq<char>>::empty());
        assert(out.deep_view() =~= split_all(gps, sep));
    }
    out
}

/// Parses the online best-address feed into its entries.
pub fn parse_cf_ip_list(text: &str) -> (r: Vec<String>)
    ensures
        r.deep_view() == cf_list_spec(text@),
{
    let commas = split_on_char(text, ',');
    let lines = split_each(commas, '\n');
    let pieces = split_each(lines, '\r');
    let ghost gps = pieces.deep_view();
    let mut out: Vec<String> = Vec::new();
    let n = pieces.len();
    let mut k: usize = 0;
    proof {
        assert(gps.skip(0) =~= gps);
        assert(out.deep_view() + kept_entries(gps.skip(0)) =~= kept_entries(gps));
    }
    while k < n
        invariant
            0 <= k <= n,
            n == pieces.len(),
            gps == pieces.deep_view(),
            gps.len() == n,
            gps == split_all(split_all(split_char_spec(text@, ','), '\n'), '\r'),
            kept_entries(gps) =~= out.deep_view() + kept_entries(gps.skip(k as int)),
        decreases n - k,
    {
        proof {
            assert(pieces@[k as int]@ == gps[k as int]);
            assert(gps.skip(k as int)[0] == gps[k as int]);
            assert(gps.skip(k as int).drop_first() =~= gps.skip(k as int + 1));
        }
        let t = trim_str(pieces[k].as_str());
        if !t.as_str().is_empty() && t.as_str().get_char(0) != '#' {
            let ghost o1 = out.deep_view();
            out.push(t);
            proof {
                assert(out.deep_view() =~= o1.push(trim_spec(gps[k as int])));
                assert(kept_entry(gps[k as int]) == seq![trim_spec(gps[k as int])]);
                assert(o1.push(trim_spec(gps[k as int])) =~= o1 + kept_entry(gps[k as int]));
            }
        } else {
            proof {
                assert(kept_entry(gps[k as int]) =~= Seq::<Seq<char>>::empty());
            }
        }
        k = k + 1;
    }
    proof {
        assert(gps.skip(n as int) =~= Seq::<Seq<char>>::empty());
        assert(out.deep_view() =~= kept_entries(gps));
    }
    out
}

/// The list the candidate phase uses when the endpoint looks like a
/// Cloudflare host: the fetched feed if it held anything, else the built-in
/// fallback.
pub fn cf_list_or_default(fetched: Option<&String>) -> (r: Vec<String>)
    ensures
        match fetched {
            Some(text) => (if cf_list_spec(text@).len() > 0 {
                r.deep_view() == cf_list_spec(text@)
            } else {
                r.len() == 11
            }),
            None => r.len() == 11,
        },
{
    match fetched {
        Some(text) => {
            let parsed = parse_cf_ip_list(text.as_str());
            if parsed.len() > 0 {
                parsed
            } else {
                default_cf_ips()
            }
        },
        None => default_cf_ips(),
    }
}

/// The timeout budget, in seconds, for a batch over `endpoint_count`
/// endpoints: enough whole batches of the per-endpoint worst case (DNS
/// lookup, original-address probe, candidate phase) plus scheduling
/// overhead, clamped between one and three minutes.
pub open spec fn estimate_timeout_spec(endpoint_count: int) -> int {
    if endpoint_count == 0 {
        60
    } else {
        let concurrency = if endpoint_count < 6 {
            endpoint_count
        } else {
            6
        };
        let batches = (endpoint_count + concurrency - 1) / concurrency;
        let estimated = batches * (10 + 8 + 45) + 15;
        if estimated < 60 {
            60
        } else if estimated > 180 {
            180
        } else {
            estimated
        }
    }
}

/// Executable timeout estimate matching `estimate_timeout_spec`.
pub fn estimate_test_timeout(endpoint_count: usize) -> (r: u64)
    ensures
        r == estimate_timeout_spec(endpoint_count as int),
        60 <= r <= 180,
{
    if endpoint_count == 0 {
        return 60;
    }
    if endpoint_count > 12 {
        proof {
            let concurrency: int = if (endpoint_count as int) < 6 {
                endpoint_count as int
            } else {
                6
            };
            assert(concurrency == 6);
            let batches = (endpoint_count as int + 5) / 6;
            assert(batches >= 3);
            assert(batches * 63 + 15 >= 204) by (nonlinear_arith)
                requires
                    batches >= 3,
            ;
        }
        return 180;
    }
    let count = endpoint_count as u64;
    let concurrency = if count < 6 {
        count
    } else {
        6
    };
    let batches = (count + concurrency - 1) / concurrency;
    let estimated = batches * 63 + 15;
    if estimated < 60 {
        60
    } else if estimated > 180 {
        180
    } else {
        estimated
    }
}

/// The candidate list for one endpoint, by the sourcing rules: a nonempty
/// user-preferred list is used exactly as given; a Cloudflare host merges
/// the best-address list ahead of its DNS answers; any other host merges
/// its DNS answers ahead of the fan-out discoveries. Merged lists are
/// deduplicated and capped.
pub fn select_candidates(
    custom_ips: &Vec<String>,
    is_cf: bool,
    cf_ips: Vec<String>,
    dns_ips: Vec<String>,
    multi_dns_ips: &Vec<String>,
) -> (r: Vec<String>)
    requires
        cf_ips.len() + dns_ips.len() <= usize::MAX,
        dns_ips.len() + multi_dns_ips.len() <= usize::MAX,
    ensures
        custom_ips.len() > 0 ==> r.deep_view() == custom_ips.deep_view(),
        custom_ips.len() == 0 && is_cf ==> r.deep_view() == take_at_most(
            dedup_spec(cf_ips.deep_view() + dns_ips.deep_view()),
            MAX_TEST_IPS as int,
        ),
        custom_ips.len() == 0 && !is_cf ==> r.deep_view() == take_at_most(
            dedup_spec(dns_ips.deep_view() + multi_dns_ips.deep_view()),
            MAX_TEST_IPS as int,
        ),
        custom_ips.len() == 0 ==> (r.len() <= MAX_TEST_IPS && (forall|i: int, j: int|
            0 <= i < j < r.deep_view().len() ==> #[trigger] r.deep_view()[i]
                != #[trigger] r.deep_view()[j])),
{
    if custom_ips.len() > 0 {
        let mut out: Vec<String> = Vec::new();
        let n = custom_ips.len();
        let mut k: usize = 0;
        while k < n
            invariant
                0 <= k <= n,
                n == custom_ips.len(),
                out.deep_view() =~= custom_ips.deep_view().take(k as int),
            decreases n - k,
        {
            proof {
                assert(custom_ips@[k as int]@ == custom_ips.deep_view()[k as int]);
                assert(custom_ips.deep_view().take(k as int + 1) =~= custom_ips.deep_view().take(
                    k as int,
                ).push(custom_ips.deep_view()[k as int]));
            }
            let ghost o1 = out.deep_view();
            out.push(custom_ips[k].clone());
            proof {
                assert(out.deep_view() =~= o1.push(custom_ips.deep_view()[k as int]));
            }
            k = k + 1;
        }
        proof {
            assert(custom_ips.deep_view().take(n as int) =~= custom_ips.deep_view());
        }
        out
    } else if is_cf {
        merge_candidate_ips(cf_ips, &dns_ips, MAX_TEST_IPS)
    } else {
        merge_candidate_ips(dns_ips, multi_dns_ips, MAX_TEST_IPS)
    }
}

} // verus!
