//! The hosts-file model: a managed block of bindings bracketed by sentinel
//! comment lines, everything outside the block preserved verbatim. Parsing,
//! rendering, and the binding operations are specified over a ghost model
//! and proved to preserve the unmanaged content.

use crate::addr::{check_domain, check_ip, valid_domain, valid_ip};
use crate::text::{
    contains_seq, contains_str, join_lines, join_lines_exec, lemma_str_lt_transitive,
    lemma_str_lt_trichotomy, lines_spec, split_lines, split_ws, str_eq, str_lt, str_lt_exec,
    tokens_spec, trim_spec, trim_str,
};
use vstd::prelude::*;

verus! {

/// The line that opens the managed block.
pub open spec fn begin_marker() -> Seq<char> {
    "# BEGIN anyFAST"@
}

/// The line that closes the managed block.
pub open spec fn end_marker() -> Seq<char> {
    "# END anyFAST"@
}

/// The per-line sentinel appended to each managed binding, also recognized
/// in the legacy one-line-per-binding format.
pub open spec fn line_marker() -> Seq<char> {
    "# anyFAST"@
}

/// Why a hosts-file mutation was refused.
#[derive(Debug)]
pub enum HostsError {
    /// An operating-system error, carried as its message.
    Io(String),
    /// The caller may not write the hosts file.
    PermissionDenied,
    /// The address does not parse as IPv4 or IPv6.
    InvalidIp(String),
    /// The domain is empty or holds a character outside the hostname set.
    InvalidDomain(String),
}

/// Validate an IP address before it may enter the hosts file.
pub fn validate_ip(ip: &str) -> (r: Result<(), HostsError>)
    ensures
        r is Ok <==> valid_ip(ip@),
        r is Err ==> (r matches Err(HostsError::InvalidIp(s)) && s@ == ip@),
{
    if check_ip(ip) {
        Ok(())
    } else {
        Err(HostsError::InvalidIp(ip.to_owned()))
    }
}

/// Validate a domain name before it may enter the hosts file.
pub fn validate_domain(domain: &str) -> (r: Result<(), HostsError>)
    ensures
        r is Ok <==> valid_domain(domain@),
        r is Err ==> (r matches Err(HostsError::InvalidDomain(s)) && s@ == domain@),
{
    if check_domain(domain) {
        Ok(())
    } else {
        Err(HostsError::InvalidDomain(domain.to_owned()))
    }
}

/// One managed binding: a domain pinned to an address.
pub struct HostsBinding {
    pub domain: String,
    pub ip: String,
}

/// The mathematical value of a binding.
pub ghost struct BindingModel {
    pub domain: Seq<char>,
    pub ip: Seq<char>,
}

impl View for HostsBinding {
    type V = BindingModel;

    open spec fn view(&self) -> BindingModel {
        BindingModel { domain: self.domain@, ip: self.ip@ }
    }
}

/// The models of a sequence of bindings.
pub open spec fn binds_view(bs: Seq<HostsBinding>) -> Seq<BindingModel> {
    Seq::new(bs.len(), |i: int| bs[i]@)
}

/// Bindings in strictly ascending domain order (hence with unique domains).
pub open spec fn binds_sorted(bs: Seq<BindingModel>) -> bool {
    forall|i: int, j: int|
        0 <= i < j < bs.len() ==> str_lt(#[trigger] bs[i].domain, #[trigger] bs[j].domain)
}

/// The address bound to `d`, if any: the first binding whose domain is `d`.
pub open spec fn lookup_spec(bs: Seq<BindingModel>, d: Seq<char>) -> Option<Seq<char>>
    decreases bs.len(),
{
    if bs.len() == 0 {
        None
    } else if bs[0].domain == d {
        Some(bs[0].ip)
    } else {
        lookup_spec(bs.drop_first(), d)
    }
}

/// `bs` with `d` bound to `ip`: replaces the binding of `d` if present, else
/// inserts a new one at its sorted position.
pub open spec fn upsert_spec(bs: Seq<BindingModel>, d: Seq<char>, ip: Seq<char>) -> Seq<
    BindingModel,
>
    decreases bs.len(),
{
    let b = BindingModel { domain: d, ip: ip };
    if bs.len() == 0 {
        seq![b]
    } else if bs[0].domain == d {
        seq![b] + bs.drop_first()
    } else if str_lt(d, bs[0].domain) {
        seq![b] + bs
    } else {
        seq![bs[0]] + upsert_spec(bs.drop_first(), d, ip)
    }
}

/// `bs` with the first binding of `d` removed, if one exists.
pub open spec fn remove_spec(bs: Seq<BindingModel>, d: Seq<char>) -> Seq<BindingModel>
    decreases bs.len(),
{
    if bs.len() == 0 {
        bs
    } else if bs[0].domain == d {
        bs.drop_first()
    } else {
        seq![bs[0]] + remove_spec(bs.drop_first(), d)
    }
}

proof fn lemma_sorted_cons(b: BindingModel, t: Seq<BindingModel>)
    ensures
        binds_sorted(seq![b] + t) <==> (binds_sorted(t) && (forall|k: int|
            0 <= k < t.len() ==> str_lt(b.domain, (#[trigger] t[k]).domain))),
{
    let s = seq![b] + t;
    assert(s[0] == b);
    assert(forall|k: int| 0 <= k < t.len() ==> s[k + 1] == t[k]);
    if binds_sorted(s) {
        assert forall|k: int| 0 <= k < t.len() implies str_lt(
            b.domain,
            (#[trigger] t[k]).domain,
        ) by {
            assert(str_lt(s[0].domain, s[k + 1].domain));
        }
        assert forall|i: int, j: int| 0 <= i < j < t.len() implies str_lt(
            #[trigger] t[i].domain,
            #[trigger] t[j].domain,
        ) by {
            assert(str_lt(s[i + 1].domain, s[j + 1].domain));
        }
    }
    if binds_sorted(t) && (forall|k: int|
        0 <= k < t.len() ==> str_lt(b.domain, (#[trigger] t[k]).domain)) {
        assert forall|i: int, j: int| 0 <= i < j < s.len() implies str_lt(
            #[trigger] s[i].domain,
            #[trigger] s[j].domain,
        ) by {
            if i == 0 {
                assert(s[j] == t[j - 1]);
            } else {
                assert(s[i] == t[i - 1] && s[j] == t[j - 1]);
            }
        }
    }
}

/// In a sequence with no binding of `d`, lookup yields nothing.
proof fn lemma_lookup_absent(bs: Seq<BindingModel>, d: Seq<char>)
    requires
        forall|k: int| 0 <= k < bs.len() ==> (#[trigger] bs[k]).domain != d,
    ensures
        lookup_spec(bs, d) is None,
    decreases bs.len(),
{
    if bs.len() > 0 {
        let t = bs.drop_first();
        assert(forall|k: int| 0 <= k < t.len() ==> t[k] == bs[k + 1]);
        lemma_lookup_absent(t, d);
    }
}

/// What `upsert_spec` does: the bound domain reads back as the new address,
/// every other domain is untouched, and sortedness is preserved.
pub proof fn lemma_upsert_props(bs: Seq<BindingModel>, d: Seq<char>, ip: Seq<char>)
    requires
        binds_sorted(bs),
    ensures
        binds_sorted(upsert_spec(bs, d, ip)),
        lookup_spec(upsert_spec(bs, d, ip), d) == Some(ip),
        forall|d2: Seq<char>|
            d2 != d ==> #[trigger] lookup_spec(upsert_spec(bs, d, ip), d2) == lookup_spec(bs, d2),
    decreases bs.len(),
{
    let b = BindingModel { domain: d, ip: ip };
    let r = upsert_spec(bs, d, ip);
    if bs.len() == 0 {
        assert(r == seq![b]);
        assert(r.drop_first() =~= Seq::<BindingModel>::empty());
        lemma_sorted_cons(b, Seq::empty());
        assert forall|d2: Seq<char>| d2 != d implies #[trigger] lookup_spec(r, d2) == lookup_spec(
            bs,
            d2,
        ) by {
            assert(lookup_spec(r.drop_first(), d2) is None);
        }
    } else if bs[0].domain == d {
        let t = bs.drop_first();
        assert(r == seq![b] + t);
        assert(r[0] == b);
        assert(r.drop_first() =~= t);
        lemma_sorted_cons(bs[0], t);
        lemma_sorted_cons(b, t);
        assert(binds_sorted(r));
    } else if str_lt(d, bs[0].domain) {
        assert(r == seq![b] + bs);
        assert(r[0] == b);
        assert(r.drop_first() =~= bs);
        lemma_sorted_cons(b, bs);
        assert forall|k: int| 0 <= k < bs.len() implies str_lt(
            b.domain,
            (#[trigger] bs[k]).domain,
        ) by {
            if k > 0 {
                lemma_str_lt_transitive(d, bs[0].domain, bs[k].domain);
            }
        }
        assert(binds_sorted(r));
        lemma_str_lt_trichotomy(d, bs[0].domain);
    } else {
        let t = bs.drop_first();
        lemma_sorted_cons(bs[0], t);
        lemma_upsert_props(t, d, ip);
        let rt = upsert_spec(t, d, ip);
        assert(r == seq![bs[0]] + rt);
        assert(r[0] == bs[0]);
        assert(r.drop_first() =~= rt);
        lemma_str_lt_trichotomy(d, bs[0].domain);
        assert(str_lt(bs[0].domain, d));
        // Every binding of the updated tail keeps a domain above bs[0].
        assert forall|k: int| 0 <= k < rt.len() implies str_lt(
            bs[0].domain,
            (#[trigger] rt[k]).domain,
        ) by {
            lemma_upsert_membership(t, d, ip, k);
            if rt[k].domain == d {
            } else {
                let j = choose|j: int| 0 <= j < t.len() && t[j] == rt[k];
                assert(str_lt(bs[0].domain, t[j].domain));
            }
        }
        lemma_sorted_cons(bs[0], rt);
        assert(binds_sorted(r));
        assert(lookup_spec(r, d) == lookup_spec(rt, d));
        assert forall|d2: Seq<char>| d2 != d implies #[trigger] lookup_spec(r, d2) == lookup_spec(
            bs,
            d2,
        ) by {
            assert(lookup_spec(r, d2) == if bs[0].domain == d2 {
                Some(bs[0].ip)
            } else {
                lookup_spec(rt, d2)
            });
        }
    }
}

/// Every binding in the upsert result is either the new binding or one of
/// the originals.
proof fn lemma_upsert_membership(bs: Seq<BindingModel>, d: Seq<char>, ip: Seq<char>, k: int)
    requires
        0 <= k < upsert_spec(bs, d, ip).len(),
    ensures
        upsert_spec(bs, d, ip)[k].domain == d || exists|j: int|
            0 <= j < bs.len() && bs[j] == upsert_spec(bs, d, ip)[k],
    decreases bs.len(),
{
    let r = upsert_spec(bs, d, ip);
    if bs.len() == 0 {
    } else if bs[0].domain == d {
        if k > 0 {
            assert(r[k] == bs.drop_first()[k - 1]);
            assert(bs[k] == r[k]);
        }
    } else if str_lt(d, bs[0].domain) {
        if k > 0 {
            assert(r[k] == bs[k - 1]);
        }
    } else {
        if k == 0 {
            assert(r[0] == bs[0]);
        } else {
            let t = bs.drop_first();
            let rt = upsert_spec(t, d, ip);
            assert(r[k] == rt[k - 1]);
            lemma_upsert_membership(t, d, ip, k - 1);
            if rt[k - 1].domain != d {
                let j = choose|j: int| 0 <= j < t.len() && t[j] == rt[k - 1];
                assert(bs[j + 1] == rt[k - 1]);
            }
        }
    }
}

/// What `remove_spec` does: the removed domain no longer reads back, every
/// other domain is untouched, and sortedness is preserved.
pub proof fn lemma_remove_props(bs: Seq<BindingModel>, d: Seq<char>)
    requires
        binds_sorted(bs),
    ensures
        binds_sorted(remove_spec(bs, d)),
        lookup_spec(remove_spec(bs, d), d) is None,
        forall|d2: Seq<char>|
            d2 != d ==> #[trigger] lookup_spec(remove_spec(bs, d), d2) == lookup_spec(bs, d2),
        remove_spec(bs, d).len() == bs.len() - (if lookup_spec(bs, d) is Some {
            1int
        } else {
            0int
        }),
    decreases bs.len(),
{
    let r = remove_spec(bs, d);
    if bs.len() == 0 {
    } else if bs[0].domain == d {
        let t = bs.drop_first();
        lemma_sorted_cons(bs[0], t);
        assert(r == t);
        assert forall|k: int| 0 <= k < t.len() implies (#[trigger] t[k]).domain != d by {
            lemma_str_lt_trichotomy(d, t[k].domain);
        }
        lemma_lookup_absent(t, d);
    } else {
        let t = bs.drop_first();
        lemma_sorted_cons(bs[0], t);
        lemma_remove_props(t, d);
        let rt = remove_spec(t, d);
        assert(r == seq![bs[0]] + rt);
        assert(r[0] == bs[0]);
        assert(r.drop_first() =~= rt);
        assert forall|k: int| 0 <= k < rt.len() implies str_lt(
            bs[0].domain,
            (#[trigger] rt[k]).domain,
        ) by {
            lemma_remove_membership(t, d, k);
            let j = choose|j: int| 0 <= j < t.len() && t[j] == rt[k];
            assert(str_lt(bs[0].domain, t[j].domain));
        }
        lemma_sorted_cons(bs[0], rt);
        assert forall|d2: Seq<char>| d2 != d implies #[trigger] lookup_spec(r, d2) == lookup_spec(
            bs,
            d2,
        ) by {
            assert(lookup_spec(r, d2) == if bs[0].domain == d2 {
                Some(bs[0].ip)
            } else {
                lookup_spec(rt, d2)
            });
        }
    }
}

/// Every binding in the removal result is one of the originals.
proof fn lemma_remove_membership(bs: Seq<BindingModel>, d: Seq<char>, k: int)
    requires
        0 <= k < remove_spec(bs, d).len(),
    ensures
        exists|j: int| 0 <= j < bs.len() && bs[j] == remove_spec(bs, d)[k],
    decreases bs.len(),
{
    let r = remove_spec(bs, d);
    if bs.len() == 0 {
    } else if bs[0].domain == d {
        assert(bs[k + 1] == r[k]);
    } else {
        if k == 0 {
            assert(r[0] == bs[0]);
        } else {
            let t = bs.drop_first();
            let rt = remove_spec(t, d);
            assert(r[k] == rt[k - 1]);
            lemma_remove_membership(t, d, k - 1);
            let j = choose|j: int| 0 <= j < t.len() && t[j] == rt[k - 1];
            assert(bs[j + 1] == rt[k - 1]);
        }
    }
}

} // verus!

verus! {

/// Locates `upsert_spec` at the insertion index: the result is an update in
/// place when the domain is already bound, else an insertion at `i`.
proof fn lemma_upsert_at(bs: Seq<BindingModel>, d: Seq<char>, ip: Seq<char>, i: int)
    requires
        0 <= i <= bs.len(),
        forall|j: int| 0 <= j < i ==> str_lt((#[trigger] bs[j]).domain, d),
        i < bs.len() ==> !str_lt(bs[i].domain, d),
    ensures
        (i < bs.len() && bs[i].domain == d) ==> upsert_spec(bs, d, ip) =~= bs.update(
            i,
            BindingModel { domain: d, ip: ip },
        ),
        !(i < bs.len() && bs[i].domain == d) ==> upsert_spec(bs, d, ip) =~= bs.insert(
            i,
            BindingModel { domain: d, ip: ip },
        ),
    decreases i,
{
    let b = BindingModel { domain: d, ip: ip };
    if i == 0 {
        if bs.len() == 0 {
            assert(upsert_spec(bs, d, ip) == seq![b]);
            assert(bs.insert(0, b) =~= seq![b]);
        } else if bs[0].domain == d {
            assert(upsert_spec(bs, d, ip) == seq![b] + bs.drop_first());
            assert(seq![b] + bs.drop_first() =~= bs.update(0, b));
        } else {
            lemma_str_lt_trichotomy(d, bs[0].domain);
            assert(str_lt(d, bs[0].domain));
            assert(upsert_spec(bs, d, ip) == seq![b] + bs);
            assert(seq![b] + bs =~= bs.insert(0, b));
        }
    } else {
        assert(str_lt(bs[0].domain, d));
        lemma_str_lt_trichotomy(bs[0].domain, d);
        assert(bs[0].domain != d);
        assert(!str_lt(d, bs[0].domain));
        let t = bs.drop_first();
        assert(forall|j: int| 0 <= j < t.len() ==> t[j] == bs[j + 1]);
        lemma_upsert_at(t, d, ip, i - 1);
        assert(upsert_spec(bs, d, ip) == seq![bs[0]] + upsert_spec(t, d, ip));
        if i < bs.len() && bs[i].domain == d {
            assert(t[i - 1] == bs[i]);
            assert(seq![bs[0]] + t.update(i - 1, b) =~= bs.update(i, b));
        } else {
            assert(seq![bs[0]] + t.insert(i - 1, b) =~= bs.insert(i, b));
        }
    }
}

/// Locates `remove_spec` at the index of the first match, or shows it is the
/// identity when no binding matches.
proof fn lemma_remove_at(bs: Seq<BindingModel>, d: Seq<char>, i: int)
    requires
        0 <= i <= bs.len(),
        forall|j: int| 0 <= j < i ==> (#[trigger] bs[j]).domain != d,
        i < bs.len() ==> bs[i].domain == d,
    ensures
        i < bs.len() ==> remove_spec(bs, d) =~= bs.remove(i),
        i == bs.len() ==> remove_spec(bs, d) =~= bs,
    decreases i,
{
    if i == 0 {
        if bs.len() > 0 {
            assert(remove_spec(bs, d) == bs.drop_first());
            assert(bs.drop_first() =~= bs.remove(0));
        }
    } else {
        assert(bs[0].domain != d);
        let t = bs.drop_first();
        assert(forall|j: int| 0 <= j < t.len() ==> t[j] == bs[j + 1]);
        lemma_remove_at(t, d, i - 1);
        assert(remove_spec(bs, d) == seq![bs[0]] + remove_spec(t, d));
        if i < bs.len() {
            assert(t[i - 1] == bs[i]);
            assert(seq![bs[0]] + t.remove(i - 1) =~= bs.remove(i));
        } else {
            assert(seq![bs[0]] + t =~= bs);
        }
    }
}

/// Binds `domain` to `ip` in the sorted binding list.
pub fn upsert_binding(bs: &mut Vec<HostsBinding>, domain: &str, ip: &str)
    ensures
        binds_view(final(bs)@) =~= upsert_spec(binds_view(old(bs)@), domain@, ip@),
{
    let ghost gbs = binds_view(bs@);
    let n = bs.len();
    let mut i: usize = 0;
    while i < n && str_lt_exec(bs[i].domain.as_str(), domain)
        invariant
            0 <= i <= n,
            n == bs.len(),
            gbs == binds_view(bs@),
            gbs.len() == n,
            forall|j: int| 0 <= j < i ==> str_lt((#[trigger] gbs[j]).domain, domain@),
        decreases n - i,
    {
        proof {
            assert(gbs[i as int].domain == bs@[i as int].domain@);
        }
        i = i + 1;
    }
    proof {
        if i < n {
            assert(gbs[i as int].domain == bs@[i as int].domain@);
        }
        lemma_upsert_at(gbs, domain@, ip@, i as int);
    }
    let nb = HostsBinding { domain: domain.to_owned(), ip: ip.to_owned() };
    let ghost b = BindingModel { domain: domain@, ip: ip@ };
    if i < n && str_eq(bs[i].domain.as_str(), domain) {
        bs.remove(i);
        bs.insert(i, nb);
        proof {
            assert(binds_view(bs@) =~= gbs.update(i as int, b));
        }
    } else {
        bs.insert(i, nb);
        proof {
            assert(binds_view(bs@) =~= gbs.insert(i as int, b));
        }
    }
}

/// Removes the binding of `domain` from the binding list; reports whether
/// one was there.
pub fn remove_binding(bs: &mut Vec<HostsBinding>, domain: &str) -> (removed: bool)
    ensures
        binds_view(final(bs)@) =~= remove_spec(binds_view(old(bs)@), domain@),
        removed == (lookup_spec(binds_view(old(bs)@), domain@) is Some),
{
    let ghost gbs = binds_view(bs@);
    let n = bs.len();
    let mut i: usize = 0;
    while i < n && !str_eq(bs[i].domain.as_str(), domain)
        invariant
            0 <= i <= n,
            n == bs.len(),
            gbs == binds_view(bs@),
            gbs.len() == n,
            forall|j: int| 0 <= j < i ==> (#[trigger] gbs[j]).domain != domain@,
        decreases n - i,
    {
        proof {
            assert(gbs[i as int].domain == bs@[i as int].domain@);
        }
        i = i + 1;
    }
    proof {
        if i < n {
            assert(gbs[i as int].domain == bs@[i as int].domain@);
        }
        lemma_remove_at(gbs, domain@, i as int);
    }
    if i < n {
        bs.remove(i);
        proof {
            assert(binds_view(bs@) =~= gbs.remove(i as int));
            lemma_lookup_present(gbs, domain@, i as int);
        }
        true
    } else {
        proof {
            lemma_lookup_absent(gbs, domain@);
            assert(binds_view(bs@) =~= gbs);
        }
        false
    }
}

/// A first match at index `i` makes lookup succeed.
proof fn lemma_lookup_present(bs: Seq<BindingModel>, d: Seq<char>, i: int)
    requires
        0 <= i < bs.len(),
        bs[i].domain == d,
        forall|j: int| 0 <= j < i ==> (#[trigger] bs[j]).domain != d,
    ensures
        lookup_spec(bs, d) == Some(bs[i].ip),
    decreases i,
{
    if i > 0 {
        let t = bs.drop_first();
        assert(forall|j: int| 0 <= j < t.len() ==> t[j] == bs[j + 1]);
        lemma_lookup_present(t, d, i - 1);
    }
}

/// Looks up the address bound to `domain` in the binding list.
pub fn find_binding(bs: &Vec<HostsBinding>, domain: &str) -> (r: Option<String>)
    ensures
        match r {
            Some(ip) => lookup_spec(binds_view(bs@), domain@) == Some(ip@),
            None => lookup_spec(binds_view(bs@), domain@) is None,
        },
{
    let ghost gbs = binds_view(bs@);
    let n = bs.len();
    let mut i: usize = 0;
    while i < n && !str_eq(bs[i].domain.as_str(), domain)
        invariant
            0 <= i <= n,
            n == bs.len(),
            gbs == binds_view(bs@),
            gbs.len() == n,
            forall|j: int| 0 <= j < i ==> (#[trigger] gbs[j]).domain != domain@,
        decreases n - i,
    {
        proof {
            assert(gbs[i as int].domain == bs@[i as int].domain@);
        }
        i = i + 1;
    }
    if i < n {
        proof {
            assert(gbs[i as int].domain == bs@[i as int].domain@);
            lemma_lookup_present(gbs, domain@, i as int);
            assert(gbs[i as int].ip == bs@[i as int].ip@);
        }
        Some(bs[i].ip.clone())
    } else {
        proof {
            lemma_lookup_absent(gbs, domain@);
        }
        None
    }
}

} // verus!

verus! {

/// The parsed form of a hosts file: the lines before the managed block, the
/// managed bindings, and the lines after the block.
pub struct ParsedHosts {
    pub before_block: Vec<String>,
    pub after_block: Vec<String>,
    pub bindings: Vec<HostsBinding>,
}

/// The mathematical value of a parsed hosts file.
pub ghost struct HostsModel {
    pub before: Seq<Seq<char>>,
    pub after: Seq<Seq<char>>,
    pub binds: Seq<BindingModel>,
}

impl View for ParsedHosts {
    type V = HostsModel;

    open spec fn view(&self) -> HostsModel {
        HostsModel {
            before: self.before_block.deep_view(),
            after: self.after_block.deep_view(),
            binds: binds_view(self.bindings@),
        }
    }
}

/// The rendered text of one managed binding.
pub open spec fn binding_line_spec(b: BindingModel) -> Seq<char> {
    b.ip + seq!['\t'] + b.domain + seq!['\t'] + line_marker()
}

/// The rendered lines of the managed bindings, in order.
pub open spec fn binding_lines(bs: Seq<BindingModel>) -> Seq<Seq<char>> {
    Seq::new(bs.len(), |i: int| binding_line_spec(bs[i]))
}

/// The lines of the rendered hosts file: the before lines; then, if any
/// binding exists, a separating blank line when needed, the bracketed
/// managed block; then the after lines.
pub open spec fn render_lines_spec(m: HostsModel) -> Seq<Seq<char>> {
    if m.binds.len() == 0 {
        m.before + m.after
    } else {
        let pre = if m.before.len() > 0 && m.before.last().len() > 0 {
            m.before.push(Seq::<char>::empty())
        } else {
            m.before
        };
        pre + seq![begin_marker()] + binding_lines(m.binds) + seq![end_marker()] + m.after
    }
}

/// The rendered hosts file.
pub open spec fn render_spec(m: HostsModel) -> Seq<char> {
    join_lines(render_lines_spec(m))
}

/// The state accumulated while classifying lines.
pub ghost struct ParseAcc {
    pub before: Seq<Seq<char>>,
    pub after: Seq<Seq<char>>,
    pub binds: Seq<BindingModel>,
    pub in_block: bool,
    pub found: bool,
    pub raw_block: Seq<Seq<char>>,
}

/// The state before any line is read.
pub open spec fn init_acc() -> ParseAcc {
    ParseAcc {
        before: Seq::empty(),
        after: Seq::empty(),
        binds: Seq::empty(),
        in_block: false,
        found: false,
        raw_block: Seq::empty(),
    }
}

/// Classifies one line: markers toggle the block; in-block binding lines are
/// harvested (and remembered raw, in case the block is never closed); lines
/// after the block go to the after buffer; a legacy sentinel line becomes a
/// binding; everything else goes to the before buffer.
pub open spec fn parse_line_step(st: ParseAcc, line: Seq<char>) -> ParseAcc {
    let t = trim_spec(line);
    if t == begin_marker() {
        ParseAcc { in_block: true, found: true, ..st }
    } else if t == end_marker() {
        ParseAcc { in_block: false, ..st }
    } else if st.in_block {
        let st1 = if t.len() > 0 && t[0] != '#' && tokens_spec(t).len() >= 2 {
            ParseAcc { binds: upsert_spec(st.binds, tokens_spec(t)[1], tokens_spec(t)[0]), ..st }
        } else {
            st
        };
        ParseAcc { raw_block: st1.raw_block.push(line), ..st1 }
    } else if st.found {
        ParseAcc { after: st.after.push(line), ..st }
    } else if contains_seq(t, line_marker()) && t.len() > 0 && t[0] != '#' {
        if tokens_spec(t).len() >= 2 {
            ParseAcc { binds: upsert_spec(st.binds, tokens_spec(t)[1], tokens_spec(t)[0]), ..st }
        } else {
            st
        }
    } else {
        ParseAcc { before: st.before.push(line), ..st }
    }
}

/// The state after classifying all lines, from the first to the last.
pub open spec fn parse_lines_acc(lines: Seq<Seq<char>>) -> ParseAcc
    decreases lines.len(),
{
    if lines.len() == 0 {
        init_acc()
    } else {
        parse_line_step(parse_lines_acc(lines.drop_last()), lines.last())
    }
}

/// An in-block line worth preserving when the closing marker is missing:
/// anything that was not itself harvested as a binding.
pub open spec fn keep_line(line: Seq<char>) -> bool {
    let t = trim_spec(line);
    t.len() == 0 || t[0] == '#' || tokens_spec(t).len() < 2 || !valid_ip(tokens_spec(t)[0])
}

/// The in-block lines preserved by unclosed-block recovery, in order.
pub open spec fn kept_lines(raw: Seq<Seq<char>>) -> Seq<Seq<char>>
    decreases raw.len(),
{
    if raw.len() == 0 {
        raw
    } else {
        kept_lines(raw.drop_last()) + if keep_line(raw.last()) {
            seq![raw.last()]
        } else {
            Seq::<Seq<char>>::empty()
        }
    }
}

/// Closes the parse: if the block never ended, the unharvested in-block
/// lines are appended to the after buffer so a rewrite cannot lose them.
pub open spec fn finish_acc(st: ParseAcc) -> HostsModel {
    HostsModel {
        before: st.before,
        after: if st.in_block {
            st.after + kept_lines(st.raw_block)
        } else {
            st.after
        },
        binds: st.binds,
    }
}

/// A leading byte-order mark is ignored for parsing.
pub open spec fn strip_bom_spec(s: Seq<char>) -> Seq<char> {
    if s.len() > 0 && s[0] == '\u{feff}' {
        s.drop_first()
    } else {
        s
    }
}

/// The model a hosts file parses to.
pub open spec fn parse_spec(content: Seq<char>) -> HostsModel {
    finish_acc(parse_lines_acc(lines_spec(strip_bom_spec(content))))
}

impl ParsedHosts {
    /// Parses hosts-file text into its model.
    pub fn parse(content: &str) -> (r: ParsedHosts)
        ensures
            r@ == parse_spec(content@),
    {
        let clen = content.unicode_len();
        let stripped: &str = if clen > 0 && content.get_char(0) == '\u{feff}' {
            content.substring_char(1, clen)
        } else {
            content
        };
        proof {
            assert(stripped@ =~= strip_bom_spec(content@));
        }
        let lines = split_lines(stripped);
        let ghost dv = lines.deep_view();
        let n = lines.len();

        let mut before_block: Vec<String> = Vec::new();
        let mut after_block: Vec<String> = Vec::new();
        let mut bindings: Vec<HostsBinding> = Vec::new();
        let mut raw_block: Vec<String> = Vec::new();
        let mut in_block = false;
        let mut found = false;

        let mut k: usize = 0;
        proof {
            assert(dv.take(0) =~= Seq::<Seq<char>>::empty());
        }
        while k < n
            invariant
                0 <= k <= n,
                n == lines.len(),
                dv == lines.deep_view(),
                ({
                    let acc = parse_lines_acc(dv.take(k as int));
                    &&& before_block.deep_view() == acc.before
                    &&& after_block.deep_view() == acc.after
                    &&& binds_view(bindings@) == acc.binds
                    &&& raw_block.deep_view() == acc.raw_block
                    &&& in_block == acc.in_block
                    &&& found == acc.found
                }),
            decreases n - k,
        {
            let ghost acc = parse_lines_acc(dv.take(k as int));
            proof {
                assert(dv.take(k as int + 1).drop_last() =~= dv.take(k as int));
                assert(dv.take(k as int + 1).last() == dv[k as int]);
                assert(lines@[k as int]@ == dv[k as int]);
            }
            let line: &String = &lines[k];
            let trimmed = trim_str(line.as_str());
            let ghost t = trim_spec(dv[k as int]);
            if str_eq(trimmed.as_str(), "# BEGIN anyFAST") {
                in_block = true;
                found = true;
            } else if str_eq(trimmed.as_str(), "# END anyFAST") {
                in_block = false;
            } else if in_block {
                let nonempty = !trimmed.as_str().is_empty();
                if nonempty && trimmed.as_str().get_char(0) != '#' {
                    let toks = split_ws(trimmed.as_str());
                    if toks.len() >= 2 {
                        proof {
                            assert(toks@[1]@ == tokens_spec(t)[1]);
                            assert(toks@[0]@ == tokens_spec(t)[0]);
                        }
                        upsert_binding(&mut bindings, toks[1].as_str(), toks[0].as_str());
                    }
                }
                raw_block.push(line.clone());
                proof {
                    let acc2 = parse_lines_acc(dv.take(k as int + 1));
                    assert(raw_block.deep_view() =~= acc2.raw_block);
                    assert(binds_view(bindings@) =~= acc2.binds);
                }
            } else if found {
                after_block.push(line.clone());
                proof {
                    assert(after_block.deep_view() =~= parse_lines_acc(
                        dv.take(k as int + 1),
                    ).after);
                }
            } else if contains_str(trimmed.as_str(), "# anyFAST") && !trimmed.as_str().is_empty()
                && trimmed.as_str().get_char(0) != '#' {
                let toks = split_ws(trimmed.as_str());
                if toks.len() >= 2 {
                    proof {
                        assert(toks@[1]@ == tokens_spec(t)[1]);
                        assert(toks@[0]@ == tokens_spec(t)[0]);
                    }
                    upsert_binding(&mut bindings, toks[1].as_str(), toks[0].as_str());
                    proof {
                        assert(binds_view(bindings@) =~= parse_lines_acc(
                            dv.take(k as int + 1),
                        ).binds);
                    }
                }
            } else {
                before_block.push(line.clone());
                proof {
                    assert(before_block.deep_view() =~= parse_lines_acc(
                        dv.take(k as int + 1),
                    ).before);
                }
            }
            k = k + 1;
        }
        proof {
            assert(dv.take(n as int) =~= dv);
        }
        let ghost acc = parse_lines_acc(dv);

        // Unclosed-block recovery: preserve in-block lines that were not
        // harvested as bindings.
        if in_block {
            let rn = raw_block.len();
            let ghost rdv = raw_block.deep_view();
            let mut j: usize = 0;
            proof {
                assert(rdv.take(0) =~= Seq::<Seq<char>>::empty());
                assert(after_block.deep_view() + kept_lines(rdv.take(0)) =~=
                    after_block.deep_view());
            }
            let ghost after0 = after_block.deep_view();
            while j < rn
                invariant
                    0 <= j <= rn,
                    rn == raw_block.len(),
                    rdv == raw_block.deep_view(),
                    after_block.deep_view() =~= after0 + kept_lines(rdv.take(j as int)),
                decreases rn - j,
            {
                proof {
                    assert(rdv.take(j as int + 1).drop_last() =~= rdv.take(j as int));
                    assert(rdv.take(j as int + 1).last() == rdv[j as int]);
                    assert(raw_block@[j as int]@ == rdv[j as int]);
                }
                let line: &String = &raw_block[j];
                let trimmed = trim_str(line.as_str());
                let keep: bool = if trimmed.as_str().is_empty() {
                    true
                } else if trimmed.as_str().get_char(0) == '#' {
                    true
                } else {
                    let toks = split_ws(trimmed.as_str());
                    if toks.len() < 2 {
                        true
                    } else {
                        proof {
                            assert(toks@[0]@ == tokens_spec(trim_spec(rdv[j as int]))[0]);
                        }
                        !crate::addr::check_ip(toks[0].as_str())
                    }
                };
                proof {
                    assert(keep == keep_line(rdv[j as int]));
                }
                let ghost adv0 = after_block.deep_view();
                if keep {
                    after_block.push(line.clone());
                    proof {
                        assert(after_block.deep_view() =~= adv0.push(rdv[j as int]));
                    }
                }
                proof {
                    assert(kept_lines(rdv.take(j as int + 1)) =~= kept_lines(rdv.take(j as int))
                        + (if keep_line(rdv[j as int]) {
                        seq![rdv[j as int]]
                    } else {
                        Seq::<Seq<char>>::empty()
                    }));
                    assert(after_block.deep_view() =~= after0 + kept_lines(
                        rdv.take(j as int + 1),
                    ));
                }
                j = j + 1;
            }
            proof {
                assert(rdv.take(rn as int) =~= rdv);
            }
        }

        let r = ParsedHosts { before_block, after_block, bindings };
        proof {
            assert(r@.before =~= finish_acc(acc).before);
            assert(r@.after =~= finish_acc(acc).after);
            assert(r@.binds =~= finish_acc(acc).binds);
            assert(r@ == parse_spec(content@));
        }
        r
    }

    /// Renders the model back to hosts-file text.
    pub fn render(&self) -> (r: String)
        ensures
            r@ == render_spec(self@),
    {
        let ghost m = self@;
        let mut lines: Vec<String> = Vec::new();
        let bn = self.before_block.len();
        let mut i: usize = 0;
        proof {
            assert(m.before.take(0) =~= Seq::<Seq<char>>::empty());
            assert(lines.deep_view() =~= m.before.take(0));
        }
        while i < bn
            invariant
                0 <= i <= bn,
                bn == self.before_block.len(),
                m == self@,
                lines.deep_view() =~= m.before.take(i as int),
            decreases bn - i,
        {
            proof {
                assert(self.before_block@[i as int]@ == m.before[i as int]);
                assert(m.before.take(i as int + 1) =~= m.before.take(i as int).push(
                    m.before[i as int],
                ));
            }
            lines.push(self.before_block[i].clone());
            i = i + 1;
        }
        proof {
            assert(m.before.take(bn as int) =~= m.before);
        }

        if self.bindings.len() > 0 {
            if lines.len() > 0 && !lines[lines.len() - 1].as_str().is_empty() {
                proof {
                    assert(lines.deep_view().last() == m.before.last());
                }
                lines.push(String::new());
                proof {
                    assert(lines.deep_view() =~= m.before.push(Seq::<char>::empty()));
                }
            }
            let ghost pre = lines.deep_view();
            proof {
                assert(pre =~= (if m.before.len() > 0 && m.before.last().len() > 0 {
                    m.before.push(Seq::<char>::empty())
                } else {
                    m.before
                }));
            }
            lines.push("# BEGIN anyFAST".to_owned());
            let ghost with_begin = lines.deep_view();
            proof {
                assert(with_begin =~= pre + seq![begin_marker()]);
            }
            let cn = self.bindings.len();
            let mut j: usize = 0;
            proof {
                assert(binding_lines(m.binds).take(0) =~= Seq::<Seq<char>>::empty());
                assert(lines.deep_view() =~= with_begin + binding_lines(m.binds).take(0));
            }
            while j < cn
                invariant
                    0 <= j <= cn,
                    cn == self.bindings.len(),
                    m == self@,
                    m.binds.len() == cn,
                    with_begin == pre + seq![begin_marker()],
                    pre == (if m.before.len() > 0 && m.before.last().len() > 0 {
                        m.before.push(Seq::<char>::empty())
                    } else {
                        m.before
                    }),
                    lines.deep_view() =~= with_begin + binding_lines(m.binds).take(j as int),
                decreases cn - j,
            {
                let b: &HostsBinding = &self.bindings[j];
                let mut line = b.ip.clone();
                line.append("\t");
                line.append(b.domain.as_str());
                line.append("\t");
                line.append("# anyFAST");
                proof {
                    reveal_strlit("\t");
                    assert(self.bindings@[j as int]@ == m.binds[j as int]);
                    assert("\t"@ =~= seq!['\t']);
                    assert(line@ =~= binding_line_spec(m.binds[j as int]));
                    assert(binding_lines(m.binds).take(j as int + 1) =~= binding_lines(
                        m.binds,
                    ).take(j as int).push(binding_line_spec(m.binds[j as int])));
                }
                let ghost ldv0 = lines.deep_view();
                let ghost lv = line@;
                lines.push(line);
                proof {
                    assert(lines.deep_view() =~= ldv0.push(lv));
                }
                j = j + 1;
            }
            proof {
                assert(binding_lines(m.binds).take(cn as int) =~= binding_lines(m.binds));
            }
            lines.push("# END anyFAST".to_owned());
            proof {
                assert(lines.deep_view() =~= pre + seq![begin_marker()] + binding_lines(m.binds)
                    + seq![end_marker()]);
            }
        }

        let ghost head = lines.deep_view();
        let an = self.after_block.len();
        let mut a: usize = 0;
        proof {
            assert(m.after.take(0) =~= Seq::<Seq<char>>::empty());
            assert(lines.deep_view() =~= head + m.after.take(0));
        }
        while a < an
            invariant
                0 <= a <= an,
                an == self.after_block.len(),
                m == self@,
                lines.deep_view() =~= head + m.after.take(a as int),
            decreases an - a,
        {
            proof {
                assert(self.after_block@[a as int]@ == m.after[a as int]);
                assert(m.after.take(a as int + 1) =~= m.after.take(a as int).push(
                    m.after[a as int],
                ));
            }
            let ghost ldv0 = lines.deep_view();
            lines.push(self.after_block[a].clone());
            proof {
                assert(lines.deep_view() =~= ldv0.push(m.after[a as int]));
            }
            a = a + 1;
        }
        proof {
            assert(m.after.take(an as int) =~= m.after);
            assert(lines.deep_view() =~= render_lines_spec(m));
        }
        join_lines_exec(&lines)
    }
}

} // verus!

verus! {

/// The model with `d` bound to `ip` in the managed block.
pub open spec fn model_upsert(m: HostsModel, d: Seq<char>, ip: Seq<char>) -> HostsModel {
    HostsModel { binds: upsert_spec(m.binds, d, ip), ..m }
}

/// The model with the binding of `d` removed from the managed block.
pub open spec fn model_remove(m: HostsModel, d: Seq<char>) -> HostsModel {
    HostsModel { binds: remove_spec(m.binds, d), ..m }
}

/// The model with the managed block emptied.
pub open spec fn model_clear(m: HostsModel) -> HostsModel {
    HostsModel { binds: Seq::empty(), ..m }
}

/// The model after a whole batch of upserts, applied in order.
pub open spec fn model_upsert_batch(m: HostsModel, items: Seq<BindingModel>) -> HostsModel
    decreases items.len(),
{
    if items.len() == 0 {
        m
    } else {
        model_upsert_batch(model_upsert(m, items[0].domain, items[0].ip), items.drop_first())
    }
}

/// The model after removing a whole batch of domains, in order.
pub open spec fn model_remove_batch(m: HostsModel, ds: Seq<Seq<char>>) -> HostsModel
    decreases ds.len(),
{
    if ds.len() == 0 {
        m
    } else {
        model_remove_batch(model_remove(m, ds[0]), ds.drop_first())
    }
}

/// How many of the batch removals found a binding to remove. A repeated
/// domain counts once: the second removal finds nothing.
pub open spec fn remove_batch_count(m: HostsModel, ds: Seq<Seq<char>>) -> int
    decreases ds.len(),
{
    if ds.len() == 0 {
        0
    } else {
        (if lookup_spec(m.binds, ds[0]) is Some {
            1int
        } else {
            0int
        }) + remove_batch_count(model_remove(m, ds[0]), ds.drop_first())
    }
}

/// The first binding of a batch whose address or domain fails validation.
pub open spec fn first_violation(items: Seq<BindingModel>) -> Option<BindingModel>
    decreases items.len(),
{
    if items.len() == 0 {
        None
    } else if !valid_ip(items[0].ip) || !valid_domain(items[0].domain) {
        Some(items[0])
    } else {
        first_violation(items.drop_first())
    }
}

proof fn lemma_first_violation_clean(items: Seq<BindingModel>)
    requires
        forall|k: int|
            0 <= k < items.len() ==> valid_ip((#[trigger] items[k]).ip) && valid_domain(
                items[k].domain,
            ),
    ensures
        first_violation(items) is None,
    decreases items.len(),
{
    if items.len() > 0 {
        let t = items.drop_first();
        assert(forall|k: int| 0 <= k < t.len() ==> t[k] == items[k + 1]);
        lemma_first_violation_clean(t);
    }
}

proof fn lemma_first_violation_at(items: Seq<BindingModel>, i: int)
    requires
        0 <= i < items.len(),
        !valid_ip(items[i].ip) || !valid_domain(items[i].domain),
        forall|k: int|
            0 <= k < i ==> valid_ip((#[trigger] items[k]).ip) && valid_domain(items[k].domain),
    ensures
        first_violation(items) == Some(items[i]),
    decreases i,
{
    if i > 0 {
        let t = items.drop_first();
        assert(forall|k: int| 0 <= k < t.len() ==> t[k] == items[k + 1]);
        lemma_first_violation_at(t, i - 1);
    }
}

/// Rewrites `content` with `domain` bound to `ip` in the managed block,
/// after validating both inputs. Nothing is produced for invalid input, so
/// no file write can follow from it.
pub fn write_binding_content(content: &str, domain: &str, ip: &str) -> (r: Result<
    String,
    HostsError,
>)
    ensures
        valid_ip(ip@) && valid_domain(domain@) ==> (r matches Ok(s) && s@ == render_spec(
            model_upsert(parse_spec(content@), domain@, ip@),
        )),
        !valid_ip(ip@) ==> (r matches Err(HostsError::InvalidIp(s)) && s@ == ip@),
        valid_ip(ip@) && !valid_domain(domain@) ==> (r matches Err(HostsError::InvalidDomain(s))
            && s@ == domain@),
{
    match validate_ip(ip) {
        Err(e) => {
            return Err(e);
        },
        Ok(()) => {},
    }
    match validate_domain(domain) {
        Err(e) => {
            return Err(e);
        },
        Ok(()) => {},
    }
    let mut parsed = ParsedHosts::parse(content);
    upsert_binding(&mut parsed.bindings, domain, ip);
    proof {
        assert(parsed@ == model_upsert(parse_spec(content@), domain@, ip@));
    }
    Ok(parsed.render())
}

/// Rewrites `content` with every binding of the batch upserted, after
/// validating the whole batch up front; reports how many were written. An
/// empty batch leaves the content untouched.
pub fn write_bindings_batch_content(content: &str, bindings: &Vec<HostsBinding>) -> (r: Result<
    (String, usize),
    HostsError,
>)
    ensures
        ({
            let items = binds_view(bindings@);
            &&& first_violation(items) is None ==> (r matches Ok((s, n)) && s@ == (
            if items.len() == 0 {
                content@
            } else {
                render_spec(model_upsert_batch(parse_spec(content@), items))
            }) && n == items.len())
            &&& first_violation(items) matches Some(b) ==> (if !valid_ip(b.ip) {
                r matches Err(HostsError::InvalidIp(s)) && s@ == b.ip
            } else {
                r matches Err(HostsError::InvalidDomain(s)) && s@ == b.domain
            })
        }),
{
    let ghost items = binds_view(bindings@);
    if bindings.len() == 0 {
        return Ok((content.to_owned(), 0));
    }
    let n = bindings.len();
    let mut i: usize = 0;
    while i < n
        invariant
            0 <= i <= n,
            n == bindings.len(),
            items == binds_view(bindings@),
            items.len() == n,
            forall|k: int|
                0 <= k < i ==> valid_ip((#[trigger] items[k]).ip) && valid_domain(
                    items[k].domain,
                ),
        decreases n - i,
    {
        proof {
            assert(items[i as int] == bindings@[i as int]@);
        }
        match validate_ip(bindings[i].ip.as_str()) {
            Err(e) => {
                proof {
                    lemma_first_violation_at(items, i as int);
                }
                return Err(e);
            },
            Ok(()) => {},
        }
        match validate_domain(bindings[i].domain.as_str()) {
            Err(e) => {
                proof {
                    lemma_first_violation_at(items, i as int);
                }
                return Err(e);
            },
            Ok(()) => {},
        }
        i = i + 1;
    }
    proof {
        lemma_first_violation_clean(items);
    }
    let mut parsed = ParsedHosts::parse(content);
    let ghost m0 = parse_spec(content@);
    let mut k: usize = 0;
    proof {
        assert(items.skip(0) =~= items);
    }
    while k < n
        invariant
            0 <= k <= n,
            n == bindings.len(),
            items == binds_view(bindings@),
            items.len() == n,
            parsed@.before == m0.before,
            parsed@.after == m0.after,
            model_upsert_batch(m0, items) == model_upsert_batch(parsed@, items.skip(k as int)),
        decreases n - k,
    {
        let ghost pre = parsed@;
        proof {
            assert(items[k as int] == bindings@[k as int]@);
            assert(items.skip(k as int)[0] == items[k as int]);
            assert(items.skip(k as int).drop_first() =~= items.skip(k as int + 1));
        }
        upsert_binding(&mut parsed.bindings, bindings[k].domain.as_str(), bindings[k].ip.as_str());
        proof {
            assert(parsed@ == model_upsert(pre, items[k as int].domain, items[k as int].ip));
            assert(model_upsert_batch(pre, items.skip(k as int)) == model_upsert_batch(
                parsed@,
                items.skip(k as int + 1),
            ));
        }
        k = k + 1;
    }
    proof {
        assert(items.skip(n as int) =~= Seq::<BindingModel>::empty());
        assert(model_upsert_batch(parsed@, items.skip(n as int)) == parsed@);
    }
    Ok((parsed.render(), n))
}

/// Rewrites `content` with the binding of `domain` removed; a missing
/// binding leaves the managed block as it was.
pub fn clear_binding_content(content: &str, domain: &str) -> (r: String)
    ensures
        r@ == render_spec(model_remove(parse_spec(content@), domain@)),
{
    let mut parsed = ParsedHosts::parse(content);
    remove_binding(&mut parsed.bindings, domain);
    parsed.render()
}

/// Rewrites `content` with every domain of the batch removed; reports how
/// many bindings were actually removed, counting a repeated domain once.
pub fn clear_bindings_batch_content(content: &str, domains: &Vec<String>) -> (r: (String, usize))
    ensures
        r.0@ == (if domains@.len() == 0 {
            content@
        } else {
            render_spec(model_remove_batch(parse_spec(content@), domains.deep_view()))
        }),
        r.1 == remove_batch_count(parse_spec(content@), domains.deep_view()),
{
    let ghost ds = domains.deep_view();
    if domains.len() == 0 {
        return (content.to_owned(), 0);
    }
    let mut parsed = ParsedHosts::parse(content);
    let ghost m0 = parse_spec(content@);
    let n = domains.len();
    let mut removed: usize = 0;
    let mut k: usize = 0;
    proof {
        assert(ds.skip(0) =~= ds);
    }
    while k < n
        invariant
            0 <= k <= n,
            n == domains.len(),
            ds == domains.deep_view(),
            ds.len() == n,
            removed <= k,
            parsed@.before == m0.before,
            parsed@.after == m0.after,
            model_remove_batch(m0, ds) == model_remove_batch(parsed@, ds.skip(k as int)),
            remove_batch_count(m0, ds) == removed + remove_batch_count(
                parsed@,
                ds.skip(k as int),
            ),
        decreases n - k,
    {
        let ghost pre = parsed@;
        proof {
            assert(domains@[k as int]@ == ds[k as int]);
            assert(ds.skip(k as int)[0] == ds[k as int]);
            assert(ds.skip(k as int).drop_first() =~= ds.skip(k as int + 1));
        }
        let was = remove_binding(&mut parsed.bindings, domains[k].as_str());
        if was {
            removed = removed + 1;
        }
        proof {
            assert(parsed@ == model_remove(pre, ds[k as int]));
        }
        k = k + 1;
    }
    proof {
        assert(ds.skip(n as int) =~= Seq::<Seq<char>>::empty());
    }
    (parsed.render(), removed)
}

/// Rewrites `content` with the whole managed block dropped; reports how many
/// bindings it held.
pub fn clear_all_content(content: &str) -> (r: (String, usize))
    ensures
        r.0@ == render_spec(model_clear(parse_spec(content@))),
        r.1 == parse_spec(content@).binds.len(),
{
    let mut parsed = ParsedHosts::parse(content);
    let count = parsed.bindings.len();
    parsed.bindings.clear();
    proof {
        assert(binds_view(parsed.bindings@) =~= Seq::<BindingModel>::empty());
        assert(parsed@ == model_clear(parse_spec(content@)));
    }
    (parsed.render(), count)
}

/// The fallback read outside the managed block: the first plain line whose
/// second token is the domain yields its first token.
pub open spec fn scan_fallback(lines: Seq<Seq<char>>, d: Seq<char>) -> Option<Seq<char>>
    decreases lines.len(),
{
    if lines.len() == 0 {
        None
    } else {
        let t = trim_spec(lines[0]);
        if t.len() > 0 && t[0] != '#' && tokens_spec(t).len() >= 2 && tokens_spec(t)[1] == d {
            Some(tokens_spec(t)[0])
        } else {
            scan_fallback(lines.drop_first(), d)
        }
    }
}

/// What a read returns: the managed binding if present, else the fallback
/// scan over all lines.
pub open spec fn read_spec(content: Seq<char>, d: Seq<char>) -> Option<Seq<char>> {
    match lookup_spec(parse_spec(content).binds, d) {
        Some(ip) => Some(ip),
        None => scan_fallback(lines_spec(strip_bom_spec(content)), d),
    }
}

/// Reads the address bound to `domain` in `content`.
pub fn read_binding_in_content(content: &str, domain: &str) -> (r: Option<String>)
    ensures
        match r {
            Some(ip) => read_spec(content@, domain@) == Some(ip@),
            None => read_spec(content@, domain@) is None,
        },
{
    let parsed = ParsedHosts::parse(content);
    match find_binding(&parsed.bindings, domain) {
        Some(ip) => {
            return Some(ip);
        },
        None => {},
    }
    let clen = content.unicode_len();
    let stripped: &str = if clen > 0 && content.get_char(0) == '\u{feff}' {
        content.substring_char(1, clen)
    } else {
        content
    };
    proof {
        assert(stripped@ =~= strip_bom_spec(content@));
    }
    let lines = split_lines(stripped);
    let ghost dv = lines.deep_view();
    let n = lines.len();
    let mut k: usize = 0;
    proof {
        assert(dv.skip(0) =~= dv);
    }
    while k < n
        invariant
            0 <= k <= n,
            n == lines.len(),
            dv == lines.deep_view(),
            dv == lines_spec(strip_bom_spec(content@)),
            lookup_spec(parse_spec(content@).binds, domain@) is None,
            scan_fallback(dv, domain@) == scan_fallback(dv.skip(k as int), domain@),
        decreases n - k,
    {
        proof {
            assert(lines@[k as int]@ == dv[k as int]);
            assert(dv.skip(k as int)[0] == dv[k as int]);
            assert(dv.skip(k as int).drop_first() =~= dv.skip(k as int + 1));
        }
        let trimmed = trim_str(lines[k].as_str());
        let ghost t = trim_spec(dv[k as int]);
        if !trimmed.as_str().is_empty() && trimmed.as_str().get_char(0) != '#' {
            let toks = split_ws(trimmed.as_str());
            if toks.len() >= 2 {
                proof {
                    assert(toks@[1]@ == tokens_spec(t)[1]);
                    assert(toks@[0]@ == tokens_spec(t)[0]);
                }
                if str_eq(toks[1].as_str(), domain) {
                    return Some(toks[0].clone());
                }
            }
        }
        k = k + 1;
    }
    proof {
        assert(dv.skip(n as int) =~= Seq::<Seq<char>>::empty());
    }
    None
}

} // verus!

verus! {

/// Upserting a domain above every existing one appends the new binding.
pub proof fn lemma_upsert_append(bs: Seq<BindingModel>, d: Seq<char>, ip: Seq<char>)
    requires
        forall|j: int| 0 <= j < bs.len() ==> str_lt((#[trigger] bs[j]).domain, d),
    ensures
        upsert_spec(bs, d, ip) =~= bs.push(BindingModel { domain: d, ip: ip }),
{
    lemma_upsert_at(bs, d, ip, bs.len() as int);
    assert(bs.insert(bs.len() as int, BindingModel { domain: d, ip: ip }) =~= bs.push(
        BindingModel { domain: d, ip: ip },
    ));
}

} // verus!

verus! {

/// Lookup of the head's domain yields the head's address.
pub proof fn lemma_lookup_head(bs: Seq<BindingModel>)
    requires
        bs.len() > 0,
    ensures
        lookup_spec(bs, bs[0].domain) == Some(bs[0].ip),
{
}

/// In a sorted list, a domain below the head is absent.
pub proof fn lemma_lookup_below_head(bs: Seq<BindingModel>, d: Seq<char>)
    requires
        binds_sorted(bs),
        bs.len() > 0,
        str_lt(d, bs[0].domain),
    ensures
        lookup_spec(bs, d) is None,
{
    assert forall|k: int| 0 <= k < bs.len() implies (#[trigger] bs[k]).domain != d by {
        if k == 0 {
            lemma_str_lt_trichotomy(d, bs[0].domain);
        } else {
            lemma_str_lt_transitive(d, bs[0].domain, bs[k].domain);
            lemma_str_lt_trichotomy(d, bs[k].domain);
        }
    }
    lemma_lookup_absent(bs, d);
}

/// A domain strictly below every member is absent.
pub proof fn lemma_lookup_above_all(bs: Seq<BindingModel>, d: Seq<char>)
    requires
        forall|k: int| 0 <= k < bs.len() ==> str_lt(d, (#[trigger] bs[k]).domain),
    ensures
        lookup_spec(bs, d) is None,
{
    assert forall|k: int| 0 <= k < bs.len() implies (#[trigger] bs[k]).domain != d by {
        lemma_str_lt_trichotomy(d, bs[k].domain);
    }
    lemma_lookup_absent(bs, d);
}

/// Public face of the cons characterization of sortedness.
pub proof fn lemma_sorted_cons_pub(b: BindingModel, t: Seq<BindingModel>)
    ensures
        binds_sorted(seq![b] + t) <==> (binds_sorted(t) && (forall|k: int|
            0 <= k < t.len() ==> str_lt(b.domain, (#[trigger] t[k]).domain))),
{
    lemma_sorted_cons(b, t);
}

} // verus!

verus! {

/// Public face of the upsert membership fact.
pub proof fn lemma_upsert_membership_pub(bs: Seq<BindingModel>, d: Seq<char>, ip: Seq<char>, k: int)
    requires
        0 <= k < upsert_spec(bs, d, ip).len(),
    ensures
        upsert_spec(bs, d, ip)[k].domain == d || (exists|j: int|
            0 <= j < bs.len() && bs[j] == upsert_spec(bs, d, ip)[k]),
{
    lemma_upsert_membership(bs, d, ip, k);
}

/// A binding in the upsert result that carries the upserted domain carries
/// the upserted address.
pub proof fn lemma_upsert_values(bs: Seq<BindingModel>, d: Seq<char>, ip: Seq<char>, k: int)
    requires
        binds_sorted(bs),
        0 <= k < upsert_spec(bs, d, ip).len(),
        upsert_spec(bs, d, ip)[k].domain == d,
    ensures
        upsert_spec(bs, d, ip)[k] == (BindingModel { domain: d, ip: ip }),
    decreases bs.len(),
{
    let b = BindingModel { domain: d, ip: ip };
    let r = upsert_spec(bs, d, ip);
    if bs.len() == 0 {
    } else if bs[0].domain == d {
        if k > 0 {
            let t = bs.drop_first();
            assert(r[k] == t[k - 1]);
            lemma_sorted_cons(bs[0], t);
            assert(str_lt(bs[0].domain, t[k - 1].domain));
            lemma_str_lt_trichotomy(bs[0].domain, t[k - 1].domain);
        }
    } else if str_lt(d, bs[0].domain) {
        if k > 0 {
            assert(r[k] == bs[k - 1]);
            if k == 1 {
                lemma_str_lt_trichotomy(d, bs[0].domain);
            } else {
                assert(str_lt(bs[0].domain, bs[k - 1].domain));
                lemma_str_lt_transitive(d, bs[0].domain, bs[k - 1].domain);
                lemma_str_lt_trichotomy(d, bs[k - 1].domain);
            }
        }
    } else {
        lemma_str_lt_trichotomy(d, bs[0].domain);
        if k == 0 {
            assert(r[0] == bs[0]);
        } else {
            let t = bs.drop_first();
            lemma_sorted_cons(bs[0], t);
            assert(r[k] == upsert_spec(t, d, ip)[k - 1]);
            lemma_upsert_values(t, d, ip, k - 1);
        }
    }
}

/// Public face of the removal membership fact.
pub proof fn lemma_remove_membership_pub(bs: Seq<BindingModel>, d: Seq<char>, k: int)
    requires
        0 <= k < remove_spec(bs, d).len(),
    ensures
        (exists|j: int| 0 <= j < bs.len() && bs[j] == remove_spec(bs, d)[k]),
{
    lemma_remove_membership(bs, d, k);
}

} // verus!

verus! {

/// A hosts manager over in-memory content: the same parse, mutate, render
/// cycle the on-disk manager performs, with the file replaced by a string.
pub struct TestableHostsManager {
    content: String,
}

impl View for TestableHostsManager {
    type V = Seq<char>;

    closed spec fn view(&self) -> Seq<char> {
        self.content@
    }
}

impl TestableHostsManager {
    /// Starts from the given hosts-file content.
    pub fn new(content: String) -> (r: TestableHostsManager)
        ensures
            r@ == content@,
    {
        TestableHostsManager { content }
    }

    /// The current content.
    pub fn content(&self) -> (r: &str)
        ensures
            r@ == self@,
    {
        self.content.as_str()
    }

    /// Reads the address bound to `domain`.
    pub fn read_binding(&self, domain: &str) -> (r: Option<String>)
        ensures
            match r {
                Some(ip) => read_spec(self@, domain@) == Some(ip@),
                None => read_spec(self@, domain@) is None,
            },
    {
        read_binding_in_content(self.content.as_str(), domain)
    }

    /// Binds `domain` to `ip`, after validation.
    pub fn write_binding(&mut self, domain: &str, ip: &str) -> (r: Result<(), HostsError>)
        ensures
            valid_ip(ip@) && valid_domain(domain@) ==> (r is Ok && final(self)@ == render_spec(
                model_upsert(parse_spec(old(self)@), domain@, ip@),
            )),
            !valid_ip(ip@) ==> (r matches Err(HostsError::InvalidIp(s)) && s@ == ip@
                && final(self)@ == old(self)@),
            valid_ip(ip@) && !valid_domain(domain@) ==> (r matches Err(
                HostsError::InvalidDomain(s),
            ) && s@ == domain@ && final(self)@ == old(self)@),
    {
        match write_binding_content(self.content.as_str(), domain, ip) {
            Ok(next) => {
                self.content = next;
                Ok(())
            },
            Err(e) => Err(e),
        }
    }

    /// Binds a whole batch, after validating all of it; reports the count.
    pub fn write_bindings_batch(&mut self, bindings: &Vec<HostsBinding>) -> (r: Result<
        usize,
        HostsError,
    >)
        ensures
            ({
                let items = binds_view(bindings@);
                &&& first_violation(items) is None ==> (r matches Ok(n) && n == items.len()
                    && final(self)@ == (if items.len() == 0 {
                    old(self)@
                } else {
                    render_spec(model_upsert_batch(parse_spec(old(self)@), items))
                }))
                &&& first_violation(items) is Some ==> (r is Err && final(self)@ == old(self)@)
            }),
    {
        match write_bindings_batch_content(self.content.as_str(), bindings) {
            Ok((next, n)) => {
                self.content = next;
                Ok(n)
            },
            Err(e) => Err(e),
        }
    }

    /// Removes the binding of `domain`; removing an absent one is a no-op
    /// rewrite.
    pub fn clear_binding(&mut self, domain: &str) -> (r: Result<(), HostsError>)
        ensures
            r is Ok,
            final(self)@ == render_spec(model_remove(parse_spec(old(self)@), domain@)),
    {
        self.content = clear_binding_content(self.content.as_str(), domain);
        Ok(())
    }

    /// Removes a whole batch of domains; reports how many bindings were
    /// actually removed.
    pub fn clear_bindings_batch(&mut self, domains: &Vec<String>) -> (r: Result<
        usize,
        HostsError,
    >)
        ensures
            r matches Ok(n) && n == remove_batch_count(parse_spec(old(self)@), domains.deep_view()),
            final(self)@ == (if domains@.len() == 0 {
                old(self)@
            } else {
                render_spec(model_remove_batch(parse_spec(old(self)@), domains.deep_view()))
            }),
    {
        let (next, n) = clear_bindings_batch_content(self.content.as_str(), domains);
        self.content = next;
        Ok(n)
    }

    /// Drops the whole managed block; reports how many bindings it held.
    pub fn clear_all_anyfast_bindings(&mut self) -> (r: Result<usize, HostsError>)
        ensures
            r matches Ok(n) && n == parse_spec(old(self)@).binds.len(),
            final(self)@ == render_spec(model_clear(parse_spec(old(self)@))),
    {
        let (next, n) = clear_all_content(self.content.as_str());
        self.content = next;
        Ok(n)
    }
}

} // verus!
