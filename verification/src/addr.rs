//! Validation of the values that may enter the hosts file: IPv4 and IPv6
//! address syntax, and hostname syntax. Write operations refuse anything
//! that does not satisfy these grammars, which is what keeps a hosts-file
//! line from being forged through a crafted domain or address.

use crate::text::split_char_spec;
use crate::text::split_on_char;
use vstd::prelude::*;

verus! {

/// An ASCII decimal digit.
pub open spec fn is_digit_char(c: char) -> bool {
    48 <= (c as u32) <= 57
}

/// An ASCII hexadecimal digit.
pub open spec fn is_hex_char(c: char) -> bool {
    48 <= (c as u32) <= 57 || 97 <= (c as u32) <= 102 || 65 <= (c as u32) <= 70
}

/// The numeric value of a digit sequence read in base ten.
pub open spec fn dec_value(s: Seq<char>) -> int
    decreases s.len(),
{
    if s.len() == 0 {
        0
    } else {
        dec_value(s.drop_last()) * 10 + ((s.last() as u32) - 48)
    }
}

/// One dotted-quad octet: one to three digits, no leading zero, value below 256.
pub open spec fn valid_octet(s: Seq<char>) -> bool {
    &&& 1 <= s.len() <= 3
    &&& forall|k: int| 0 <= k < s.len() ==> is_digit_char(#[trigger] s[k])
    &&& (s.len() > 1 ==> s[0] != '0')
    &&& dec_value(s) <= 255
}

/// IPv4 address syntax: four valid octets separated by dots.
pub open spec fn valid_ipv4(s: Seq<char>) -> bool {
    let ps = split_char_spec(s, '.');
    ps.len() == 4 && forall|k: int| 0 <= k < 4 ==> valid_octet(#[trigger] ps[k])
}

/// One IPv6 group: one to four hexadecimal digits.
pub open spec fn valid_hex_group(s: Seq<char>) -> bool {
    &&& 1 <= s.len() <= 4
    &&& forall|k: int| 0 <= k < s.len() ==> is_hex_char(#[trigger] s[k])
}

/// How many 16-bit groups a piece stands for: an embedded IPv4 tail counts
/// as two groups, anything else as one.
pub open spec fn piece_units(p: Seq<char>) -> int {
    if valid_ipv4(p) {
        2
    } else {
        1
    }
}

/// Total group count of a run of pieces.
pub open spec fn units_sum(ps: Seq<Seq<char>>) -> int
    decreases ps.len(),
{
    if ps.len() == 0 {
        0
    } else {
        units_sum(ps.drop_last()) + piece_units(ps.last())
    }
}

/// A run of pieces in which every piece is a hexadecimal group, except that
/// the last may instead be an embedded IPv4 address.
pub open spec fn piece_run_ok(ps: Seq<Seq<char>>) -> bool {
    forall|i: int|
        0 <= i < ps.len() ==> (valid_hex_group(#[trigger] ps[i]) || (i == ps.len() - 1
            && valid_ipv4(ps[i])))
}

/// A run of pieces that are all hexadecimal groups.
pub open spec fn hex_run_ok(ps: Seq<Seq<char>>) -> bool {
    forall|i: int| 0 <= i < ps.len() ==> valid_hex_group(#[trigger] ps[i])
}

/// Number of empty pieces.
pub open spec fn count_empty(ps: Seq<Seq<char>>) -> int
    decreases ps.len(),
{
    if ps.len() == 0 {
        0
    } else {
        count_empty(ps.drop_last()) + if ps.last().len() == 0 {
            1int
        } else {
            0int
        }
    }
}

/// Index of the first empty piece, or the length if none is empty.
pub open spec fn first_empty_idx(ps: Seq<Seq<char>>) -> int
    decreases ps.len(),
{
    if ps.len() == 0 {
        0
    } else if ps[0].len() == 0 {
        0
    } else {
        1 + first_empty_idx(ps.drop_first())
    }
}

/// IPv6 address syntax over the colon-separated pieces: either eight groups
/// with no compression, or a single `::` (leading, trailing, or in the
/// middle) standing for the missing groups. An embedded IPv4 address may end
/// the group run.
pub open spec fn valid_ipv6(s: Seq<char>) -> bool {
    let ps = split_char_spec(s, ':');
    let n = ps.len() as int;
    let e = count_empty(ps);
    let f = first_empty_idx(ps);
    if e == 0 {
        piece_run_ok(ps) && units_sum(ps) == 8
    } else if n == 3 && e == 3 {
        true
    } else if n >= 3 && e == 2 && f == 0 && ps[1].len() == 0 {
        piece_run_ok(ps.skip(2)) && units_sum(ps.skip(2)) <= 7
    } else if n >= 3 && e == 2 && f == n - 2 && ps[n - 1].len() == 0 {
        hex_run_ok(ps.take(n - 2)) && units_sum(ps.take(n - 2)) <= 7
    } else if e == 1 && 1 <= f < n - 1 {
        hex_run_ok(ps.take(f)) && piece_run_ok(ps.skip(f + 1)) && units_sum(ps.take(f))
            + units_sum(ps.skip(f + 1)) <= 7
    } else {
        false
    }
}

/// A valid IP address: IPv4 or IPv6 textual form.
pub open spec fn valid_ip(s: Seq<char>) -> bool {
    valid_ipv4(s) || valid_ipv6(s)
}

/// Executable digit test.
fn is_digit(c: char) -> (r: bool)
    ensures
        r == is_digit_char(c),
{
    let u = c as u32;
    48 <= u && u <= 57
}

/// Executable hexadecimal-digit test.
fn is_hex(c: char) -> (r: bool)
    ensures
        r == is_hex_char(c),
{
    let u = c as u32;
    (48 <= u && u <= 57) || (97 <= u && u <= 102) || (65 <= u && u <= 70)
}

/// Executable octet check matching `valid_octet`.
fn check_octet(p: &str) -> (r: bool)
    ensures
        r == valid_octet(p@),
{
    let len = p.unicode_len();
    if len < 1 || len > 3 {
        return false;
    }
    let mut i: usize = 0;
    let mut value: u32 = 0;
    while i < len
        invariant
            0 <= i <= len,
            len == p@.len(),
            len <= 3,
            forall|k: int| 0 <= k < i ==> is_digit_char(#[trigger] p@[k]),
            value == dec_value(p@.subrange(0, i as int)),
            i == 0 ==> value == 0,
            i == 1 ==> value <= 9,
            i == 2 ==> value <= 99,
            i == 3 ==> value <= 999,
        decreases len - i,
    {
        let c = p.get_char(i);
        if !is_digit(c) {
            return false;
        }
        proof {
            assert(p@.subrange(0, i as int + 1).drop_last() =~= p@.subrange(0, i as int));
            assert(p@.subrange(0, i as int + 1).last() == p@[i as int]);
        }
        value = value * 10 + ((c as u32) - 48);
        i = i + 1;
    }
    proof {
        assert(p@.subrange(0, len as int) =~= p@);
    }
    if len > 1 && p.get_char(0) == '0' {
        return false;
    }
    value <= 255
}

/// Executable hexadecimal-group check matching `valid_hex_group`.
fn check_hex_group(p: &str) -> (r: bool)
    ensures
        r == valid_hex_group(p@),
{
    let len = p.unicode_len();
    if len < 1 || len > 4 {
        return false;
    }
    let mut i: usize = 0;
    while i < len
        invariant
            0 <= i <= len,
            len == p@.len(),
            forall|k: int| 0 <= k < i ==> is_hex_char(#[trigger] p@[k]),
        decreases len - i,
    {
        if !is_hex(p.get_char(i)) {
            return false;
        }
        i = i + 1;
    }
    true
}

/// Executable IPv4 check matching `valid_ipv4`.
pub fn check_ipv4(s: &str) -> (r: bool)
    ensures
        r == valid_ipv4(s@),
{
    let ps = split_on_char(s, '.');
    let ghost gps = split_char_spec(s@, '.');
    proof {
        assert(gps.len() == ps.len());
    }
    if ps.len() != 4 {
        return false;
    }
    let mut i: usize = 0;
    while i < 4
        invariant
            0 <= i <= 4,
            ps.len() == 4,
            ps.deep_view() == gps,
            gps == split_char_spec(s@, '.'),
            gps.len() == 4,
            forall|k: int| 0 <= k < i ==> valid_octet(#[trigger] gps[k]),
        decreases 4 - i,
    {
        proof {
            assert(ps.deep_view()[i as int] == ps@[i as int]@);
        }
        let ok = check_octet(ps[i].as_str());
        if !ok {
            proof {
                assert(!valid_octet(gps[i as int]));
                assert(gps == split_char_spec(s@, '.'));
                assert(!valid_octet(split_char_spec(s@, '.')[i as int]));
                assert(!valid_ipv4(s@));
            }
            return false;
        }
        i = i + 1;
    }
    true
}

/// Checks `piece_run_ok` (with `v4_tail`) or `hex_run_ok` (without) on the
/// pieces from `lo` (inclusive) to `hi` (exclusive).
fn check_piece_run(ps: &Vec<String>, lo: usize, hi: usize, v4_tail: bool) -> (r: bool)
    requires
        lo <= hi <= ps.len(),
    ensures
        v4_tail ==> r == piece_run_ok(ps.deep_view().subrange(lo as int, hi as int)),
        !v4_tail ==> r == hex_run_ok(ps.deep_view().subrange(lo as int, hi as int)),
{
    let ghost run = ps.deep_view().subrange(lo as int, hi as int);
    let mut i: usize = lo;
    while i < hi
        invariant
            lo <= i <= hi <= ps.len(),
            run == ps.deep_view().subrange(lo as int, hi as int),
            forall|k: int|
                0 <= k < i - lo ==> (valid_hex_group(#[trigger] run[k]) || (v4_tail && k
                    == run.len() - 1 && valid_ipv4(run[k]))),
        decreases hi - i,
    {
        proof {
            assert(ps@[i as int]@ == run[i - lo]);
        }
        let hex_ok = check_hex_group(ps[i].as_str());
        if !hex_ok {
            let v4_ok = v4_tail && i == hi - 1 && check_ipv4(ps[i].as_str());
            if !v4_ok {
                return false;
            }
        }
        i = i + 1;
    }
    true
}

/// Sums `piece_units` over the pieces from `lo` (inclusive) to `hi`
/// (exclusive).
fn units_of_run(ps: &Vec<String>, lo: usize, hi: usize) -> (r: usize)
    requires
        lo <= hi <= ps.len(),
        ps.len() < 10000,
    ensures
        r == units_sum(ps.deep_view().subrange(lo as int, hi as int)),
        r <= 2 * (hi - lo),
{
    let ghost dv = ps.deep_view();
    let mut total: usize = 0;
    let mut i: usize = lo;
    proof {
        assert(dv.subrange(lo as int, lo as int) =~= Seq::<Seq<char>>::empty());
    }
    while i < hi
        invariant
            lo <= i <= hi <= ps.len(),
            ps.len() < 10000,
            dv == ps.deep_view(),
            total == units_sum(dv.subrange(lo as int, i as int)),
            total <= 2 * (i - lo),
        decreases hi - i,
    {
        proof {
            assert(ps@[i as int]@ == dv[i as int]);
            assert(dv.subrange(lo as int, i as int + 1).drop_last() =~= dv.subrange(
                lo as int,
                i as int,
            ));
            assert(dv.subrange(lo as int, i as int + 1).last() == dv[i as int]);
        }
        if check_ipv4(ps[i].as_str()) {
            total = total + 2;
        } else {
            total = total + 1;
        }
        i = i + 1;
    }
    total
}

pub proof fn lemma_first_empty_bounds(ps: Seq<Seq<char>>)
    ensures
        0 <= first_empty_idx(ps) <= ps.len(),
        first_empty_idx(ps) < ps.len() ==> ps[first_empty_idx(ps)].len() == 0,
        forall|k: int| 0 <= k < first_empty_idx(ps) ==> (#[trigger] ps[k]).len() > 0,
    decreases ps.len(),
{
    if ps.len() > 0 && ps[0].len() > 0 {
        let t = ps.drop_first();
        lemma_first_empty_bounds(t);
        assert forall|k: int| 0 <= k < first_empty_idx(ps) implies (#[trigger] ps[k]).len() > 0 by {
            if k > 0 {
                assert(t[k - 1].len() > 0);
                assert(ps[k] == t[k - 1]);
            }
        }
    }
}

proof fn lemma_count_empty_zero(ps: Seq<Seq<char>>)
    requires
        forall|k: int| 0 <= k < ps.len() ==> (#[trigger] ps[k]).len() > 0,
    ensures
        count_empty(ps) == 0,
    decreases ps.len(),
{
    if ps.len() > 0 {
        lemma_count_empty_zero(ps.drop_last());
    }
}

proof fn lemma_count_empty_take(ps: Seq<Seq<char>>, i: int)
    requires
        0 <= i < ps.len(),
    ensures
        count_empty(ps.take(i + 1)) == count_empty(ps.take(i)) + if ps[i].len() == 0 {
            1int
        } else {
            0int
        },
{
    assert(ps.take(i + 1).drop_last() =~= ps.take(i));
    assert(ps.take(i + 1).last() == ps[i]);
}

/// Executable IPv6 check matching `valid_ipv6`.
pub fn check_ipv6(s: &str) -> (r: bool)
    ensures
        r == valid_ipv6(s@),
{
    let ps = split_on_char(s, ':');
    let ghost gps = split_char_spec(s@, ':');
    let n = ps.len();
    if n >= 10000 {
        // A colon-separated address never has this many pieces; each piece
        // costs at least one separator, and longer inputs are never valid
        // since every branch of the grammar bounds the group count.
        proof {
            lemma_ipv6_long_invalid(gps);
        }
        return false;
    }
    let mut empty_count: usize = 0;
    let mut first_empty: usize = n;
    let mut i: usize = 0;
    proof {
        assert(gps.take(0) =~= Seq::<Seq<char>>::empty());
    }
    while i < n
        invariant
            0 <= i <= n,
            n == ps.len(),
            ps.deep_view() == gps,
            gps == split_char_spec(s@, ':'),
            n == gps.len(),
            empty_count == count_empty(gps.take(i as int)),
            empty_count <= i,
            empty_count == 0 ==> first_empty == n,
            empty_count == 0 ==> (forall|k: int| 0 <= k < i ==> (#[trigger] gps[k]).len() > 0),
            empty_count > 0 ==> 0 <= first_empty < i && gps[first_empty as int].len() == 0
                && (forall|k: int| 0 <= k < first_empty ==> (#[trigger] gps[k]).len() > 0),
        decreases n - i,
    {
        proof {
            assert(ps@[i as int]@ == gps[i as int]);
            lemma_count_empty_take(gps, i as int);
        }
        if ps[i].as_str().is_empty() {
            if empty_count == 0 {
                first_empty = i;
            }
            empty_count = empty_count + 1;
        }
        i = i + 1;
    }
    proof {
        assert(gps.take(n as int) =~= gps);
        lemma_first_empty_bounds(gps);
        if empty_count > 0 {
            assert(first_empty_idx(gps) == first_empty) by {
                if first_empty_idx(gps) < first_empty {
                    assert(gps[first_empty_idx(gps)].len() > 0);
                }
                if first_empty_idx(gps) > first_empty {
                    assert(gps[first_empty as int].len() > 0);
                }
            }
        } else {
            assert(first_empty_idx(gps) == gps.len() as int) by {
                if first_empty_idx(gps) < gps.len() {
                    lemma_count_empty_nonzero(gps, first_empty_idx(gps));
                }
            }
        }
    }
    if empty_count == 0 {
        let run_ok = check_piece_run(&ps, 0, n, true);
        let units = units_of_run(&ps, 0, n);
        proof {
            assert(gps.subrange(0, n as int) =~= gps);
        }
        run_ok && units == 8
    } else if n == 3 && empty_count == 3 {
        proof {
            lemma_three_empties(gps);
        }
        true
    } else if n >= 3 && empty_count == 2 && first_empty == 0 {
        proof {
            assert(ps@[1]@ == gps[1]);
        }
        if ps[1].as_str().is_empty() {
            let run_ok = check_piece_run(&ps, 2, n, true);
            let units = units_of_run(&ps, 2, n);
            proof {
                assert(gps.subrange(2, n as int) =~= gps.skip(2));
            }
            run_ok && units <= 7
        } else {
            false
        }
    } else if n >= 3 && empty_count == 2 && first_empty == n - 2 {
        proof {
            assert(ps@[n - 1]@ == gps[n - 1]);
        }
        if ps[n - 1].as_str().is_empty() {
            let run_ok = check_piece_run(&ps, 0, n - 2, false);
            let units = units_of_run(&ps, 0, n - 2);
            proof {
                assert(gps.subrange(0, n as int - 2) =~= gps.take(n as int - 2));
            }
            run_ok && units <= 7
        } else {
            false
        }
    } else if empty_count == 1 && 1 <= first_empty && first_empty < n - 1 {
        let k = first_empty;
        let left_ok = check_piece_run(&ps, 0, k, false);
        let right_ok = check_piece_run(&ps, k + 1, n, true);
        let left_units = units_of_run(&ps, 0, k);
        let right_units = units_of_run(&ps, k + 1, n);
        proof {
            assert(gps.subrange(0, k as int) =~= gps.take(k as int));
            assert(gps.subrange(k as int + 1, n as int) =~= gps.skip(k as int + 1));
        }
        left_ok && right_ok && left_units + right_units <= 7
    } else {
        false
    }
}

proof fn lemma_count_empty_nonneg(ps: Seq<Seq<char>>)
    ensures
        count_empty(ps) >= 0,
    decreases ps.len(),
{
    if ps.len() > 0 {
        lemma_count_empty_nonneg(ps.drop_last());
    }
}

proof fn lemma_count_empty_nonzero(ps: Seq<Seq<char>>, i: int)
    requires
        0 <= i < ps.len(),
        ps[i].len() == 0,
    ensures
        count_empty(ps) >= 1,
    decreases ps.len(),
{
    lemma_count_empty_nonneg(ps.drop_last());
    if i == ps.len() - 1 {
    } else {
        lemma_count_empty_nonzero(ps.drop_last(), i);
    }
}

proof fn lemma_three_empties(ps: Seq<Seq<char>>)
    requires
        ps.len() == 3,
        count_empty(ps) == 3,
    ensures
        ps[0].len() == 0,
        ps[1].len() == 0,
        ps[2].len() == 0,
{
    assert(count_empty(ps.drop_last()) + if ps[2].len() == 0 {
        1int
    } else {
        0int
    } == 3);
    let t = ps.drop_last();
    assert(count_empty(t.drop_last()) + if t[1].len() == 0 {
        1int
    } else {
        0int
    } == count_empty(t));
    let u = t.drop_last();
    assert(count_empty(u.drop_last()) + if u[0].len() == 0 {
        1int
    } else {
        0int
    } == count_empty(u));
    assert(count_empty(u.drop_last()) == 0) by {
        assert(u.drop_last().len() == 0);
    }
    assert(t[1] == ps[1] && u[0] == ps[0]);
}

proof fn lemma_ipv6_long_invalid(ps: Seq<Seq<char>>)
    requires
        ps.len() >= 10000,
    ensures
        !({
            let n = ps.len() as int;
            let e = count_empty(ps);
            let f = first_empty_idx(ps);
            if e == 0 {
                piece_run_ok(ps) && units_sum(ps) == 8
            } else if n == 3 && e == 3 {
                true
            } else if n >= 3 && e == 2 && f == 0 && ps[1].len() == 0 {
                piece_run_ok(ps.skip(2)) && units_sum(ps.skip(2)) <= 7
            } else if n >= 3 && e == 2 && f == n - 2 && ps[n - 1].len() == 0 {
                hex_run_ok(ps.take(n - 2)) && units_sum(ps.take(n - 2)) <= 7
            } else if e == 1 && 1 <= f < n - 1 {
                hex_run_ok(ps.take(f)) && piece_run_ok(ps.skip(f + 1)) && units_sum(ps.take(f))
                    + units_sum(ps.skip(f + 1)) <= 7
            } else {
                false
            }
        }),
{
    let n = ps.len() as int;
    lemma_units_sum_at_least_len(ps);
    lemma_units_sum_at_least_len(ps.skip(2));
    lemma_units_sum_at_least_len(ps.take(n - 2));
    lemma_units_sum_at_least_len(ps.take(first_empty_idx(ps)));
    lemma_units_sum_at_least_len(ps.skip(first_empty_idx(ps) + 1));
    lemma_first_empty_bounds(ps);
}

proof fn lemma_units_sum_at_least_len(ps: Seq<Seq<char>>)
    ensures
        units_sum(ps) >= ps.len(),
    decreases ps.len(),
{
    if ps.len() > 0 {
        lemma_units_sum_at_least_len(ps.drop_last());
    }
}

/// Executable IP check matching `valid_ip`.
pub fn check_ip(s: &str) -> (r: bool)
    ensures
        r == valid_ip(s@),
{
    check_ipv4(s) || check_ipv6(s)
}

} // verus!

verus! {

/// A character allowed in a hostname: ASCII letters and digits, hyphen,
/// dot, underscore.
pub open spec fn is_domain_char(c: char) -> bool {
    ||| 97 <= (c as u32) <= 122
    ||| 65 <= (c as u32) <= 90
    ||| 48 <= (c as u32) <= 57
    ||| c == '-'
    ||| c == '.'
    ||| c == '_'
}

/// Hostname syntax: nonempty, every character from the hostname set. This
/// excludes all whitespace and control characters.
pub open spec fn valid_domain(s: Seq<char>) -> bool {
    s.len() > 0 && forall|k: int| 0 <= k < s.len() ==> is_domain_char(#[trigger] s[k])
}

/// Executable hostname check matching `valid_domain`.
pub fn check_domain(s: &str) -> (r: bool)
    ensures
        r == valid_domain(s@),
{
    let len = s.unicode_len();
    if len == 0 {
        return false;
    }
    let mut i: usize = 0;
    while i < len
        invariant
            0 <= i <= len,
            len == s@.len(),
            forall|k: int| 0 <= k < i ==> is_domain_char(#[trigger] s@[k]),
        decreases len - i,
    {
        let c = s.get_char(i);
        let u = c as u32;
        let ok = (97 <= u && u <= 122) || (65 <= u && u <= 90) || (48 <= u && u <= 57) || c == '-'
            || c == '.' || c == '_';
        if !ok {
            return false;
        }
        i = i + 1;
    }
    true
}

} // verus!
