//! Character-level text utilities: trimming, tokenizing, line splitting and
//! joining, substring search, and lexicographic comparison. These are the
//! primitives the hosts-file parser and renderer are specified and proved with.

use vstd::prelude::*;

verus! {

/// The whitespace characters recognized inside hosts-file lines.
pub open spec fn is_space_char(c: char) -> bool {
    c == ' ' || c == '\t' || c == '\r'
}

/// Executable test matching `is_space_char`.
pub fn is_space(c: char) -> (r: bool)
    ensures
        r == is_space_char(c),
{
    c == ' ' || c == '\t' || c == '\r'
}

/// Character equality of two string slices.
pub fn str_eq(a: &str, b: &str) -> (r: bool)
    ensures
        r == (a@ == b@),
{
    let alen = a.unicode_len();
    let blen = b.unicode_len();
    if alen != blen {
        assert(a@ != b@) by {
            assert(a@.len() != b@.len());
        }
        return false;
    }
    let mut i: usize = 0;
    while i < alen
        invariant
            0 <= i <= alen,
            alen == a@.len(),
            alen == b@.len(),
            forall|k: int| 0 <= k < i ==> a@[k] == b@[k],
        decreases alen - i,
    {
        if a.get_char(i) != b.get_char(i) {
            return false;
        }
        i = i + 1;
    }
    proof {
        assert(a@ =~= b@);
    }
    true
}

/// `s` with leading whitespace removed.
pub open spec fn trim_start_spec(s: Seq<char>) -> Seq<char>
    decreases s.len(),
{
    if s.len() > 0 && is_space_char(s[0]) {
        trim_start_spec(s.drop_first())
    } else {
        s
    }
}

/// `s` with trailing whitespace removed.
pub open spec fn trim_end_spec(s: Seq<char>) -> Seq<char>
    decreases s.len(),
{
    if s.len() > 0 && is_space_char(s.last()) {
        trim_end_spec(s.drop_last())
    } else {
        s
    }
}

/// `s` with whitespace removed from both ends.
pub open spec fn trim_spec(s: Seq<char>) -> Seq<char> {
    trim_end_spec(trim_start_spec(s))
}

proof fn lemma_trim_start_range(s: Seq<char>, i: int)
    requires
        0 <= i <= s.len(),
        forall|k: int| 0 <= k < i ==> is_space_char(s[k]),
        i < s.len() ==> !is_space_char(s[i]),
    ensures
        trim_start_spec(s) =~= s.subrange(i, s.len() as int),
    decreases i,
{
    if i == 0 {
        if s.len() > 0 {
            assert(!is_space_char(s[0]));
        }
        assert(trim_start_spec(s) =~= s.subrange(0, s.len() as int));
    } else {
        assert(is_space_char(s[0]));
        let t = s.drop_first();
        assert(forall|k: int| 0 <= k < i - 1 ==> t[k] == s[k + 1]);
        lemma_trim_start_range(t, i - 1);
        assert(trim_start_spec(s) == trim_start_spec(t));
        assert(t.subrange(i - 1, t.len() as int) =~= s.subrange(i, s.len() as int));
    }
}

proof fn lemma_trim_end_range(s: Seq<char>, j: int)
    requires
        0 <= j <= s.len(),
        forall|k: int| j <= k < s.len() ==> is_space_char(s[k]),
        j > 0 ==> !is_space_char(s[j - 1]),
    ensures
        trim_end_spec(s) =~= s.subrange(0, j),
    decreases s.len() - j,
{
    if j == s.len() {
        if s.len() > 0 {
            assert(!is_space_char(s.last()));
        }
        assert(trim_end_spec(s) =~= s.subrange(0, j));
    } else {
        assert(is_space_char(s.last()));
        let t = s.drop_last();
        lemma_trim_end_range(t, j);
        assert(t.subrange(0, j) =~= s.subrange(0, j));
    }
}

/// Executable trim matching `trim_spec`.
pub fn trim_str(s: &str) -> (r: String)
    ensures
        r@ == trim_spec(s@),
{
    let len = s.unicode_len();
    let mut i: usize = 0;
    while i < len && is_space(s.get_char(i))
        invariant
            0 <= i <= len,
            len == s@.len(),
            forall|k: int| 0 <= k < i ==> is_space_char(s@[k]),
        decreases len - i,
    {
        i = i + 1;
    }
    proof {
        lemma_trim_start_range(s@, i as int);
    }
    let ghost mid = s@.subrange(i as int, s@.len() as int);
    let mut j: usize = len;
    while j > i && is_space(s.get_char(j - 1))
        invariant
            i <= j <= len,
            len == s@.len(),
            trim_start_spec(s@) == mid,
            mid =~= s@.subrange(i as int, s@.len() as int),
            forall|k: int| j <= k < len ==> is_space_char(s@[k]),
        decreases j,
    {
        j = j - 1;
    }
    proof {
        assert(forall|k: int| j - i <= k < mid.len() ==> is_space_char(#[trigger] mid[k]));
        if j > i {
            assert(mid[j - i - 1] == s@[j - 1]);
        }
        lemma_trim_end_range(mid, j - i);
        assert(mid.subrange(0, j - i) =~= s@.subrange(i as int, j as int));
    }
    let piece = s.substring_char(i, j);
    piece.to_owned()
}

/// Lexicographic strict order on character sequences, by code point.
pub open spec fn str_lt(a: Seq<char>, b: Seq<char>) -> bool
    decreases a.len(),
{
    if b.len() == 0 {
        false
    } else if a.len() == 0 {
        true
    } else if a[0] != b[0] {
        (a[0] as u32) < (b[0] as u32)
    } else {
        str_lt(a.drop_first(), b.drop_first())
    }
}

pub proof fn lemma_str_lt_trichotomy(a: Seq<char>, b: Seq<char>)
    ensures
        str_lt(a, b) || str_lt(b, a) || a == b,
        !(str_lt(a, b) && str_lt(b, a)),
        str_lt(a, b) ==> a != b,
    decreases a.len(),
{
    if a.len() == 0 || b.len() == 0 {
        if a.len() == 0 && b.len() == 0 {
            assert(a =~= b);
        }
    } else if a[0] != b[0] {
        assert((a[0] as u32) != (b[0] as u32)) by {
            vstd::utf8::char_u32_cast(a[0], a[0] as u32);
            vstd::utf8::char_u32_cast(b[0], b[0] as u32);
        }
    } else {
        lemma_str_lt_trichotomy(a.drop_first(), b.drop_first());
        if a.drop_first() == b.drop_first() {
            assert(a =~= a.drop_first().insert(0, a[0]));
            assert(b =~= b.drop_first().insert(0, b[0]));
        }
        if a == b {
            assert(a.drop_first() == b.drop_first());
        }
    }
}

pub proof fn lemma_str_lt_transitive(a: Seq<char>, b: Seq<char>, c: Seq<char>)
    requires
        str_lt(a, b),
        str_lt(b, c),
    ensures
        str_lt(a, c),
    decreases a.len() + b.len() + c.len(),
{
    if c.len() == 0 {
    } else if a.len() == 0 {
    } else if b.len() == 0 {
    } else {
        if a[0] == b[0] && b[0] == c[0] {
            lemma_str_lt_transitive(a.drop_first(), b.drop_first(), c.drop_first());
        }
    }
}

/// Executable comparison matching `str_lt`.
pub fn str_lt_exec(a: &str, b: &str) -> (r: bool)
    ensures
        r == str_lt(a@, b@),
{
    let alen = a.unicode_len();
    let blen = b.unicode_len();
    let mut i: usize = 0;
    proof {
        assert(a@.subrange(0, alen as int) =~= a@);
        assert(b@.subrange(0, blen as int) =~= b@);
    }
    loop
        invariant
            0 <= i <= alen,
            0 <= i <= blen,
            alen == a@.len(),
            blen == b@.len(),
            forall|k: int| 0 <= k < i ==> a@[k] == b@[k],
            str_lt(a@, b@) == str_lt(
                a@.subrange(i as int, alen as int),
                b@.subrange(i as int, blen as int),
            ),
        decreases alen - i,
    {
        proof {
            lemma_str_lt_suffix_step(a@, b@, i as int);
        }
        if i >= blen {
            return false;
        }
        if i >= alen {
            return true;
        }
        let ca = a.get_char(i);
        let cb = b.get_char(i);
        if ca != cb {
            return (ca as u32) < (cb as u32);
        }
        i = i + 1;
    }
}

proof fn lemma_str_lt_suffix_step(a: Seq<char>, b: Seq<char>, i: int)
    requires
        0 <= i <= a.len(),
        0 <= i <= b.len(),
    ensures
        ({
            let sa = a.subrange(i, a.len() as int);
            let sb = b.subrange(i, b.len() as int);
            &&& (i == b.len() ==> !str_lt(sa, sb))
            &&& (i < b.len() && i == a.len() ==> str_lt(sa, sb))
            &&& (i < a.len() && i < b.len() && a[i] != b[i] ==> str_lt(sa, sb) == ((a[i] as u32) < (
                b[i] as u32)))
            &&& (i < a.len() && i < b.len() && a[i] == b[i] ==> str_lt(sa, sb) == str_lt(
                a.subrange(i + 1, a.len() as int),
                b.subrange(i + 1, b.len() as int),
            ))
        }),
{
    let sa = a.subrange(i, a.len() as int);
    let sb = b.subrange(i, b.len() as int);
    if i < a.len() && i < b.len() && a[i] == b[i] {
        assert(sa.drop_first() =~= a.subrange(i + 1, a.len() as int));
        assert(sb.drop_first() =~= b.subrange(i + 1, b.len() as int));
    }
}

} // verus!

verus! {

/// The longest prefix of `s` made of non-whitespace characters.
pub open spec fn head_token(s: Seq<char>) -> Seq<char>
    decreases s.len(),
{
    if s.len() == 0 || is_space_char(s[0]) {
        Seq::empty()
    } else {
        seq![s[0]] + head_token(s.drop_first())
    }
}

/// `s` with its leading non-whitespace run removed.
pub open spec fn after_token(s: Seq<char>) -> Seq<char>
    decreases s.len(),
{
    if s.len() == 0 || is_space_char(s[0]) {
        s
    } else {
        after_token(s.drop_first())
    }
}

pub proof fn lemma_after_token_len(s: Seq<char>)
    ensures
        after_token(s).len() <= s.len(),
        s.len() > 0 && !is_space_char(s[0]) ==> after_token(s).len() < s.len(),
    decreases s.len(),
{
    if s.len() > 0 && !is_space_char(s[0]) {
        lemma_after_token_len(s.drop_first());
    }
}

/// The whitespace-separated tokens of `s`, in order.
pub open spec fn tokens_spec(s: Seq<char>) -> Seq<Seq<char>>
    decreases s.len(),
    via tokens_spec_decreases
{
    if s.len() == 0 {
        Seq::empty()
    } else if is_space_char(s[0]) {
        tokens_spec(s.drop_first())
    } else {
        seq![head_token(s)] + tokens_spec(after_token(s))
    }
}

#[via_fn]
proof fn tokens_spec_decreases(s: Seq<char>) {
    lemma_after_token_len(s);
}

/// Locates the end of the leading token: `head_token` is the prefix up to the
/// first whitespace character and `after_token` is the rest.
pub proof fn lemma_head_token_range(s: Seq<char>, j: int)
    requires
        0 <= j <= s.len(),
        forall|k: int| 0 <= k < j ==> !is_space_char(s[k]),
        j < s.len() ==> is_space_char(s[j]),
    ensures
        head_token(s) =~= s.subrange(0, j),
        after_token(s) =~= s.subrange(j, s.len() as int),
    decreases j,
{
    if j == 0 {
        assert(head_token(s) =~= s.subrange(0, 0));
        assert(after_token(s) =~= s);
        assert(s.subrange(0, s.len() as int) =~= s);
    } else {
        assert(!is_space_char(s[0]));
        let t = s.drop_first();
        assert(forall|k: int| 0 <= k < j - 1 ==> t[k] == s[k + 1]);
        lemma_head_token_range(t, j - 1);
        assert(head_token(s) == seq![s[0]] + head_token(t));
        assert(seq![s[0]] + t.subrange(0, j - 1) =~= s.subrange(0, j));
        assert(t.subrange(j - 1, t.len() as int) =~= s.subrange(j, s.len() as int));
    }
}

/// Splits a line into its whitespace-separated tokens.
pub fn split_ws(line: &str) -> (r: Vec<String>)
    ensures
        r.deep_view() == tokens_spec(line@),
        forall|k: int| 0 <= k < r.deep_view().len() ==> (#[trigger] r.deep_view()[k]).len() > 0,
{
    let len = line.unicode_len();
    let mut done: Vec<String> = Vec::new();
    let mut i: usize = 0;
    proof {
        assert(line@.subrange(0, len as int) =~= line@);
        assert(done.deep_view() + tokens_spec(line@) =~= tokens_spec(line@));
    }
    while i < len
        invariant
            0 <= i <= len,
            len == line@.len(),
            tokens_spec(line@) =~= done.deep_view() + tokens_spec(
                line@.subrange(i as int, len as int),
            ),
            forall|k: int|
                0 <= k < done.deep_view().len() ==> (#[trigger] done.deep_view()[k]).len() > 0,
        decreases len - i,
    {
        let ghost pre = line@.subrange(i as int, len as int);
        if is_space(line.get_char(i)) {
            proof {
                assert(pre[0] == line@[i as int]);
                assert(pre.drop_first() =~= line@.subrange(i as int + 1, len as int));
            }
            i = i + 1;
        } else {
            let start = i;
            let mut j = i;
            while j < len && !is_space(line.get_char(j))
                invariant
                    i <= j <= len,
                    len == line@.len(),
                    forall|k: int| i <= k < j ==> !is_space_char(line@[k]),
                decreases len - j,
            {
                j = j + 1;
            }
            proof {
                assert(forall|k: int| 0 <= k < j - i ==> !is_space_char(#[trigger] pre[k]));
                if j < len {
                    assert(pre[j - i] == line@[j as int]);
                }
                lemma_head_token_range(pre, j - i);
                assert(pre.subrange(0, j - i) =~= line@.subrange(i as int, j as int));
                assert(pre.subrange(j - i, pre.len() as int) =~= line@.subrange(
                    j as int,
                    len as int,
                ));
            }
            let tok = line.substring_char(start, j).to_owned();
            let ghost old_done = done.deep_view();
            done.push(tok);
            proof {
                assert(done.deep_view() =~= old_done.push(tok@));
                assert(tokens_spec(pre) == seq![head_token(pre)] + tokens_spec(after_token(pre)));
                assert(done.deep_view() + tokens_spec(line@.subrange(j as int, len as int)) =~= (
                old_done + tokens_spec(pre)));
            }
            i = j;
        }
    }
    proof {
        assert(line@.subrange(i as int, len as int) =~= Seq::<char>::empty());
        assert(tokens_spec(line@) =~= done.deep_view());
    }
    done
}

/// `pat` occurs as a contiguous run inside `s`.
pub open spec fn contains_seq(s: Seq<char>, pat: Seq<char>) -> bool {
    exists|i: int|
        0 <= i && i + pat.len() <= s.len() && #[trigger] s.subrange(i, i + pat.len()) == pat
}

/// Executable substring search matching `contains_seq`.
pub fn contains_str(s: &str, pat: &str) -> (r: bool)
    ensures
        r == contains_seq(s@, pat@),
{
    let slen = s.unicode_len();
    let plen = pat.unicode_len();
    if plen > slen {
        return false;
    }
    if plen == 0 {
        proof {
            assert(contains_seq(s@, pat@)) by {
                assert(s@.subrange(0, 0 + pat@.len() as int) =~= pat@);
            }
        }
        return true;
    }
    let mut i: usize = 0;
    while i <= slen - plen
        invariant
            0 <= i <= slen - plen + 1,
            1 <= plen <= slen,
            slen == s@.len(),
            plen == pat@.len(),
            forall|k: int| 0 <= k < i ==> #[trigger] s@.subrange(k, k + plen) != pat@,
        decreases slen + 1 - plen - i,
    {
        let mut j: usize = 0;
        let mut matched = true;
        while j < plen
            invariant
                0 <= j <= plen,
                i + plen <= slen,
                slen == s@.len(),
                plen == pat@.len(),
                matched ==> forall|k: int| 0 <= k < j ==> s@[i + k] == pat@[k],
                !matched ==> s@.subrange(i as int, i + plen) != pat@,
            decreases plen - j,
        {
            if s.get_char(i + j) != pat.get_char(j) {
                proof {
                    assert(s@.subrange(i as int, i + plen)[j as int] != pat@[j as int]);
                }
                matched = false;
                j = plen;
            } else {
                j = j + 1;
            }
        }
        if matched {
            proof {
                assert(s@.subrange(i as int, i + plen) =~= pat@);
            }
            return true;
        }
        i = i + 1;
    }
    proof {
        assert forall|k: int| 0 <= k && k + pat@.len() <= s@.len() implies #[trigger] s@.subrange(
            k,
            k + pat@.len(),
        ) != pat@ by {
            assert(k < i);
            assert(s@.subrange(k, k + plen) != pat@);
        }
    }
    false
}

} // verus!

verus! {

/// Index of the first occurrence of `sep` in `s`, or `s.len()` if absent.
pub open spec fn first_sep(s: Seq<char>, sep: char) -> int
    decreases s.len(),
{
    if s.len() == 0 {
        0
    } else if s[0] == sep {
        0
    } else {
        1 + first_sep(s.drop_first(), sep)
    }
}

pub proof fn lemma_first_sep_bounds(s: Seq<char>, sep: char)
    ensures
        0 <= first_sep(s, sep) <= s.len(),
        first_sep(s, sep) < s.len() ==> s[first_sep(s, sep)] == sep,
        forall|k: int| 0 <= k < first_sep(s, sep) ==> s[k] != sep,
    decreases s.len(),
{
    if s.len() > 0 && s[0] != sep {
        let t = s.drop_first();
        lemma_first_sep_bounds(t, sep);
        assert forall|k: int| 0 <= k < first_sep(s, sep) implies s[k] != sep by {
            if k > 0 {
                assert(t[k - 1] != sep);
                assert(s[k] == t[k - 1]);
            }
        }
    }
}

/// The pieces of `s` split at every occurrence of `sep`; adjacent separators
/// yield empty pieces, and there is always at least one piece.
pub open spec fn split_char_spec(s: Seq<char>, sep: char) -> Seq<Seq<char>>
    decreases s.len(),
    via split_char_spec_decreases
{
    let i = first_sep(s, sep);
    if i == s.len() {
        seq![s]
    } else {
        seq![s.subrange(0, i)] + split_char_spec(s.subrange(i + 1, s.len() as int), sep)
    }
}

#[via_fn]
proof fn split_char_spec_decreases(s: Seq<char>, sep: char) {
    lemma_first_sep_bounds(s, sep);
}

/// Executable split matching `split_char_spec`.
pub fn split_on_char(s: &str, sep: char) -> (r: Vec<String>)
    ensures
        r.deep_view() == split_char_spec(s@, sep),
        r.len() >= 1,
{
    let len = s.unicode_len();
    let mut done: Vec<String> = Vec::new();
    let mut start: usize = 0;
    let mut i: usize = 0;
    proof {
        lemma_first_sep_bounds(s@, sep);
        assert(s@.subrange(0, len as int) =~= s@);
    }
    loop
        invariant
            0 <= start <= i <= len,
            len == s@.len(),
            forall|k: int| start <= k < i ==> s@[k] != sep,
            split_char_spec(s@, sep) =~= done.deep_view() + split_char_spec(
                s@.subrange(start as int, len as int),
                sep,
            ),
        decreases len - i,
    {
        let ghost suffix = s@.subrange(start as int, len as int);
        proof {
            lemma_first_sep_bounds(suffix, sep);
        }
        if i == len {
            proof {
                assert(forall|k: int| 0 <= k < suffix.len() ==> suffix[k] == s@[start + k]);
                assert(first_sep(suffix, sep) == suffix.len()) by {
                    if first_sep(suffix, sep) < suffix.len() {
                        assert(suffix[first_sep(suffix, sep)] == sep);
                    }
                }
                assert(split_char_spec(suffix, sep) == seq![suffix]);
            }
            let piece = s.substring_char(start, len).to_owned();
            let ghost old_done = done.deep_view();
            done.push(piece);
            proof {
                assert(done.deep_view() =~= old_done.push(suffix));
                assert(done.deep_view() =~= split_char_spec(s@, sep));
            }
            return done;
        }
        if s.get_char(i) == sep {
            proof {
                assert(forall|k: int| 0 <= k < suffix.len() ==> suffix[k] == s@[start + k]);
                assert(first_sep(suffix, sep) == i - start) by {
                    assert(suffix[i - start] == sep);
                    if first_sep(suffix, sep) < i - start {
                        assert(s@[start + first_sep(suffix, sep)] != sep);
                        assert(suffix[first_sep(suffix, sep)] == sep);
                    }
                    if first_sep(suffix, sep) > i - start {
                        assert(suffix[i - start] != sep);
                    }
                }
                assert(suffix.subrange(0, i - start) =~= s@.subrange(start as int, i as int));
                assert(suffix.subrange(i - start + 1, suffix.len() as int) =~= s@.subrange(
                    i as int + 1,
                    len as int,
                ));
            }
            let piece = s.substring_char(start, i).to_owned();
            let ghost old_done = done.deep_view();
            done.push(piece);
            proof {
                assert(done.deep_view() =~= old_done.push(s@.subrange(start as int, i as int)));
                assert(split_char_spec(s@, sep) =~= done.deep_view() + split_char_spec(
                    s@.subrange(i as int + 1, len as int),
                    sep,
                ));
            }
            i = i + 1;
            start = i;
        } else {
            i = i + 1;
        }
    }
}

/// A line with a trailing carriage return removed, as the line iterator does.
pub open spec fn strip_cr(l: Seq<char>) -> Seq<char> {
    if l.len() > 0 && l.last() == '\r' {
        l.drop_last()
    } else {
        l
    }
}

/// The lines of `s`: pieces split at `'\n'`, each with a trailing `'\r'`
/// removed, and without a final empty piece after a terminating newline.
pub open spec fn lines_spec(s: Seq<char>) -> Seq<Seq<char>>
    decreases s.len(),
    via lines_spec_decreases
{
    if s.len() == 0 {
        Seq::empty()
    } else {
        let i = first_sep(s, '\n');
        if i == s.len() {
            seq![s]
        } else {
            seq![strip_cr(s.subrange(0, i))] + lines_spec(s.subrange(i + 1, s.len() as int))
        }
    }
}

#[via_fn]
proof fn lines_spec_decreases(s: Seq<char>) {
    lemma_first_sep_bounds(s, '\n');
}

/// Executable line splitting matching `lines_spec`.
pub fn split_lines(s: &str) -> (r: Vec<String>)
    ensures
        r.deep_view() == lines_spec(s@),
{
    let len = s.unicode_len();
    let mut done: Vec<String> = Vec::new();
    let mut start: usize = 0;
    let mut i: usize = 0;
    proof {
        assert(s@.subrange(0, len as int) =~= s@);
    }
    loop
        invariant
            0 <= start <= i <= len,
            len == s@.len(),
            forall|k: int| start <= k < i ==> s@[k] != '\n',
            lines_spec(s@) =~= done.deep_view() + lines_spec(s@.subrange(start as int, len as int)),
        decreases len + 1 - i,
    {
        let ghost suffix = s@.subrange(start as int, len as int);
        proof {
            lemma_first_sep_bounds(suffix, '\n');
            assert(forall|k: int| 0 <= k < suffix.len() ==> suffix[k] == s@[start + k]);
        }
        if i == len {
            if start == len {
                proof {
                    assert(suffix =~= Seq::<char>::empty());
                    assert(done.deep_view() =~= lines_spec(s@));
                }
                return done;
            }
            proof {
                assert(first_sep(suffix, '\n') == suffix.len()) by {
                    if first_sep(suffix, '\n') < suffix.len() {
                        assert(suffix[first_sep(suffix, '\n')] == '\n');
                    }
                }
                assert(lines_spec(suffix) == seq![suffix]);
            }
            let piece = s.substring_char(start, len).to_owned();
            let ghost old_done = done.deep_view();
            done.push(piece);
            proof {
                assert(done.deep_view() =~= old_done.push(suffix));
                assert(done.deep_view() =~= lines_spec(s@));
            }
            return done;
        }
        if s.get_char(i) == '\n' {
            proof {
                assert(first_sep(suffix, '\n') == i - start) by {
                    assert(suffix[i - start] == '\n');
                    if first_sep(suffix, '\n') < i - start {
                        assert(s@[start + first_sep(suffix, '\n')] != '\n');
                        assert(suffix[first_sep(suffix, '\n')] == '\n');
                    }
                    if first_sep(suffix, '\n') > i - start {
                        assert(suffix[i - start] != '\n');
                    }
                }
                assert(suffix.subrange(0, i - start) =~= s@.subrange(start as int, i as int));
                assert(suffix.subrange(i - start + 1, suffix.len() as int) =~= s@.subrange(
                    i as int + 1,
                    len as int,
                ));
            }
            let line_end = if i > start && s.get_char(i - 1) == '\r' {
                proof {
                    assert(s@.subrange(start as int, i as int).last() == '\r');
                    assert(strip_cr(s@.subrange(start as int, i as int)) =~= s@.subrange(
                        start as int,
                        i as int - 1,
                    ));
                }
                i - 1
            } else {
                proof {
                    assert(strip_cr(s@.subrange(start as int, i as int)) == s@.subrange(
                        start as int,
                        i as int,
                    ));
                }
                i
            };
            let piece = s.substring_char(start, line_end).to_owned();
            let ghost old_done = done.deep_view();
            done.push(piece);
            proof {
                assert(done.deep_view() =~= old_done.push(
                    strip_cr(s@.subrange(start as int, i as int)),
                ));
                assert(lines_spec(s@) =~= done.deep_view() + lines_spec(
                    s@.subrange(i as int + 1, len as int),
                ));
            }
            i = i + 1;
            start = i;
        } else {
            i = i + 1;
        }
    }
}

/// The lines joined by a single `'\n'` between consecutive lines.
pub open spec fn join_lines(ls: Seq<Seq<char>>) -> Seq<char>
    decreases ls.len(),
{
    if ls.len() == 0 {
        Seq::empty()
    } else if ls.len() == 1 {
        ls[0]
    } else {
        ls[0] + seq!['\n'] + join_lines(ls.drop_first())
    }
}

/// Executable join matching `join_lines`.
pub fn join_lines_exec(lines: &Vec<String>) -> (r: String)
    ensures
        r@ == join_lines(lines.deep_view()),
{
    let ghost dv = lines.deep_view();
    let n = lines.len();
    let mut acc = String::new();
    if n == 0 {
        return acc;
    }
    let mut k: usize = 0;
    while k < n
        invariant
            0 <= k <= n,
            n == lines.len(),
            n == dv.len(),
            dv == lines.deep_view(),
            n >= 1,
            k == 0 ==> acc@ == Seq::<char>::empty(),
            0 < k < n ==> join_lines(dv) =~= acc@ + seq!['\n'] + join_lines(dv.skip(k as int)),
            k == n ==> acc@ =~= join_lines(dv),
        decreases n - k,
    {
        let ghost acc0 = acc@;
        proof {
            lemma_join_lines_skip_step(dv, k as int);
            reveal_strlit("\n");
        }
        if k > 0 {
            acc.append("\n");
        }
        acc.append(lines[k].as_str());
        proof {
            assert(lines@[k as int]@ == dv[k as int]);
            if k == 0 {
                assert(acc@ =~= dv[0]);
            } else {
                assert(acc@ =~= acc0 + seq!['\n'] + dv[k as int]);
                if k + 1 < n {
                    assert((acc0 + seq!['\n'] + (dv[k as int] + seq!['\n'] + join_lines(
                        dv.skip(k as int + 1),
                    ))) =~= (acc0 + seq!['\n'] + dv[k as int]) + seq!['\n'] + join_lines(
                        dv.skip(k as int + 1),
                    ));
                }
            }
        }
        k = k + 1;
    }
    acc
}

/// Unfolds one step of `join_lines` over a suffix of the lines.
proof fn lemma_join_lines_skip_step(dv: Seq<Seq<char>>, k: int)
    requires
        0 <= k < dv.len(),
    ensures
        k + 1 < dv.len() ==> join_lines(dv.skip(k)) =~= dv[k] + seq!['\n'] + join_lines(
            dv.skip(k + 1),
        ),
        k + 1 == dv.len() ==> join_lines(dv.skip(k)) =~= dv[k],
        k == 0 ==> join_lines(dv.skip(0)) =~= join_lines(dv),
{
    let s = dv.skip(k);
    assert(s[0] == dv[k]);
    if k + 1 < dv.len() {
        assert(s.len() >= 2);
        assert(s.drop_first() =~= dv.skip(k + 1));
        assert(join_lines(s) == s[0] + seq!['\n'] + join_lines(s.drop_first()));
    } else {
        assert(s.len() == 1);
    }
    if k == 0 {
        assert(dv.skip(0) =~= dv);
    }
}

} // verus!

verus! {

/// A line that the join/split round trip preserves: it contains no newline
/// and does not end with a carriage return.
pub open spec fn line_clean(l: Seq<char>) -> bool {
    &&& forall|k: int| 0 <= k < l.len() ==> l[k] != '\n'
    &&& l.len() > 0 ==> l.last() != '\r'
}

/// Splitting joined lines recovers the lines, provided each line is clean and
/// the last line is nonempty.
pub proof fn lemma_lines_join_roundtrip(ls: Seq<Seq<char>>)
    requires
        forall|i: int| 0 <= i < ls.len() ==> line_clean(#[trigger] ls[i]),
        ls.len() > 0 ==> ls.last().len() > 0,
    ensures
        lines_spec(join_lines(ls)) =~= ls,
    decreases ls.len(),
{
    if ls.len() == 0 {
    } else if ls.len() == 1 {
        let s = join_lines(ls);
        assert(s == ls[0]);
        assert(s.len() > 0);
        lemma_first_sep_bounds(s, '\n');
        assert(first_sep(s, '\n') == s.len()) by {
            if first_sep(s, '\n') < s.len() {
                assert(s[first_sep(s, '\n')] == '\n');
            }
        }
        assert(lines_spec(s) == seq![s]);
    } else {
        let s = join_lines(ls);
        let head = ls[0];
        let rest = ls.drop_first();
        let tail = join_lines(rest);
        assert(s == head + seq!['\n'] + tail);
        assert(s.len() > 0);
        lemma_first_sep_bounds(s, '\n');
        assert(s[head.len() as int] == '\n');
        assert(forall|k: int| 0 <= k < head.len() ==> s[k] == head[k]);
        assert(first_sep(s, '\n') == head.len()) by {
            if first_sep(s, '\n') < head.len() {
                assert(s[first_sep(s, '\n')] == '\n');
                assert(head[first_sep(s, '\n')] != '\n');
            }
            if first_sep(s, '\n') > head.len() {
                assert(s[head.len() as int] != '\n');
            }
        }
        let i = head.len() as int;
        assert(s.subrange(0, i) =~= head);
        assert(strip_cr(head) == head) by {
            if head.len() > 0 {
                assert(head.last() != '\r');
            }
        }
        assert(s.subrange(i + 1, s.len() as int) =~= tail);
        assert(forall|j: int| 0 <= j < rest.len() ==> rest[j] == ls[j + 1]);
        assert(rest.last() == ls.last());
        lemma_lines_join_roundtrip(rest);
        assert(lines_spec(s) == seq![head] + lines_spec(tail));
        assert(seq![head] + rest =~= ls);
    }
}

} // verus!
