//! The laws of the hosts model: re-parsing a rendered model recovers it
//! exactly, every mutation preserves the content outside the managed block,
//! and the managed block is a sorted, deterministic function of the binding
//! map.

use crate::addr::{is_domain_char, valid_domain, valid_ip};
use crate::hosts::{
    begin_marker, binding_line_spec, binding_lines, binds_sorted, end_marker, finish_acc,
    init_acc, line_marker, lookup_spec, model_clear, model_remove, model_upsert, parse_line_step,
    parse_lines_acc, parse_spec, remove_spec, render_lines_spec, render_spec, strip_bom_spec,
    upsert_spec, BindingModel, HostsModel, ParseAcc,
};
use crate::text::{
    after_token, contains_seq, head_token, is_space_char, join_lines, lemma_lines_join_roundtrip,
    lemma_str_lt_trichotomy, line_clean, lines_spec, str_lt, tokens_spec, trim_end_spec,
    trim_spec, trim_start_spec,
};
use vstd::prelude::*;

verus! {

/// A hostname character is printable and never whitespace or a newline.
proof fn lemma_domain_char_plain(c: char)
    requires
        is_domain_char(c),
    ensures
        !is_space_char(c),
        c != '\n',
        c != '#',
{
}

/// The three sentinel strings, spelled out character by character.
proof fn lemma_marker_chars()
    ensures
        begin_marker() =~= seq![
            '#', ' ', 'B', 'E', 'G', 'I', 'N', ' ', 'a', 'n', 'y', 'F', 'A', 'S', 'T',
        ],
        end_marker() =~= seq!['#', ' ', 'E', 'N', 'D', ' ', 'a', 'n', 'y', 'F', 'A', 'S', 'T'],
        line_marker() =~= seq!['#', ' ', 'a', 'n', 'y', 'F', 'A', 'S', 'T'],
{
    reveal_strlit("# BEGIN anyFAST");
    reveal_strlit("# END anyFAST");
    reveal_strlit("# anyFAST");
}

/// The sentinel lines are clean, nonempty, begin with `#`, and are already
/// trimmed.
proof fn lemma_marker_shape()
    ensures
        line_clean(begin_marker()),
        line_clean(end_marker()),
        begin_marker().len() > 0,
        end_marker().len() > 0,
        line_marker().len() > 0,
        begin_marker()[0] == '#',
        end_marker()[0] == '#',
        trim_spec(begin_marker()) == begin_marker(),
        trim_spec(end_marker()) == end_marker(),
{
    lemma_marker_chars();
    lemma_trimmed_fixpoint(begin_marker());
    lemma_trimmed_fixpoint(end_marker());
}

/// A line whose first and last characters are not whitespace trims to
/// itself.
proof fn lemma_trimmed_fixpoint(l: Seq<char>)
    requires
        l.len() > 0,
        !is_space_char(l[0]),
        !is_space_char(l.last()),
    ensures
        trim_spec(l) == l,
{
    assert(trim_start_spec(l) == l);
    assert(trim_end_spec(l) == l);
}

/// Prepending a nonempty all-non-space word to text that starts with
/// whitespace (or is empty) contributes exactly one leading token.
/// The head token of a word followed by whitespace is the word itself, and
/// the remainder is exactly the whitespace tail.
proof fn lemma_head_token_of_word(a: Seq<char>, s: Seq<char>)
    requires
        a.len() > 0,
        forall|k: int| 0 <= k < a.len() ==> !is_space_char(#[trigger] a[k]),
        s.len() > 0 ==> is_space_char(s[0]),
    ensures
        head_token(a + s) =~= a,
        after_token(a + s) =~= s,
    decreases a.len(),
{
    let w = a + s;
    assert(w[0] == a[0]);
    assert(!is_space_char(w[0]));
    assert(head_token(w) == seq![w[0]] + head_token(w.drop_first()));
    assert(after_token(w) == after_token(w.drop_first()));
    if a.len() == 1 {
        assert(w.drop_first() =~= s);
        if s.len() == 0 {
            assert(head_token(s) == Seq::<char>::empty());
            assert(after_token(s) == s);
        } else {
            assert(head_token(s) == Seq::<char>::empty());
            assert(after_token(s) == s);
        }
        assert(head_token(w) =~= seq![a[0]] + Seq::<char>::empty());
        assert(head_token(w) =~= a);
    } else {
        let a1 = a.drop_first();
        assert(forall|k: int| 0 <= k < a1.len() ==> a1[k] == a[k + 1]);
        lemma_head_token_of_word(a1, s);
        assert(w.drop_first() =~= a1 + s);
        assert(head_token(w) =~= seq![a[0]] + a1);
        assert(seq![a[0]] + a1 =~= a);
    }
}

proof fn lemma_tokens_prepend_word(a: Seq<char>, s: Seq<char>)
    requires
        a.len() > 0,
        forall|k: int| 0 <= k < a.len() ==> !is_space_char(#[trigger] a[k]),
        s.len() > 0 ==> is_space_char(s[0]),
    ensures
        tokens_spec(a + s) =~= seq![a] + tokens_spec(s),
{
    lemma_head_token_of_word(a, s);
    let w = a + s;
    assert(w[0] == a[0]);
    assert(!is_space_char(w[0]));
    assert(tokens_spec(w) == seq![head_token(w)] + tokens_spec(after_token(w)));
    assert(head_token(w) == a);
    assert(after_token(w) == s);
}

/// Dropping one leading whitespace character leaves the tokens unchanged.
proof fn lemma_tokens_skip_space(c: char, s: Seq<char>)
    requires
        is_space_char(c),
    ensures
        tokens_spec(seq![c] + s) == tokens_spec(s),
{
    let w = seq![c] + s;
    assert(w[0] == c);
    assert(w.drop_first() =~= s);
}

/// The tokens of a rendered binding line: the address, the domain, then the
/// two words of the sentinel.
proof fn lemma_binding_line_tokens(b: BindingModel)
    requires
        valid_domain(b.domain),
        b.ip.len() > 0,
        forall|k: int| 0 <= k < b.ip.len() ==> !is_space_char(#[trigger] b.ip[k]),
    ensures
        tokens_spec(binding_line_spec(b)) =~= seq![
            b.ip, b.domain, seq!['#'], seq!['a', 'n', 'y', 'F', 'A', 'S', 'T'],
        ],
{
    lemma_marker_chars();
    let word = seq!['a', 'n', 'y', 'F', 'A', 'S', 'T'];
    let l = binding_line_spec(b);
    let s1 = seq!['\t'] + (b.domain + (seq!['\t'] + line_marker()));
    assert(l =~= b.ip + s1);
    assert(s1[0] == '\t');
    lemma_tokens_prepend_word(b.ip, s1);
    let s2 = b.domain + (seq!['\t'] + line_marker());
    assert(s1 =~= seq!['\t'] + s2);
    lemma_tokens_skip_space('\t', s2);
    assert forall|k: int| 0 <= k < b.domain.len() implies !is_space_char(
        #[trigger] b.domain[k],
    ) by {
        lemma_domain_char_plain(b.domain[k]);
    }
    let s3 = seq!['\t'] + line_marker();
    assert(s3[0] == '\t');
    lemma_tokens_prepend_word(b.domain, s3);
    assert(s3 =~= seq!['\t'] + line_marker());
    lemma_tokens_skip_space('\t', line_marker());
    // The sentinel itself: "#", a space, then the word.
    let s4 = seq![' '] + word;
    assert(line_marker() =~= seq!['#'] + s4);
    lemma_tokens_prepend_word(seq!['#'], s4);
    assert(s4 =~= seq![' '] + word);
    lemma_tokens_skip_space(' ', word);
    lemma_tokens_prepend_word(word, Seq::<char>::empty());
    assert(word + Seq::<char>::empty() =~= word);
    assert(tokens_spec(word) =~= seq![word] + tokens_spec(Seq::<char>::empty()));
    assert(tokens_spec(line_marker()) =~= seq![seq!['#'], word]);
    assert(tokens_spec(s3) =~= seq![seq!['#'], word]);
    assert(tokens_spec(s2) =~= seq![b.domain, seq!['#'], word]);
    assert(tokens_spec(s1) =~= seq![b.domain, seq!['#'], word]);
    assert(tokens_spec(l) =~= seq![b.ip, b.domain, seq!['#'], word]);
}

} // verus!

verus! {

/// A binding whose rendered line parses back to the same binding: a valid
/// domain, and a nonempty address with no whitespace, newline, or leading
/// comment character. Every address the validator accepts has this shape.
pub open spec fn binding_shape_ok(b: BindingModel) -> bool {
    &&& valid_domain(b.domain)
    &&& b.ip.len() > 0
    &&& b.ip[0] != '#'
    &&& forall|k: int|
        0 <= k < b.ip.len() ==> !is_space_char(#[trigger] b.ip[k]) && b.ip[k] != '\n'
}

/// A line outside the managed block that parsing sends back outside: it is
/// clean, is not a sentinel line, and is not a legacy binding line.
pub open spec fn outside_line_ok(l: Seq<char>) -> bool {
    let t = trim_spec(l);
    &&& line_clean(l)
    &&& t != begin_marker()
    &&& t != end_marker()
    &&& !(contains_seq(t, line_marker()) && t.len() > 0 && t[0] != '#')
}

/// A well-formed model: sorted well-shaped bindings, outside lines that stay
/// outside, the blank separator already in place before a nonempty block,
/// and no trailing empty line or byte-order mark to be swallowed.
pub open spec fn wf_model(m: HostsModel) -> bool {
    &&& binds_sorted(m.binds)
    &&& forall|i: int| 0 <= i < m.binds.len() ==> binding_shape_ok(#[trigger] m.binds[i])
    &&& forall|i: int| 0 <= i < m.before.len() ==> outside_line_ok(#[trigger] m.before[i])
    &&& forall|i: int| 0 <= i < m.after.len() ==> outside_line_ok(#[trigger] m.after[i])
    &&& m.binds.len() > 0 ==> (m.before.len() == 0 || m.before.last().len() == 0)
    &&& m.binds.len() == 0 ==> m.after.len() == 0
    &&& m.after.len() > 0 ==> m.after.last().len() > 0
    &&& (m.binds.len() == 0 && m.before.len() > 0) ==> m.before.last().len() > 0
    &&& (m.before.len() > 0 && m.before[0].len() > 0) ==> m.before[0][0] != '\u{feff}'
}

/// Classifying a run of lines starting from an arbitrary state.
pub open spec fn acc_lines(st: ParseAcc, ls: Seq<Seq<char>>) -> ParseAcc
    decreases ls.len(),
{
    if ls.len() == 0 {
        st
    } else {
        parse_line_step(acc_lines(st, ls.drop_last()), ls.last())
    }
}

proof fn lemma_acc_lines_init(ls: Seq<Seq<char>>)
    ensures
        parse_lines_acc(ls) == acc_lines(init_acc(), ls),
    decreases ls.len(),
{
    if ls.len() > 0 {
        lemma_acc_lines_init(ls.drop_last());
    }
}

proof fn lemma_acc_append(st: ParseAcc, xs: Seq<Seq<char>>, ys: Seq<Seq<char>>)
    ensures
        acc_lines(st, xs + ys) == acc_lines(acc_lines(st, xs), ys),
    decreases ys.len(),
{
    if ys.len() == 0 {
        assert(xs + ys =~= xs);
    } else {
        assert((xs + ys).drop_last() =~= xs + ys.drop_last());
        assert((xs + ys).last() == ys.last());
        lemma_acc_append(st, xs, ys.drop_last());
    }
}

/// Outside the block and before it is found, an outside line lands in the
/// before buffer and changes nothing else.
proof fn lemma_step_outside_before(st: ParseAcc, l: Seq<char>)
    requires
        !st.in_block,
        !st.found,
        outside_line_ok(l),
    ensures
        parse_line_step(st, l).before == st.before.push(l),
        parse_line_step(st, l).after == st.after,
        parse_line_step(st, l).binds == st.binds,
        parse_line_step(st, l).in_block == st.in_block,
        parse_line_step(st, l).found == st.found,
        parse_line_step(st, l).raw_block == st.raw_block,
{
}

proof fn lemma_acc_before_lines(st: ParseAcc, ls: Seq<Seq<char>>)
    requires
        !st.in_block,
        !st.found,
        forall|i: int| 0 <= i < ls.len() ==> outside_line_ok(#[trigger] ls[i]),
    ensures
        acc_lines(st, ls).before == st.before + ls,
        acc_lines(st, ls).after == st.after,
        acc_lines(st, ls).binds == st.binds,
        acc_lines(st, ls).in_block == st.in_block,
        acc_lines(st, ls).found == st.found,
        acc_lines(st, ls).raw_block == st.raw_block,
    decreases ls.len(),
{
    if ls.len() == 0 {
        assert(st.before + ls =~= st.before);
    } else {
        let p = ls.drop_last();
        assert(forall|i: int| 0 <= i < p.len() ==> p[i] == ls[i]);
        lemma_acc_before_lines(st, p);
        lemma_step_outside_before(acc_lines(st, p), ls.last());
        assert((st.before + p).push(ls.last()) =~= st.before + ls);
    }
}

/// After the block has closed, an outside line lands in the after buffer.
proof fn lemma_acc_after_lines(st: ParseAcc, ls: Seq<Seq<char>>)
    requires
        !st.in_block,
        st.found,
        forall|i: int| 0 <= i < ls.len() ==> outside_line_ok(#[trigger] ls[i]),
    ensures
        acc_lines(st, ls).before == st.before,
        acc_lines(st, ls).after == st.after + ls,
        acc_lines(st, ls).binds == st.binds,
        acc_lines(st, ls).in_block == st.in_block,
        acc_lines(st, ls).found == st.found,
        acc_lines(st, ls).raw_block == st.raw_block,
    decreases ls.len(),
{
    if ls.len() == 0 {
        assert(st.after + ls =~= st.after);
    } else {
        let p = ls.drop_last();
        assert(forall|i: int| 0 <= i < p.len() ==> p[i] == ls[i]);
        lemma_acc_after_lines(st, p);
        assert((st.after + p).push(ls.last()) =~= st.after + ls);
    }
}

/// The opening sentinel turns the block on.
proof fn lemma_step_begin(st: ParseAcc)
    ensures
        parse_line_step(st, begin_marker()).before == st.before,
        parse_line_step(st, begin_marker()).after == st.after,
        parse_line_step(st, begin_marker()).binds == st.binds,
        parse_line_step(st, begin_marker()).in_block == true,
        parse_line_step(st, begin_marker()).found == true,
        parse_line_step(st, begin_marker()).raw_block == st.raw_block,
{
    lemma_marker_shape();
}

/// The closing sentinel turns the block off.
proof fn lemma_step_end(st: ParseAcc)
    ensures
        parse_line_step(st, end_marker()).before == st.before,
        parse_line_step(st, end_marker()).after == st.after,
        parse_line_step(st, end_marker()).binds == st.binds,
        parse_line_step(st, end_marker()).in_block == false,
        parse_line_step(st, end_marker()).found == st.found,
        parse_line_step(st, end_marker()).raw_block == st.raw_block,
{
    lemma_marker_shape();
    lemma_marker_chars();
    assert(end_marker() != begin_marker()) by {
        assert(begin_marker().len() != end_marker().len());
    }
}

/// Inside the block, the rendered lines of a sorted run of bindings are all
/// harvested back, in order.
proof fn lemma_acc_binding_lines(st: ParseAcc, bs: Seq<BindingModel>)
    requires
        st.in_block,
        binds_sorted(st.binds + bs),
        forall|i: int| 0 <= i < bs.len() ==> binding_shape_ok(#[trigger] bs[i]),
    ensures
        acc_lines(st, binding_lines(bs)).before == st.before,
        acc_lines(st, binding_lines(bs)).after == st.after,
        acc_lines(st, binding_lines(bs)).binds == st.binds + bs,
        acc_lines(st, binding_lines(bs)).in_block == true,
        acc_lines(st, binding_lines(bs)).found == st.found,
        acc_lines(st, binding_lines(bs)).raw_block == st.raw_block + binding_lines(bs),
    decreases bs.len(),
{
    let ls = binding_lines(bs);
    if bs.len() == 0 {
        assert(ls.len() == 0);
        assert(st.binds + bs =~= st.binds);
        assert(st.raw_block + ls =~= st.raw_block);
    } else {
        let p = bs.drop_last();
        let b = bs.last();
        assert(forall|i: int| 0 <= i < p.len() ==> p[i] == bs[i]);
        assert(binds_sorted(st.binds + p)) by {
            let whole = st.binds + bs;
            let part = st.binds + p;
            assert(forall|i: int| 0 <= i < part.len() ==> part[i] == whole[i]);
        }
        lemma_acc_binding_lines(st, p);
        assert(ls.drop_last() =~= binding_lines(p));
        assert(ls.last() == binding_line_spec(b));
        let mid = acc_lines(st, binding_lines(p));
        assert(acc_lines(st, ls) == parse_line_step(mid, binding_line_spec(b)));

        // The rendered line is already trimmed and is not a sentinel.
        let l = binding_line_spec(b);
        lemma_marker_chars();
        lemma_marker_shape();
        assert(l[0] == b.ip[0]);
        assert(l.last() == 'T') by {
            assert(l.len() == b.ip.len() + 1 + b.domain.len() + 1 + line_marker().len());
            assert(l[l.len() - 1] == line_marker()[line_marker().len() - 1]);
        }
        assert(!is_space_char(l[0]));
        assert(!is_space_char(l.last()));
        lemma_trimmed_fixpoint(l);
        assert(trim_spec(l) == l);
        assert(l != begin_marker()) by {
            if l == begin_marker() {
                assert(l[0] == '#');
            }
        }
        assert(l != end_marker()) by {
            if l == end_marker() {
                assert(l[0] == '#');
            }
        }
        assert forall|k: int| 0 <= k < b.ip.len() implies !is_space_char(#[trigger] b.ip[k]) by {}
        lemma_binding_line_tokens(b);
        assert(tokens_spec(l).len() >= 2);
        assert(tokens_spec(l)[0] == b.ip);
        assert(tokens_spec(l)[1] == b.domain);
        assert(l.len() > 0 && l[0] != '#');

        // The new binding's domain is above every harvested one, so the
        // upsert appends it.
        let cur = st.binds + p;
        assert(mid.binds == cur);
        assert forall|j: int| 0 <= j < cur.len() implies str_lt(
            (#[trigger] cur[j]).domain,
            b.domain,
        ) by {
            let whole = st.binds + bs;
            assert(cur[j] == whole[j]);
            assert(whole[whole.len() - 1] == b);
            assert(str_lt(whole[j].domain, whole[whole.len() - 1].domain));
        }
        crate::hosts::lemma_upsert_append(cur, b.domain, b.ip);
        assert(upsert_spec(cur, b.domain, b.ip) =~= cur.push(
            BindingModel { domain: b.domain, ip: b.ip },
        ));
        assert(BindingModel { domain: b.domain, ip: b.ip } == b);
        assert(cur.push(b) =~= st.binds + bs);
        assert((st.raw_block + binding_lines(p)).push(l) =~= st.raw_block + ls);
    }
}

} // verus!

verus! {

/// A rendered binding line is clean and starts with the address.
proof fn lemma_binding_line_clean(b: BindingModel)
    requires
        binding_shape_ok(b),
    ensures
        line_clean(binding_line_spec(b)),
        binding_line_spec(b).len() > 0,
        binding_line_spec(b)[0] == b.ip[0],
{
    lemma_marker_chars();
    let l = binding_line_spec(b);
    let dn = b.domain.len() as int;
    let pn = b.ip.len() as int;
    assert forall|k: int| 0 <= k < l.len() implies l[k] != '\n' by {
        if k < pn {
            assert(l[k] == b.ip[k]);
        } else if k == pn {
            assert(l[k] == '\t');
        } else if k < pn + 1 + dn {
            assert(l[k] == b.domain[k - pn - 1]);
            lemma_domain_char_plain(b.domain[k - pn - 1]);
        } else if k == pn + 1 + dn {
            assert(l[k] == '\t');
        } else {
            assert(l[k] == line_marker()[k - (pn + dn + 2)]);
        }
    }
    assert(l.last() == line_marker()[line_marker().len() - 1]);
    assert(l.last() == 'T');
}

/// Re-parsing a rendered well-formed model recovers it exactly.
pub proof fn lemma_parse_render(m: HostsModel)
    requires
        wf_model(m),
    ensures
        parse_spec(render_spec(m)).before == m.before,
        parse_spec(render_spec(m)).after == m.after,
        parse_spec(render_spec(m)).binds == m.binds,
{
    let ls = render_lines_spec(m);
    let s = render_spec(m);
    lemma_marker_shape();

    if m.binds.len() == 0 {
        assert(m.after.len() == 0);
        assert(ls =~= m.before);
        assert forall|i: int| 0 <= i < ls.len() implies line_clean(#[trigger] ls[i]) by {
            assert(outside_line_ok(m.before[i]));
        }
        lemma_lines_join_roundtrip(ls);
        assert(lines_spec(s) =~= ls);
        // No byte-order mark can begin the output.
        if s.len() > 0 {
            assert(ls.len() > 0);
            if ls[0].len() > 0 {
                assert(s[0] == ls[0][0]) by {
                    if ls.len() == 1 {
                    } else {
                        assert(s == ls[0] + seq!['\n'] + join_lines(ls.drop_first()));
                    }
                }
                assert(s[0] != '\u{feff}');
            } else {
                assert(ls.len() > 1) by {
                    assert(ls.last().len() > 0);
                }
                assert(s == ls[0] + seq!['\n'] + join_lines(ls.drop_first()));
                assert(s[0] == '\n');
            }
        }
        assert(strip_bom_spec(s) == s);
        lemma_acc_lines_init(ls);
        lemma_acc_before_lines(init_acc(), ls);
        let acc = parse_lines_acc(lines_spec(strip_bom_spec(s)));
        assert(acc.before =~= m.before);
        assert(acc.in_block == false);
        assert(parse_spec(s).before == m.before);
        assert(parse_spec(s).after =~= m.after);
        assert(parse_spec(s).binds =~= m.binds);
    } else {
        // The separating blank line is already part of the model.
        let l1 = m.before;
        let l2 = seq![begin_marker()];
        let l3 = binding_lines(m.binds);
        let l4 = seq![end_marker()];
        let l5 = m.after;
        assert(ls == l1 + l2 + l3 + l4 + l5) by {
            assert((if m.before.len() > 0 && m.before.last().len() > 0 {
                m.before.push(Seq::<char>::empty())
            } else {
                m.before
            }) == m.before);
        }

        // Every rendered line is clean.
        assert forall|i: int| 0 <= i < ls.len() implies line_clean(#[trigger] ls[i]) by {
            let n1 = l1.len() as int;
            let n3 = l3.len() as int;
            if i < n1 {
                assert(ls[i] == m.before[i]);
            } else if i == n1 {
                assert(ls[i] == begin_marker());
            } else if i < n1 + 1 + n3 {
                assert(ls[i] == binding_lines(m.binds)[i - n1 - 1]);
                lemma_binding_line_clean(m.binds[i - n1 - 1]);
            } else if i == n1 + 1 + n3 {
                assert(ls[i] == end_marker());
            } else {
                assert(ls[i] == m.after[i - (n1 + n3 + 2)]);
            }
        }
        // The last line is nonempty.
        assert(ls.len() > 0);
        if m.after.len() > 0 {
            assert(ls.last() == m.after.last());
        } else {
            assert(ls.last() == end_marker());
        }
        lemma_lines_join_roundtrip(ls);
        assert(lines_spec(s) =~= ls);

        // No byte-order mark can begin the output.
        if ls[0].len() > 0 {
            assert(s[0] == ls[0][0]) by {
                if ls.len() == 1 {
                } else {
                    assert(s == ls[0] + seq!['\n'] + join_lines(ls.drop_first()));
                }
            }
            if m.before.len() > 0 {
                assert(ls[0] == m.before[0]);
            } else {
                assert(ls[0] == begin_marker());
            }
            assert(s[0] != '\u{feff}');
        } else {
            assert(ls.len() > 1) by {
                assert(ls.last().len() > 0);
            }
            assert(s == ls[0] + seq!['\n'] + join_lines(ls.drop_first()));
            assert(s[0] == '\n');
        }
        assert(strip_bom_spec(s) == s);

        // Fold the classification segment by segment.
        lemma_acc_lines_init(ls);
        let st0 = init_acc();
        lemma_acc_append(st0, l1 + l2 + l3 + l4, l5);
        lemma_acc_append(st0, l1 + l2 + l3, l4);
        lemma_acc_append(st0, l1 + l2, l3);
        lemma_acc_append(st0, l1, l2);
        lemma_acc_before_lines(st0, l1);
        let a1 = acc_lines(st0, l1);
        assert(a1.before =~= m.before);

        let a2 = acc_lines(a1, l2);
        assert(l2.drop_last() =~= Seq::<Seq<char>>::empty());
        assert(acc_lines(a1, Seq::<Seq<char>>::empty()) == a1);
        assert(l2.last() == begin_marker());
        assert(a2 == parse_line_step(a1, begin_marker()));
        lemma_step_begin(a1);

        let a3 = acc_lines(a2, l3);
        assert(a2.binds + m.binds =~= m.binds) by {
            assert(a2.binds =~= Seq::<BindingModel>::empty());
        }
        lemma_acc_binding_lines(a2, m.binds);
        assert(a3.binds =~= m.binds);

        let a4 = acc_lines(a3, l4);
        assert(l4.drop_last() =~= Seq::<Seq<char>>::empty());
        assert(acc_lines(a3, Seq::<Seq<char>>::empty()) == a3);
        assert(l4.last() == end_marker());
        assert(a4 == parse_line_step(a3, end_marker()));
        lemma_step_end(a3);

        let a5 = acc_lines(a4, l5);
        lemma_acc_after_lines(a4, l5);
        assert(a5.after =~= m.after) by {
            assert(a4.after =~= Seq::<Seq<char>>::empty());
        }

        let acc = parse_lines_acc(lines_spec(strip_bom_spec(s)));
        assert(acc == a5);
        assert(acc.in_block == false);
        assert(parse_spec(s).before == a5.before);
        assert(a5.before == m.before);
        assert(parse_spec(s).after == m.after);
        assert(parse_spec(s).binds == m.binds);
    }
}

} // verus!

verus! {

/// Every character of `s` is either the separator or satisfies the class
/// that all split pieces satisfy.
proof fn lemma_split_char_classes(s: Seq<char>, sep: char, pc: spec_fn(char) -> bool)
    requires
        forall|i: int, j: int|
            0 <= i < crate::text::split_char_spec(s, sep).len() && 0 <= j < (
            #[trigger] crate::text::split_char_spec(s, sep)[i]).len() ==> pc(
                #[trigger] crate::text::split_char_spec(s, sep)[i][j],
            ),
    ensures
        forall|k: int| 0 <= k < s.len() ==> s[k] == sep || pc(#[trigger] s[k]),
    decreases s.len(),
{
    let ps = crate::text::split_char_spec(s, sep);
    crate::text::lemma_first_sep_bounds(s, sep);
    let i = crate::text::first_sep(s, sep);
    if i == s.len() {
        assert(ps == seq![s]);
        assert forall|k: int| 0 <= k < s.len() implies s[k] == sep || pc(#[trigger] s[k]) by {
            assert(ps[0][k] == s[k]);
            assert(pc(ps[0][k]));
        }
    } else {
        let piece = s.subrange(0, i);
        let rest = s.subrange(i + 1, s.len() as int);
        assert(ps == seq![piece] + crate::text::split_char_spec(rest, sep));
        let rps = crate::text::split_char_spec(rest, sep);
        assert forall|a: int, b: int|
            0 <= a < rps.len() && 0 <= b < (#[trigger] rps[a]).len() implies pc(
            #[trigger] rps[a][b],
        ) by {
            assert(ps[a + 1] == rps[a]);
            assert(pc(ps[a + 1][b]));
        }
        lemma_split_char_classes(rest, sep, pc);
        assert forall|k: int| 0 <= k < s.len() implies s[k] == sep || pc(#[trigger] s[k]) by {
            if k < i {
                assert(ps[0][k] == piece[k]);
                assert(pc(ps[0][k]));
                assert(s[k] == piece[k]);
            } else if k == i {
            } else {
                assert(rest[k - i - 1] == s[k]);
                assert(rest[k - i - 1] == sep || pc(rest[k - i - 1]));
            }
        }
    }
}

proof fn lemma_count_empty_le_len(ps: Seq<Seq<char>>)
    ensures
        crate::addr::count_empty(ps) <= ps.len(),
    decreases ps.len(),
{
    if ps.len() > 0 {
        lemma_count_empty_le_len(ps.drop_last());
    }
}

proof fn lemma_count_empty_full(ps: Seq<Seq<char>>)
    requires
        crate::addr::count_empty(ps) == ps.len(),
    ensures
        forall|i: int| 0 <= i < ps.len() ==> (#[trigger] ps[i]).len() == 0,
    decreases ps.len(),
{
    if ps.len() > 0 {
        let t = ps.drop_last();
        lemma_count_empty_le_len(t);
        assert(crate::addr::count_empty(t) == t.len());
        lemma_count_empty_full(t);
        assert forall|i: int| 0 <= i < ps.len() implies (#[trigger] ps[i]).len() == 0 by {
            if i < ps.len() - 1 {
                assert(t[i] == ps[i]);
                assert(t[i].len() == 0);
            }
        }
    }
}

/// A character of an address: a hexadecimal digit, a dot, or a colon.
pub open spec fn is_addr_char(c: char) -> bool {
    crate::addr::is_hex_char(c) || c == '.' || c == ':'
}

proof fn lemma_addr_char_plain(c: char)
    requires
        is_addr_char(c),
    ensures
        !is_space_char(c),
        c != '\n',
        c != '#',
{
}

/// Every character of a valid IPv4 address is a digit or a dot.
proof fn lemma_ipv4_chars(s: Seq<char>)
    requires
        crate::addr::valid_ipv4(s),
    ensures
        forall|k: int| 0 <= k < s.len() ==> is_addr_char(#[trigger] s[k]),
        s.len() > 0,
{
    let ps = crate::text::split_char_spec(s, '.');
    assert forall|i: int, j: int|
        0 <= i < ps.len() && 0 <= j < (#[trigger] ps[i]).len() implies is_addr_char(
        #[trigger] ps[i][j],
    ) by {
        assert(crate::addr::valid_octet(ps[i]));
        assert(crate::addr::is_digit_char(ps[i][j]));
    }
    lemma_split_char_classes(s, '.', |c: char| is_addr_char(c));
    assert forall|k: int| 0 <= k < s.len() implies is_addr_char(#[trigger] s[k]) by {
        assert(s[k] == '.' || (|c: char| is_addr_char(c))(s[k]));
    }
    if s.len() == 0 {
        crate::text::lemma_first_sep_bounds(s, '.');
        assert(ps == seq![s]);
        assert(ps.len() == 1);
    }
}

/// Every character of a valid IP address is a digit, hexadecimal digit,
/// dot, or colon; in particular the address is nonempty and has no
/// whitespace, newline, or leading comment character.
pub proof fn lemma_valid_ip_shape(s: Seq<char>)
    requires
        valid_ip(s),
    ensures
        s.len() > 0,
        s[0] != '#',
        forall|k: int| 0 <= k < s.len() ==> !is_space_char(#[trigger] s[k]) && s[k] != '\n',
{
    if crate::addr::valid_ipv4(s) {
        lemma_ipv4_chars(s);
        assert forall|k: int|
            0 <= k < s.len() implies !is_space_char(#[trigger] s[k]) && s[k] != '\n' by {
            lemma_addr_char_plain(s[k]);
        }
        lemma_addr_char_plain(s[0]);
    } else {
        let ps = crate::text::split_char_spec(s, ':');
        // In every branch of the grammar, each piece is empty, a
        // hexadecimal group, or an embedded IPv4 address.
        assert forall|i: int|
            0 <= i < ps.len() implies ((#[trigger] ps[i]).len() == 0
            || crate::addr::valid_hex_group(ps[i]) || crate::addr::valid_ipv4(ps[i])) by {
            let n = ps.len() as int;
            let e = crate::addr::count_empty(ps);
            let f = crate::addr::first_empty_idx(ps);
            crate::addr::lemma_first_empty_bounds(ps);
            if e == 0 {
                assert(crate::addr::piece_run_ok(ps));
            } else if n == 3 && e == 3 {
                lemma_count_empty_full(ps);
            } else if n >= 3 && e == 2 && f == 0 && ps[1].len() == 0 {
                if i >= 2 {
                    assert(ps.skip(2)[i - 2] == ps[i]);
                    assert(crate::addr::piece_run_ok(ps.skip(2)));
                }
                if i == 0 {
                    assert(ps[0].len() == 0);
                }
            } else if n >= 3 && e == 2 && f == n - 2 && ps[n - 1].len() == 0 {
                if i < n - 2 {
                    assert(ps.take(n - 2)[i] == ps[i]);
                    assert(crate::addr::hex_run_ok(ps.take(n - 2)));
                }
                if i == n - 2 {
                    assert(ps[f] == ps[i]);
                }
            } else if e == 1 && 1 <= f < n - 1 {
                if i < f {
                    assert(ps.take(f)[i] == ps[i]);
                    assert(crate::addr::hex_run_ok(ps.take(f)));
                }
                if i > f {
                    assert(ps.skip(f + 1)[i - f - 1] == ps[i]);
                    assert(crate::addr::piece_run_ok(ps.skip(f + 1)));
                }
                if i == f {
                    assert(ps[f] == ps[i]);
                }
            }
        }
        assert forall|i: int, j: int|
            0 <= i < ps.len() && 0 <= j < (#[trigger] ps[i]).len() implies is_addr_char(
            #[trigger] ps[i][j],
        ) by {
            if crate::addr::valid_hex_group(ps[i]) {
                assert(crate::addr::is_hex_char(ps[i][j]));
            } else {
                assert(crate::addr::valid_ipv4(ps[i]));
                lemma_ipv4_chars(ps[i]);
            }
        }
        lemma_split_char_classes(s, ':', |c: char| is_addr_char(c));
        assert forall|k: int|
            0 <= k < s.len() implies !is_space_char(#[trigger] s[k]) && s[k] != '\n' by {
            assert(s[k] == ':' || (|c: char| is_addr_char(c))(s[k]));
            if s[k] != ':' {
                lemma_addr_char_plain(s[k]);
            }
        }
        if s.len() == 0 {
            crate::text::lemma_first_sep_bounds(s, ':');
            assert(ps == seq![s]);
            assert(crate::addr::count_empty(ps) == 1) by {
                assert(ps.drop_last() =~= Seq::<Seq<char>>::empty());
            }
            assert(crate::addr::first_empty_idx(ps) == 0);
            assert(!valid_ip(s));
        }
        assert(s[0] != '#');
    }
}

/// A validated binding has the shape the round trip preserves.
pub proof fn lemma_valid_binding_shape(b: BindingModel)
    requires
        valid_ip(b.ip),
        valid_domain(b.domain),
    ensures
        binding_shape_ok(b),
{
    lemma_valid_ip_shape(b.ip);
}

/// Two sorted binding lists with the same lookups are the same list: the
/// managed block is a function of the binding map alone.
pub proof fn lemma_sorted_same_lookups(b1: Seq<BindingModel>, b2: Seq<BindingModel>)
    requires
        binds_sorted(b1),
        binds_sorted(b2),
        forall|d: Seq<char>| #[trigger] lookup_spec(b1, d) == lookup_spec(b2, d),
    ensures
        b1 =~= b2,
    decreases b1.len() + b2.len(),
{
    if b1.len() == 0 && b2.len() == 0 {
    } else if b1.len() == 0 {
        crate::hosts::lemma_lookup_head(b2);
        assert(lookup_spec(b1, b2[0].domain) is None);
    } else if b2.len() == 0 {
        crate::hosts::lemma_lookup_head(b1);
        assert(lookup_spec(b2, b1[0].domain) is None);
    } else {
        crate::hosts::lemma_lookup_head(b1);
        crate::hosts::lemma_lookup_head(b2);
        lemma_str_lt_trichotomy(b1[0].domain, b2[0].domain);
        if str_lt(b1[0].domain, b2[0].domain) {
            crate::hosts::lemma_lookup_below_head(b2, b1[0].domain);
            assert(lookup_spec(b1, b1[0].domain) is Some);
        }
        if str_lt(b2[0].domain, b1[0].domain) {
            crate::hosts::lemma_lookup_below_head(b1, b2[0].domain);
            assert(lookup_spec(b2, b2[0].domain) is Some);
        }
        assert(b1[0].domain == b2[0].domain);
        assert(lookup_spec(b1, b1[0].domain) == Some(b1[0].ip));
        assert(lookup_spec(b2, b1[0].domain) == Some(b2[0].ip));
        assert(b1[0] == b2[0]);
        let t1 = b1.drop_first();
        let t2 = b2.drop_first();
        assert(seq![b1[0]] + t1 =~= b1);
        assert(seq![b2[0]] + t2 =~= b2);
        crate::hosts::lemma_sorted_cons_pub(b1[0], t1);
        crate::hosts::lemma_sorted_cons_pub(b2[0], t2);
        assert forall|d: Seq<char>| #[trigger] lookup_spec(t1, d) == lookup_spec(t2, d) by {
            if d == b1[0].domain {
                crate::hosts::lemma_lookup_above_all(t1, d);
                crate::hosts::lemma_lookup_above_all(t2, d);
            } else {
                assert(lookup_spec(b1, d) == lookup_spec(t1, d));
                assert(lookup_spec(b2, d) == lookup_spec(t2, d));
            }
        }
        lemma_sorted_same_lookups(t1, t2);
    }
}

} // verus!

verus! {

/// A hosts-file mutation, as an abstract operation on the model.
pub ghost enum HostsOp {
    Write { domain: Seq<char>, ip: Seq<char> },
    WriteBatch { items: Seq<BindingModel> },
    Clear { domain: Seq<char> },
    ClearBatch { domains: Seq<Seq<char>> },
    ClearAll,
}

/// A mutation that refers only to validated domain and address pairs.
pub open spec fn op_valid(op: HostsOp) -> bool {
    match op {
        HostsOp::Write { domain, ip } => valid_ip(ip) && valid_domain(domain),
        HostsOp::WriteBatch { items } => forall|i: int|
            0 <= i < items.len() ==> valid_ip((#[trigger] items[i]).ip) && valid_domain(
                items[i].domain,
            ),
        HostsOp::Clear { .. } => true,
        HostsOp::ClearBatch { .. } => true,
        HostsOp::ClearAll => true,
    }
}

/// The model after one mutation.
pub open spec fn apply_op(m: HostsModel, op: HostsOp) -> HostsModel {
    match op {
        HostsOp::Write { domain, ip } => model_upsert(m, domain, ip),
        HostsOp::WriteBatch { items } => crate::hosts::model_upsert_batch(m, items),
        HostsOp::Clear { domain } => model_remove(m, domain),
        HostsOp::ClearBatch { domains } => crate::hosts::model_remove_batch(m, domains),
        HostsOp::ClearAll => model_clear(m),
    }
}

/// The model after a whole sequence of mutations.
pub open spec fn apply_ops(m: HostsModel, ops: Seq<HostsOp>) -> HostsModel
    decreases ops.len(),
{
    if ops.len() == 0 {
        m
    } else {
        apply_ops(apply_op(m, ops[0]), ops.drop_first())
    }
}

/// A batch of upserts touches only the bindings.
proof fn lemma_upsert_batch_outside(m: HostsModel, items: Seq<BindingModel>)
    ensures
        crate::hosts::model_upsert_batch(m, items).before == m.before,
        crate::hosts::model_upsert_batch(m, items).after == m.after,
    decreases items.len(),
{
    if items.len() > 0 {
        lemma_upsert_batch_outside(model_upsert(m, items[0].domain, items[0].ip),
            items.drop_first());
    }
}

/// A batch of removals touches only the bindings.
proof fn lemma_remove_batch_outside(m: HostsModel, ds: Seq<Seq<char>>)
    ensures
        crate::hosts::model_remove_batch(m, ds).before == m.before,
        crate::hosts::model_remove_batch(m, ds).after == m.after,
    decreases ds.len(),
{
    if ds.len() > 0 {
        lemma_remove_batch_outside(model_remove(m, ds[0]), ds.drop_first());
    }
}

/// Sorted, well-shaped bindings stay sorted and well-shaped under a
/// validated upsert.
proof fn lemma_upsert_keeps_shape(bs: Seq<BindingModel>, d: Seq<char>, ip: Seq<char>)
    requires
        binds_sorted(bs),
        forall|i: int| 0 <= i < bs.len() ==> binding_shape_ok(#[trigger] bs[i]),
        valid_ip(ip),
        valid_domain(d),
    ensures
        binds_sorted(upsert_spec(bs, d, ip)),
        forall|i: int|
            0 <= i < upsert_spec(bs, d, ip).len() ==> binding_shape_ok(
                #[trigger] upsert_spec(bs, d, ip)[i],
            ),
{
    crate::hosts::lemma_upsert_props(bs, d, ip);
    let r = upsert_spec(bs, d, ip);
    assert forall|i: int| 0 <= i < r.len() implies binding_shape_ok(#[trigger] r[i]) by {
        crate::hosts::lemma_upsert_membership_pub(bs, d, ip, i);
        if r[i].domain == d {
            crate::hosts::lemma_upsert_values(bs, d, ip, i);
            lemma_valid_binding_shape(r[i]);
        } else {
            let j = choose|j: int| 0 <= j < bs.len() && bs[j] == r[i];
            assert(binding_shape_ok(bs[j]));
        }
    }
}

/// Sorted, well-shaped bindings stay so under a removal.
proof fn lemma_remove_keeps_shape(bs: Seq<BindingModel>, d: Seq<char>)
    requires
        binds_sorted(bs),
        forall|i: int| 0 <= i < bs.len() ==> binding_shape_ok(#[trigger] bs[i]),
    ensures
        binds_sorted(remove_spec(bs, d)),
        forall|i: int|
            0 <= i < remove_spec(bs, d).len() ==> binding_shape_ok(
                #[trigger] remove_spec(bs, d)[i],
            ),
{
    crate::hosts::lemma_remove_props(bs, d);
    let r = remove_spec(bs, d);
    assert forall|i: int| 0 <= i < r.len() implies binding_shape_ok(#[trigger] r[i]) by {
        crate::hosts::lemma_remove_membership_pub(bs, d, i);
        let j = choose|j: int| 0 <= j < bs.len() && bs[j] == r[i];
        assert(binding_shape_ok(bs[j]));
    }
}

/// One validated mutation preserves well-formedness and never touches the
/// lines outside the managed block, as long as the block stays nonempty.
proof fn lemma_apply_op_wf(m: HostsModel, op: HostsOp)
    requires
        wf_model(m),
        op_valid(op),
        m.binds.len() > 0,
        apply_op(m, op).binds.len() > 0,
    ensures
        wf_model(apply_op(m, op)),
        apply_op(m, op).before == m.before,
        apply_op(m, op).after == m.after,
{
    let r = apply_op(m, op);
    match op {
        HostsOp::Write { domain, ip } => {
            lemma_upsert_keeps_shape(m.binds, domain, ip);
        },
        HostsOp::WriteBatch { items } => {
            lemma_upsert_batch_outside(m, items);
            lemma_upsert_batch_wf(m, items);
        },
        HostsOp::Clear { domain } => {
            lemma_remove_keeps_shape(m.binds, domain);
        },
        HostsOp::ClearBatch { domains } => {
            lemma_remove_batch_outside(m, domains);
            lemma_remove_batch_wf(m, domains);
        },
        HostsOp::ClearAll => {},
    }
}

proof fn lemma_upsert_batch_wf(m: HostsModel, items: Seq<BindingModel>)
    requires
        binds_sorted(m.binds),
        forall|i: int| 0 <= i < m.binds.len() ==> binding_shape_ok(#[trigger] m.binds[i]),
        forall|i: int|
            0 <= i < items.len() ==> valid_ip((#[trigger] items[i]).ip) && valid_domain(
                items[i].domain,
            ),
    ensures
        binds_sorted(crate::hosts::model_upsert_batch(m, items).binds),
        forall|i: int|
            0 <= i < crate::hosts::model_upsert_batch(m, items).binds.len() ==> binding_shape_ok(
                #[trigger] crate::hosts::model_upsert_batch(m, items).binds[i],
            ),
    decreases items.len(),
{
    if items.len() > 0 {
        lemma_upsert_keeps_shape(m.binds, items[0].domain, items[0].ip);
        let m1 = model_upsert(m, items[0].domain, items[0].ip);
        let t = items.drop_first();
        assert(forall|i: int| 0 <= i < t.len() ==> t[i] == items[i + 1]);
        lemma_upsert_batch_wf(m1, t);
    }
}

proof fn lemma_remove_batch_wf(m: HostsModel, ds: Seq<Seq<char>>)
    requires
        binds_sorted(m.binds),
        forall|i: int| 0 <= i < m.binds.len() ==> binding_shape_ok(#[trigger] m.binds[i]),
    ensures
        binds_sorted(crate::hosts::model_remove_batch(m, ds).binds),
        forall|i: int|
            0 <= i < crate::hosts::model_remove_batch(m, ds).binds.len() ==> binding_shape_ok(
                #[trigger] crate::hosts::model_remove_batch(m, ds).binds[i],
            ),
    decreases ds.len(),
{
    if ds.len() > 0 {
        lemma_remove_keeps_shape(m.binds, ds[0]);
        lemma_remove_batch_wf(model_remove(m, ds[0]), ds.drop_first());
    }
}

/// Hosts preservation: a sequence of validated mutations never changes the
/// lines outside the managed block, keeps the model well-formed, and what
/// is finally written to disk re-parses to exactly the mutated model — so
/// the unmanaged content survives every rewrite byte for byte. The block
/// must stay nonempty throughout: the separating blank line around an
/// appearing or disappearing block is the one formatting change a rewrite
/// may make.
pub proof fn lemma_hosts_preservation(m: HostsModel, ops: Seq<HostsOp>)
    requires
        wf_model(m),
        forall|i: int| 0 <= i < ops.len() ==> op_valid(#[trigger] ops[i]),
        m.binds.len() > 0,
        forall|i: int|
            0 <= i < ops.len() ==> (#[trigger] apply_op(apply_ops(m, ops.take(i)),
                ops[i])).binds.len() > 0,
    ensures
        apply_ops(m, ops).before == m.before,
        apply_ops(m, ops).after == m.after,
        wf_model(apply_ops(m, ops)),
        parse_spec(render_spec(apply_ops(m, ops))).before == m.before,
        parse_spec(render_spec(apply_ops(m, ops))).after == m.after,
        parse_spec(render_spec(apply_ops(m, ops))).binds == apply_ops(m, ops).binds,
    decreases ops.len(),
{
    if ops.len() == 0 {
        lemma_parse_render(m);
    } else {
        assert(ops.take(0) =~= Seq::<HostsOp>::empty());
        assert(apply_ops(m, ops.take(0)) == m);
        assert(apply_op(m, ops[0]).binds.len() > 0);
        lemma_apply_op_wf(m, ops[0]);
        let m1 = apply_op(m, ops[0]);
        let t = ops.drop_first();
        assert(forall|i: int| 0 <= i < t.len() ==> t[i] == ops[i + 1]);
        assert forall|i: int|
            0 <= i < t.len() implies (#[trigger] apply_op(apply_ops(m1, t.take(i)),
                t[i])).binds.len() > 0 by {
            assert(ops.take(i + 1).drop_first() =~= t.take(i));
            assert(ops.take(i + 1)[0] == ops[0]);
            assert(apply_ops(m, ops.take(i + 1)) == apply_ops(m1, t.take(i)));
            assert(ops[i + 1] == t[i]);
            assert(apply_op(apply_ops(m, ops.take(i + 1)), ops[i + 1]).binds.len() > 0);
        }
        lemma_hosts_preservation(m1, t);
    }
}

/// Deterministic managed block: two sorted binding lists that represent the
/// same binding map are the very same list, so the rendered block — the
/// bindings in ascending domain order, one fixed-format line each — depends
/// only on the map of managed bindings.
pub proof fn lemma_deterministic_block(m1: HostsModel, m2: HostsModel)
    requires
        binds_sorted(m1.binds),
        binds_sorted(m2.binds),
        forall|d: Seq<char>|
            #[trigger] lookup_spec(m1.binds, d) == lookup_spec(m2.binds, d),
    ensures
        binding_lines(m1.binds) == binding_lines(m2.binds),
{
    lemma_sorted_same_lookups(m1.binds, m2.binds);
    assert(binding_lines(m1.binds) =~= binding_lines(m2.binds));
}

} // verus!

verus! {

/// Round trip through the broker: every mechanism — the privileged
/// service's dispatch, the helper child, and the in-process manager —
/// funnels a mutation into the same parse, upsert, render cycle, so after
/// a successful write of a validated pair, reading the domain back from
/// the written content returns exactly the address that was written.
pub proof fn lemma_write_read_roundtrip(c: Seq<char>, d: Seq<char>, ip: Seq<char>)
    requires
        wf_model(parse_spec(c)),
        valid_ip(ip),
        valid_domain(d),
        parse_spec(c).binds.len() > 0 || parse_spec(c).before.len() == 0,
    ensures
        crate::hosts::read_spec(render_spec(model_upsert(parse_spec(c), d, ip)), d) == Some(ip),
{
    let m = parse_spec(c);
    let m1 = model_upsert(m, d, ip);
    lemma_upsert_keeps_shape(m.binds, d, ip);
    crate::hosts::lemma_upsert_props(m.binds, d, ip);
    assert(m1.binds.len() > 0) by {
        if m1.binds.len() == 0 {
            assert(lookup_spec(m1.binds, d) is None);
        }
    }
    assert(wf_model(m1));
    lemma_parse_render(m1);
    assert(parse_spec(render_spec(m1)).binds == m1.binds);
    assert(lookup_spec(m1.binds, d) == Some(ip));
}

} // verus!

verus! {

/// Idempotent rewrite, stated on the bytes: re-parsing a rendered
/// well-formed model and rendering again changes nothing.
pub proof fn lemma_render_stable(m: HostsModel)
    requires
        wf_model(m),
    ensures
        render_spec(parse_spec(render_spec(m))) == render_spec(m),
{
    lemma_parse_render(m);
    let p = parse_spec(render_spec(m));
    assert(p == m) by {
        assert(p.before == m.before && p.after == m.after && p.binds == m.binds);
    }
}

} // verus!
