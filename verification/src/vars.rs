//! Finding the `%name` placeholders of a command line.
//!
//! A placeholder is a `%` followed by a name. Two rules for names are in use:
//! a run of alphanumeric characters and underscores, or a run of characters
//! up to the next white space. The placeholders of a command are the distinct
//! non-empty names, in the order of their first occurrence. Which characters
//! may stand in a name is given as one flag per character, so that the
//! scanning is stated and proved apart from the character classes.

use vstd::prelude::*;
use crate::text::{ascii_letter, chars_of, push_char, is_alphanumeric, is_whitespace, unicode_alphanumeric, unicode_whitespace, views, contains_string};

verus! {

/// Which characters a placeholder name is made of.
#[derive(Clone, Copy, Debug, PartialEq, Eq)]
pub enum NameRule {
    /// Alphanumeric characters and `_`.
    Word,
    /// Any character but white space.
    NonSpace,
}

/// Whether `c` may stand in a name under `rule`.
pub open spec fn name_char(rule: NameRule, c: char) -> bool {
    match rule {
        NameRule::Word => unicode_alphanumeric(c) || c == '_',
        NameRule::NonSpace => !unicode_whitespace(c),
    }
}

/// Which ASCII characters may stand in a name under `rule`.
pub open spec fn ascii_name_char(rule: NameRule, c: char) -> bool {
    match rule {
        NameRule::Word => ascii_letter(c) || ('0' <= c && c <= '9') || c == '_',
        NameRule::NonSpace => !(c == ' ' || ('\t' <= c && c <= '\r')),
    }
}

/// Whether `c` may stand in a name under `rule`.
pub fn is_name_char(rule: NameRule, c: char) -> (b: bool)
    ensures
        b == name_char(rule, c),
        c <= '\x7f' ==> (b == ascii_name_char(rule, c)),
        rule is Word ==> (b <==> (unicode_alphanumeric(c) || c == '_')),
        rule is NonSpace ==> (b <==> !unicode_whitespace(c)),
        rule is Word && c <= '\x7f' ==> (b <==> (('A' <= c && c <= 'Z') || ('a' <= c && c
            <= 'z') || ('0' <= c && c <= '9') || c == '_')),
        rule is NonSpace && c <= '\x7f' ==> (b <==> !(c == ' ' || ('\t' <= c && c <= '\r'))),
{
    match rule {
        NameRule::Word => is_alphanumeric(c) || c == '_',
        NameRule::NonSpace => !is_whitespace(c),
    }
}

/// One flag per character of `s`: whether it may stand in a name under
/// `rule`.
pub open spec fn class_flags(rule: NameRule, s: Seq<char>) -> Seq<bool> {
    Seq::new(s.len(), |i: int| name_char(rule, s[i]))
}

/// The length of the run of flagged characters of `s` that starts at `i`.
pub open spec fn run_len(s: Seq<char>, f: Seq<bool>, i: int) -> nat
    decreases s.len() - i,
{
    if 0 <= i < s.len() && i < f.len() && f[i] {
        1 + run_len(s, f, i + 1)
    } else {
        0
    }
}

/// A run of flagged characters never leaves the text, and all its
/// characters are flagged.
pub proof fn lemma_run_len_bound(s: Seq<char>, f: Seq<bool>, i: int)
    requires
        0 <= i <= s.len(),
    ensures
        i + run_len(s, f, i) <= s.len(),
        run_len(s, f, i) > 0 ==> i + run_len(s, f, i) <= f.len(),
        forall|k: int| i <= k < i + run_len(s, f, i) ==> flag_at(f, k),
    decreases s.len() - i,
{
    if i < s.len() && i < f.len() && f[i] {
        lemma_run_len_bound(s, f, i + 1);
        assert(flag_at(f, i));
    }
}

/// Whether the `k`-th flag of `f` is set.
pub open spec fn flag_at(f: Seq<bool>, k: int) -> bool {
    0 <= k < f.len() && f[k]
}

/// The run of flagged characters from `a` to `j` is the whole run at `a`.
proof fn lemma_run_len_run(s: Seq<char>, f: Seq<bool>, a: int, j: int)
    requires
        0 <= a <= j <= s.len(),
        j <= f.len(),
        forall|k: int| a <= k < j ==> #[trigger] f[k],
        j == s.len() || j == f.len() || !f[j],
    ensures
        run_len(s, f, a) == j - a,
    decreases j - a,
{
    if a < j {
        lemma_run_len_run(s, f, a + 1, j);
    }
}

/// Every placeholder name met while scanning `s` from position `i`, in order,
/// repeats included, where `f` flags the characters that may stand in a name.
pub open spec fn names_from(s: Seq<char>, f: Seq<bool>, i: int) -> Seq<Seq<char>>
    decreases s.len() - i,
{
    if 0 <= i < s.len() {
        if s[i] == '%' {
            let n = run_len(s, f, i + 1);
            proof {
                lemma_run_len_bound(s, f, i + 1);
            }
            let rest = names_from(s, f, i + 1 + n);
            if n > 0 {
                seq![s.subrange(i + 1, i + 1 + n)] + rest
            } else {
                rest
            }
        } else {
            names_from(s, f, i + 1)
        }
    } else {
        seq![]
    }
}

/// `s` without its repeats: each element where it first occurs.
pub open spec fn dedup<A>(s: Seq<A>) -> Seq<A>
    decreases s.len(),
{
    if s.len() == 0 {
        seq![]
    } else {
        let d = dedup(s.drop_last());
        if d.contains(s.last()) {
            d
        } else {
            d.push(s.last())
        }
    }
}

/// The distinct placeholder names of `s`, where `f` flags the characters
/// that may stand in a name.
pub open spec fn flagged_names(s: Seq<char>, f: Seq<bool>) -> Seq<Seq<char>> {
    dedup(names_from(s, f, 0))
}

/// Every placeholder name of `s` under `rule`, in order, repeats included.
pub open spec fn occurrences(rule: NameRule, s: Seq<char>) -> Seq<Seq<char>> {
    names_from(s, class_flags(rule, s), 0)
}

/// The placeholders of `s` under `rule`.
pub open spec fn placeholders(rule: NameRule, s: Seq<char>) -> Seq<Seq<char>> {
    flagged_names(s, class_flags(rule, s))
}

/// No element of `s` occurs twice.
pub open spec fn no_repeats<A>(s: Seq<A>) -> bool {
    forall|i: int, j: int| 0 <= i < j < s.len() ==> s[i] != s[j]
}

proof fn lemma_dedup<A>(s: Seq<A>)
    ensures
        no_repeats(dedup(s)),
        forall|x: A| dedup(s).contains(x) <==> s.contains(x),
    decreases s.len(),
{
    if s.len() > 0 {
        let t = s.drop_last();
        lemma_dedup(t);
        assert forall|x: A| s.contains(x) <==> (t.contains(x) || x == s.last()) by {
            if s.contains(x) {
                let k = choose|k: int| 0 <= k < s.len() && s[k] == x;
                if k < s.len() - 1 {
                    assert(t[k] == x);
                }
            }
            if t.contains(x) {
                let k = choose|k: int| 0 <= k < t.len() && t[k] == x;
                assert(s[k] == x);
            }
            if x == s.last() {
                assert(s[s.len() - 1] == x);
            }
        }
        let d = dedup(t);
        if !d.contains(s.last()) {
            let e = d.push(s.last());
            assert forall|x: A| e.contains(x) <==> (d.contains(x) || x == s.last()) by {
                if e.contains(x) {
                    let k = choose|k: int| 0 <= k < e.len() && e[k] == x;
                    if k < d.len() {
                        assert(d[k] == x);
                    }
                }
                if d.contains(x) {
                    let k = choose|k: int| 0 <= k < d.len() && d[k] == x;
                    assert(e[k] == x);
                }
                if x == s.last() {
                    assert(e[d.len() as int] == x);
                }
            }
            assert forall|i: int, j: int| 0 <= i < j < e.len() implies e[i] != e[j] by {
                if j == d.len() {
                    assert(d[i] == e[i]);
                }
            }
        }
    }
}

/// `x` follows the `%` at position `p` of `s`.
pub open spec fn placed_at(s: Seq<char>, p: int, x: Seq<char>) -> bool {
    0 <= p && p + 1 + x.len() <= s.len() && s[p] == '%' && s.subrange(p + 1, p + 1 + x.len()) == x
}

/// `x` follows the `%` at position `p` of `s` and all its characters are
/// flagged.
pub open spec fn placed_run(s: Seq<char>, f: Seq<bool>, p: int, x: Seq<char>) -> bool {
    &&& placed_at(s, p, x)
    &&& forall|k: int| p + 1 <= k < p + 1 + x.len() ==> flag_at(f, k)
}

/// `x` is a non-empty run of flagged characters that follows a `%` in `s`.
pub open spec fn well_placed(s: Seq<char>, f: Seq<bool>, x: Seq<char>) -> bool {
    &&& x.len() > 0
    &&& exists|p: int| #[trigger] placed_run(s, f, p, x)
}

/// Every name met while scanning from `i` is well placed.
proof fn lemma_names_shape(s: Seq<char>, f: Seq<bool>, i: int)
    requires
        0 <= i,
    ensures
        forall|k: int|
            0 <= k < names_from(s, f, i).len() ==> well_placed(
                s,
                f,
                #[trigger] names_from(s, f, i)[k],
            ),
    decreases s.len() - i,
{
    if 0 <= i < s.len() {
        if s[i] == '%' {
            let n = run_len(s, f, i + 1);
            lemma_run_len_bound(s, f, i + 1);
            lemma_names_shape(s, f, i + 1 + n);
            let rest = names_from(s, f, i + 1 + n);
            if n > 0 {
                let x = s.subrange(i + 1, i + 1 + n);
                assert(placed_run(s, f, i, x));
                assert forall|k: int| 0 <= k < (seq![x] + rest).len() implies well_placed(
                    s,
                    f,
                    #[trigger] (seq![x] + rest)[k],
                ) by {
                    if k > 0 {
                        assert((seq![x] + rest)[k] == rest[k - 1]);
                    }
                }
                assert(names_from(s, f, i) == seq![x] + rest);
            } else {
                assert(names_from(s, f, i) == rest);
            }
        } else {
            lemma_names_shape(s, f, i + 1);
            assert(names_from(s, f, i) == names_from(s, f, i + 1));
        }
    }
}

/// No name is listed twice; a name is listed exactly when it occurs in the
/// text; and each listed name is a non-empty run of flagged characters that
/// follows a `%` in the text.
pub proof fn law_flagged_names(s: Seq<char>, f: Seq<bool>)
    ensures
        no_repeats(flagged_names(s, f)),
        forall|x: Seq<char>| flagged_names(s, f).contains(x) <==> names_from(s, f, 0).contains(x),
        forall|k: int|
            0 <= k < flagged_names(s, f).len() ==> well_placed(
                s,
                f,
                #[trigger] flagged_names(s, f)[k],
            ),
{
    lemma_dedup(names_from(s, f, 0));
    lemma_names_shape(s, f, 0);
    assert forall|k: int| 0 <= k < flagged_names(s, f).len() implies well_placed(
        s,
        f,
        #[trigger] flagged_names(s, f)[k],
    ) by {
        let x = flagged_names(s, f)[k];
        assert(flagged_names(s, f).contains(x));
        assert(names_from(s, f, 0).contains(x));
        let j = choose|j: int| 0 <= j < names_from(s, f, 0).len() && names_from(s, f, 0)[j] == x;
        assert(well_placed(s, f, names_from(s, f, 0)[j]));
    }
}

/// No placeholder is listed twice; a name is listed exactly when it occurs in
/// the text; and each listed name is non-empty, is made of name characters,
/// and follows a `%` in the text.
pub proof fn law_placeholders(rule: NameRule, s: Seq<char>)
    ensures
        no_repeats(placeholders(rule, s)),
        forall|x: Seq<char>|
            placeholders(rule, s).contains(x) <==> occurrences(rule, s).contains(x),
        forall|k: int|
            0 <= k < placeholders(rule, s).len() ==> {
                let x = #[trigger] placeholders(rule, s)[k];
                &&& x.len() > 0
                &&& forall|m: int| 0 <= m < x.len() ==> name_char(rule, #[trigger] x[m])
                &&& exists|p: int| #[trigger] placed_at(s, p, x)
            },
{
    let f = class_flags(rule, s);
    law_flagged_names(s, f);
    assert forall|k: int| 0 <= k < placeholders(rule, s).len() implies {
        let x = #[trigger] placeholders(rule, s)[k];
        &&& x.len() > 0
        &&& forall|m: int| 0 <= m < x.len() ==> name_char(rule, #[trigger] x[m])
        &&& exists|p: int| #[trigger] placed_at(s, p, x)
    } by {
        let x = placeholders(rule, s)[k];
        assert(well_placed(s, f, x));
        let p = choose|p: int| #[trigger] placed_run(s, f, p, x);
        assert(placed_at(s, p, x));
        assert forall|m: int| 0 <= m < x.len() implies name_char(rule, #[trigger] x[m]) by {
            assert(flag_at(f, p + 1 + m));
            assert(x[m] == s.subrange(p + 1, p + 1 + x.len())[m]);
        }
    }
}

/// The elements of `q` that `p` does not hold, in order.
pub open spec fn keep_new<A>(q: Seq<A>, p: Seq<A>) -> Seq<A>
    decreases q.len(),
{
    if q.len() == 0 {
        seq![]
    } else {
        let r = keep_new(q.drop_last(), p);
        if p.contains(q.last()) {
            r
        } else {
            r.push(q.last())
        }
    }
}

proof fn lemma_contains_concat<A>(p: Seq<A>, q: Seq<A>, x: A)
    ensures
        (p + q).contains(x) <==> p.contains(x) || q.contains(x),
{
    if (p + q).contains(x) {
        let k = choose|k: int| 0 <= k < (p + q).len() && (p + q)[k] == x;
        if k < p.len() {
            assert(p[k] == x);
        } else {
            assert(q[k - p.len()] == x);
        }
    }
    if p.contains(x) {
        let k = choose|k: int| 0 <= k < p.len() && p[k] == x;
        assert((p + q)[k] == x);
    }
    if q.contains(x) {
        let k = choose|k: int| 0 <= k < q.len() && q[k] == x;
        assert((p + q)[p.len() + k] == x);
    }
}

/// Without repeats, `p` followed by `q` is `p` without repeats followed by
/// the new elements of `q` without repeats.
proof fn lemma_dedup_concat<A>(p: Seq<A>, q: Seq<A>)
    ensures
        dedup(p + q) == dedup(p) + keep_new(dedup(q), dedup(p)),
    decreases q.len(),
{
    if q.len() == 0 {
        assert(p + q =~= p);
        assert(dedup(p) + keep_new(dedup(q), dedup(p)) =~= dedup(p));
    } else {
        let q1 = q.drop_last();
        let x = q.last();
        lemma_dedup_concat(p, q1);
        lemma_dedup(p);
        lemma_dedup(q1);
        lemma_dedup(p + q1);
        lemma_contains_concat(p, q1, x);
        assert((p + q).drop_last() =~= p + q1);
        assert((p + q).last() == x);
        let dp = dedup(p);
        let d = dedup(p + q1);
        let e = dedup(q1);
        assert(e.push(x).drop_last() =~= e);
        if p.contains(x) {
            assert(keep_new(dedup(q), dp) == keep_new(e, dp));
        } else if q1.contains(x) {
            assert(dedup(q) == e);
        } else {
            assert(dedup(q) == e.push(x));
            assert(keep_new(dedup(q), dp) == keep_new(e, dp).push(x));
            assert(dp + keep_new(e, dp).push(x) =~= (dp + keep_new(e, dp)).push(x));
        }
    }
}

/// A run of flags read after a prefix is the run read in the rest.
proof fn lemma_run_len_shift(pre: Seq<char>, fp: Seq<bool>, s: Seq<char>, f: Seq<bool>, i: int)
    requires
        pre.len() == fp.len(),
        0 <= i <= s.len(),
    ensures
        run_len(pre + s, fp + f, pre.len() + i) == run_len(s, f, i),
    decreases s.len() - i,
{
    if i < s.len() {
        lemma_run_len_shift(pre, fp, s, f, i + 1);
        assert((pre + s)[pre.len() + i] == s[i]);
        if i < f.len() {
            assert((fp + f)[pre.len() + i] == f[i]);
        }
    }
}

/// Scanning after a prefix finds what scanning the rest finds.
proof fn lemma_names_shift(pre: Seq<char>, fp: Seq<bool>, s: Seq<char>, f: Seq<bool>, i: int)
    requires
        pre.len() == fp.len(),
        0 <= i <= s.len(),
    ensures
        names_from(pre + s, fp + f, pre.len() + i) == names_from(s, f, i),
    decreases s.len() - i,
{
    let j = pre + s;
    let g = fp + f;
    let o = pre.len() as int;
    if i < s.len() {
        assert(j[o + i] == s[i]);
        if s[i] == '%' {
            let n = run_len(s, f, i + 1);
            lemma_run_len_shift(pre, fp, s, f, i + 1);
            lemma_run_len_bound(s, f, i + 1);
            lemma_names_shift(pre, fp, s, f, i + 1 + n);
            assert(j.subrange(o + i + 1, o + i + 1 + n) =~= s.subrange(i + 1, i + 1 + n));
            assert(names_from(j, g, o + i + 1 + n) == names_from(s, f, i + 1 + n));
        } else {
            lemma_names_shift(pre, fp, s, f, i + 1);
        }
    }
}

/// A run of flags that starts within `a` stops at the unflagged separator.
proof fn lemma_run_len_prefix(a: Seq<char>, fa: Seq<bool>, j: Seq<char>, g: Seq<bool>, i: int)
    requires
        a.len() == fa.len(),
        0 <= i <= a.len(),
        j.len() > a.len(),
        g.len() > a.len(),
        j.subrange(0, a.len() as int) == a,
        g.subrange(0, a.len() as int) == fa,
        !g[a.len() as int],
    ensures
        run_len(j, g, i) == run_len(a, fa, i),
    decreases a.len() - i,
{
    if i < a.len() {
        lemma_run_len_prefix(a, fa, j, g, i + 1);
        assert(g[i] == g.subrange(0, a.len() as int)[i]);
    }
}

/// Scanning a text made of `a`, a separator that is neither `%` nor flagged,
/// and more, finds the names of `a` and then those after the separator.
proof fn lemma_names_prefix(a: Seq<char>, fa: Seq<bool>, j: Seq<char>, g: Seq<bool>, i: int)
    requires
        a.len() == fa.len(),
        0 <= i <= a.len(),
        j.len() > a.len(),
        g.len() > a.len(),
        j.subrange(0, a.len() as int) == a,
        g.subrange(0, a.len() as int) == fa,
        !g[a.len() as int],
        j[a.len() as int] != '%',
    ensures
        names_from(j, g, i) == names_from(a, fa, i) + names_from(j, g, a.len() + 1int),
    decreases a.len() - i,
{
    if i == a.len() {
        assert(names_from(a, fa, i) =~= Seq::<Seq<char>>::empty());
        assert(names_from(j, g, i) == names_from(j, g, i + 1));
        assert(names_from(j, g, i) =~= names_from(a, fa, i) + names_from(j, g, a.len() + 1int));
    } else {
        assert(j[i] == a[i]);
        if a[i] == '%' {
            let n = run_len(a, fa, i + 1);
            lemma_run_len_prefix(a, fa, j, g, i + 1);
            lemma_run_len_bound(a, fa, i + 1);
            lemma_names_prefix(a, fa, j, g, i + 1 + n);
            assert(j.subrange(i + 1, i + 1 + n) =~= a.subrange(i + 1, i + 1 + n));
            let x = a.subrange(i + 1, i + 1 + n);
            let ra = names_from(a, fa, i + 1 + n);
            let rj = names_from(j, g, a.len() + 1int);
            if n > 0 {
                assert(seq![x] + (ra + rj) =~= (seq![x] + ra) + rj);
            }
        } else {
            lemma_names_prefix(a, fa, j, g, i + 1);
        }
    }
}

/// The names found in `a`, a separator that is neither `%` nor flagged, and
/// `b` are those found in `a` followed by those found in `b`.
pub proof fn lemma_names_join(a: Seq<char>, fa: Seq<bool>, c: char, b: Seq<char>, fb: Seq<bool>)
    requires
        a.len() == fa.len(),
        c != '%',
    ensures
        names_from(a + seq![c] + b, fa + seq![false] + fb, 0) == names_from(a, fa, 0)
            + names_from(b, fb, 0),
{
    let j = a + seq![c] + b;
    let g = fa + seq![false] + fb;
    assert(j.subrange(0, a.len() as int) =~= a);
    assert(g.subrange(0, a.len() as int) =~= fa);
    lemma_names_prefix(a, fa, j, g, 0);
    assert(j =~= (a + seq![c]) + b);
    assert(g =~= (fa + seq![false]) + fb);
    lemma_names_shift(a + seq![c], fa + seq![false], b, fb, 0);
}

/// The placeholders of two texts joined by a space are the placeholders of
/// the first, followed by those of the second that the first does not have,
/// in their order. This rests on the space not being a name character, which
/// `is_name_char` reports for either rule.
pub proof fn law_join(rule: NameRule, a: Seq<char>, b: Seq<char>)
    requires
        !name_char(rule, ' '),
    ensures
        placeholders(rule, a + seq![' '] + b) == placeholders(rule, a) + keep_new(
            placeholders(rule, b),
            placeholders(rule, a),
        ),
{
    let j = a + seq![' '] + b;
    assert(class_flags(rule, j) =~= class_flags(rule, a) + seq![false] + class_flags(rule, b));
    lemma_names_join(a, class_flags(rule, a), ' ', b, class_flags(rule, b));
    lemma_dedup_concat(
        names_from(a, class_flags(rule, a), 0),
        names_from(b, class_flags(rule, b), 0),
    );
}

/// A text that is a `%`, the name `w`, and then at most one character that
/// cannot stand in a name has `w` as its only placeholder.
proof fn lemma_single_name(rule: NameRule, w: Seq<char>, tail: Seq<char>)
    requires
        w.len() > 0,
        forall|k: int| 0 <= k < w.len() ==> name_char(rule, #[trigger] w[k]),
        tail.len() <= 1,
        tail.len() == 1 ==> !name_char(rule, tail[0]),
    ensures
        placeholders(rule, seq!['%'] + w + tail) == seq![w],
{
    let s = seq!['%'] + w + tail;
    let f = class_flags(rule, s);
    let j: int = w.len() + 1int;
    assert forall|k: int| 1 <= k < j implies #[trigger] f[k] by {
        assert(s[k] == w[k - 1]);
    }
    if tail.len() == 1 {
        assert(s[j] == tail[0]);
    }
    lemma_run_len_run(s, f, 1, j);
    assert(s.subrange(1, j) =~= w);
    assert(names_from(s, f, 0) == seq![w] + names_from(s, f, j));
    if tail.len() == 1 {
        if s[j] == '%' {
            assert(run_len(s, f, j + 1) == 0);
            assert(names_from(s, f, j + 1) =~= Seq::<Seq<char>>::empty());
        } else {
            assert(names_from(s, f, j + 1) =~= Seq::<Seq<char>>::empty());
        }
    }
    assert(names_from(s, f, j) =~= Seq::<Seq<char>>::empty());
    assert(names_from(s, f, 0) =~= seq![w]);
    assert(seq![w].drop_last() =~= Seq::<Seq<char>>::empty());
    assert(dedup(Seq::<Seq<char>>::empty()) =~= Seq::<Seq<char>>::empty());
    assert(dedup(seq![w]) =~= seq![w]);
}

/// Under the word rule, `%` followed by a non-empty run `w` of alphanumeric
/// characters and underscores gives exactly `w` as placeholder, whether the
/// text ends there or goes on with a character that is neither.
pub proof fn law_word_placeholder(w: Seq<char>, d: char)
    requires
        w.len() > 0,
        forall|k: int| 0 <= k < w.len() ==> unicode_alphanumeric(#[trigger] w[k]) || w[k] == '_',
        !unicode_alphanumeric(d),
        d != '_',
    ensures
        placeholders(NameRule::Word, seq!['%'] + w) == seq![w],
        placeholders(NameRule::Word, seq!['%'] + w + seq![d]) == seq![w],
{
    lemma_single_name(NameRule::Word, w, seq![d]);
    lemma_single_name(NameRule::Word, w, Seq::<char>::empty());
    assert(seq!['%'] + w + Seq::<char>::empty() =~= seq!['%'] + w);
}

/// Under the rule that names run up to white space, `%` followed by a
/// non-empty run `w` of characters that are not white space gives exactly
/// `w` as placeholder, whether the text ends there or goes on with white
/// space.
pub proof fn law_space_placeholder(w: Seq<char>, d: char)
    requires
        w.len() > 0,
        forall|k: int| 0 <= k < w.len() ==> !unicode_whitespace(#[trigger] w[k]),
        unicode_whitespace(d),
    ensures
        placeholders(NameRule::NonSpace, seq!['%'] + w) == seq![w],
        placeholders(NameRule::NonSpace, seq!['%'] + w + seq![d]) == seq![w],
{
    lemma_single_name(NameRule::NonSpace, w, seq![d]);
    lemma_single_name(NameRule::NonSpace, w, Seq::<char>::empty());
    assert(seq!['%'] + w + Seq::<char>::empty() =~= seq!['%'] + w);
}

/// The distinct placeholder names of `text`, in order of first occurrence,
/// where `flags[i]` says whether the `i`-th character may stand in a name.
pub fn placeholders_with_flags(text: &str, flags: &Vec<bool>) -> (vars: Vec<String>)
    ensures
        views(vars@) == flagged_names(text@, flags@),
{
    let cs = chars_of(text);
    let mut vars: Vec<String> = Vec::new();
    let ghost mut found: Seq<Seq<char>> = seq![];
    let mut i: usize = 0;
    assert(views(vars@) =~= dedup(found));
    while i < cs.len()
        invariant
            cs@ == text@,
            i <= cs.len(),
            names_from(cs@, flags@, 0) == found + names_from(cs@, flags@, i as int),
            views(vars@) == dedup(found),
        decreases cs.len() - i,
    {
        if cs[i] == '%' {
            let mut name = String::new();
            let mut j: usize = i + 1;
            while j < cs.len() && j < flags.len() && flags[j]
                invariant
                    i < j <= cs.len(),
                    j <= flags.len() || j == i + 1,
                    name@ == cs@.subrange(i + 1, j as int),
                    forall|k: int| i + 1 <= k < j ==> #[trigger] flags@[k],
                decreases cs.len() - j,
            {
                push_char(&mut name, cs[j]);
                j += 1;
                assert(name@ =~= cs@.subrange(i + 1, j as int));
            }
            proof {
                if j == i + 1 {
                    assert(run_len(cs@, flags@, i + 1) == 0);
                } else {
                    lemma_run_len_run(cs@, flags@, i + 1, j as int);
                }
            }
            if j > i + 1 {
                let ghost old_found = found;
                proof {
                    found = found.push(name@);
                    assert(old_found + names_from(cs@, flags@, i as int) =~= found + names_from(
                        cs@,
                        flags@,
                        j as int,
                    ));
                    assert(found.drop_last() =~= old_found);
                }
                if !contains_string(&vars, &name) {
                    vars.push(name);
                    assert(views(vars@) =~= dedup(old_found).push(cs@.subrange(i + 1, j as int)));
                }
            }
            i = j;
        } else {
            i += 1;
        }
    }
    assert(found =~= found + names_from(cs@, flags@, i as int));
    vars
}

/// The distinct placeholder names of `text` under `rule`, in order of first
/// occurrence.
pub fn scan_placeholders(text: &str, rule: NameRule) -> (vars: Vec<String>)
    ensures
        views(vars@) == placeholders(rule, text@),
{
    let cs = chars_of(text);
    let mut flags: Vec<bool> = Vec::new();
    for i in 0..cs.len()
        invariant
            cs@ == text@,
            flags@ == class_flags(rule, cs@).take(i as int),
    {
        let b = is_name_char(rule, cs[i]);
        flags.push(b);
        assert(flags@ =~= class_flags(rule, cs@).take(i + 1));
    }
    assert(flags@ =~= class_flags(rule, text@));
    placeholders_with_flags(text, &flags)
}

/// The distinct `%name` placeholders of `text`, where a name is a run of
/// alphanumeric characters and underscores, in order of first occurrence.
pub fn parse_vars(text: &str) -> (vars: Vec<String>)
    ensures
        views(vars@) == placeholders(NameRule::Word, text@),
{
    scan_placeholders(text, NameRule::Word)
}

/// The distinct `%name` placeholders of `text`, where a name runs up to the
/// next white space, in order of first occurrence.
pub fn parse_vars_until_space(text: &str) -> (vars: Vec<String>)
    ensures
        views(vars@) == placeholders(NameRule::NonSpace, text@),
{
    scan_placeholders(text, NameRule::NonSpace)
}

} // verus!
