//! Filling placeholders: every `%name` of a command is replaced by the value
//! given for `name`.

use vstd::prelude::*;
use crate::text::{chars_of, string_of, views};
use crate::vars::{placeholders, parse_vars, NameRule, law_word_placeholder};
use crate::text::unicode_alphanumeric;

verus! {

/// `s` with every occurrence of `pat` replaced by `rep`, scanning from the
/// left and never overlapping two occurrences, as `str::replace` does; an
/// empty pattern occurs before every character and at the end.
pub open spec fn replace_all(s: Seq<char>, pat: Seq<char>, rep: Seq<char>) -> Seq<char>
    decreases s.len(),
{
    if s.len() == 0 {
        if pat.len() == 0 {
            rep
        } else {
            seq![]
        }
    } else if pat.len() == 0 {
        rep + seq![s[0]] + replace_all(s.skip(1), pat, rep)
    } else if pat.len() <= s.len() && s.take(pat.len() as int) == pat {
        rep + replace_all(s.skip(pat.len() as int), pat, rep)
    } else {
        seq![s[0]] + replace_all(s.skip(1), pat, rep)
    }
}

/// Whether `pat` occurs in `s` at position `i`.
fn occurs_at(s: &Vec<char>, i: usize, pat: &Vec<char>) -> (b: bool)
    requires
        i <= s.len(),
    ensures
        b == (i + pat.len() <= s.len() && s@.subrange(i as int, i + pat.len()) == pat@),
{
    if pat.len() > s.len() - i {
        return false;
    }
    let mut k: usize = 0;
    while k < pat.len()
        invariant
            i + pat.len() <= s.len(),
            k <= pat.len(),
            forall|m: int| 0 <= m < k ==> s@[i + m] == pat@[m],
        decreases pat.len() - k,
    {
        if s[i + k] != pat[k] {
            assert(s@.subrange(i as int, i + pat.len())[k as int] != pat@[k as int]);
            return false;
        }
        k += 1;
    }
    assert(s@.subrange(i as int, i + pat.len()) =~= pat@);
    true
}

/// Appends the characters of `cs`.
fn push_chars(out: &mut Vec<char>, cs: &Vec<char>)
    ensures
        final(out)@ == old(out)@ + cs@,
{
    let ghost before = out@;
    for k in 0..cs.len()
        invariant
            out@ == before + cs@.take(k as int),
    {
        out.push(cs[k]);
        assert(out@ =~= before + cs@.take(k + 1));
    }
    assert(cs@.take(cs.len() as int) =~= cs@);
}

/// `s` with `rep` put before every character and at the end: what
/// replacing the empty pattern gives.
fn interleave(s: &Vec<char>, rep: &Vec<char>) -> (out: Vec<char>)
    ensures
        out@ == replace_all(s@, Seq::<char>::empty(), rep@),
{
    let ghost pat = Seq::<char>::empty();
    let mut out: Vec<char> = Vec::new();
    let mut i: usize = 0;
    assert(s@.skip(0) == s@);
    while i < s.len()
        invariant
            i <= s.len(),
            pat == Seq::<char>::empty(),
            out@ + replace_all(s@.skip(i as int), pat, rep@) == replace_all(s@, pat, rep@),
        decreases s.len() - i,
    {
        let ghost rest = s@.skip(i as int);
        let ghost before = out@;
        push_chars(&mut out, rep);
        out.push(s[i]);
        assert(rest.skip(1) =~= s@.skip(i + 1));
        assert(rest[0] == s@[i as int]);
        assert(rest.len() > 0);
        assert(replace_all(rest, pat, rep@) == rep@ + seq![rest[0]] + replace_all(rest.skip(1), pat, rep@));
        assert(out@ + replace_all(s@.skip(i + 1), pat, rep@) =~= before + (rep@ + seq![rest[0]]
            + replace_all(rest.skip(1), pat, rep@)));
        i += 1;
    }
    assert(s@.skip(i as int) =~= seq![]);
    push_chars(&mut out, rep);
    out
}

/// `s` with every occurrence of `pat` replaced by `rep`.
pub fn replace_chars(s: &Vec<char>, pat: &Vec<char>, rep: &Vec<char>) -> (out: Vec<char>)
    ensures
        out@ == replace_all(s@, pat@, rep@),
{
    if pat.len() == 0 {
        assert(pat@ =~= Seq::<char>::empty());
        return interleave(s, rep);
    }
    let mut out: Vec<char> = Vec::new();
    let mut i: usize = 0;
    assert(s@.skip(0) == s@);
    while i < s.len()
        invariant
            pat.len() > 0,
            i <= s.len(),
            out@ + replace_all(s@.skip(i as int), pat@, rep@) == replace_all(s@, pat@, rep@),
        decreases s.len() - i,
    {
        let ghost rest = s@.skip(i as int);
        if occurs_at(s, i, pat) {
            assert(rest.take(pat.len() as int) =~= s@.subrange(i as int, i + pat.len()));
            assert(rest.skip(pat.len() as int) =~= s@.skip(i + pat.len()));
            let ghost before = out@;
            let mut k: usize = 0;
            while k < rep.len()
                invariant
                    k <= rep.len(),
                    out@ == before + rep@.take(k as int),
                decreases rep.len() - k,
            {
                out.push(rep[k]);
                k += 1;
                assert(out@ =~= before + rep@.take(k as int));
            }
            assert(rep@.take(rep.len() as int) == rep@);
            assert(out@ + replace_all(s@.skip(i + pat.len()), pat@, rep@) =~= before + (rep@
                + replace_all(rest.skip(pat.len() as int), pat@, rep@)));
            i = i + pat.len();
        } else {
            proof {
                if 0 < pat.len() <= rest.len() {
                    assert(rest.take(pat.len() as int) =~= s@.subrange(i as int, i + pat.len()));
                }
            }
            assert(rest.skip(1) =~= s@.skip(i + 1));
            assert(rest[0] == s@[i as int]);
            let ghost before = out@;
            out.push(s[i]);
            assert(out@ + replace_all(s@.skip(i + 1), pat@, rep@) =~= before + (seq![rest[0]]
                + replace_all(rest.skip(1), pat@, rep@)));
            i = i + 1;
        }
    }
    assert(s@.skip(i as int) =~= seq![]);
    assert(out@ + replace_all(s@.skip(i as int), pat@, rep@) =~= out@);
    out
}

/// `cmd` after replacing, for each pair `(name, value)` in turn, every
/// `%name` by `value`; only the first `k` pairs are applied.
pub open spec fn apply_pairs(cmd: Seq<char>, pairs: Seq<(Seq<char>, Seq<char>)>, k: int) -> Seq<
    char,
>
    decreases k,
{
    if k <= 0 {
        cmd
    } else {
        replace_all(
            apply_pairs(cmd, pairs, k - 1),
            seq!['%'] + pairs[k - 1].0,
            pairs[k - 1].1,
        )
    }
}

/// `cmd` after applying every pair of `pairs`, in order.
pub open spec fn substituted(cmd: Seq<char>, pairs: Seq<(Seq<char>, Seq<char>)>) -> Seq<char> {
    apply_pairs(cmd, pairs, pairs.len() as int)
}

/// The abstract contents of a list of name/value pairs.
pub open spec fn pair_views(pairs: Seq<(String, String)>) -> Seq<(Seq<char>, Seq<char>)> {
    pairs.map_values(|p: (String, String)| (p.0@, p.1@))
}

/// `cmd` with, for each pair `(name, value)` in the order given, every
/// `%name` replaced by `value`.
pub fn substitute_pairs(cmd: &str, pairs: &Vec<(String, String)>) -> (out: String)
    ensures
        out@ == substituted(cmd@, pair_views(pairs@)),
{
    let mut cur = chars_of(cmd);
    for k in 0..pairs.len()
        invariant
            cur@ == apply_pairs(cmd@, pair_views(pairs@), k as int),
    {
        let mut pat: Vec<char> = Vec::new();
        pat.push('%');
        let mut name = chars_of(pairs[k].0.as_str());
        pat.append(&mut name);
        let value = chars_of(pairs[k].1.as_str());
        assert(pat@ =~= seq!['%'] + pair_views(pairs@)[k as int].0);
        cur = replace_chars(&cur, &pat, &value);
    }
    string_of(&cur)
}

/// The placeholders of `vars` paired, by position, with the values of
/// `values`; placeholders without a value are left out.
pub open spec fn zip_values(vars: Seq<Seq<char>>, values: Seq<Seq<char>>) -> Seq<
    (Seq<char>, Seq<char>),
> {
    Seq::new(
        if vars.len() <= values.len() {
            vars.len()
        } else {
            values.len()
        },
        |i: int| (vars[i], values[i]),
    )
}

/// `cmd` with its `i`-th placeholder (see `parse_vars`) replaced by the
/// `i`-th value, for every placeholder that has a value.
pub fn substitute_vars(cmd: &str, values: &Vec<String>) -> (out: String)
    ensures
        out@ == substituted(cmd@, zip_values(placeholders(NameRule::Word, cmd@), views(values@))),
{
    let vars = parse_vars(cmd);
    let mut pairs: Vec<(String, String)> = Vec::new();
    let mut i: usize = 0;
    while i < vars.len() && i < values.len()
        invariant
            i <= vars.len(),
            i <= values.len(),
            views(vars@) == placeholders(NameRule::Word, cmd@),
            pair_views(pairs@) == zip_values(views(vars@), views(values@)).take(i as int),
        decreases vars.len() - i,
    {
        let ghost old_pairs = pairs@;
        let name = vars[i].clone();
        let value = values[i].clone();
        pairs.push((name, value));
        assert(pairs@ == old_pairs.push((name, value)));
        assert(pair_views(pairs@) =~= pair_views(old_pairs).push((vars@[i as int]@, values@[i as int]@)));
        i += 1;
        assert(pair_views(pairs@) =~= zip_values(views(vars@), views(values@)).take(i as int));
    }
    assert(zip_values(views(vars@), views(values@)).take(i as int) =~= zip_values(
        views(vars@),
        views(values@),
    ));
    substitute_pairs(cmd, &pairs)
}

proof fn lemma_replace_without_percent(s: Seq<char>, pat: Seq<char>, rep: Seq<char>)
    requires
        pat.len() > 0,
        pat[0] == '%',
        !s.contains('%'),
    ensures
        replace_all(s, pat, rep) == s,
    decreases s.len(),
{
    if s.len() > 0 {
        if s.take(pat.len() as int) == pat && pat.len() <= s.len() {
            assert(s[0] == s.take(pat.len() as int)[0]);
            assert(s.contains('%'));
        }
        let t = s.skip(1);
        assert(!t.contains('%')) by {
            if t.contains('%') {
                let k = choose|k: int| 0 <= k < t.len() && t[k] == '%';
                assert(s[k + 1] == '%');
            }
        }
        lemma_replace_without_percent(t, pat, rep);
        assert(seq![s[0]] + t =~= s);
    }
}

/// A command without any `%` is left as it is, whatever the values.
pub proof fn law_no_placeholder_unchanged(cmd: Seq<char>, pairs: Seq<(Seq<char>, Seq<char>)>, k: int)
    requires
        !cmd.contains('%'),
    ensures
        apply_pairs(cmd, pairs, k) == cmd,
    decreases k,
{
    if k > 0 {
        law_no_placeholder_unchanged(cmd, pairs, k - 1);
        let pat = seq!['%'] + pairs[k - 1].0;
        assert(pat[0] == '%');
        lemma_replace_without_percent(cmd, pat, pairs[k - 1].1);
    }
}

/// Values are paired with placeholders by position: as many pairs as the
/// shorter list has, the `i`-th pair being the `i`-th placeholder with the
/// `i`-th value, whatever that value is.
pub proof fn law_zip_values(vars: Seq<Seq<char>>, values: Seq<Seq<char>>)
    ensures
        zip_values(vars, values).len() == if vars.len() <= values.len() {
            vars.len()
        } else {
            values.len()
        },
        forall|i: int|
            0 <= i < zip_values(vars, values).len() ==> #[trigger] zip_values(vars, values)[i] == (
                vars[i],
                values[i],
            ),
{
}

/// A command that is just `%x`, or `%x` followed by a character that is
/// neither `%` nor a name character, becomes the value `v` given for it
/// (followed by that character), whatever `v` is, the empty value included.
pub proof fn law_fill_single(x: Seq<char>, v: Seq<char>, d: char)
    requires
        x.len() > 0,
        forall|k: int| 0 <= k < x.len() ==> unicode_alphanumeric(#[trigger] x[k]) || x[k] == '_',
        !unicode_alphanumeric(d),
        d != '_',
        d != '%',
    ensures
        substituted(seq!['%'] + x, zip_values(placeholders(NameRule::Word, seq!['%'] + x), seq![v]))
            == v,
        substituted(
            seq!['%'] + x + seq![d],
            zip_values(placeholders(NameRule::Word, seq!['%'] + x + seq![d]), seq![v]),
        ) == v + seq![d],
{
    law_word_placeholder(x, d);
    let pat = seq!['%'] + x;
    let pairs = seq![(x, v)];
    assert(zip_values(seq![x], seq![v]) =~= pairs);
    assert(pairs[0].0 == x);
    assert(seq!['%'] + pairs[0].0 == pat);
    let s1 = pat;
    assert(s1.take(pat.len() as int) =~= pat);
    assert(s1.skip(pat.len() as int) =~= Seq::<char>::empty());
    assert(replace_all(Seq::<char>::empty(), pat, v) =~= Seq::<char>::empty());
    assert(replace_all(s1, pat, v) =~= v);
    assert(apply_pairs(s1, pairs, 0) == s1);
    assert(substituted(s1, pairs) == v);
    let s2 = pat + seq![d];
    assert(s2.take(pat.len() as int) =~= pat);
    assert(s2.skip(pat.len() as int) =~= seq![d]);
    let rest = seq![d];
    assert(pat.len() > rest.len());
    assert(rest.skip(1) =~= Seq::<char>::empty());
    assert(replace_all(rest, pat, v) =~= seq![d]);
    assert(replace_all(s2, pat, v) =~= v + seq![d]);
    assert(apply_pairs(s2, pairs, 0) == s2);
    assert(substituted(s2, pairs) == v + seq![d]);
}

} // verus!
