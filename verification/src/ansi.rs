//! Removing terminal escape sequences from command output.
//!
//! An escape character followed by `[` starts a control sequence that runs up
//! to and including the first ASCII letter (or to the end of the text); such a
//! sequence is dropped whole. An escape character not followed by `[` is
//! dropped alone. Every other character is kept.

use vstd::prelude::*;
use crate::text::{ascii_letter, chars_of, is_ascii_letter, push_char};

verus! {

/// The escape character.
pub open spec fn esc() -> char {
    '\x1b'
}

/// The position just past the first ASCII letter at or after `j`, or the end
/// of `s` when there is none.
pub open spec fn sequence_end(s: Seq<char>, j: int) -> int
    decreases s.len() - j,
{
    if 0 <= j < s.len() {
        if ascii_letter(s[j]) {
            j + 1
        } else {
            sequence_end(s, j + 1)
        }
    } else {
        s.len() as int
    }
}

/// A control sequence ends within the text, past where it starts, and holds
/// no ASCII letter but its last character.
pub proof fn lemma_sequence_end(s: Seq<char>, j: int)
    requires
        0 <= j <= s.len(),
    ensures
        j <= sequence_end(s, j) <= s.len(),
        j < s.len() ==> j < sequence_end(s, j),
        forall|k: int| j <= k < sequence_end(s, j) - 1 ==> !ascii_letter(#[trigger] s[k]),
    decreases s.len() - j,
{
    if j < s.len() && !ascii_letter(s[j]) {
        lemma_sequence_end(s, j + 1);
    }
}

/// The characters of `s` from position `i` on, with escape sequences removed.
pub open spec fn stripped_from(s: Seq<char>, i: int) -> Seq<char>
    decreases s.len() - i,
{
    if 0 <= i < s.len() {
        if s[i] == esc() {
            if i + 1 < s.len() && s[i + 1] == '[' {
                proof {
                    lemma_sequence_end(s, i + 2);
                }
                stripped_from(s, sequence_end(s, i + 2))
            } else {
                stripped_from(s, i + 1)
            }
        } else {
            seq![s[i]] + stripped_from(s, i + 1)
        }
    } else {
        seq![]
    }
}

/// `s` with its escape sequences removed.
pub open spec fn stripped(s: Seq<char>) -> Seq<char> {
    stripped_from(s, 0)
}

/// `s` with its terminal escape sequences removed.
pub fn strip_ansi(s: &str) -> (out: String)
    ensures
        out@ == stripped(s@),
{
    let cs = chars_of(s);
    let mut out = String::new();
    let mut i: usize = 0;
    while i < cs.len()
        invariant
            cs@ == s@,
            i <= cs.len(),
            out@ + stripped_from(cs@, i as int) == stripped(cs@),
        decreases cs.len() - i,
    {
        if cs[i] == '\x1b' {
            if i + 1 < cs.len() && cs[i + 1] == '[' {
                let mut j: usize = i + 2;
                proof {
                    lemma_sequence_end(cs@, j as int);
                }
                while j < cs.len()
                    invariant_except_break
                        sequence_end(cs@, i + 2) == sequence_end(cs@, j as int),
                    invariant
                        i + 2 <= j <= cs.len(),
                    ensures
                        j == sequence_end(cs@, i + 2),
                    decreases cs.len() - j,
                {
                    let c = cs[j];
                    j += 1;
                    if is_ascii_letter(c) {
                        break;
                    }
                }
                assert(j == sequence_end(cs@, i + 2));
                i = j;
            } else {
                i += 1;
            }
        } else {
            let ghost before = out@;
            push_char(&mut out, cs[i]);
            assert(out@ + stripped_from(cs@, i + 1) =~= before + (seq![cs@[i as int]]
                + stripped_from(cs@, i + 1)));
            i += 1;
        }
    }
    assert(out@ + stripped_from(cs@, i as int) =~= out@);
    out
}

/// One line of command output as it is shown: the line, ended by a newline,
/// with its escape sequences removed.
pub fn clean_output_line(line: &str) -> (out: String)
    ensures
        out@ == stripped(line@.push('\n')),
{
    let mut full = line.to_owned();
    push_char(&mut full, '\n');
    strip_ansi(full.as_str())
}

proof fn lemma_stripped_from_shape(s: Seq<char>, i: int)
    requires
        0 <= i <= s.len(),
    ensures
        !stripped_from(s, i).contains(esc()),
        (forall|k: int| i <= k < s.len() ==> s[k] != esc()) ==> stripped_from(s, i) == s.skip(
            i,
        ),
    decreases s.len() - i,
{
    if 0 <= i < s.len() {
        if s[i] == esc() {
            if i + 1 < s.len() && s[i + 1] == '[' {
                lemma_sequence_end(s, i + 2);
                lemma_stripped_from_shape(s, sequence_end(s, i + 2));
            } else {
                lemma_stripped_from_shape(s, i + 1);
            }
        } else {
            lemma_stripped_from_shape(s, i + 1);
            let r = stripped_from(s, i + 1);
            assert(stripped_from(s, i) == seq![s[i]] + r);
            if (seq![s[i]] + r).contains(esc()) {
                let k = choose|k: int| 0 <= k < (seq![s[i]] + r).len() && (seq![s[i]] + r)[k] == esc();
                if k > 0 {
                    assert(r[k - 1] == esc());
                }
            }
            if forall|k: int| i <= k < s.len() ==> s[k] != esc() {
                assert(seq![s[i]] + s.skip(i + 1) =~= s.skip(i));
            }
        }
    } else {
        assert(s.skip(i) =~= seq![]);
    }
}

/// Output cleaned of escape sequences holds no escape character; text without
/// escape characters is left as it is; so cleaning twice is cleaning once.
pub proof fn law_stripped(s: Seq<char>)
    ensures
        !stripped(s).contains(esc()),
        !s.contains(esc()) ==> stripped(s) == s,
        stripped(stripped(s)) == stripped(s),
{
    lemma_stripped_from_shape(s, 0);
    assert(s.skip(0) == s);
    if !s.contains(esc()) {
        assert forall|k: int| 0 <= k < s.len() implies s[k] != esc() by {
            if s[k] == esc() {
                assert(s.contains(esc()));
            }
        }
    }
    let t = stripped(s);
    lemma_stripped_from_shape(t, 0);
    assert forall|k: int| 0 <= k < t.len() implies t[k] != esc() by {
        if t[k] == esc() {
            assert(t.contains(esc()));
        }
    }
    assert(t.skip(0) == t);
}

/// Whether `c` is an ASCII letter, written out.
pub open spec fn letter(c: char) -> bool {
    ('A' <= c && c <= 'Z') || ('a' <= c && c <= 'z')
}

proof fn lemma_sequence_end_at(s: Seq<char>, j: int, e: int)
    requires
        0 <= j <= e,
        e <= s.len(),
        forall|k: int| j <= k < e ==> !letter(#[trigger] s[k]),
        e == s.len() || letter(s[e]),
    ensures
        sequence_end(s, j) == if e == s.len() {
            e
        } else {
            e + 1
        },
    decreases e - j,
{
    if j < e {
        lemma_sequence_end_at(s, j + 1, e);
    }
}

proof fn lemma_sequence_end_shift(pre: Seq<char>, t: Seq<char>, j: int)
    requires
        0 <= j,
    ensures
        sequence_end(pre + t, pre.len() + j) == pre.len() + sequence_end(t, j),
    decreases t.len() - j,
{
    if j < t.len() {
        assert((pre + t)[pre.len() + j] == t[j]);
        lemma_sequence_end_shift(pre, t, j + 1);
    }
}

/// Cleaning a text from a position after a prefix is cleaning the rest.
proof fn lemma_stripped_shift(pre: Seq<char>, t: Seq<char>, i: int)
    requires
        0 <= i <= t.len(),
    ensures
        stripped_from(pre + t, pre.len() + i) == stripped_from(t, i),
    decreases t.len() - i,
{
    let s = pre + t;
    let o = pre.len() as int;
    if i < t.len() {
        assert(s[o + i] == t[i]);
        if t[i] == esc() {
            if i + 1 < t.len() && t[i + 1] == '[' {
                assert(s[o + i + 1] == t[i + 1]);
                lemma_sequence_end(t, i + 2);
                lemma_sequence_end_shift(pre, t, i + 2);
                lemma_stripped_shift(pre, t, sequence_end(t, i + 2));
            } else {
                if i + 1 < t.len() {
                    assert(s[o + i + 1] == t[i + 1]);
                }
                lemma_stripped_shift(pre, t, i + 1);
            }
        } else {
            lemma_stripped_shift(pre, t, i + 1);
        }
    }
}

/// A control sequence, an escape character, `[`, characters that are not
/// ASCII letters and then an ASCII letter, is removed whole, and cleaning
/// goes on after it.
pub proof fn law_strip_sequence(p: Seq<char>, l: char, t: Seq<char>)
    requires
        forall|k: int| 0 <= k < p.len() ==> !letter(#[trigger] p[k]),
        letter(l),
    ensures
        stripped(seq!['\x1b', '['] + p + seq![l] + t) == stripped(t),
{
    let pre = seq!['\x1b', '['] + p + seq![l];
    let s = pre + t;
    let e: int = p.len() + 2int;
    assert forall|k: int| 2 <= k < e implies !letter(#[trigger] s[k]) by {
        assert(s[k] == p[k - 2]);
    }
    assert(s[e] == l);
    lemma_sequence_end_at(s, 2, e);
    assert(s[0] == esc());
    assert(s[1] == '[');
    lemma_stripped_shift(pre, t, 0);
    assert(pre.len() == e + 1);
}

/// A control sequence that no ASCII letter ends removes the rest of the
/// text.
pub proof fn law_strip_unterminated(p: Seq<char>)
    requires
        forall|k: int| 0 <= k < p.len() ==> !letter(#[trigger] p[k]),
    ensures
        stripped(seq!['\x1b', '['] + p) == Seq::<char>::empty(),
{
    let s = seq!['\x1b', '['] + p;
    assert forall|k: int| 2 <= k < s.len() implies !letter(#[trigger] s[k]) by {
        assert(s[k] == p[k - 2]);
    }
    lemma_sequence_end_at(s, 2, s.len() as int);
    assert(s[0] == esc());
    assert(s[1] == '[');
    assert(stripped_from(s, s.len() as int) =~= Seq::<char>::empty());
    assert(stripped_from(s, 0) == stripped_from(s, sequence_end(s, 2)));
}

/// A character other than the escape character is kept, in front of the
/// cleaned rest; an escape character not followed by `[` is dropped alone.
pub proof fn law_strip_step(c: char, t: Seq<char>)
    ensures
        c != '\x1b' ==> stripped(seq![c] + t) == seq![c] + stripped(t),
        c != '[' ==> stripped(seq!['\x1b', c] + t) == stripped(seq![c] + t),
        stripped(seq!['\x1b']) == Seq::<char>::empty(),
{
    let s1 = seq![c] + t;
    assert(s1[0] == c);
    lemma_stripped_shift(seq![c], t, 0);
    let s2 = seq!['\x1b', c] + t;
    assert(s2[0] == esc());
    assert(s2[1] == c);
    assert(s2 =~= seq!['\x1b'] + s1);
    lemma_stripped_shift(seq!['\x1b'], s1, 0);
    let s3 = seq!['\x1b'];
    assert(s3[0] == esc());
    assert(stripped_from(s3, 1) =~= Seq::<char>::empty());
}

} // verus!
