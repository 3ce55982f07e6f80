//! The settings trailer that the program keeps at the end of its own
//! executable.
//!
//! Layout, from the end of the file backwards:
//! the 8 magic bytes `SHUTTNC2`; one byte for "quit when done" (non-zero
//! means yes); one byte for the folded section; the window width as a
//! little-endian `i32`; the number of stored strings as a little-endian
//! `u32`; one little-endian `u32` byte length per string; and, before that
//! table, the UTF-8 bytes of the strings themselves, in order. The strings are
//! the command, the description, then the saved placeholder values.

use vstd::prelude::*;
use vstd::utf8::{decode_utf8, encode_utf8, valid_utf8};
use vstd::slice::slice_to_vec;
use crate::text::views;

verus! {

/// The settings kept in the trailer.
#[derive(Clone, Debug)]
pub struct Config {
    pub autoquit: bool,
    pub width: i32,
    pub main_cmd: String,
    pub var_values: Vec<String>,
    pub description: String,
    pub active_fold: u8,
}

/// The abstract value of a `Config`.
#[verifier::ext_equal]
pub struct ConfigView {
    pub autoquit: bool,
    pub width: i32,
    pub main_cmd: Seq<char>,
    pub var_values: Seq<Seq<char>>,
    pub description: Seq<char>,
    pub active_fold: u8,
}

impl View for Config {
    type V = ConfigView;

    open spec fn view(&self) -> ConfigView {
        ConfigView {
            autoquit: self.autoquit,
            width: self.width,
            main_cmd: self.main_cmd@,
            var_values: views(self.var_values@),
            description: self.description@,
            active_fold: self.active_fold,
        }
    }
}

/// The magic bytes `SHUTTNC2` that end a trailer.
pub open spec fn magic() -> Seq<u8> {
    seq![0x53u8, 0x48u8, 0x55u8, 0x54u8, 0x54u8, 0x4eu8, 0x43u8, 0x32u8]
}

/// The little-endian `u32` stored at `at`.
pub open spec fn le_u32_at(b: Seq<u8>, at: int) -> nat {
    (b[at] + 256 * b[at + 1] + 65536 * b[at + 2] + 16777216 * b[at + 3]) as nat
}

/// The four little-endian bytes of `x` (below 2^32).
pub open spec fn le_bytes(x: nat) -> Seq<u8> {
    seq![
        (x % 256) as u8,
        ((x / 256) % 256) as u8,
        ((x / 65536) % 256) as u8,
        ((x / 16777216) % 256) as u8,
    ]
}

/// `x` cut down to 32 bits, as an `as u32` conversion does.
pub open spec fn wrap32(x: int) -> nat {
    (x % 4294967296) as nat
}

/// The 32 bits of the two's complement form of `w`.
pub open spec fn i32_bits(w: i32) -> nat {
    if w < 0 {
        (w + 4294967296) as nat
    } else {
        w as nat
    }
}

/// The `i32` whose two's complement bits are `u`.
pub open spec fn i32_from_bits(u: nat) -> int {
    if u >= 2147483648 {
        u - 4294967296
    } else {
        u as int
    }
}

/// The sum of `s`.
pub open spec fn seq_sum(s: Seq<nat>) -> nat
    decreases s.len(),
{
    if s.len() == 0 {
        0
    } else {
        seq_sum(s.drop_last()) + s.last()
    }
}

/// The strings a trailer stores: command, description, then the values.
pub open spec fn strings_of(c: ConfigView) -> Seq<Seq<char>> {
    seq![c.main_cmd, c.description] + c.var_values
}

/// The UTF-8 byte length of each string.
pub open spec fn byte_lens(ss: Seq<Seq<char>>) -> Seq<nat> {
    ss.map_values(|s: Seq<char>| encode_utf8(s).len())
}

/// The UTF-8 bytes of the strings, one after the other.
pub open spec fn string_bytes(ss: Seq<Seq<char>>) -> Seq<u8>
    decreases ss.len(),
{
    if ss.len() == 0 {
        seq![]
    } else {
        string_bytes(ss.drop_last()) + encode_utf8(ss.last())
    }
}

/// The table of byte lengths, each cut to 32 bits.
pub open spec fn length_table(ss: Seq<Seq<char>>) -> Seq<u8>
    decreases ss.len(),
{
    if ss.len() == 0 {
        seq![]
    } else {
        length_table(ss.drop_last()) + le_bytes(wrap32(encode_utf8(ss.last()).len() as int))
    }
}

/// The fixed 18 bytes that end a trailer.
pub open spec fn trailer_tail(c: ConfigView) -> Seq<u8> {
    le_bytes(wrap32(strings_of(c).len() as int)) + le_bytes(i32_bits(c.width)) + seq![
        c.active_fold,
        if c.autoquit {
            1u8
        } else {
            0u8
        },
    ] + magic()
}

/// The trailer that stores `c`.
pub open spec fn encoding(c: ConfigView) -> Seq<u8> {
    string_bytes(strings_of(c)) + length_table(strings_of(c)) + trailer_tail(c)
}

/// Whether `b` ends with the magic bytes.
pub open spec fn ends_with_magic(b: Seq<u8>) -> bool {
    b.len() >= 8 && b.subrange(b.len() - 8, b.len() as int) == magic()
}

/// The number of strings that a trailer at the end of `b` claims to hold.
pub open spec fn stored_count(b: Seq<u8>) -> nat {
    le_u32_at(b, b.len() - 18)
}

/// The `n` byte lengths stored from `table` on.
pub open spec fn stored_lengths(b: Seq<u8>, table: int, n: nat) -> Seq<nat> {
    Seq::new(n, |k: int| le_u32_at(b, table + 4 * k))
}

/// The pieces of `b` from `start` on, cut at the lengths `lens`.
pub open spec fn stored_pieces(b: Seq<u8>, start: int, lens: Seq<nat>) -> Seq<Seq<u8>> {
    Seq::new(
        lens.len(),
        |k: int| b.subrange(start + seq_sum(lens.take(k)), start + seq_sum(lens.take(k + 1))),
    )
}

/// The length of the trailer at the end of `b`, or 0 when `b` ends with none:
/// at least 18 bytes, the magic bytes, and a length table and strings that fit
/// in `b`.
pub open spec fn trailer_len(b: Seq<u8>) -> nat {
    let len = b.len();
    let n = stored_count(b);
    if len >= 18 && ends_with_magic(b) && 18 + 4 * n <= len {
        let total = seq_sum(stored_lengths(b, len - 18 - 4 * n, n));
        if 18 + 4 * n + total <= len {
            18 + 4 * n + total
        } else {
            0
        }
    } else {
        0
    }
}

/// The settings stored at the end of `b`, if it ends with a trailer of at
/// least 22 bytes that holds at least two strings, all of them valid UTF-8.
pub open spec fn decode(b: Seq<u8>) -> Option<ConfigView> {
    let len = b.len();
    let n = stored_count(b);
    if len >= 22 && ends_with_magic(b) && n >= 2 && 18 + 4 * n <= len {
        let table = len - 18 - 4 * n;
        let lens = stored_lengths(b, table, n);
        let total = seq_sum(lens);
        if total <= table {
            let pieces = stored_pieces(b, table - total, lens);
            if forall|k: int| 0 <= k < n ==> valid_utf8(#[trigger] pieces[k]) {
                let ss = pieces.map_values(|p: Seq<u8>| decode_utf8(p));
                Some(
                    ConfigView {
                        autoquit: b[len - 9] != 0,
                        width: i32_from_bits(le_u32_at(b, len - 14)) as i32,
                        main_cmd: ss[0],
                        var_values: ss.skip(2),
                        description: ss[1],
                        active_fold: b[len - 10],
                    },
                )
            } else {
                None
            }
        } else {
            None
        }
    } else {
        None
    }
}

/// `b` with the trailer it ends with (if any) replaced by the trailer of `c`.
pub open spec fn patched(b: Seq<u8>, c: ConfigView) -> Seq<u8> {
    b.take(b.len() - trailer_len(b)) + encoding(c)
}

/// Adding one more length to a prefix adds it to the sum.
pub proof fn lemma_sum_step(s: Seq<nat>, k: int)
    requires
        0 <= k < s.len(),
    ensures
        seq_sum(s.take(k + 1)) == seq_sum(s.take(k)) + s[k],
{
    assert(s.take(k + 1).drop_last() =~= s.take(k));
}

/// A prefix sums to no more than the whole.
pub proof fn lemma_sum_prefix(s: Seq<nat>, k: int)
    requires
        0 <= k <= s.len(),
    ensures
        seq_sum(s.take(k)) <= seq_sum(s),
    decreases s.len() - k,
{
    if k < s.len() {
        lemma_sum_step(s, k);
        lemma_sum_prefix(s, k + 1);
    } else {
        assert(s.take(k) =~= s);
    }
}

/// The little-endian `u32` at `at` of `b`.
fn read_u32_le(b: &[u8], at: usize) -> (r: u32)
    requires
        at + 4 <= b.len(),
    ensures
        r == le_u32_at(b@, at as int),
{
    (b[at] as u32) + (b[at + 1] as u32) * 256 + (b[at + 2] as u32) * 65536 + (b[at + 3] as u32)
        * 16777216
}

/// Appends the four little-endian bytes of `x`.
fn push_le_u32(out: &mut Vec<u8>, x: u32)
    ensures
        final(out)@ == old(out)@ + le_bytes(x as nat),
{
    out.push((x % 256) as u8);
    out.push(((x / 256) % 256) as u8);
    out.push(((x / 65536) % 256) as u8);
    out.push(((x / 16777216) % 256) as u8);
    assert(final(out)@ =~= old(out)@ + le_bytes(x as nat));
}

/// Appends the bytes of `b`.
fn push_bytes(out: &mut Vec<u8>, b: &[u8])
    ensures
        final(out)@ == old(out)@ + b@,
{
    let ghost start = out@;
    for i in 0..b.len()
        invariant
            out@ == start + b@.take(i as int),
    {
        out.push(b[i]);
        assert(out@ =~= start + b@.take(i + 1));
    }
    assert(b@.take(b.len() as int) =~= b@);
}

/// `x` cut down to 32 bits.
fn wrap_to_u32(x: usize) -> (r: u32)
    ensures
        r == wrap32(x as int),
{
    ((x as u64) % 4294967296u64) as u32
}

/// The two's complement bits of `w`.
fn bits_of_i32(w: i32) -> (u: u32)
    ensures
        u == i32_bits(w),
{
    if w < 0 {
        ((w as i64) + 4294967296i64) as u32
    } else {
        w as u32
    }
}

/// The `i32` whose two's complement bits are `u`.
fn i32_of_bits(u: u32) -> (w: i32)
    ensures
        w == i32_from_bits(u as nat),
{
    if u >= 2147483648 {
        ((u as i64) - 4294967296i64) as i32
    } else {
        u as i32
    }
}

/// Calls `String::from_utf8`; the contract claims that it succeeds exactly
/// when `bytes` are valid UTF-8 (as `vstd::utf8::valid_utf8` defines it), and
/// that the string it then gives holds the characters that the bytes encode.
#[verifier::external_body]
fn string_from_utf8(bytes: Vec<u8>) -> (res: Option<String>)
    ensures
        res is Some <==> valid_utf8(bytes@),
        res matches Some(s) ==> s@ == decode_utf8(bytes@),
{
    String::from_utf8(bytes).ok()
}

/// Whether `b` ends with the magic bytes.
fn has_magic(b: &[u8]) -> (r: bool)
    requires
        b.len() >= 8,
    ensures
        r == ends_with_magic(b@),
{
    let m: Vec<u8> = vec![0x53u8, 0x48u8, 0x55u8, 0x54u8, 0x54u8, 0x4eu8, 0x43u8, 0x32u8];
    assert(m@ =~= magic());
    let start = b.len() - 8;
    let mut k: usize = 0;
    while k < 8
        invariant
            k <= 8,
            start + 8 == b.len(),
            m@ == magic(),
            forall|i: int| 0 <= i < k ==> b@[start + i] == magic()[i],
        decreases 8 - k,
    {
        if b[start + k] != m[k] {
            assert(b@.subrange(start as int, b.len() as int)[k as int] != magic()[k as int]);
            return false;
        }
        k += 1;
    }
    assert(b@.subrange(start as int, b.len() as int) =~= magic());
    true
}

/// Reads the length table of `n` entries at `table` and sums it, as long as
/// the sum stays within `limit`; `None` when it does not.
fn sum_lengths(b: &[u8], table: usize, n: usize, limit: usize) -> (res: Option<(Vec<usize>, usize)>)
    requires
        table + 4 * n <= b.len(),
    ensures
        ({
            let lens = stored_lengths(b@, table as int, n as nat);
            match res {
                Some((sizes, total)) => {
                    &&& total == seq_sum(lens)
                    &&& total <= limit
                    &&& sizes@.len() == n
                    &&& forall|k: int| 0 <= k < n ==> sizes@[k] == lens[k]
                },
                None => seq_sum(lens) > limit,
            }
        }),
{
    let ghost lens = stored_lengths(b@, table as int, n as nat);
    let mut sizes: Vec<usize> = Vec::new();
    let mut total: usize = 0;
    let mut k: usize = 0;
    while k < n
        invariant
            k <= n,
            table + 4 * n <= b.len(),
            lens == stored_lengths(b@, table as int, n as nat),
            sizes@.len() == k,
            forall|m: int| 0 <= m < k ==> sizes@[m] == lens[m],
            total == seq_sum(lens.take(k as int)),
            total <= limit,
        decreases n - k,
    {
        let l = read_u32_le(b, table + 4 * k) as usize;
        proof {
            lemma_sum_step(lens, k as int);
        }
        if l > limit - total {
            proof {
                lemma_sum_prefix(lens, k + 1);
            }
            return None;
        }
        total = total + l;
        sizes.push(l);
        k += 1;
    }
    assert(lens.take(n as int) =~= lens);
    Some((sizes, total))
}

/// The length of the settings trailer that `file` ends with, or 0 when it
/// ends with none.
pub fn trailer_length(file: &[u8]) -> (t: usize)
    ensures
        t == trailer_len(file@),
{
    let len = file.len();
    if len < 18 || !has_magic(file) {
        return 0;
    }
    let n = read_u32_le(file, len - 18) as usize;
    if n > (len - 18) / 4 {
        return 0;
    }
    let table = len - 18 - 4 * n;
    match sum_lengths(file, table, n, table) {
        Some((_, total)) => 18 + 4 * n + total,
        None => 0,
    }
}

/// The settings stored in the trailer that `file` ends with, if it ends with
/// a well-formed one.
pub fn parse_config_trailer(file: &[u8]) -> (res: Option<Config>)
    ensures
        match res {
            Some(c) => decode(file@) == Some(c@),
            None => decode(file@) is None,
        },
{
    let len = file.len();
    if len < 22 || !has_magic(file) {
        return None;
    }
    let n = read_u32_le(file, len - 18) as usize;
    if n < 2 || n > (len - 18) / 4 {
        return None;
    }
    let table = len - 18 - 4 * n;
    let ghost lens = stored_lengths(file@, table as int, n as nat);
    let (sizes, total) = match sum_lengths(file, table, n, table) {
        Some(r) => r,
        None => {
            return None;
        },
    };
    let start = table - total;
    let ghost pieces = stored_pieces(file@, start as int, lens);
    let mut strings: Vec<String> = Vec::new();
    let mut pos = start;
    let mut k: usize = 0;
    while k < n
        invariant
            k <= n,
            len == file.len(),
            len >= 22,
            ends_with_magic(file@),
            n >= 2,
            n == stored_count(file@),
            start + total == table,
            table + 4 * n + 18 == len,
            total == seq_sum(lens),
            lens == stored_lengths(file@, table as int, n as nat),
            lens.len() == n,
            sizes@.len() == n,
            forall|m: int| 0 <= m < n ==> sizes@[m] == lens[m],
            pieces == stored_pieces(file@, start as int, lens),
            pos == start + seq_sum(lens.take(k as int)),
            strings@.len() == k,
            forall|m: int|
                0 <= m < k ==> valid_utf8(#[trigger] pieces[m]) && strings@[m]@ == decode_utf8(
                    pieces[m],
                ),
        decreases n - k,
    {
        proof {
            lemma_sum_step(lens, k as int);
            lemma_sum_prefix(lens, k + 1);
        }
        let piece = slice_to_vec(&file[pos..pos + sizes[k]]);
        assert(piece@ == pieces[k as int]);
        match string_from_utf8(piece) {
            Some(s) => {
                strings.push(s);
            },
            None => {
                assert(!valid_utf8(pieces[k as int]));
                return None;
            },
        }
        pos = pos + sizes[k];
        k += 1;
    }
    let ghost ss = pieces.map_values(|p: Seq<u8>| decode_utf8(p));
    assert(views(strings@) =~= ss);
    let autoquit = file[len - 9] != 0;
    let active_fold = file[len - 10];
    let width = i32_of_bits(read_u32_le(file, len - 14));
    let main_cmd = strings.remove(0);
    let description = strings.remove(0);
    assert(views(strings@) =~= ss.skip(2));
    Some(
        Config {
            autoquit: autoquit,
            width: width,
            main_cmd: main_cmd,
            var_values: strings,
            description: description,
            active_fold: active_fold,
        },
    )
}

/// Appends the UTF-8 bytes of `s`.
fn push_utf8(out: &mut Vec<u8>, s: &String)
    ensures
        final(out)@ == old(out)@ + encode_utf8(s@),
{
    push_bytes(out, s.as_str().as_bytes());
}

/// Appends the 32-bit byte length of the UTF-8 form of `s`.
fn push_utf8_len(out: &mut Vec<u8>, s: &String)
    ensures
        final(out)@ == old(out)@ + le_bytes(wrap32(encode_utf8(s@).len() as int)),
{
    let bytes = s.as_str().as_bytes();
    push_le_u32(out, wrap_to_u32(bytes.len()));
}

/// The settings trailer that stores `c`. Byte lengths and the string count
/// are cut to 32 bits.
pub fn encode_config(c: &Config) -> (out: Vec<u8>)
    ensures
        out@ == encoding(c@),
{
    let ghost ss = strings_of(c@);
    let mut out: Vec<u8> = Vec::new();
    push_utf8(&mut out, &c.main_cmd);
    push_utf8(&mut out, &c.description);
    proof {
        assert(ss.take(1).drop_last() =~= ss.take(0));
        assert(ss.take(2).drop_last() =~= ss.take(1));
        assert(string_bytes(ss.take(0)) =~= seq![]);
        assert(string_bytes(ss.take(1)) =~= encode_utf8(ss[0]));
        assert(out@ =~= string_bytes(ss.take(2)));
    }
    for i in 0..c.var_values.len()
        invariant
            ss == strings_of(c@),
            ss.len() == c.var_values.len() + 2,
            out@ == string_bytes(ss.take(i + 2)),
    {
        push_utf8(&mut out, &c.var_values[i]);
        assert(ss.take(i + 3).drop_last() =~= ss.take(i + 2));
        assert(ss[i + 2] == c.var_values@[i as int]@);
    }
    assert(ss.take(c.var_values.len() + 2) =~= ss);
    let mut table: Vec<u8> = Vec::new();
    push_utf8_len(&mut table, &c.main_cmd);
    push_utf8_len(&mut table, &c.description);
    proof {
        assert(ss.take(1).drop_last() =~= ss.take(0));
        assert(ss.take(2).drop_last() =~= ss.take(1));
        assert(length_table(ss.take(0)) =~= seq![]);
        assert(length_table(ss.take(1)) =~= le_bytes(wrap32(encode_utf8(ss[0]).len() as int)));
        assert(table@ =~= length_table(ss.take(2)));
    }
    for i in 0..c.var_values.len()
        invariant
            ss == strings_of(c@),
            ss.len() == c.var_values.len() + 2,
            table@ == length_table(ss.take(i + 2)),
    {
        push_utf8_len(&mut table, &c.var_values[i]);
        assert(ss.take(i + 3).drop_last() =~= ss.take(i + 2));
        assert(ss[i + 2] == c.var_values@[i as int]@);
    }
    out.append(&mut table);
    let count = ((c.var_values.len() as u64) % 4294967296u64 + 2) % 4294967296u64;
    proof {
        vstd::arithmetic::div_mod::lemma_add_mod_noop(c.var_values.len() as int, 2, 4294967296);
        vstd::arithmetic::div_mod::lemma_small_mod(2, 4294967296);
    }
    push_le_u32(&mut out, count as u32);
    push_le_u32(&mut out, bits_of_i32(c.width));
    out.push(c.active_fold);
    out.push(if c.autoquit { 1u8 } else { 0u8 });
    let magic_bytes: Vec<u8> = vec![0x53u8, 0x48u8, 0x55u8, 0x54u8, 0x54u8, 0x4eu8, 0x43u8, 0x32u8];
    push_bytes(&mut out, magic_bytes.as_slice());
    assert(out@ =~= encoding(c@));
    out
}

/// `file` with the settings trailer it ends with (if any) replaced by the
/// trailer that stores `config`.
pub fn patch_config_bytes(file: Vec<u8>, config: &Config) -> (out: Vec<u8>)
    ensures
        out@ == patched(file@, config@),
{
    let t = trailer_length(file.as_slice());
    let mut out = file;
    let keep = out.len() - t;
    out.truncate(keep);
    let mut enc = encode_config(config);
    out.append(&mut enc);
    out
}

/// A configuration whose trailer records it exactly: fewer than 2^32
/// strings, each under 2^32 bytes in UTF-8.
pub open spec fn storable(c: ConfigView) -> bool {
    &&& strings_of(c).len() < 4294967296
    &&& forall|k: int|
        0 <= k < strings_of(c).len() ==> #[trigger] encode_utf8(strings_of(c)[k]).len()
            < 4294967296
}

proof fn lemma_le_round(x: u32)
    ensures
        (x % 256) + 256 * ((x / 256) % 256) + 65536 * ((x / 65536) % 256) + 16777216 * ((x
            / 16777216) % 256) == x,
{
    assert((x % 256) + 256 * ((x / 256) % 256) + 65536 * ((x / 65536) % 256) + 16777216 * ((x
        / 16777216) % 256) == x) by (bit_vector);
}

/// Four little-endian bytes of `x` read back as `x`.
proof fn lemma_le_read(b: Seq<u8>, at: int, x: nat)
    requires
        x < 4294967296,
        0 <= at,
        at + 4 <= b.len(),
        b.subrange(at, at + 4) == le_bytes(x),
    ensures
        le_u32_at(b, at) == x,
{
    lemma_le_round(x as u32);
    assert(b[at] == b.subrange(at, at + 4)[0]);
    assert(b[at + 1] == b.subrange(at, at + 4)[1]);
    assert(b[at + 2] == b.subrange(at, at + 4)[2]);
    assert(b[at + 3] == b.subrange(at, at + 4)[3]);
}

proof fn lemma_i32_bits(w: i32)
    ensures
        i32_bits(w) < 4294967296,
        i32_from_bits(i32_bits(w)) == w,
{
}

/// The strings and length table of a trailer are laid out one string after
/// the other, in order.
proof fn lemma_layout(ss: Seq<Seq<char>>)
    ensures
        string_bytes(ss).len() == seq_sum(byte_lens(ss)),
        length_table(ss).len() == 4 * ss.len(),
        forall|k: int|
            0 <= k < ss.len() ==> #[trigger] length_table(ss).subrange(4 * k, 4 * k + 4)
                == le_bytes(wrap32(byte_lens(ss)[k] as int)),
        forall|k: int|
            0 <= k < ss.len() ==> #[trigger] string_bytes(ss).subrange(
                seq_sum(byte_lens(ss).take(k)) as int,
                seq_sum(byte_lens(ss).take(k + 1)) as int,
            ) == encode_utf8(ss[k]),
    decreases ss.len(),
{
    if ss.len() > 0 {
        let t = ss.drop_last();
        lemma_layout(t);
        let lens = byte_lens(ss);
        let tl = byte_lens(t);
        assert(lens.drop_last() =~= tl);
        let bt = string_bytes(t);
        let e = encode_utf8(ss.last());
        let tt = length_table(t);
        let le = le_bytes(wrap32(e.len() as int));
        assert(string_bytes(ss) == bt + e);
        assert(length_table(ss) == tt + le);
        assert forall|k: int| 0 <= k < ss.len() implies #[trigger] length_table(ss).subrange(
            4 * k,
            4 * k + 4,
        ) == le_bytes(wrap32(lens[k] as int)) by {
            if k < ss.len() - 1 {
                assert(length_table(ss).subrange(4 * k, 4 * k + 4) =~= tt.subrange(4 * k, 4 * k + 4));
                assert(tl[k] == lens[k]);
            } else {
                assert(length_table(ss).subrange(4 * k, 4 * k + 4) =~= le);
            }
        }
        assert forall|k: int| 0 <= k < ss.len() implies #[trigger] string_bytes(ss).subrange(
            seq_sum(lens.take(k)) as int,
            seq_sum(lens.take(k + 1)) as int,
        ) == encode_utf8(ss[k]) by {
            if k < ss.len() - 1 {
                assert(lens.take(k) =~= tl.take(k));
                assert(lens.take(k + 1) =~= tl.take(k + 1));
                lemma_sum_prefix(tl, k + 1);
                lemma_sum_step(tl, k);
                assert(string_bytes(ss).subrange(
                    seq_sum(lens.take(k)) as int,
                    seq_sum(lens.take(k + 1)) as int,
                ) =~= bt.subrange(seq_sum(tl.take(k)) as int, seq_sum(tl.take(k + 1)) as int));
                assert(t[k] == ss[k]);
            } else {
                assert(lens.take(k) =~= tl);
                assert(lens.take(k + 1) =~= lens);
                assert(string_bytes(ss).subrange(
                    seq_sum(lens.take(k)) as int,
                    seq_sum(lens.take(k + 1)) as int,
                ) =~= e);
            }
        }
    }
}

/// What a reader finds in the last 18 bytes of a trailer.
proof fn lemma_tail_read(q: Seq<u8>, c: ConfigView)
    ensures
        ({
            let e = q + trailer_tail(c);
            let len = e.len();
            &&& len == q.len() + 18
            &&& ends_with_magic(e)
            &&& le_u32_at(e, len - 18) == wrap32(strings_of(c).len() as int)
            &&& (e[len - 9] != 0) == c.autoquit
            &&& e[len - 10] == c.active_fold
            &&& le_u32_at(e, len - 14) == i32_bits(c.width)
        }),
{
    let tail = trailer_tail(c);
    let e = q + tail;
    let len = e.len();
    let n = strings_of(c).len();
    assert(tail.len() == 18);
    assert(e.subrange(len - 8, len as int) =~= magic());
    assert(e.subrange(len - 18, len - 14) =~= le_bytes(wrap32(n as int)));
    lemma_le_read(e, len - 18, wrap32(n as int));
    lemma_i32_bits(c.width);
    assert(e.subrange(len - 14, len - 10) =~= le_bytes(i32_bits(c.width)));
    lemma_le_read(e, len - 14, i32_bits(c.width));
    assert(e[len - 10] == tail[8]);
    assert(e[len - 9] == tail[9]);
}

/// What a reader finds in the length table of a trailer.
proof fn lemma_table_read(q: Seq<u8>, ss: Seq<Seq<char>>, r: Seq<u8>)
    requires
        forall|k: int| 0 <= k < ss.len() ==> #[trigger] encode_utf8(ss[k]).len() < 4294967296,
    ensures
        stored_lengths(q + length_table(ss) + r, q.len() as int, ss.len()) == byte_lens(ss),
{
    let e = q + length_table(ss) + r;
    let table = length_table(ss);
    let lens = byte_lens(ss);
    let start = q.len() as int;
    lemma_layout(ss);
    assert forall|k: int| 0 <= k < ss.len() implies #[trigger] stored_lengths(
        e,
        start,
        ss.len(),
    )[k] == lens[k] by {
        assert(table.subrange(4 * k, 4 * k + 4) == le_bytes(wrap32(lens[k] as int)));
        assert(e.subrange(start + 4 * k, start + 4 * k + 4) =~= table.subrange(4 * k, 4 * k + 4));
        assert(encode_utf8(ss[k]).len() < 4294967296);
        lemma_le_read(e, start + 4 * k, lens[k]);
    }
    assert(stored_lengths(e, start, ss.len()) =~= lens);
}

/// What a reader finds in the strings of a trailer.
proof fn lemma_pieces_read(p: Seq<u8>, ss: Seq<Seq<char>>, r: Seq<u8>)
    ensures
        forall|k: int|
            0 <= k < ss.len() ==> #[trigger] stored_pieces(
                p + string_bytes(ss) + r,
                p.len() as int,
                byte_lens(ss),
            )[k] == encode_utf8(ss[k]),
{
    let e = p + string_bytes(ss) + r;
    let body = string_bytes(ss);
    let lens = byte_lens(ss);
    lemma_layout(ss);
    assert forall|k: int| 0 <= k < ss.len() implies #[trigger] stored_pieces(
        e,
        p.len() as int,
        lens,
    )[k] == encode_utf8(ss[k]) by {
        lemma_sum_prefix(lens, k + 1);
        lemma_sum_step(lens, k);
        let a = seq_sum(lens.take(k)) as int;
        let z = seq_sum(lens.take(k + 1)) as int;
        assert(body.subrange(a, z) == encode_utf8(ss[k]));
        assert(e.subrange(p.len() + a, p.len() + z) =~= body.subrange(a, z));
    }
}

/// What a reader finds in `p` followed by the trailer of `c`.
proof fn lemma_trailer_read(p: Seq<u8>, c: ConfigView)
    requires
        storable(c),
    ensures
        ({
            let e = p + encoding(c);
            let ss = strings_of(c);
            let n = ss.len();
            let body = string_bytes(ss);
            let len = e.len();
            &&& len == p.len() + body.len() + 4 * n + 18
            &&& ends_with_magic(e)
            &&& stored_count(e) == n
            &&& stored_lengths(e, (p.len() + body.len()) as int, n) == byte_lens(ss)
            &&& seq_sum(byte_lens(ss)) == body.len()
            &&& forall|k: int|
                0 <= k < n ==> #[trigger] stored_pieces(e, p.len() as int, byte_lens(ss))[k]
                    == encode_utf8(ss[k])
            &&& (e[len - 9] != 0) == c.autoquit
            &&& e[len - 10] == c.active_fold
            &&& le_u32_at(e, len - 14) == i32_bits(c.width)
        }),
{
    let ss = strings_of(c);
    let body = string_bytes(ss);
    let table = length_table(ss);
    let tail = trailer_tail(c);
    let e = p + encoding(c);
    lemma_layout(ss);
    assert(e =~= (p + body + table) + tail);
    assert(e =~= (p + body) + table + tail);
    assert(e =~= p + body + (table + tail));
    lemma_tail_read(p + body + table, c);
    lemma_table_read(p + body, ss, tail);
    lemma_pieces_read(p, ss, table + tail);
}

/// The trailer that `p` followed by the trailer of `c` ends with is exactly
/// that of `c`.
pub proof fn law_trailer_found(p: Seq<u8>, c: ConfigView)
    requires
        storable(c),
    ensures
        trailer_len(p + encoding(c)) == encoding(c).len(),
{
    lemma_trailer_read(p, c);
    lemma_layout(strings_of(c));
}

/// Reading back what was stored gives back the settings that were stored,
/// whatever precedes the trailer.
pub proof fn law_read_back(p: Seq<u8>, c: ConfigView)
    requires
        storable(c),
    ensures
        decode(p + encoding(c)) == Some(c),
{
    let e = p + encoding(c);
    let ss = strings_of(c);
    let n = ss.len();
    let lens = byte_lens(ss);
    lemma_trailer_read(p, c);
    lemma_layout(ss);
    lemma_i32_bits(c.width);
    let body = string_bytes(ss);
    let len = e.len();
    let table = len - 18 - 4 * n;
    assert(table == p.len() + body.len());
    let pieces = stored_pieces(e, table - seq_sum(lens), lens);
    assert(table - seq_sum(lens) == p.len());
    assert forall|k: int| 0 <= k < n implies valid_utf8(#[trigger] pieces[k]) by {
        assert(pieces[k] == encode_utf8(ss[k]));
        vstd::utf8::encode_utf8_valid_utf8(ss[k]);
    }
    let dec = pieces.map_values(|q: Seq<u8>| decode_utf8(q));
    assert forall|k: int| 0 <= k < n implies #[trigger] dec[k] == ss[k] by {
        assert(pieces[k] == encode_utf8(ss[k]));
        vstd::utf8::encode_utf8_decode_utf8(ss[k]);
    }
    assert(dec.skip(2) =~= c.var_values);
    let got = decode(e).unwrap();
    assert(got =~= c);
}

/// Patching a file that already carries settings replaces them: patching
/// twice is patching once with the second settings, and the bytes before the
/// trailer are kept.
pub proof fn law_patch_replaces(b: Seq<u8>, c1: ConfigView, c2: ConfigView)
    requires
        storable(c1),
    ensures
        patched(patched(b, c1), c2) == patched(b, c2),
        ({
            let q = patched(b, c1);
            q.take(q.len() - trailer_len(q)) == b.take(b.len() - trailer_len(b))
        }),
{
    let prog = b.take(b.len() - trailer_len(b));
    let q = patched(b, c1);
    law_trailer_found(prog, c1);
    assert(q.take(q.len() - trailer_len(q)) =~= prog);
}

/// A patched file reads back as the settings it was patched with.
pub proof fn law_patch_read_back(b: Seq<u8>, c: ConfigView)
    requires
        storable(c),
    ensures
        decode(patched(b, c)) == Some(c),
{
    law_read_back(b.take(b.len() - trailer_len(b)), c);
}

proof fn lemma_string_bytes_concat(a: Seq<Seq<char>>, b: Seq<Seq<char>>)
    ensures
        string_bytes(a + b) == string_bytes(a) + string_bytes(b),
        length_table(a + b) == length_table(a) + length_table(b),
    decreases b.len(),
{
    if b.len() == 0 {
        assert(a + b =~= a);
        assert(string_bytes(a) + string_bytes(b) =~= string_bytes(a));
        assert(length_table(a) + length_table(b) =~= length_table(a));
    } else {
        lemma_string_bytes_concat(a, b.drop_last());
        assert((a + b).drop_last() =~= a + b.drop_last());
        assert((a + b).last() == b.last());
        assert(string_bytes(a) + (string_bytes(b.drop_last()) + encode_utf8(b.last()))
            =~= string_bytes(a) + string_bytes(b.drop_last()) + encode_utf8(b.last()));
        assert(length_table(a) + (length_table(b.drop_last()) + le_bytes(
            wrap32(encode_utf8(b.last()).len() as int),
        )) =~= length_table(a) + length_table(b.drop_last()) + le_bytes(
            wrap32(encode_utf8(b.last()).len() as int),
        ));
    }
}

/// The settings made of command `s0`, description `s1`, values `vs` and the
/// given flags.
pub open spec fn settings(s0: Seq<char>, s1: Seq<char>, vs: Seq<Seq<char>>, width: i32, fold: u8, quit: bool) -> ConfigView {
    ConfigView {
        autoquit: quit,
        width: width,
        main_cmd: s0,
        var_values: vs,
        description: s1,
        active_fold: fold,
    }
}

/// The trailer written out field by field: the UTF-8 bytes of the command,
/// then of the description, then of each value; then their byte lengths in
/// the same order; then the string count, the width, the folded section, the
/// quit flag and the magic bytes.
pub open spec fn trailer_fields(s0: Seq<char>, s1: Seq<char>, vs: Seq<Seq<char>>, width: i32, fold: u8, quit: bool) -> Seq<u8> {
    encode_utf8(s0) + encode_utf8(s1) + string_bytes(vs) + le_bytes(encode_utf8(s0).len()) + le_bytes(
        encode_utf8(s1).len(),
    ) + length_table(vs) + le_bytes(vs.len() + 2) + le_bytes(i32_bits(width)) + seq![
        fold,
        if quit {
            1u8
        } else {
            0u8
        },
    ] + magic()
}

proof fn lemma_two_strings(s0: Seq<char>, s1: Seq<char>)
    requires
        encode_utf8(s0).len() < 4294967296,
        encode_utf8(s1).len() < 4294967296,
    ensures
        string_bytes(seq![s0, s1]) == encode_utf8(s0) + encode_utf8(s1),
        length_table(seq![s0, s1]) == le_bytes(encode_utf8(s0).len()) + le_bytes(
            encode_utf8(s1).len(),
        ),
{
    let two = seq![s0, s1];
    let one = seq![s0];
    assert(two.drop_last() =~= one);
    assert(two.last() == s1);
    assert(one.drop_last() =~= Seq::<Seq<char>>::empty());
    assert(one.last() == s0);
    assert(string_bytes(Seq::<Seq<char>>::empty()) =~= Seq::<u8>::empty());
    assert(length_table(Seq::<Seq<char>>::empty()) =~= Seq::<u8>::empty());
    assert(string_bytes(one) =~= encode_utf8(s0));
    assert(length_table(one) =~= le_bytes(wrap32(encode_utf8(s0).len() as int)));
    assert(wrap32(encode_utf8(s0).len() as int) == encode_utf8(s0).len());
    assert(wrap32(encode_utf8(s1).len() as int) == encode_utf8(s1).len());
}

proof fn lemma_encoding_fields(s0: Seq<char>, s1: Seq<char>, vs: Seq<Seq<char>>, width: i32, fold: u8, quit: bool)
    requires
        vs.len() + 2 < 4294967296,
        encode_utf8(s0).len() < 4294967296,
        encode_utf8(s1).len() < 4294967296,
    ensures
        encoding(settings(s0, s1, vs, width, fold, quit)) == trailer_fields(s0, s1, vs, width, fold, quit),
{
    let c = settings(s0, s1, vs, width, fold, quit);
    let ss = strings_of(c);
    let two = seq![s0, s1];
    assert(ss == two + vs);
    lemma_string_bytes_concat(two, vs);
    lemma_two_strings(s0, s1);
    assert(wrap32(ss.len() as int) == vs.len() + 2);
    let a = encode_utf8(s0);
    let b = encode_utf8(s1);
    let body = string_bytes(vs);
    let la = le_bytes(a.len());
    let lb = le_bytes(b.len());
    let tv = length_table(vs);
    let tail = trailer_tail(c);
    assert(encoding(c) == (a + b + body) + (la + lb + tv) + tail);
    assert(trailer_fields(s0, s1, vs, width, fold, quit) =~= a + b + body + la + lb + tv + tail);
    assert((a + b + body) + (la + lb + tv) + tail =~= a + b + body + la + lb + tv + tail);
}

/// The trailer of a configuration stores its command first, its description
/// second and its values after them, in order, each followed in the length
/// table by its byte length in the same order; and reading such a trailer,
/// whatever precedes it, gives the first stored string as the command, the
/// second as the description, and the rest as the values.
pub proof fn law_trailer_layout(
    p: Seq<u8>,
    s0: Seq<char>,
    s1: Seq<char>,
    vs: Seq<Seq<char>>,
    width: i32,
    fold: u8,
    quit: bool,
)
    requires
        vs.len() + 2 < 4294967296,
        encode_utf8(s0).len() < 4294967296,
        encode_utf8(s1).len() < 4294967296,
        forall|k: int| 0 <= k < vs.len() ==> #[trigger] encode_utf8(vs[k]).len() < 4294967296,
    ensures
        encoding(settings(s0, s1, vs, width, fold, quit)) == trailer_fields(s0, s1, vs, width, fold, quit),
        decode(p + trailer_fields(s0, s1, vs, width, fold, quit)) == Some(
            settings(s0, s1, vs, width, fold, quit),
        ),
{
    let c = settings(s0, s1, vs, width, fold, quit);
    let ss = strings_of(c);
    lemma_encoding_fields(s0, s1, vs, width, fold, quit);
    assert(storable(c)) by {
        assert forall|k: int| 0 <= k < ss.len() implies #[trigger] encode_utf8(ss[k]).len()
            < 4294967296 by {
            if k >= 2 {
                assert(ss[k] == vs[k - 2]);
            }
        }
    }
    law_read_back(p, c);
}

/// Numbers are stored little-endian, least significant byte first, and the
/// width in two's complement: its 32 bits are the width modulo 2^32.
pub proof fn law_number_fields(x: nat, w: i32)
    ensures
        x < 4294967296 ==> le_bytes(x).len() == 4 && le_bytes(x)[0] + 256 * le_bytes(x)[1]
            + 65536 * le_bytes(x)[2] + 16777216 * le_bytes(x)[3] == x,
        i32_bits(w) < 4294967296,
        (i32_bits(w) as int) % 4294967296 == (w as int) % 4294967296,
{
    if x < 4294967296 {
        lemma_le_round(x as u32);
    }
    lemma_i32_bits(w);
    if w < 0 {
        assert((w + 4294967296) % 4294967296 == (w as int) % 4294967296);
    }
}

} // verus!
