//! The mathematical model of dotted-decimal IPv4 addresses: splitting a
//! character sequence into fields, decimal and binary digit strings and their
//! numeric values, and the bit-level view of a 32-bit address.

use vstd::arithmetic::div_mod::{lemma_div_denominator, lemma_mod_breakdown};
use vstd::arithmetic::power2::{lemma2_to64, lemma_pow2_adds, lemma_pow2_pos, lemma_pow2_unfold,
    pow2};
use vstd::prelude::*;

verus! {

/// A decimal digit character.
pub open spec fn is_dec_digit(c: char) -> bool {
    c == '0' || c == '1' || c == '2' || c == '3' || c == '4' || c == '5' || c == '6' || c == '7'
        || c == '8' || c == '9'
}

/// The numeric value of a decimal digit character.
pub open spec fn dec_digit_val(c: char) -> nat {
    if c == '0' {
        0
    } else if c == '1' {
        1
    } else if c == '2' {
        2
    } else if c == '3' {
        3
    } else if c == '4' {
        4
    } else if c == '5' {
        5
    } else if c == '6' {
        6
    } else if c == '7' {
        7
    } else if c == '8' {
        8
    } else {
        9
    }
}

/// The decimal digit character for a value below ten.
pub open spec fn dec_digit_char(d: nat) -> char {
    if d == 0 {
        '0'
    } else if d == 1 {
        '1'
    } else if d == 2 {
        '2'
    } else if d == 3 {
        '3'
    } else if d == 4 {
        '4'
    } else if d == 5 {
        '5'
    } else if d == 6 {
        '6'
    } else if d == 7 {
        '7'
    } else if d == 8 {
        '8'
    } else {
        '9'
    }
}

/// Every character of `s` is a decimal digit.
pub open spec fn all_dec_digits(s: Seq<char>) -> bool {
    forall|i: int| 0 <= i < s.len() ==> is_dec_digit(#[trigger] s[i])
}

/// The value of a string of decimal digits, most significant digit first.
pub open spec fn dec_val(s: Seq<char>) -> nat
    decreases s.len(),
{
    if s.len() == 0 {
        0
    } else {
        dec_val(s.drop_last()) * 10 + dec_digit_val(s.last())
    }
}

/// The canonical decimal rendering of `n`: no sign, no leading zeros.
pub open spec fn dec_str(n: nat) -> Seq<char>
    decreases n,
{
    if n < 10 {
        seq![dec_digit_char(n)]
    } else {
        dec_str(n / 10).push(dec_digit_char(n % 10))
    }
}

/// A binary digit character.
pub open spec fn is_bin_digit(c: char) -> bool {
    c == '0' || c == '1'
}

/// The binary digit character for a bit.
pub open spec fn bin_digit_char(b: nat) -> char {
    if b == 1 {
        '1'
    } else {
        '0'
    }
}

/// The value of a string of binary digits, most significant bit first.
pub open spec fn bin_val(s: Seq<char>) -> nat
    decreases s.len(),
{
    if s.len() == 0 {
        0
    } else {
        bin_val(s.drop_last()) * 2 + (if s.last() == '1' {
            1nat
        } else {
            0nat
        })
    }
}

/// The `n`-character binary rendering of `v`, most significant bit first,
/// zero-padded on the left; it shows the low `n` bits of `v`.
pub open spec fn bin_str(v: nat, n: nat) -> Seq<char>
    decreases n,
{
    if n == 0 {
        Seq::empty()
    } else {
        bin_str(v / 2, (n - 1) as nat).push(bin_digit_char(v % 2))
    }
}

/// The fields of `s` between occurrences of `sep`, scanning from `cur` with
/// the current field having begun at `start`.
pub open spec fn split_from(s: Seq<char>, sep: char, start: int, cur: int) -> Seq<Seq<char>>
    recommends
        0 <= start <= cur <= s.len(),
    decreases s.len() - cur,
{
    if cur < 0 || cur >= s.len() {
        seq![s.subrange(start, s.len() as int)]
    } else if s[cur] == sep {
        seq![s.subrange(start, cur)] + split_from(s, sep, cur + 1, cur + 1)
    } else {
        split_from(s, sep, start, cur + 1)
    }
}

/// The fields of `s` separated by `sep`. A string without `sep` is one
/// field; every separator ends a field, so `n` separators give `n + 1`
/// fields, empty ones included.
pub open spec fn split(s: Seq<char>, sep: char) -> Seq<Seq<char>> {
    split_from(s, sep, 0, 0)
}

/// A field that parses as one octet: nonempty, all decimal digits, value at
/// most 255.
pub open spec fn valid_octet(f: Seq<char>) -> bool {
    f.len() > 0 && all_dec_digits(f) && dec_val(f) <= 255
}

/// A field that parses as an unsigned 8-bit integer; the same condition an
/// octet must meet.
pub open spec fn valid_u8_token(f: Seq<char>) -> bool {
    valid_octet(f)
}

/// Every field of `fs` is a valid octet.
pub open spec fn all_octets_valid(fs: Seq<Seq<char>>) -> bool {
    forall|i: int| 0 <= i < fs.len() ==> valid_octet(#[trigger] fs[i])
}

/// The address value accumulated over the fields in input order: each step
/// shifts the running total left by eight bits and merges the next field in,
/// so the first field is the most significant octet.
pub open spec fn fields_val(fs: Seq<Seq<char>>) -> nat
    decreases fs.len(),
{
    if fs.len() == 0 {
        0
    } else {
        fields_val(fs.drop_last()) * 256 + dec_val(fs.last())
    }
}

/// The octet of `v` at position `i` of the dotted form, most significant
/// octet first.
pub open spec fn octet(v: u32, i: int) -> u32
    recommends
        0 <= i < 4,
{
    if i == 0 {
        v / 0x1000000
    } else if i == 1 {
        (v / 0x10000) % 256
    } else if i == 2 {
        (v / 0x100) % 256
    } else {
        v % 256
    }
}

/// The dotted-decimal rendering of a 32-bit address value.
pub open spec fn dotted(v: u32) -> Seq<char> {
    dec_str(octet(v, 0) as nat) + seq!['.'] + dec_str(octet(v, 1) as nat) + seq!['.'] + dec_str(
        octet(v, 2) as nat,
    ) + seq!['.'] + dec_str(octet(v, 3) as nat)
}

/// The 32-bit mask whose top `p` bits are ones and the rest zeros.
pub open spec fn mask_of(p: u8) -> u32
    recommends
        p <= 32,
{
    if p == 0 {
        0u32
    } else {
        (0xFFFF_FFFFu32 << ((32 - p) as u32)) as u32
    }
}

/// Two addresses agree on their top `p` bits, for `p` in `[1, 32]`.
pub open spec fn same_prefix(a: u32, b: u32, p: u8) -> bool
    recommends
        1 <= p <= 32,
{
    a >> ((32 - p) as u32) == b >> ((32 - p) as u32)
}

/// Appending one character multiplies the value by the base and adds the
/// digit, for both decimal and binary digit strings.
pub proof fn lemma_dec_val_push(s: Seq<char>, c: char)
    ensures
        dec_val(s.push(c)) == dec_val(s) * 10 + dec_digit_val(c),
{
    assert(s.push(c).drop_last() =~= s);
}

/// The value of a digit string never shrinks as the string grows to the
/// right: a prefix is worth no more than the whole.
pub proof fn lemma_dec_val_prefix_le(s: Seq<char>, j: int)
    requires
        0 <= j <= s.len(),
    ensures
        dec_val(s.subrange(0, j)) <= dec_val(s),
    decreases s.len() - j,
{
    if j == s.len() {
        assert(s.subrange(0, j) =~= s);
    } else {
        assert(s.subrange(0, j + 1).drop_last() =~= s.subrange(0, j));
        assert(dec_val(s.subrange(0, j + 1)) == dec_val(s.subrange(0, j)) * 10 + dec_digit_val(
            s[j],
        ));
        lemma_dec_val_prefix_le(s, j + 1);
    }
}

/// The canonical decimal rendering is a nonempty digit string whose value is
/// the number it renders.
pub proof fn lemma_dec_str_props(n: nat)
    ensures
        dec_str(n).len() >= 1,
        all_dec_digits(dec_str(n)),
        dec_val(dec_str(n)) == n,
    decreases n,
{
    if n < 10 {
        let s = seq![dec_digit_char(n)];
        assert(dec_str(n) == s);
        assert(s.drop_last() =~= Seq::<char>::empty());
        assert(dec_val(Seq::<char>::empty()) == 0);
        assert(s.last() == dec_digit_char(n));
        assert(dec_val(s) == dec_val(s.drop_last()) * 10 + dec_digit_val(s.last()));
        assert(dec_digit_val(dec_digit_char(n)) == n);
    } else {
        lemma_dec_str_props(n / 10);
        lemma_dec_val_push(dec_str(n / 10), dec_digit_char(n % 10));
        assert(dec_digit_val(dec_digit_char(n % 10)) == n % 10);
        assert(all_dec_digits(dec_str(n))) by {
            let s = dec_str(n / 10);
            let t = s.push(dec_digit_char(n % 10));
            assert(forall|i: int| 0 <= i < s.len() ==> t[i] == s[i]);
        }
    }
}

/// The value of a binary digit string is below two to its length.
pub proof fn lemma_bin_val_bound(s: Seq<char>)
    ensures
        bin_val(s) < pow2(s.len()),
    decreases s.len(),
{
    if s.len() == 0 {
        lemma2_to64();
    } else {
        lemma_bin_val_bound(s.drop_last());
        lemma_pow2_unfold(s.len());
    }
}

/// The binary rendering has the requested length and holds only binary
/// digits.
pub proof fn lemma_bin_str_props(v: nat, n: nat)
    ensures
        bin_str(v, n).len() == n,
        forall|i: int| 0 <= i < n ==> is_bin_digit(#[trigger] bin_str(v, n)[i]),
    decreases n,
{
    if n > 0 {
        lemma_bin_str_props(v / 2, (n - 1) as nat);
    }
}

/// Appending one binary digit doubles the value and adds the bit.
pub proof fn lemma_bin_val_push(s: Seq<char>, c: char)
    ensures
        bin_val(s.push(c)) == bin_val(s) * 2 + (if c == '1' {
            1nat
        } else {
            0nat
        }),
{
    assert(s.push(c).drop_last() =~= s);
}

/// Reading the binary rendering back gives the low `n` bits of the value.
pub proof fn lemma_bin_val_bin_str(v: nat, n: nat)
    ensures
        bin_val(bin_str(v, n)) == v % pow2(n),
    decreases n,
{
    if n == 0 {
        lemma2_to64();
    } else {
        lemma_bin_val_bin_str(v / 2, (n - 1) as nat);
        lemma_bin_val_push(bin_str(v / 2, (n - 1) as nat), bin_digit_char(v % 2));
        lemma_pow2_unfold(n);
        lemma_pow2_pos((n - 1) as nat);
        lemma_mod_breakdown(v as int, 2, pow2((n - 1) as nat) as int);
        assert(bin_val(bin_str(v, n)) == (v / 2 % pow2((n - 1) as nat)) * 2 + v % 2);
    }
}

/// The binary rendering splits at any point: the high part renders the value
/// shifted down and the low part renders the value itself.
pub proof fn lemma_bin_str_split(v: nat, m: nat, k: nat)
    ensures
        bin_str(v, m + k) =~= bin_str(v / pow2(k), m) + bin_str(v, k),
    decreases k,
{
    if k == 0 {
        lemma2_to64();
        assert(bin_str(v, m + 0) =~= bin_str(v / 1, m) + bin_str(v, 0));
    } else {
        lemma_bin_str_split(v / 2, m, (k - 1) as nat);
        lemma_pow2_unfold(k);
        lemma_pow2_pos((k - 1) as nat);
        lemma_div_denominator(v as int, 2, pow2((k - 1) as nat) as int);
        assert((v / 2) / pow2((k - 1) as nat) == v / pow2(k));
        assert(bin_str(v, (m + k) as nat) == bin_str(v / 2, (m + k - 1) as nat).push(
            bin_digit_char(v % 2),
        ));
        assert(bin_str(v / 2, (m + (k - 1)) as nat) =~= bin_str(v / pow2(k), m) + bin_str(
            v / 2,
            (k - 1) as nat,
        ));
        assert(bin_str(v, k) == bin_str(v / 2, (k - 1) as nat).push(bin_digit_char(v % 2)));
    }
}

/// The accumulated address value of valid octet fields stays below two to
/// the eight times the number of fields.
pub proof fn lemma_fields_val_bound(fs: Seq<Seq<char>>)
    requires
        all_octets_valid(fs),
    ensures
        fields_val(fs) < pow2(8 * fs.len()),
    decreases fs.len(),
{
    if fs.len() == 0 {
        lemma2_to64();
    } else {
        assert(all_octets_valid(fs.drop_last())) by {
            assert(forall|i: int| 0 <= i < fs.len() - 1 ==> fs.drop_last()[i] == fs[i]);
        }
        lemma_fields_val_bound(fs.drop_last());
        lemma_pow2_adds((8 * (fs.len() - 1)) as nat, 8);
        lemma2_to64();
        assert(valid_octet(fs.last()));
        assert(fields_val(fs.drop_last()) * 256 <= (pow2((8 * (fs.len() - 1)) as nat) - 1) * 256);
    }
}

/// Scanning over characters that are not the separator leaves the split
/// unchanged.
pub proof fn lemma_split_from_advance(s: Seq<char>, sep: char, start: int, cur: int, j: int)
    requires
        0 <= start <= cur <= j <= s.len(),
        forall|i: int| cur <= i < j ==> s[i] != sep,
    ensures
        split_from(s, sep, start, cur) == split_from(s, sep, start, j),
    decreases j - cur,
{
    if cur < j {
        lemma_split_from_advance(s, sep, start, cur + 1, j);
    }
}

/// A string without the separator splits into the single field it is.
pub proof fn lemma_split_no_sep(s: Seq<char>, sep: char)
    requires
        forall|i: int| 0 <= i < s.len() ==> s[i] != sep,
    ensures
        split(s, sep) == seq![s],
{
    lemma_split_from_advance(s, sep, 0, 0, s.len() as int);
    assert(s.subrange(0, s.len() as int) =~= s);
}

/// Splitting is insensitive to a prefix that the scan has already passed.
pub proof fn lemma_split_from_offset(pre: Seq<char>, t: Seq<char>, sep: char, start: int, cur: int)
    requires
        0 <= start <= cur <= t.len(),
    ensures
        split_from(pre + t, sep, pre.len() + start, pre.len() + cur) == split_from(
            t,
            sep,
            start,
            cur,
        ),
    decreases t.len() - cur,
{
    let s = pre + t;
    let b = pre.len() as int;
    if cur >= t.len() {
        assert(s.subrange(b + start, s.len() as int) =~= t.subrange(start, t.len() as int));
    } else {
        assert(s[b + cur] == t[cur]);
        if t[cur] == sep {
            lemma_split_from_offset(pre, t, sep, cur + 1, cur + 1);
            assert(s.subrange(b + start, b + cur) =~= t.subrange(start, cur));
        } else {
            lemma_split_from_offset(pre, t, sep, start, cur + 1);
        }
    }
}

/// Splitting a field, a separator, and a remainder yields the field followed
/// by the split of the remainder.
pub proof fn lemma_split_concat(f: Seq<char>, rest: Seq<char>, sep: char)
    requires
        forall|i: int| 0 <= i < f.len() ==> f[i] != sep,
    ensures
        split(f + seq![sep] + rest, sep) == seq![f] + split(rest, sep),
{
    let s = f + seq![sep] + rest;
    let b = f.len() as int;
    assert(forall|i: int| 0 <= i < b ==> s[i] == f[i]);
    lemma_split_from_advance(s, sep, 0, 0, b);
    assert(s[b] == sep);
    assert(split_from(s, sep, 0, b) == seq![s.subrange(0, b)] + split_from(s, sep, b + 1, b + 1));
    assert(s.subrange(0, b) =~= f);
    assert(f + seq![sep] + rest =~= (f + seq![sep]) + rest);
    lemma_split_from_offset(f + seq![sep], rest, sep, 0, 0);
}

} // verus!
