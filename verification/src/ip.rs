//! IPv4 address arithmetic: conversion of dotted-decimal addresses to their
//! 32-bit binary form, subnet masks, network and broadcast addresses, and
//! CIDR range membership.

use crate::model::{all_octets_valid, bin_digit_char, bin_str, bin_val, dec_digit_char,
    dec_digit_val, dec_str, dec_val, dotted, fields_val, is_bin_digit, is_dec_digit, mask_of,
    same_prefix, split, split_from, valid_octet, valid_u8_token};
use crate::model::{lemma_bin_str_props, lemma_bin_val_bound, lemma_bin_val_push,
    lemma_dec_val_prefix_le, lemma_dec_val_push, lemma_fields_val_bound};
use vstd::arithmetic::div_mod::{lemma_div_denominator, lemma_div_is_ordered};
use vstd::arithmetic::power2::{lemma2_to64, lemma_pow2_strictly_increases};
use vstd::prelude::*;
use vstd::string::StrSliceExecFns;

verus! {

/// The ways an operation of this library can fail.
#[derive(Clone, Copy, Debug, PartialEq, Eq, Structural)]
pub enum IpError {
    /// The wrong number of dot-separated fields, or a CIDR literal without
    /// exactly one `/`.
    InvalidFormat,
    /// A field, octet, or prefix token is not a decimal number in range.
    ParseError,
    /// A prefix length outside the accepted range.
    InvalidPrefix,
    /// An internally built binary chunk holds a non-binary character.
    RadixParseError,
}

/// What parsing a dotted-decimal address yields: its 32-bit value, or the
/// error. More than four dot-separated fields is a format error; fewer than
/// four is accepted, the missing low octets reading as zero. Any field that
/// is not a decimal number up to 255 is a parse error.
pub open spec fn addr_value_result(s: Seq<char>) -> Result<u32, IpError> {
    let fs = split(s, '.');
    if fs.len() > 4 {
        Err(IpError::InvalidFormat)
    } else if !all_octets_valid(fs) {
        Err(IpError::ParseError)
    } else {
        Ok(fields_val(fs) as u32)
    }
}

/// What `get_bit` yields: the 32-character binary rendering of the parsed
/// address value, or the parse outcome's error.
pub open spec fn bit_result(s: Seq<char>) -> Result<Seq<char>, IpError> {
    match addr_value_result(s) {
        Ok(v) => Ok(bin_str(v as nat, 32)),
        Err(e) => Err(e),
    }
}

/// What `get_subnet_mask` yields: the dotted rendering of the mask with the
/// top `prefix` bits set, or `InvalidPrefix` above 32.
pub open spec fn mask_result(prefix: u8) -> Result<Seq<char>, IpError> {
    if prefix > 32 {
        Err(IpError::InvalidPrefix)
    } else {
        Ok(dotted(mask_of(prefix)))
    }
}

/// What `get_network_address` yields: the address with its host bits
/// cleared, rendered dotted; the prefix is checked before the address.
pub open spec fn network_result(s: Seq<char>, prefix: u8) -> Result<Seq<char>, IpError> {
    if prefix > 32 {
        Err(IpError::InvalidPrefix)
    } else {
        match addr_value_result(s) {
            Ok(v) => Ok(dotted(v & mask_of(prefix))),
            Err(e) => Err(e),
        }
    }
}

/// What `get_broadcast_address` yields: the address with its host bits set,
/// rendered dotted; the prefix is checked before the address.
pub open spec fn broadcast_result(s: Seq<char>, prefix: u8) -> Result<Seq<char>, IpError> {
    if prefix > 32 {
        Err(IpError::InvalidPrefix)
    } else {
        match addr_value_result(s) {
            Ok(v) => Ok(dotted(v | !mask_of(prefix))),
            Err(e) => Err(e),
        }
    }
}

/// What `make_address` yields on a 32-character input: the four 8-bit chunks
/// rendered as dot-separated decimal octets, or `RadixParseError` if any
/// character is not a binary digit.
pub open spec fn render_result(s: Seq<char>) -> Result<Seq<char>, IpError> {
    if !(forall|i: int| 0 <= i < s.len() ==> is_bin_digit(#[trigger] s[i])) {
        Err(IpError::RadixParseError)
    } else {
        Ok(
            dec_str(bin_val(s.subrange(0, 8))) + seq!['.'] + dec_str(bin_val(s.subrange(8, 16)))
                + seq!['.'] + dec_str(bin_val(s.subrange(16, 24))) + seq!['.'] + dec_str(
                bin_val(s.subrange(24, 32)),
            ),
        )
    }
}

/// What `check_subnet` yields: whether the probe address and the range
/// address agree on the prefix's bits. The literal must have exactly one
/// `/`; both addresses must parse, the probe first; the prefix token must be
/// a decimal number up to 255, and the prefix itself in `[1, 32]`.
pub open spec fn check_result(ip: Seq<char>, range: Seq<char>) -> Result<bool, IpError> {
    let parts = split(range, '/');
    if parts.len() != 2 {
        Err(IpError::InvalidFormat)
    } else {
        match addr_value_result(ip) {
            Err(e) => Err(e),
            Ok(ipv) => match addr_value_result(parts[0]) {
                Err(e) => Err(e),
                Ok(netv) => if !valid_u8_token(parts[1]) {
                    Err(IpError::ParseError)
                } else if dec_val(parts[1]) == 0 || dec_val(parts[1]) > 32 {
                    Err(IpError::InvalidPrefix)
                } else {
                    Ok(same_prefix(ipv, netv, dec_val(parts[1]) as u8))
                },
            },
        }
    }
}

/// An executable string result agrees with a spec-level one: same case, and
/// on success the same characters.
pub open spec fn str_result_matches(r: Result<String, IpError>, m: Result<
    Seq<char>,
    IpError,
>) -> bool {
    match (r, m) {
        (Ok(s), Ok(t)) => s@ == t,
        (Err(e1), Err(e2)) => e1 == e2,
        _ => false,
    }
}

/// The characters of a string slice, in order.
fn chars_of(s: &str) -> (v: Vec<char>)
    ensures
        v@ == s@,
{
    let n: usize = s.unicode_len();
    let mut v: Vec<char> = Vec::new();
    let mut i: usize = 0;
    while i < n
        invariant
            n == s@.len(),
            0 <= i <= n,
            v@ =~= s@.subrange(0, i as int),
        decreases n - i,
    {
        v.push(s.get_char(i));
        i = i + 1;
    }
    assert(v@ =~= s@);
    v
}

/// The fields of `cs` between occurrences of `sep`, as the model's `split`
/// describes them.
fn split_chars(cs: &Vec<char>, sep: char) -> (v: Vec<Vec<char>>)
    ensures
        v@.map_values(|f: Vec<char>| f@) == split(cs@, sep),
{
    let ghost s = cs@;
    let mut v: Vec<Vec<char>> = Vec::new();
    let mut cur: Vec<char> = Vec::new();
    let mut j: usize = 0;
    while j < cs.len()
        invariant
            s == cs@,
            0 <= j <= s.len(),
            cur@.len() <= j,
            cur@ =~= s.subrange(j - cur@.len(), j as int),
            split(s, sep) == v@.map_values(|f: Vec<char>| f@) + split_from(
                s,
                sep,
                j - cur@.len(),
                j as int,
            ),
        decreases s.len() - j,
    {
        let ghost start = j - cur@.len();
        let c = cs[j];
        if c == sep {
            assert(split_from(s, sep, start, j as int) == seq![s.subrange(start, j as int)]
                + split_from(s, sep, j + 1, j + 1));
            let ghost old_v = v@;
            v.push(cur);
            assert(v@.map_values(|f: Vec<char>| f@) =~= old_v.map_values(|f: Vec<char>| f@).push(
                s.subrange(start, j as int),
            ));
            cur = Vec::new();
            assert(cur@ =~= s.subrange(j + 1 - 0, j + 1));
        } else {
            assert(split_from(s, sep, start, j as int) == split_from(s, sep, start, j + 1));
            cur.push(c);
            assert(cur@ =~= s.subrange(start, j + 1));
        }
        j = j + 1;
    }
    assert(split_from(s, sep, j - cur@.len(), j as int) == seq![
        s.subrange(j - cur@.len(), s.len() as int),
    ]);
    let ghost old_v = v@;
    v.push(cur);
    assert(v@.map_values(|f: Vec<char>| f@) =~= old_v.map_values(|f: Vec<char>| f@).push(
        s.subrange(s.len() - cur@.len(), s.len() as int),
    ));
    v
}

/// The numeric value of one decimal digit character, or nothing for any
/// other character.
fn dec_digit_of(c: char) -> (r: Option<u8>)
    ensures
        match r {
            Some(d) => is_dec_digit(c) && d as nat == dec_digit_val(c),
            None => !is_dec_digit(c),
        },
{
    match c {
        '0' => Some(0),
        '1' => Some(1),
        '2' => Some(2),
        '3' => Some(3),
        '4' => Some(4),
        '5' => Some(5),
        '6' => Some(6),
        '7' => Some(7),
        '8' => Some(8),
        '9' => Some(9),
        _ => None,
    }
}

/// Parses one field as an 8-bit value: nonempty, decimal digits only, at
/// most 255.
fn parse_octet(f: &Vec<char>) -> (r: Option<u8>)
    ensures
        match r {
            Some(b) => valid_octet(f@) && b as nat == dec_val(f@),
            None => !valid_octet(f@),
        },
{
    if f.len() == 0 {
        return None;
    }
    let mut val: u32 = 0;
    let mut j: usize = 0;
    while j < f.len()
        invariant
            0 <= j <= f@.len(),
            val <= 255,
            val as nat == dec_val(f@.subrange(0, j as int)),
            forall|i: int| 0 <= i < j ==> is_dec_digit(#[trigger] f@[i]),
        decreases f@.len() - j,
    {
        let c = f[j];
        let d = match dec_digit_of(c) {
            Some(d) => d,
            None => {
                return None;
            },
        };
        proof {
            assert(f@.subrange(0, j + 1).drop_last() =~= f@.subrange(0, j as int));
            lemma_dec_val_push(f@.subrange(0, j as int), c);
            assert(f@.subrange(0, j as int).push(c) =~= f@.subrange(0, j + 1));
        }
        val = val * 10 + d as u32;
        j = j + 1;
        if val > 255 {
            proof {
                lemma_dec_val_prefix_le(f@, j as int);
            }
            return None;
        }
    }
    assert(f@.subrange(0, f@.len() as int) =~= f@);
    Some(val as u8)
}

/// Parses a dotted-decimal address into its 32-bit value, with the model's
/// error policy: field count first, then each field in input order.
fn parse_addr_chars(cs: &Vec<char>) -> (r: Result<u32, IpError>)
    ensures
        r == addr_value_result(cs@),
{
    let ghost fs = split(cs@, '.');
    let fields = split_chars(cs, '.');
    if fields.len() > 4 {
        return Err(IpError::InvalidFormat);
    }
    let mut acc: u32 = 0;
    let mut i: usize = 0;
    while i < fields.len()
        invariant
            fields@.map_values(|f: Vec<char>| f@) == fs,
            fs == split(cs@, '.'),
            0 <= i <= fields@.len() <= 4,
            forall|k: int| 0 <= k < i ==> valid_octet(#[trigger] fs[k]),
            acc as nat == fields_val(fs.subrange(0, i as int)),
        decreases fields@.len() - i,
    {
        assert(fs[i as int] == fields@[i as int]@);
        let b = match parse_octet(&fields[i]) {
            Some(b) => b,
            None => {
                return Err(IpError::ParseError);
            },
        };
        proof {
            let pre = fs.subrange(0, i as int);
            assert(all_octets_valid(pre)) by {
                assert(forall|k: int| 0 <= k < i ==> pre[k] == fs[k]);
            }
            lemma_fields_val_bound(pre);
            lemma2_to64();
            if 8 * (i as nat) < 24 {
                lemma_pow2_strictly_increases(8 * (i as nat), 24);
            }
            assert(acc < 0x1000000);
            assert(fs.subrange(0, i + 1).drop_last() =~= pre);
            assert(fs.subrange(0, i + 1).last() == fs[i as int]);
        }
        acc = acc * 256 + b as u32;
        i = i + 1;
    }
    assert(fs.subrange(0, fs.len() as int) =~= fs);
    Ok(acc)
}

/// Relies on `String::push`: appends the character at the end of the
/// string.
#[verifier::external_body]
fn push_char(s: &mut String, c: char)
    ensures
        final(s)@ == old(s)@.push(c),
{
    s.push(c);
}

/// Renders a 32-bit value as its 32-character binary string, most
/// significant bit first.
fn bin_string_of(v: u32) -> (s: String)
    ensures
        s@ == bin_str(v as nat, 32),
{
    let ghost whole = bin_str(v as nat, 32);
    proof {
        lemma_bin_str_props(v as nat, 32);
    }
    let mut rev: Vec<char> = Vec::new();
    let mut t: u32 = v;
    let mut i: usize = 0;
    while i < 32
        invariant
            whole == bin_str(v as nat, 32),
            whole.len() == 32,
            0 <= i <= 32,
            rev@.len() == i,
            whole.subrange(0, 32 - i) =~= bin_str(t as nat, (32 - i) as nat),
            forall|j: int| 0 <= j < i ==> rev@[j] == whole[31 - j],
        decreases 32 - i,
    {
        let ghost m = (32 - i) as nat;
        proof {
            lemma_bin_str_props(t as nat, m);
        }
        let c = if t % 2 == 1 {
            '1'
        } else {
            '0'
        };
        proof {
            assert(bin_str(t as nat, m) == bin_str((t as nat) / 2, (m - 1) as nat).push(
                bin_digit_char((t as nat) % 2),
            ));
            assert(c == bin_digit_char((t as nat) % 2));
            assert(whole[31 - i] == whole.subrange(0, m as int)[m - 1]);
            assert(whole[31 - i] == c);
        }
        rev.push(c);
        proof {
            assert(whole.subrange(0, 32 - (i + 1)) =~= whole.subrange(0, m as int).subrange(
                0,
                m - 1,
            ));
            assert(bin_str(t as nat, m).drop_last() =~= bin_str(t as nat, m).subrange(0, m - 1));
            assert(whole.subrange(0, 32 - (i + 1)) =~= bin_str((t as nat) / 2, (m - 1) as nat));
        }
        t = t / 2;
        i = i + 1;
    }
    let mut s = String::new();
    let mut k: usize = 0;
    while k < 32
        invariant
            whole == bin_str(v as nat, 32),
            whole.len() == 32,
            rev@.len() == 32,
            forall|j: int| 0 <= j < 32 ==> rev@[j] == whole[31 - j],
            0 <= k <= 32,
            s@.len() == k,
            forall|j: int| 0 <= j < k ==> s@[j] == whole[j],
        decreases 32 - k,
    {
        let c = rev[31 - k];
        push_char(&mut s, c);
        k = k + 1;
    }
    assert(s@ =~= whole);
    s
}

/// The decimal digit character for a value below ten.
fn dec_char_of(d: u32) -> (c: char)
    requires
        d < 10,
    ensures
        c == dec_digit_char(d as nat),
{
    match d {
        0 => '0',
        1 => '1',
        2 => '2',
        3 => '3',
        4 => '4',
        5 => '5',
        6 => '6',
        7 => '7',
        8 => '8',
        _ => '9',
    }
}

/// Appends the canonical decimal rendering of an octet value.
fn dec_push(s: &mut String, n: u32)
    requires
        n < 256,
    ensures
        final(s)@ == old(s)@ + dec_str(n as nat),
{
    let ghost s0 = s@;
    if n >= 100 {
        proof {
            lemma_div_denominator(n as int, 10, 10);
            assert(dec_str((n / 100) as nat) == seq![dec_digit_char((n / 100) as nat)]);
            assert(dec_str((n / 10) as nat) == dec_str((n / 100) as nat).push(
                dec_digit_char(((n / 10) % 10) as nat),
            ));
        }
        push_char(s, dec_char_of(n / 100));
        push_char(s, dec_char_of((n / 10) % 10));
        push_char(s, dec_char_of(n % 10));
        assert(s@ =~= s0 + dec_str(n as nat));
    } else if n >= 10 {
        proof {
            assert(dec_str((n / 10) as nat) == seq![dec_digit_char((n / 10) as nat)]);
        }
        push_char(s, dec_char_of(n / 10));
        push_char(s, dec_char_of(n % 10));
        assert(s@ =~= s0 + dec_str(n as nat));
    } else {
        push_char(s, dec_char_of(n));
        assert(dec_str(n as nat) == seq![dec_digit_char(n as nat)]);
        assert(s@ =~= s0 + dec_str(n as nat));
    }
}

/// Renders a 32-bit address value in dotted-decimal form.
fn dotted_string_of(v: u32) -> (s: String)
    ensures
        s@ == dotted(v),
{
    let o0: u32 = v / 0x1000000;
    let o1: u32 = (v / 0x10000) % 256;
    let o2: u32 = (v / 0x100) % 256;
    let o3: u32 = v % 256;
    proof {
        lemma_div_is_ordered(v as int, 0xFFFFFFFF, 0x1000000);
    }
    let mut s = String::new();
    dec_push(&mut s, o0);
    push_char(&mut s, '.');
    dec_push(&mut s, o1);
    push_char(&mut s, '.');
    dec_push(&mut s, o2);
    push_char(&mut s, '.');
    dec_push(&mut s, o3);
    assert(s@ =~= dotted(v));
    s
}

/// Converts a dotted-decimal address to its 32-character binary form, most
/// significant octet first.
pub fn get_bit(ip: &str) -> (r: Result<String, IpError>)
    ensures
        str_result_matches(r, bit_result(ip@)),
{
    let cs = chars_of(ip);
    match parse_addr_chars(&cs) {
        Ok(v) => Ok(bin_string_of(v)),
        Err(e) => Err(e),
    }
}

/// The 32-bit mask whose top `prefix` bits are ones.
fn mask_value_of(prefix: u8) -> (m: u32)
    requires
        prefix <= 32,
    ensures
        m == mask_of(prefix),
{
    if prefix == 0 {
        0
    } else {
        0xFFFF_FFFFu32 << ((32 - prefix) as u32)
    }
}

/// Builds the subnet mask for a prefix length and renders it in
/// dotted-decimal form.
pub fn get_subnet_mask(prefix: u8) -> (r: Result<String, IpError>)
    ensures
        str_result_matches(r, mask_result(prefix)),
{
    if prefix > 32 {
        return Err(IpError::InvalidPrefix);
    }
    Ok(dotted_string_of(mask_value_of(prefix)))
}

/// Computes the network address of an address under a prefix: the host bits
/// are cleared and the result rendered in dotted-decimal form.
pub fn get_network_address(ip: &str, prefix: u8) -> (r: Result<String, IpError>)
    ensures
        str_result_matches(r, network_result(ip@, prefix)),
{
    if prefix > 32 {
        return Err(IpError::InvalidPrefix);
    }
    let cs = chars_of(ip);
    let v = match parse_addr_chars(&cs) {
        Ok(v) => v,
        Err(e) => {
            return Err(e);
        },
    };
    Ok(dotted_string_of(v & mask_value_of(prefix)))
}

/// Computes the broadcast address of an address under a prefix: the host
/// bits are set and the result rendered in dotted-decimal form.
pub fn get_broadcast_address(ip: &str, prefix: u8) -> (r: Result<String, IpError>)
    ensures
        str_result_matches(r, broadcast_result(ip@, prefix)),
{
    if prefix > 32 {
        return Err(IpError::InvalidPrefix);
    }
    let cs = chars_of(ip);
    let v = match parse_addr_chars(&cs) {
        Ok(v) => v,
        Err(e) => {
            return Err(e);
        },
    };
    Ok(dotted_string_of(v | !mask_value_of(prefix)))
}

/// Decides whether an address lies in the range a CIDR literal
/// `address/prefix` denotes: membership holds when the two addresses agree
/// on the top `prefix` bits.
pub fn check_subnet(ip: &str, range: &str) -> (r: Result<bool, IpError>)
    ensures
        r == check_result(ip@, range@),
{
    let ghost ps = split(range@, '/');
    let rcs = chars_of(range);
    let parts = split_chars(&rcs, '/');
    if parts.len() != 2 {
        return Err(IpError::InvalidFormat);
    }
    let ics = chars_of(ip);
    let ipv = match parse_addr_chars(&ics) {
        Ok(v) => v,
        Err(e) => {
            return Err(e);
        },
    };
    assert(parts@[0]@ == ps[0]);
    assert(parts@[1]@ == ps[1]);
    let netv = match parse_addr_chars(&parts[0]) {
        Ok(v) => v,
        Err(e) => {
            return Err(e);
        },
    };
    let c = match parse_octet(&parts[1]) {
        Some(c) => c,
        None => {
            return Err(IpError::ParseError);
        },
    };
    if c == 0 || c > 32 {
        return Err(IpError::InvalidPrefix);
    }
    let sh: u32 = (32 - c) as u32;
    Ok((ipv >> sh) == (netv >> sh))
}

/// The value of the 8-character binary chunk of `cs` beginning at `start`,
/// or nothing if the chunk holds a non-binary character.
fn bin_chunk_val(cs: &Vec<char>, start: usize) -> (r: Option<u32>)
    requires
        cs@.len() == 32,
        start + 8 <= 32,
    ensures
        match r {
            Some(w) => (forall|i: int|
                start <= i < start + 8 ==> is_bin_digit(#[trigger] cs@[i])) && w as nat == bin_val(
                cs@.subrange(start as int, start + 8),
            ) && w < 256,
            None => exists|i: int| start <= i < start + 8 && !is_bin_digit(cs@[i]),
        },
{
    let mut w: u32 = 0;
    let mut j: usize = 0;
    while j < 8
        invariant
            cs@.len() == 32,
            start + 8 <= 32,
            0 <= j <= 8,
            w as nat == bin_val(cs@.subrange(start as int, start + j)),
            w < 256,
            forall|i: int| start <= i < start + j ==> is_bin_digit(#[trigger] cs@[i]),
        decreases 8 - j,
    {
        let c = cs[start + j];
        let b: u32 = if c == '1' {
            1
        } else if c == '0' {
            0
        } else {
            return None;
        };
        proof {
            let pre = cs@.subrange(start as int, start + j);
            lemma_bin_val_push(pre, c);
            assert(pre.push(c) =~= cs@.subrange(start as int, start + j + 1));
            lemma_bin_val_bound(cs@.subrange(start as int, start + j + 1));
            lemma2_to64();
            if j + 1 < 8 {
                lemma_pow2_strictly_increases((j + 1) as nat, 8);
            }
        }
        w = w * 2 + b;
        j = j + 1;
    }
    Some(w)
}

/// Converts a 32-character binary string back into four dot-separated
/// decimal octets.
pub fn make_address(bit: &str) -> (r: Result<String, IpError>)
    requires
        bit@.len() == 32,
    ensures
        str_result_matches(r, render_result(bit@)),
{
    let cs = chars_of(bit);
    let o0 = match bin_chunk_val(&cs, 0) {
        Some(w) => w,
        None => {
            return Err(IpError::RadixParseError);
        },
    };
    let o1 = match bin_chunk_val(&cs, 8) {
        Some(w) => w,
        None => {
            return Err(IpError::RadixParseError);
        },
    };
    let o2 = match bin_chunk_val(&cs, 16) {
        Some(w) => w,
        None => {
            return Err(IpError::RadixParseError);
        },
    };
    let o3 = match bin_chunk_val(&cs, 24) {
        Some(w) => w,
        None => {
            return Err(IpError::RadixParseError);
        },
    };
    assert forall|i: int| 0 <= i < bit@.len() implies is_bin_digit(#[trigger] bit@[i]) by {
        assert(cs@[i] == bit@[i]);
    }
    let mut s = String::new();
    dec_push(&mut s, o0);
    push_char(&mut s, '.');
    dec_push(&mut s, o1);
    push_char(&mut s, '.');
    dec_push(&mut s, o2);
    push_char(&mut s, '.');
    dec_push(&mut s, o3);
    proof {
        assert(render_result(bit@) == Ok::<Seq<char>, IpError>(
            dec_str(bin_val(bit@.subrange(0, 8))) + seq!['.'] + dec_str(
                bin_val(bit@.subrange(8, 16)),
            ) + seq!['.'] + dec_str(bin_val(bit@.subrange(16, 24))) + seq!['.'] + dec_str(
                bin_val(bit@.subrange(24, 32)),
            ),
        ));
        assert(s@ =~= dec_str(bin_val(bit@.subrange(0, 8))) + seq!['.'] + dec_str(
            bin_val(bit@.subrange(8, 16)),
        ) + seq!['.'] + dec_str(bin_val(bit@.subrange(16, 24))) + seq!['.'] + dec_str(
            bin_val(bit@.subrange(24, 32)),
        ));
    }
    Ok(s)
}

} // verus!
