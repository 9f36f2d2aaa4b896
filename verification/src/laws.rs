//! The library-wide laws: rendering inverts parsing, masks grow with the
//! prefix, the network address bounds every address that the broadcast
//! address caps, and a full prefix changes nothing.

use crate::ip::{addr_value_result, bit_result, broadcast_result, network_result, render_result,
    IpError};
use crate::model::{all_octets_valid, bin_str, dec_str, dec_val, dotted, fields_val, is_dec_digit,
    mask_of, octet, split};
use crate::model::{lemma_bin_str_props, lemma_bin_str_split, lemma_bin_val_bin_str,
    lemma_dec_str_props, lemma_split_concat, lemma_split_no_sep};
use vstd::arithmetic::div_mod::{lemma_div_denominator, lemma_div_is_ordered,
    lemma_fundamental_div_mod, lemma_small_mod};
use vstd::arithmetic::power2::lemma2_to64;
use vstd::prelude::*;

verus! {

/// A digit string never holds a separator, so splitting around it is
/// harmless.
proof fn lemma_dec_str_free_of(n: nat, sep: char)
    requires
        !is_dec_digit(sep),
    ensures
        forall|i: int| 0 <= i < dec_str(n).len() ==> dec_str(n)[i] != sep,
{
    lemma_dec_str_props(n);
}

/// Each octet of an address value is below 256.
proof fn lemma_octet_bounds(v: u32)
    ensures
        octet(v, 0) < 256,
        octet(v, 1) < 256,
        octet(v, 2) < 256,
        octet(v, 3) < 256,
{
    lemma_div_is_ordered(v as int, 0xFFFFFFFF, 0x1000000);
}

/// The dotted rendering of a value splits back into its four octet fields.
proof fn lemma_split_dotted(v: u32)
    ensures
        split(dotted(v), '.') == seq![
            dec_str(octet(v, 0) as nat),
            dec_str(octet(v, 1) as nat),
            dec_str(octet(v, 2) as nat),
            dec_str(octet(v, 3) as nat),
        ],
{
    let d0 = dec_str(octet(v, 0) as nat);
    let d1 = dec_str(octet(v, 1) as nat);
    let d2 = dec_str(octet(v, 2) as nat);
    let d3 = dec_str(octet(v, 3) as nat);
    lemma_dec_str_free_of(octet(v, 0) as nat, '.');
    lemma_dec_str_free_of(octet(v, 1) as nat, '.');
    lemma_dec_str_free_of(octet(v, 2) as nat, '.');
    lemma_dec_str_free_of(octet(v, 3) as nat, '.');
    let rest2 = d2 + seq!['.'] + d3;
    let rest1 = d1 + seq!['.'] + rest2;
    assert(dotted(v) =~= d0 + seq!['.'] + rest1);
    lemma_split_concat(d0, rest1, '.');
    assert(rest1 =~= d1 + seq!['.'] + rest2);
    lemma_split_concat(d1, rest2, '.');
    lemma_split_concat(d2, d3, '.');
    lemma_split_no_sep(d3, '.');
    assert(split(dotted(v), '.') =~= seq![d0, d1, d2, d3]);
}

/// Recombining the four octets of a value gives the value back.
proof fn lemma_octets_recombine(v: u32)
    ensures
        ((octet(v, 0) * 256 + octet(v, 1)) * 256 + octet(v, 2)) * 256 + octet(v, 3) == v,
{
    lemma_div_denominator(v as int, 0x10000, 256);
    lemma_div_denominator(v as int, 0x100, 256);
    lemma_fundamental_div_mod(v as int / 0x10000, 256);
    lemma_fundamental_div_mod(v as int / 0x100, 256);
    lemma_fundamental_div_mod(v as int, 256);
}

/// Parsing the dotted rendering of any 32-bit value gives the value back;
/// with the next law, `render(get_bit(A)) == A` for every canonical
/// dotted-decimal address `A`.
pub proof fn lemma_parse_dotted(v: u32)
    ensures
        addr_value_result(dotted(v)) == Ok::<u32, IpError>(v),
        bit_result(dotted(v)) == Ok::<Seq<char>, IpError>(bin_str(v as nat, 32)),
{
    let d0 = dec_str(octet(v, 0) as nat);
    let d1 = dec_str(octet(v, 1) as nat);
    let d2 = dec_str(octet(v, 2) as nat);
    let d3 = dec_str(octet(v, 3) as nat);
    let fs = split(dotted(v), '.');
    lemma_split_dotted(v);
    lemma_octet_bounds(v);
    lemma_dec_str_props(octet(v, 0) as nat);
    lemma_dec_str_props(octet(v, 1) as nat);
    lemma_dec_str_props(octet(v, 2) as nat);
    lemma_dec_str_props(octet(v, 3) as nat);
    assert(all_octets_valid(fs));
    let s3 = seq![d0, d1, d2];
    let s2 = seq![d0, d1];
    let s1 = seq![d0];
    assert(fs.drop_last() =~= s3);
    assert(s3.drop_last() =~= s2);
    assert(s2.drop_last() =~= s1);
    assert(s1.drop_last() =~= Seq::<Seq<char>>::empty());
    assert(fields_val(Seq::<Seq<char>>::empty()) == 0);
    assert(fields_val(s1) == dec_val(d0));
    assert(fields_val(s2) == fields_val(s1) * 256 + dec_val(d1));
    assert(fields_val(s3) == fields_val(s2) * 256 + dec_val(d2));
    assert(fields_val(fs) == fields_val(s3) * 256 + dec_val(d3));
    assert(fields_val(fs) == ((dec_val(d0) * 256 + dec_val(d1)) * 256 + dec_val(d2)) * 256
        + dec_val(d3));
    lemma_octets_recombine(v);
    assert(fields_val(fs) == v as nat);
}

/// Rendering the 32-character binary form of any value gives the value's
/// dotted-decimal form: the other half of the round trip.
pub proof fn lemma_render_bin_str(v: u32)
    ensures
        render_result(bin_str(v as nat, 32)) == Ok::<Seq<char>, IpError>(dotted(v)),
{
    let w = bin_str(v as nat, 32);
    lemma_bin_str_props(v as nat, 32);
    lemma2_to64();
    let x = v as nat;
    lemma_bin_str_split(x, 24, 8);
    lemma_bin_str_split(x / 256, 16, 8);
    lemma_div_denominator(v as int, 256, 256);
    lemma_div_denominator(v as int, 0x10000, 256);
    lemma_bin_str_split(x / 0x10000, 8, 8);
    lemma_bin_str_props(x / 256, 8);
    lemma_bin_str_props(x / 0x10000, 8);
    lemma_bin_str_props(x / 0x1000000, 8);
    assert(w =~= bin_str(x / 0x1000000, 8) + bin_str(x / 0x10000, 8) + bin_str(x / 256, 8)
        + bin_str(x, 8));
    assert(w.subrange(0, 8) =~= bin_str(x / 0x1000000, 8));
    assert(w.subrange(8, 16) =~= bin_str(x / 0x10000, 8));
    assert(w.subrange(16, 24) =~= bin_str(x / 256, 8));
    assert(w.subrange(24, 32) =~= bin_str(x, 8));
    lemma_bin_val_bin_str(x / 0x1000000, 8);
    lemma_bin_val_bin_str(x / 0x10000, 8);
    lemma_bin_val_bin_str(x / 256, 8);
    lemma_bin_val_bin_str(x, 8);
    lemma_div_is_ordered(v as int, 0xFFFFFFFF, 0x1000000);
    lemma_small_mod(x / 0x1000000, 256);
}

/// For prefixes `p1 <= p2`, the shorter prefix's mask is a bitwise subset
/// of the longer one's.
pub proof fn lemma_mask_monotone(p1: u8, p2: u8)
    requires
        p1 <= p2 <= 32,
    ensures
        mask_of(p1) & mask_of(p2) == mask_of(p1),
{
    assert(mask_of(p1) & mask_of(p2) == mask_of(p1)) by (bit_vector)
        requires
            p1 <= p2 <= 32,
    ;
}

/// Clearing host bits never raises an address and setting them never
/// lowers it: network address <= address <= broadcast address, as 32-bit
/// integers.
pub proof fn lemma_network_le_address_le_broadcast(v: u32, p: u8)
    requires
        p <= 32,
    ensures
        v & mask_of(p) <= v,
        v <= (v | !mask_of(p)),
{
    assert((v & mask_of(p)) <= v && v <= (v | !mask_of(p))) by (bit_vector);
}

/// For every address that parses and every prefix up to 32, the network
/// and broadcast computations succeed, render canonically, and their
/// values bound the address's value from below and above.
pub proof fn lemma_range_order(s: Seq<char>, p: u8)
    requires
        p <= 32,
        addr_value_result(s) is Ok,
    ensures
        ({
            let v = addr_value_result(s)->Ok_0;
            let n = v & mask_of(p);
            let b = v | !mask_of(p);
            network_result(s, p) == Ok::<Seq<char>, IpError>(dotted(n)) && broadcast_result(s, p)
                == Ok::<Seq<char>, IpError>(dotted(b)) && addr_value_result(dotted(n))
                == Ok::<u32, IpError>(n) && addr_value_result(dotted(b)) == Ok::<u32, IpError>(b)
                && n <= v <= b
        }),
{
    let v = addr_value_result(s)->Ok_0;
    lemma_parse_dotted(v & mask_of(p));
    lemma_parse_dotted(v | !mask_of(p));
    lemma_network_le_address_le_broadcast(v, p);
}

/// A full 32-bit prefix leaves a canonical address unchanged, for the
/// network and the broadcast address alike.
pub proof fn lemma_full_prefix_identity(v: u32)
    ensures
        network_result(dotted(v), 32) == Ok::<Seq<char>, IpError>(dotted(v)),
        broadcast_result(dotted(v), 32) == Ok::<Seq<char>, IpError>(dotted(v)),
{
    lemma_parse_dotted(v);
    assert(v & mask_of(32) == v) by (bit_vector);
    assert(v | !mask_of(32) == v) by (bit_vector);
}

} // verus!

