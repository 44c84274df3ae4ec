use vstd::prelude::*;
use vstd::arithmetic::power2::{pow2, lemma2_to64};
use vstd::bits::{lemma_u32_shl_is_mul, lemma_u32_pow2_no_overflow};
use crate::error::SubnetError;
use crate::text::{
    dec, is_digit, is_u32_text, u32_text_value, unsigned_digits, split_dots, push_decimal, chars_of,
    split_on_dots, parse_u32, lemma_dec_reads_back, lemma_split_plain_suffix, lemma_split_dot_suffix,
};
use vstd::arithmetic::div_mod::lemma_fundamental_div_mod_converse;

verus! {

/// Largest prefix length of an IPv4 netmask.
pub const MAX_PREFIX: u32 = 32;

/// The netmask with `p` leading one-bits, as a number: `2^32 - 2^(32 - p)`.
pub open spec fn mask_value(p: nat) -> int {
    pow2(32) - pow2((32 - p) as nat)
}

pub(crate) proof fn lemma_low_ones(k: u32)
    requires
        k < 32,
    ensures
        (1u32 << k) == pow2(k as nat),
        !(((1u32 << k) - 1) as u32) == 0xFFFF_FFFFu32 - ((1u32 << k) - 1),
{
    lemma_u32_pow2_no_overflow(k as nat);
    lemma_u32_shl_is_mul(1u32, k);
    assert(1u32 << k >= 1) by (bit_vector)
        requires
            k < 32,
    ;
    let x: u32 = ((1u32 << k) - 1) as u32;
    assert(!x == 0xFFFF_FFFFu32 - x) by (bit_vector);
}

/// Netmask for a prefix length; prefixes 0 and 32 are handled without a
/// shift by 32.
pub fn netmask_from_prefix(p: u32) -> (m: u32)
    requires
        p <= MAX_PREFIX,
    ensures
        m == mask_value(p as nat),
{
    proof {
        lemma2_to64();
    }
    if p == 0 {
        0
    } else {
        let host_bits: u32 = 32 - p;
        proof {
            lemma_low_ones(host_bits);
        }
        !((1u32 << host_bits) - 1)
    }
}

/// Dotted text of four octet values.
pub open spec fn quad_text(a: nat, b: nat, c: nat, d: nat) -> Seq<char> {
    dec(a) + seq!['.'] + dec(b) + seq!['.'] + dec(c) + seq!['.'] + dec(d)
}

/// The address with octets `a.b.c.d`, most significant first.
pub open spec fn addr_of(a: nat, b: nat, c: nat, d: nat) -> nat {
    a * 0x100_0000 + b * 0x1_0000 + c * 0x100 + d
}

/// Canonical dotted-decimal text of an address.
pub open spec fn ip_text(x: u32) -> Seq<char> {
    quad_text(
        (x / 0x100_0000) as nat,
        ((x / 0x1_0000) % 0x100) as nat,
        ((x / 0x100) % 0x100) as nat,
        (x % 0x100) as nat,
    )
}

/// Dotted-decimal text of an address.
pub fn format_ip(x: u32) -> (r: String)
    ensures
        r@ == ip_text(x),
{
    let mut s = String::new();
    push_decimal(&mut s, x / 0x100_0000);
    s.append(".");
    push_decimal(&mut s, (x / 0x1_0000) % 0x100);
    s.append(".");
    push_decimal(&mut s, (x / 0x100) % 0x100);
    s.append(".");
    push_decimal(&mut s, x % 0x100);
    proof {
        reveal_strlit(".");
    }
    assert(s@ =~= ip_text(x));
    s
}

/// What one address component reads as. An empty component is 0 when
/// `lenient`, else the address is invalid.
pub open spec fn octet_value(part: Seq<char>, lenient: bool) -> Result<u32, SubnetError> {
    if part.len() == 0 {
        if lenient {
            Ok(0)
        } else {
            Err(SubnetError::InvalidAddress)
        }
    } else if !is_u32_text(part) {
        Err(SubnetError::InvalidOctet(None))
    } else if u32_text_value(part) > 255 {
        Err(SubnetError::InvalidOctet(Some(u32_text_value(part) as u32)))
    } else {
        Ok(u32_text_value(part) as u32)
    }
}

/// What dotted text reads as: four components, read left to right, the first
/// bad one deciding the error.
pub open spec fn address_value(s: Seq<char>, lenient: bool) -> Result<u32, SubnetError> {
    let p = split_dots(s);
    if p.len() != 4 {
        Err(SubnetError::InvalidAddress)
    } else {
        match octet_value(p[0], lenient) {
            Err(e) => Err(e),
            Ok(a) => match octet_value(p[1], lenient) {
                Err(e) => Err(e),
                Ok(b) => match octet_value(p[2], lenient) {
                    Err(e) => Err(e),
                    Ok(c) => match octet_value(p[3], lenient) {
                        Err(e) => Err(e),
                        Ok(d) => Ok(addr_of(a as nat, b as nat, c as nat, d as nat) as u32),
                    },
                },
            },
        }
    }
}

/// What prefix text reads as.
pub open spec fn prefix_value(s: Seq<char>) -> Result<u32, SubnetError> {
    if !is_u32_text(s) {
        Err(SubnetError::InvalidPrefix(None))
    } else if u32_text_value(s) > 32 {
        Err(SubnetError::InvalidPrefix(Some(u32_text_value(s) as u32)))
    } else {
        Ok(u32_text_value(s) as u32)
    }
}

fn read_octet(part: &Vec<char>, lenient: bool) -> (r: Result<u32, SubnetError>)
    ensures
        r == octet_value(part@, lenient),
{
    if part.len() == 0 {
        if lenient {
            Ok(0)
        } else {
            Err(SubnetError::InvalidAddress)
        }
    } else {
        match parse_u32(part) {
            None => Err(SubnetError::InvalidOctet(None)),
            Some(v) => if v > 255 {
                Err(SubnetError::InvalidOctet(Some(v)))
            } else {
                Ok(v)
            },
        }
    }
}

fn read_address(text: &str, lenient: bool) -> (r: Result<u32, SubnetError>)
    ensures
        r == address_value(text@, lenient),
{
    let chars = chars_of(text);
    let parts = split_on_dots(&chars);
    if parts.len() != 4 {
        return Err(SubnetError::InvalidAddress);
    }
    let a = read_octet(&parts[0], lenient)?;
    let b = read_octet(&parts[1], lenient)?;
    let c = read_octet(&parts[2], lenient)?;
    let d = read_octet(&parts[3], lenient)?;
    Ok(a * 0x100_0000 + b * 0x1_0000 + c * 0x100 + d)
}

/// Reads dotted-decimal text; every component must be a number from 0 to 255.
pub fn parse_ip(text: &str) -> (r: Result<u32, SubnetError>)
    ensures
        r == address_value(text@, false),
{
    read_address(text, false)
}

/// Reads dotted-decimal text as `parse_ip` does, except that an empty
/// component reads as 0.
pub fn parse_ip_lenient(text: &str) -> (r: Result<u32, SubnetError>)
    ensures
        r == address_value(text@, true),
{
    read_address(text, true)
}

/// Reads a prefix length written in decimal; it must be at most 32.
pub fn parse_prefix(text: &str) -> (r: Result<u32, SubnetError>)
    ensures
        r == prefix_value(text@),
        r is Ok ==> r->Ok_0 <= MAX_PREFIX,
{
    let chars = chars_of(text);
    match parse_u32(&chars) {
        None => Err(SubnetError::InvalidPrefix(None)),
        Some(v) => if v > MAX_PREFIX {
            Err(SubnetError::InvalidPrefix(Some(v)))
        } else {
            Ok(v)
        },
    }
}

proof fn lemma_dec_octet(n: nat, lenient: bool)
    requires
        n <= 255,
    ensures
        octet_value(dec(n), lenient) == Ok::<u32, SubnetError>(n as u32),
        forall|i: int| 0 <= i < dec(n).len() ==> #[trigger] dec(n)[i] != '.',
{
    lemma_dec_reads_back(n);
    assert(is_digit(dec(n)[0]));
    assert(unsigned_digits(dec(n)) == dec(n));
    assert forall|i: int| 0 <= i < dec(n).len() implies #[trigger] dec(n)[i] != '.' by {
        assert(is_digit(dec(n)[i]));
    }
}

/// Canonical dotted text, with every octet from 0 to 255 written in decimal
/// without leading zeros, reads as the address of those octets, and
/// formatting that address gives the same text back.
pub proof fn lemma_format_parse_round_trip(s: Seq<char>, a: nat, b: nat, c: nat, d: nat)
    requires
        a <= 255,
        b <= 255,
        c <= 255,
        d <= 255,
        s == quad_text(a, b, c, d),
    ensures
        address_value(s, false) == Ok::<u32, SubnetError>(addr_of(a, b, c, d) as u32),
        address_value(s, true) == Ok::<u32, SubnetError>(addr_of(a, b, c, d) as u32),
        ip_text(address_value(s, false)->Ok_0) == s,
{
    lemma_dec_octet(a, false);
    lemma_dec_octet(b, false);
    lemma_dec_octet(c, false);
    lemma_dec_octet(d, false);
    lemma_dec_octet(a, true);
    lemma_dec_octet(b, true);
    lemma_dec_octet(c, true);
    lemma_dec_octet(d, true);
    let dot = seq!['.'];
    let s1 = dec(a);
    let s2 = s1 + dot;
    let s3 = s2 + dec(b);
    let s4 = s3 + dot;
    let s5 = s4 + dec(c);
    let s6 = s5 + dot;
    let s7 = s6 + dec(d);
    assert(Seq::<char>::empty() + s1 =~= s1);
    lemma_split_plain_suffix(Seq::empty(), s1);
    assert(split_dots(s1) =~= seq![dec(a)]);
    lemma_split_dot_suffix(s1);
    lemma_split_plain_suffix(s2, dec(b));
    assert(split_dots(s3) =~= seq![dec(a), dec(b)]);
    lemma_split_dot_suffix(s3);
    lemma_split_plain_suffix(s4, dec(c));
    assert(split_dots(s5) =~= seq![dec(a), dec(b), dec(c)]);
    lemma_split_dot_suffix(s5);
    lemma_split_plain_suffix(s6, dec(d));
    assert(split_dots(s7) =~= seq![dec(a), dec(b), dec(c), dec(d)]);
    assert(s7 == s);
    let x = addr_of(a, b, c, d);
    assert(x < 0x1_0000_0000);
    let w = x as u32;
    assert(w == x);
    lemma_fundamental_div_mod_converse(x as int, 0x100_0000, a as int, (b * 0x1_0000 + c * 0x100 + d) as int);
    lemma_fundamental_div_mod_converse(x as int, 0x1_0000, (a * 0x100 + b) as int, (c * 0x100 + d) as int);
    lemma_fundamental_div_mod_converse((a * 0x100 + b) as int, 0x100, a as int, b as int);
    lemma_fundamental_div_mod_converse(x as int, 0x100, (a * 0x1_0000 + b * 0x100 + c) as int, d as int);
    lemma_fundamental_div_mod_converse((a * 0x1_0000 + b * 0x100 + c) as int, 0x100, (a * 0x100 + b) as int, c as int);
}

} // verus!
