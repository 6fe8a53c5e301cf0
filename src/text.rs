//! Rendering addresses, ranges and subnets as text.
use vstd::prelude::*;
use crate::iprange::{Ipv4Range, Ipv4Subnet};
use crate::parse::chars_of;

verus! {

/// The character of a digit below 16 (lower case past 9).
pub open spec fn digit_char(d: nat) -> char {
    if d < 10 {
        ((48 + d) as u8) as char
    } else {
        ((87 + d) as u8) as char
    }
}

/// `n` in decimal, without leading zeros.
pub open spec fn decimal_text(n: nat) -> Seq<char>
    decreases n,
{
    if n < 10 {
        seq![digit_char(n)]
    } else {
        decimal_text(n / 10).push(digit_char(n % 10))
    }
}

/// `n` in lower-case hexadecimal, without leading zeros.
pub open spec fn hex_text(n: nat) -> Seq<char>
    decreases n,
{
    if n < 16 {
        seq![digit_char(n)]
    } else {
        hex_text(n / 16).push(digit_char(n % 16))
    }
}

/// The dotted quad of `a`: its four bytes in decimal, most significant first.
pub open spec fn quad_text(a: u32) -> Seq<char> {
    decimal_text((a / 0x100_0000) as nat) + seq!['.'] + decimal_text(((a / 0x1_0000) % 0x100) as nat)
        + seq!['.'] + decimal_text(((a / 0x100) % 0x100) as nat) + seq!['.'] + decimal_text((a % 0x100) as nat)
}

/// Relies on `String::push`: appends one character to the end of the string.
#[verifier::external_body]
pub(crate) fn push_char(s: &mut String, c: char)
    ensures
        final(s)@ == old(s)@.push(c),
{
    s.push(c);
}

/// Appends the decimal digits of `n`.
pub(crate) fn push_decimal(s: &mut String, n: u32)
    ensures
        final(s)@ == old(s)@ + decimal_text(n as nat),
    decreases n,
{
    if n >= 10 {
        push_decimal(s, n / 10);
    }
    let d: u8 = (n % 10) as u8;
    push_char(s, (48u8 + d) as char);
    proof {
        assert(old(s)@ + decimal_text(n as nat) =~= s@);
    }
}

/// Appends the lower-case hexadecimal digits of `n`.
pub(crate) fn push_hex(s: &mut String, n: u32)
    ensures
        final(s)@ == old(s)@ + hex_text(n as nat),
    decreases n,
{
    if n >= 16 {
        push_hex(s, n / 16);
    }
    let d: u8 = (n % 16) as u8;
    let c: u8 = if d < 10 { 48u8 + d } else { 87u8 + d };
    push_char(s, c as char);
    proof {
        assert(old(s)@ + hex_text(n as nat) =~= s@);
    }
}

/// Appends the characters of `t`.
pub(crate) fn push_str(s: &mut String, t: &str)
    ensures
        final(s)@ == old(s)@ + t@,
{
    let ghost start = s@;
    let v = chars_of(t);
    let mut i: usize = 0;
    while i < v.len()
        invariant
            i <= v@.len(),
            v@ == t@,
            s@ == start + v@.take(i as int),
        decreases v@.len() - i,
    {
        push_char(s, v[i]);
        proof {
            assert(start + v@.take(i + 1) =~= s@);
        }
        i = i + 1;
    }
    proof {
        assert(v@.take(i as int) =~= v@);
    }
}

/// Appends the dotted quad of `a`.
pub(crate) fn push_quad(s: &mut String, a: u32)
    ensures
        final(s)@ == old(s)@ + quad_text(a),
{
    push_decimal(s, a / 0x100_0000);
    push_char(s, '.');
    push_decimal(s, (a / 0x1_0000) % 0x100);
    push_char(s, '.');
    push_decimal(s, (a / 0x100) % 0x100);
    push_char(s, '.');
    push_decimal(s, a % 0x100);
    proof {
        assert(old(s)@ + quad_text(a) =~= s@);
    }
}

/// The dotted quad of the address `a`.
pub fn addr_to_string(a: u32) -> (r: String)
    ensures
        r@ == quad_text(a),
{
    let mut s = String::new();
    push_quad(&mut s, a);
    proof {
        assert(s@ =~= quad_text(a));
    }
    s
}

/// The text of a range: `start - end`.
pub open spec fn range_text(r: Ipv4Range) -> Seq<char> {
    quad_text(r.start()) + seq![' ', '-', ' '] + quad_text(r.end())
}

/// The text of a subnet: `address/prefix`, with the address as stored.
pub open spec fn subnet_text(s: Ipv4Subnet) -> Seq<char> {
    quad_text(s.addr()) + seq!['/'] + decimal_text(s.prefix() as nat)
}

impl Ipv4Range {
    /// The range as `a.b.c.d - e.f.g.h`.
    pub fn to_string(&self) -> (r: String)
        ensures
            r@ == range_text(*self),
    {
        let mut s = String::new();
        push_quad(&mut s, self.start());
        push_char(&mut s, ' ');
        push_char(&mut s, '-');
        push_char(&mut s, ' ');
        push_quad(&mut s, self.end());
        proof {
            assert(s@ =~= range_text(*self));
        }
        s
    }
}

impl Ipv4Subnet {
    /// The subnet as `a.b.c.d/p`, with the address as stored.
    pub fn to_string(&self) -> (r: String)
        ensures
            r@ == subnet_text(*self),
    {
        let mut s = String::new();
        push_quad(&mut s, self.addr());
        push_char(&mut s, '/');
        push_decimal(&mut s, self.prefix() as u32);
        proof {
            assert(s@ =~= subnet_text(*self));
        }
        s
    }
}

/// The texts `items` separated by `, `.
pub open spec fn joined(items: Seq<Seq<char>>) -> Seq<char>
    decreases items.len(),
{
    if items.len() == 0 {
        Seq::<char>::empty()
    } else if items.len() == 1 {
        items[0]
    } else {
        joined(items.drop_last()) + seq![',', ' '] + items.last()
    }
}

/// The texts `items` as a list: `[a, b, c]`.
pub open spec fn list_text(items: Seq<Seq<char>>) -> Seq<char> {
    seq!['['] + joined(items) + seq![']']
}

/// The ranges as a list: `[a.b.c.d - e.f.g.h, ...]`.
pub fn range_list_to_string(v: &Vec<Ipv4Range>) -> (r: String)
    ensures
        r@ == list_text(v@.map_values(|x: Ipv4Range| range_text(x))),
{
    let ghost items = v@.map_values(|x: Ipv4Range| range_text(x));
    let mut s = String::new();
    push_char(&mut s, '[');
    let mut i: usize = 0;
    while i < v.len()
        invariant
            i <= v@.len(),
            items == v@.map_values(|x: Ipv4Range| range_text(x)),
            s@ == seq!['['] + joined(items.take(i as int)),
        decreases v@.len() - i,
    {
        if i > 0 {
            push_char(&mut s, ',');
            push_char(&mut s, ' ');
        }
        let t = v[i].to_string();
        push_str(&mut s, t.as_str());
        proof {
            assert(items.take(i + 1).drop_last() =~= items.take(i as int));
            assert(s@ =~= seq!['['] + joined(items.take(i + 1)));
        }
        i = i + 1;
    }
    push_char(&mut s, ']');
    proof {
        assert(items.take(i as int) =~= items);
        assert(s@ =~= list_text(items));
    }
    s
}

/// The subnets as a list: `[a.b.c.d/p, ...]`, or `[]` when there are none.
pub fn subnet_list_to_string(v: &Vec<Ipv4Subnet>) -> (r: String)
    ensures
        r@ == list_text(v@.map_values(|x: Ipv4Subnet| subnet_text(x))),
{
    let ghost items = v@.map_values(|x: Ipv4Subnet| subnet_text(x));
    let mut s = String::new();
    push_char(&mut s, '[');
    let mut i: usize = 0;
    while i < v.len()
        invariant
            i <= v@.len(),
            items == v@.map_values(|x: Ipv4Subnet| subnet_text(x)),
            s@ == seq!['['] + joined(items.take(i as int)),
        decreases v@.len() - i,
    {
        if i > 0 {
            push_char(&mut s, ',');
            push_char(&mut s, ' ');
        }
        let t = v[i].to_string();
        push_str(&mut s, t.as_str());
        proof {
            assert(items.take(i + 1).drop_last() =~= items.take(i as int));
            assert(s@ =~= seq!['['] + joined(items.take(i + 1)));
        }
        i = i + 1;
    }
    push_char(&mut s, ']');
    proof {
        assert(items.take(i as int) =~= items);
        assert(s@ =~= list_text(items));
    }
    s
}

} // verus!
