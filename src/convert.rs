//! Converting single addresses between their text forms: dotted quad,
//! decimal and `0x` hexadecimal, optionally with the bytes reversed.
use vstd::prelude::*;
use vstd::arithmetic::power2::pow2;
use crate::iprange::{shared_prefix_upto, Ipv4Range, Ipv4Subnet};
use crate::mask::{block_start, host_bits};
use crate::parse::{
    addr_value, chars_of, find_char, first_index, parse_addr, parse_prefix, prefix_result, trim,
    trim_bounds, unsigned_digits,
};
use crate::text::{decimal_text, hex_text, push_decimal, push_hex, push_quad, push_str, quad_text};

verus! {

/// The form of an address in text.
#[derive(Debug, Clone, Copy, PartialEq, Eq, Structural)]
pub enum InputType {
    /// A decimal integer, such as `3232235777`.
    DecaDecimal,
    /// A hexadecimal integer, such as `0xc0a80101`.
    HexaDecimal,
    /// A dotted quad, such as `192.168.1.1`.
    IpQuad,
}

/// The form in which an address is written out.
pub type OutputType = InputType;

/// How single addresses are converted and shown.
#[derive(Debug, Clone, Copy, PartialEq, Eq, Structural)]
pub struct Config {
    /// Reverse the byte order of each address before writing it.
    pub reverse_bytes: bool,
    /// Write each result alone, as a filter from input lines to output lines.
    pub filter_mode: bool,
    /// The form to write addresses in; when absent, it follows from the input.
    pub output_type: Option<OutputType>,
}

impl Config {
    /// Bytes in order, not a filter, output form chosen by the input.
    pub fn default_config() -> (r: Config)
        ensures
            r == (Config { reverse_bytes: false, filter_mode: false, output_type: None }),
    {
        Config { reverse_bytes: false, filter_mode: false, output_type: None }
    }
}

/// The output form for an input form: the configured one if any, else
/// hexadecimal for a dotted quad and a dotted quad for a number.
pub open spec fn output_type_for(input_type: InputType, output_type: Option<OutputType>) -> OutputType {
    match output_type {
        Some(t) => t,
        None => if input_type == InputType::IpQuad {
            InputType::HexaDecimal
        } else {
            InputType::IpQuad
        },
    }
}

/// The output form for an input form: the configured one if any, else
/// hexadecimal for a dotted quad and a dotted quad for a number.
pub fn get_output_type(input_type: InputType, output_type: Option<OutputType>) -> (r: OutputType)
    ensures
        r == output_type_for(input_type, output_type),
{
    match output_type {
        Some(contype) => contype,
        None => match input_type {
            InputType::IpQuad => InputType::HexaDecimal,
            _ => InputType::IpQuad,
        },
    }
}

/// `a` with its four bytes in reverse order.
pub open spec fn swapped(a: u32) -> u32 {
    ((a % 0x100) * 0x100_0000 + ((a / 0x100) % 0x100) * 0x1_0000 + ((a / 0x1_0000) % 0x100) * 0x100
        + a / 0x100_0000) as u32
}

/// `a` with its four bytes in reverse order.
pub fn swap_bytes(a: u32) -> (r: u32)
    ensures
        r == swapped(a),
{
    (a % 0x100) * 0x100_0000 + ((a / 0x100) % 0x100) * 0x1_0000 + ((a / 0x1_0000) % 0x100) * 0x100
        + a / 0x100_0000
}

/// The text of the address `ip` in the form `output_type`, after reversing
/// its bytes if asked.
pub open spec fn address_text(ip: u32, output_type: OutputType, reverse_bytes: bool) -> Seq<char> {
    let v = if reverse_bytes {
        swapped(ip)
    } else {
        ip
    };
    match output_type {
        InputType::DecaDecimal => decimal_text(v as nat),
        InputType::HexaDecimal => seq!['0', 'x'] + hex_text(v as nat),
        InputType::IpQuad => quad_text(v),
    }
}

/// Writes the address `ip` in the form `output_type`, after reversing its
/// bytes if asked.
pub fn ipaddr_to_string(ip: u32, output_type: OutputType, reverse_bytes: bool) -> (r: String)
    ensures
        r@ == address_text(ip, output_type, reverse_bytes),
{
    let v: u32 = if reverse_bytes { swap_bytes(ip) } else { ip };
    let mut s = String::new();
    match output_type {
        InputType::DecaDecimal => push_decimal(&mut s, v),
        InputType::HexaDecimal => {
            push_str(&mut s, "0x");
            push_hex(&mut s, v);
        },
        InputType::IpQuad => push_quad(&mut s, v),
    }
    proof {
        reveal_strlit("0x");
        assert(s@ =~= address_text(ip, output_type, reverse_bytes));
    }
    s
}

/// The value of `c` as a hexadecimal digit (either case).
pub open spec fn hex_digit(c: char) -> nat {
    if '0' <= c <= '9' {
        (c as int - '0' as int) as nat
    } else if 'a' <= c <= 'f' {
        (c as int - 'a' as int + 10) as nat
    } else if 'A' <= c <= 'F' {
        (c as int - 'A' as int + 10) as nat
    } else {
        16
    }
}

/// Whether `c` is a digit in base `radix` (10 or 16).
pub open spec fn is_radix_digit(c: char, radix: nat) -> bool {
    hex_digit(c) < radix
}

/// The value of the digits `s` in base `radix`.
pub open spec fn radix_value(s: Seq<char>, radix: nat) -> nat
    decreases s.len(),
{
    if s.len() == 0 {
        0
    } else {
        radix_value(s.drop_last(), radix) * radix + hex_digit(s.last())
    }
}

/// An unsigned 32-bit number in base `radix`: an optional `+`, then one or
/// more digits, of value below `2^32`.
pub open spec fn number_value(s: Seq<char>, radix: nat) -> Option<u32> {
    let d = unsigned_digits(s);
    if d.len() > 0 && (forall|i: int| 0 <= i < d.len() ==> #[trigger] is_radix_digit(d[i], radix))
        && radix_value(d, radix) <= u32::MAX {
        Some(radix_value(d, radix) as u32)
    } else {
        None
    }
}

/// `s` without a leading `0x`.
pub open spec fn hex_body(s: Seq<char>) -> Seq<char> {
    if s.len() >= 2 && s[0] == '0' && s[1] == 'x' {
        s.skip(2)
    } else {
        s
    }
}

/// The address that `s` denotes and its form: a dotted quad, else a decimal
/// number, else a hexadecimal one with or without `0x`.
pub open spec fn address_input(s: Seq<char>) -> Option<(u32, InputType)> {
    match addr_value(s) {
        Some(a) => Some((a, InputType::IpQuad)),
        None => match number_value(s, 10) {
            Some(n) => Some((n, InputType::DecaDecimal)),
            None => match number_value(hex_body(s), 16) {
                Some(n) => Some((n, InputType::HexaDecimal)),
                None => None,
            },
        },
    }
}

/// Reads an unsigned 32-bit number in base `radix` from `v[lo..hi]`.
fn parse_number(v: &Vec<char>, lo: usize, hi: usize, radix: u32) -> (r: Option<u32>)
    requires
        lo <= hi <= v@.len(),
        radix == 10 || radix == 16,
    ensures
        r == number_value(v@.subrange(lo as int, hi as int), radix as nat),
{
    let ghost s = v@.subrange(lo as int, hi as int);
    let mut start: usize = lo;
    if lo < hi && v[lo] == '+' {
        start = lo + 1;
    }
    let ghost d = v@.subrange(start as int, hi as int);
    proof {
        assert(unsigned_digits(s) =~= d);
    }
    if start == hi {
        return None;
    }
    let mut val: u64 = 0;
    let mut over: bool = false;
    let mut i: usize = start;
    while i < hi
        invariant
            start <= i <= hi <= v@.len(),
            radix == 10 || radix == 16,
            d == v@.subrange(start as int, hi as int),
            s == v@.subrange(lo as int, hi as int),
            unsigned_digits(s) == d,
            forall|k: int| 0 <= k < i - start ==> #[trigger] is_radix_digit(d[k], radix as nat),
            !over ==> val as int == radix_value(v@.subrange(start as int, i as int), radix as nat),
            !over ==> val <= u32::MAX,
            over ==> radix_value(v@.subrange(start as int, i as int), radix as nat) > u32::MAX,
        decreases hi - i,
    {
        let c = v[i];
        let ghost t = v@.subrange(start as int, i + 1);
        proof {
            assert(t.drop_last() =~= v@.subrange(start as int, i as int));
            assert(d[i - start] == c);
        }
        let digit: u32 = if '0' <= c && c <= '9' {
            (c as u32) - ('0' as u32)
        } else if 'a' <= c && c <= 'f' {
            (c as u32) - ('a' as u32) + 10
        } else if 'A' <= c && c <= 'F' {
            (c as u32) - ('A' as u32) + 10
        } else {
            16
        };
        proof {
            assert(hex_digit(c) == digit as nat);
        }
        if digit >= radix {
            proof {
                assert(!is_radix_digit(d[i - start], radix as nat));
            }
            return None;
        }
        if !over {
            let next: u64 = val * (radix as u64) + (digit as u64);
            if next > 0xffff_ffff {
                over = true;
            } else {
                val = next;
            }
        }
        i = i + 1;
    }
    proof {
        assert(v@.subrange(start as int, i as int) == d);
    }
    if over {
        None
    } else {
        Some(val as u32)
    }
}

/// Reads a single address from `v`: a dotted quad, a decimal number, or a
/// hexadecimal one with or without `0x`.
fn parse_address_input(v: &Vec<char>) -> (r: Option<(u32, InputType)>)
    ensures
        r == address_input(v@),
{
    let n = v.len();
    proof {
        assert(v@.subrange(0, n as int) =~= v@);
    }
    if let Some(a) = parse_addr(v, 0, n) {
        return Some((a, InputType::IpQuad));
    }
    if let Some(x) = parse_number(v, 0, n, 10) {
        return Some((x, InputType::DecaDecimal));
    }
    let mut lo: usize = 0;
    if n >= 2 && v[0] == '0' && v[1] == 'x' {
        lo = 2;
    }
    proof {
        assert(v@.subrange(lo as int, n as int) =~= hex_body(v@));
    }
    match parse_number(v, lo, n, 16) {
        Some(x) => Some((x, InputType::HexaDecimal)),
        None => None,
    }
}

/// The two lines shown for the subnet `a/p`: the subnet, then the subnet
/// with the range of its addresses (`a/p = first - last`).
pub open spec fn subnet_summary(a: u32, p: u8) -> Seq<char> {
    let h = host_bits(p as nat);
    let first = block_start(a as int, h);
    let last = first + pow2(h) - 1;
    let line = quad_text(a) + seq!['/'] + decimal_text(p as nat);
    line + seq!['\n'] + line + seq![' ', '=', ' '] + quad_text(first as u32) + seq![' ', '-', ' ']
        + quad_text(last as u32)
}

/// What is shown for the input `s`: for a subnet `a/p`, its summary; for a
/// range, the summary of the smallest single subnet that covers it; for a
/// single address, its text in the output form; else a line that names the
/// input as invalid.
pub open spec fn ipaddress_result(s: Seq<char>, config: Config) -> Result<Seq<char>, Seq<char>> {
    match first_index(s, '/') {
        Some(k) => match (prefix_result(s.skip(k + 1)), addr_value(s.take(k))) {
            (Ok(p), Some(a)) => Ok(subnet_summary(a, p)),
            _ => Err("Invalid IP subnet: "@ + s),
        },
        None => match first_index(s, '-') {
            Some(k) => match (addr_value(trim(s.take(k))), addr_value(trim(s.skip(k + 1)))) {
                (Some(a), Some(b)) => if a <= b {
                    Ok(subnet_summary(a, shared_prefix_upto(a as int, b as int, 32) as u8))
                } else {
                    Err("Invalid IP range: "@ + s)
                },
                _ => Err("Invalid IP range: "@ + s),
            },
            None => match address_input(s) {
                Some((n, t)) => Ok(
                    address_text(n, output_type_for(t, config.output_type), config.reverse_bytes),
                ),
                None => Err("Invalid IP address: "@ + s),
            },
        },
    }
}

/// The two lines shown for a subnet.
fn summary(sub: &Ipv4Subnet) -> (r: String)
    ensures
        r@ == subnet_summary(sub.addr(), sub.prefix()),
{
    let mut s = sub.to_string();
    push_str(&mut s, "\n");
    let line = sub.to_string();
    push_str(&mut s, line.as_str());
    push_str(&mut s, " = ");
    let range = Ipv4Range::from_subnet(sub);
    let rt = range.to_string();
    push_str(&mut s, rt.as_str());
    proof {
        reveal_strlit("\n");
        reveal_strlit(" = ");
        assert(s@ =~= subnet_summary(sub.addr(), sub.prefix()));
    }
    s
}

/// A line that names the input `a` as invalid, after `what`.
fn invalid(what: &str, a: &str) -> (r: String)
    ensures
        r@ == what@ + a@,
{
    let mut s = String::new();
    push_str(&mut s, what);
    push_str(&mut s, a);
    proof {
        assert(s@ =~= what@ + a@);
    }
    s
}

/// Converts one input: a subnet `a.b.c.d/p`, a range `a.b.c.d - e.f.g.h`, or a
/// single address. Gives the text to show, or the line that names the input
/// as invalid.
pub fn process_ipaddress(a: &str, config: &Config) -> (r: Result<String, String>)
    ensures
        match ipaddress_result(a@, *config) {
            Ok(t) => r is Ok && r->Ok_0@ == t,
            Err(t) => r is Err && r->Err_0@ == t,
        },
{
    let v = chars_of(a);
    let n = v.len();
    proof {
        assert(v@.subrange(0, n as int) =~= v@);
    }
    if let Some(k) = find_char(&v, 0, n, '/') {
        proof {
            assert(v@.subrange(k + 1, n as int) =~= v@.skip(k + 1));
            assert(v@.subrange(0, k as int) =~= v@.take(k as int));
        }
        if let Ok(prefix) = parse_prefix(&v, k + 1, n) {
            if let Some(addr) = parse_addr(&v, 0, k) {
                if let Ok(subnet) = Ipv4Subnet::from_addr_prefix(addr, prefix) {
                    return Ok(summary(&subnet));
                }
            }
        }
        return Err(invalid("Invalid IP subnet: ", a));
    }
    if let Some(k) = find_char(&v, 0, n, '-') {
        proof {
            assert(v@.subrange(k + 1, n as int) =~= v@.skip(k + 1));
            assert(v@.subrange(0, k as int) =~= v@.take(k as int));
        }
        let (a0, a1) = trim_bounds(&v, 0, k);
        let (b0, b1) = trim_bounds(&v, k + 1, n);
        if let Some(start) = parse_addr(&v, a0, a1) {
            if let Some(end) = parse_addr(&v, b0, b1) {
                if let Ok(range) = Ipv4Range::from_bounds(start, end) {
                    let subnet = Ipv4Subnet::from_range(&range);
                    return Ok(summary(&subnet));
                }
            }
        }
        return Err(invalid("Invalid IP range: ", a));
    }
    match parse_address_input(&v) {
        Some((ip, input_type)) => {
            let output_type = get_output_type(input_type, config.output_type);
            Ok(ipaddr_to_string(ip, output_type, config.reverse_bytes))
        },
        None => Err(invalid("Invalid IP address: ", a)),
    }
}

/// The line shown for a converted input: the output alone in filter mode,
/// else `input = output`, after `Reverse ` when the bytes are reversed.
pub open spec fn output_text(output: Seq<char>, input: Seq<char>, config: Config) -> Seq<char> {
    if config.filter_mode {
        output
    } else {
        (if config.reverse_bytes {
            "Reverse "@
        } else {
            Seq::<char>::empty()
        }) + input + " = "@ + output
    }
}

/// The line shown for a converted input.
pub fn output_line(output: &str, input: &str, config: &Config) -> (r: String)
    ensures
        r@ == output_text(output@, input@, *config),
{
    let mut s = String::new();
    if config.filter_mode {
        push_str(&mut s, output);
    } else {
        if config.reverse_bytes {
            push_str(&mut s, "Reverse ");
        }
        push_str(&mut s, input);
        push_str(&mut s, " = ");
        push_str(&mut s, output);
    }
    proof {
        assert(s@ =~= output_text(output@, input@, *config));
    }
    s
}

} // verus!
