//! Reading ranges and subnets from text: `a.b.c.d/p` or `a.b.c.d - e.f.g.h`.
use vstd::prelude::*;
use vstd::arithmetic::power2::pow2;
use crate::iprange::{Ipv4Range, Ipv4Subnet, RangeError};
use crate::mask::{block_start, host_bits};

verus! {

/// Whether `c` is a decimal digit.
pub open spec fn is_digit(c: char) -> bool {
    '0' <= c <= '9'
}

/// The value of a decimal digit.
pub open spec fn digit_value(c: char) -> nat {
    (c as int - '0' as int) as nat
}

/// Whether every character of `s` is a decimal digit.
pub open spec fn all_digits(s: Seq<char>) -> bool {
    forall|i: int| 0 <= i < s.len() ==> #[trigger] is_digit(s[i])
}

/// The value of the decimal digits `s`.
pub open spec fn decimal_value(s: Seq<char>) -> nat
    decreases s.len(),
{
    if s.len() == 0 {
        0
    } else {
        decimal_value(s.drop_last()) * 10 + digit_value(s.last())
    }
}

/// The value of an octet written in decimal: one to three digits, with no
/// leading zero, at most 255.
pub open spec fn octet_value(s: Seq<char>) -> Option<nat> {
    if 1 <= s.len() <= 3 && all_digits(s) && (s.len() == 1 || s[0] != '0')
        && decimal_value(s) <= 255 {
        Some(decimal_value(s))
    } else {
        None
    }
}

/// The fields of `s` between its dots, from first to last (`""` has one
/// empty field): a dot opens a new field, any other character extends the last.
pub open spec fn dot_fields(s: Seq<char>) -> Seq<Seq<char>>
    decreases s.len(),
{
    if s.len() == 0 {
        seq![Seq::<char>::empty()]
    } else {
        let f = dot_fields(s.drop_last());
        if s.last() == '.' {
            f.push(Seq::<char>::empty())
        } else {
            f.update(f.len() - 1, f.last().push(s.last()))
        }
    }
}

/// The first `n` fields read as octets of a big-endian number.
pub open spec fn octets_value(f: Seq<Seq<char>>, n: nat) -> nat
    decreases n,
{
    if n == 0 {
        0
    } else {
        octets_value(f, (n - 1) as nat) * 256 + octet_value(f[n - 1]).unwrap_or(0)
    }
}

/// The address that the dotted quad `s` denotes: four octets separated by dots.
pub open spec fn addr_value(s: Seq<char>) -> Option<u32> {
    let f = dot_fields(s);
    if f.len() == 4 && forall|k: int| 0 <= k < 4 ==> (#[trigger] octet_value(f[k])) is Some {
        Some(octets_value(f, 4) as u32)
    } else {
        None
    }
}

/// Every text has at least one field.
proof fn lemma_dot_fields_nonempty(s: Seq<char>)
    ensures
        dot_fields(s).len() >= 1,
    decreases s.len(),
{
    if s.len() > 0 {
        lemma_dot_fields_nonempty(s.drop_last());
    }
}

/// The digits of a prefix length, after an optional `+`.
pub open spec fn unsigned_digits(s: Seq<char>) -> Seq<char> {
    if s.len() > 0 && s[0] == '+' {
        s.skip(1)
    } else {
        s
    }
}

/// A prefix length read from text: one or more digits after an optional `+`,
/// of value at most 32.
pub open spec fn prefix_result(s: Seq<char>) -> Result<u8, RangeError> {
    let d = unsigned_digits(s);
    if d.len() == 0 || !all_digits(d) {
        Err(RangeError::UnrecognizedFormat)
    } else if decimal_value(d) > 32 {
        Err(RangeError::InvalidPrefix)
    } else {
        Ok(decimal_value(d) as u8)
    }
}

/// Whether `c` is white space (the Unicode `White_Space` property).
pub open spec fn is_space(c: char) -> bool {
    ('\u{9}' <= c <= '\u{d}') || c == ' ' || c == '\u{85}' || c == '\u{a0}' || c == '\u{1680}'
        || ('\u{2000}' <= c <= '\u{200a}') || c == '\u{2028}' || c == '\u{2029}'
        || c == '\u{202f}' || c == '\u{205f}' || c == '\u{3000}'
}

/// `s` without its leading white space.
pub open spec fn trim_start(s: Seq<char>) -> Seq<char>
    decreases s.len(),
{
    if s.len() > 0 && is_space(s[0]) {
        trim_start(s.skip(1))
    } else {
        s
    }
}

/// `s` without its trailing white space.
pub open spec fn trim_end(s: Seq<char>) -> Seq<char>
    decreases s.len(),
{
    if s.len() > 0 && is_space(s.last()) {
        trim_end(s.drop_last())
    } else {
        s
    }
}

/// `s` without white space at either end.
pub open spec fn trim(s: Seq<char>) -> Seq<char> {
    trim_end(trim_start(s))
}

/// Whether `k` is the first position of `c` in `s`.
pub open spec fn is_first(s: Seq<char>, c: char, k: int) -> bool {
    0 <= k < s.len() && s[k] == c && forall|j: int| 0 <= j < k ==> s[j] != c
}

/// The first position of `c` in `s`, if any.
pub open spec fn first_index(s: Seq<char>, c: char) -> Option<int> {
    if exists|k: int| is_first(s, c, k) {
        Some(choose|k: int| is_first(s, c, k))
    } else {
        None
    }
}

/// What the text `s` denotes: with a `/`, the subnet of the address before the
/// first `/` and the prefix length after it; else, with a `-`, the addresses
/// from the one before the first `-` to the one after it, white space around
/// either side allowed.
pub open spec fn range_result(s: Seq<char>) -> Result<(int, int), RangeError> {
    match first_index(s, '/') {
        Some(k) => match prefix_result(s.skip(k + 1)) {
            Err(e) => Err(e),
            Ok(p) => match addr_value(s.take(k)) {
                None => Err(RangeError::UnrecognizedFormat),
                Some(a) => Ok((
                    block_start(a as int, host_bits(p as nat)),
                    block_start(a as int, host_bits(p as nat)) + pow2(host_bits(p as nat)) - 1,
                )),
            },
        },
        None => match first_index(s, '-') {
            Some(k) => match (addr_value(trim(s.take(k))), addr_value(trim(s.skip(k + 1)))) {
                (Some(a), Some(b)) => if a <= b {
                    Ok((a as int, b as int))
                } else {
                    Err(RangeError::InvalidRange)
                },
                _ => Err(RangeError::UnrecognizedFormat),
            },
            None => Err(RangeError::UnrecognizedFormat),
        },
    }
}

/// What the text `s` denotes as a subnet: the address before the first `/`,
/// kept as written, and the prefix length after it.
pub open spec fn subnet_result(s: Seq<char>) -> Result<(u32, u8), RangeError> {
    match first_index(s, '/') {
        Some(k) => match prefix_result(s.skip(k + 1)) {
            Err(e) => Err(e),
            Ok(p) => match addr_value(s.take(k)) {
                None => Err(RangeError::UnrecognizedFormat),
                Some(a) => Ok((a, p)),
            },
        },
        None => Err(RangeError::UnrecognizedFormat),
    }
}

/// The fields read so far can still make a dotted quad: at most four, each
/// closed one an octet, the open one at most three digits.
spec fn fields_ok(f: Seq<Seq<char>>) -> bool {
    &&& f.len() <= 4
    &&& forall|k: int| 0 <= k < f.len() - 1 ==> (#[trigger] octet_value(f[k])) is Some
    &&& all_digits(f.last())
    &&& f.last().len() <= 3
}

/// The octets value of the first `n` fields depends on those fields alone.
proof fn lemma_octets_value_prefix(f: Seq<Seq<char>>, g: Seq<Seq<char>>, n: nat)
    requires
        n <= f.len(),
        n <= g.len(),
        forall|k: int| 0 <= k < n ==> #[trigger] f[k] == g[k],
    ensures
        octets_value(f, n) == octets_value(g, n),
    decreases n,
{
    if n > 0 {
        lemma_octets_value_prefix(f, g, (n - 1) as nat);
    }
}

/// Once the fields cannot make a dotted quad, no further character mends them.
proof fn lemma_fields_stay_bad(s: Seq<char>, c: char)
    requires
        !fields_ok(dot_fields(s)),
    ensures
        !fields_ok(dot_fields(s.push(c))),
{
    let f0 = dot_fields(s);
    let s1 = s.push(c);
    assert(s1.drop_last() =~= s);
    lemma_dot_fields_nonempty(s);
    let f1 = dot_fields(s1);
    let n = f0.len();
    if fields_ok(f1) {
        if c == '.' {
            assert(f1 == f0.push(Seq::<char>::empty()));
            assert(forall|k: int| 0 <= k < n - 1 ==> #[trigger] f1[k] == f0[k]);
            assert(octet_value(f1[n - 1]) is Some);
            assert(f1[n - 1] == f0.last());
            assert forall|k: int| 0 <= k < n - 1 implies (#[trigger] octet_value(f0[k])) is Some by {
                assert(octet_value(f1[k]) is Some);
            }
        } else {
            assert(f1 == f0.update(n - 1, f0.last().push(c)));
            assert(forall|k: int| 0 <= k < n - 1 ==> #[trigger] f1[k] == f0[k]);
            assert(forall|k: int| 0 <= k < f0.last().len() ==> #[trigger] f0.last()[k] == f1.last()[k]);
            assert forall|k: int| 0 <= k < f0.last().len() implies #[trigger] is_digit(f0.last()[k]) by {
                assert(is_digit(f1.last()[k]));
            }
            assert forall|k: int| 0 <= k < n - 1 implies (#[trigger] octet_value(f0[k])) is Some by {
                assert(octet_value(f1[k]) is Some);
            }
        }
    }
}

/// Collects the characters of `s`.
pub fn chars_of(s: &str) -> (r: Vec<char>)
    ensures
        r@ == s@,
{
    let mut r: Vec<char> = Vec::new();
    for c in it: s.chars()
        invariant
            r@ == it.seq().take(it.index() as int),
    {
        r.push(c);
    }
    r
}

/// Reads the dotted quad `v[lo..hi]`.
pub fn parse_addr(v: &Vec<char>, lo: usize, hi: usize) -> (r: Option<u32>)
    requires
        lo <= hi <= v@.len(),
    ensures
        r == addr_value(v@.subrange(lo as int, hi as int)),
{
    let mut ok: bool = true;
    let mut nfields: usize = 1;
    let mut acc: u32 = 0;
    let mut cur_val: u32 = 0;
    let mut cur_len: usize = 0;
    let mut lead_zero: bool = false;
    let mut i: usize = lo;
    proof {
        assert(v@.subrange(lo as int, lo as int) =~= Seq::<char>::empty());
    }
    while i < hi
        invariant
            lo <= i <= hi <= v@.len(),
            ({
                let f = dot_fields(v@.subrange(lo as int, i as int));
                &&& f.len() >= 1
                &&& ok <==> fields_ok(f)
                &&& ok ==> {
                    &&& nfields == f.len()
                    &&& acc as int == octets_value(f, (f.len() - 1) as nat)
                    &&& cur_val as int == decimal_value(f.last())
                    &&& cur_len == f.last().len()
                    &&& lead_zero == (f.last().len() > 0 && f.last()[0] == '0')
                    &&& nfields == 1 ==> acc == 0
                    &&& nfields == 2 ==> acc < 256
                    &&& nfields == 3 ==> acc < 65536
                    &&& nfields == 4 ==> acc < 16777216
                    &&& cur_len == 0 ==> cur_val == 0
                    &&& cur_len == 1 ==> cur_val < 10
                    &&& cur_len == 2 ==> cur_val < 100
                    &&& cur_len == 3 ==> cur_val < 1000
                }
            }),
        decreases hi - i,
    {
        let c = v[i];
        let ghost s0 = v@.subrange(lo as int, i as int);
        let ghost s1 = v@.subrange(lo as int, i + 1);
        let ghost f0 = dot_fields(s0);
        proof {
            assert(s1.drop_last() =~= s0);
            assert(s1.last() == c);
            lemma_dot_fields_nonempty(s0);
        }
        let ghost f1 = dot_fields(s1);
        let ghost n = f0.len() as int;
        if ok {
            if c == '.' {
                proof {
                    assert(f1 == f0.push(Seq::<char>::empty()));
                    assert(forall|k: int| 0 <= k < n ==> #[trigger] f1[k] == f0[k]);
                }
                if nfields < 4 && cur_len >= 1 && !(lead_zero && cur_len > 1) && cur_val <= 255 {
                    proof {
                        assert(octet_value(f0.last()) == Some(cur_val as nat));
                        lemma_octets_value_prefix(f1, f0, (n - 1) as nat);
                        assert(octets_value(f1, n as nat) == octets_value(f0, (n - 1) as nat) * 256 + cur_val);
                    }
                    acc = acc * 256 + cur_val;
                    nfields = nfields + 1;
                    cur_val = 0;
                    cur_len = 0;
                    lead_zero = false;
                } else {
                    proof {
                        if nfields < 4 {
                            assert(f1[n - 1] == f0.last());
                            assert(octet_value(f1[n - 1]) is None);
                        }
                    }
                    ok = false;
                }
            } else if '0' <= c && c <= '9' && cur_len < 3 {
                let d: u32 = (c as u32) - ('0' as u32);
                proof {
                    let t = f0.last().push(c);
                    assert(f1 == f0.update(n - 1, t));
                    assert(forall|k: int| 0 <= k < n - 1 ==> #[trigger] f1[k] == f0[k]);
                    lemma_octets_value_prefix(f1, f0, (n - 1) as nat);
                    assert(t.drop_last() =~= f0.last());
                    assert(decimal_value(t) == decimal_value(f0.last()) * 10 + d);
                    assert(all_digits(t)) by {
                        assert forall|k: int| 0 <= k < t.len() implies #[trigger] is_digit(t[k]) by {
                            if k < t.len() - 1 {
                                assert(t[k] == f0.last()[k]);
                            }
                        }
                    }
                    if cur_len > 0 {
                        assert(t[0] == f0.last()[0]);
                    }
                }
                if cur_len == 0 {
                    lead_zero = c == '0';
                }
                cur_val = cur_val * 10 + d;
                cur_len = cur_len + 1;
            } else {
                proof {
                    let t = f0.last().push(c);
                    assert(f1 == f0.update(n - 1, t));
                    assert(f1.last() == t);
                    if cur_len < 3 {
                        assert(!is_digit(t[t.len() - 1]));
                    }
                }
                ok = false;
            }
        } else {
            proof {
                assert(s1 =~= s0.push(c));
                lemma_fields_stay_bad(s0, c);
            }
        }
        i = i + 1;
    }
    let ghost f = dot_fields(v@.subrange(lo as int, hi as int));
    if ok && nfields == 4 && cur_len >= 1 && !(lead_zero && cur_len > 1) && cur_val <= 255 {
        proof {
            assert(octet_value(f[3]) == Some(cur_val as nat));
            assert(forall|k: int| 0 <= k < 4 ==> (#[trigger] octet_value(f[k])) is Some);
        }
        Some(acc * 256 + cur_val)
    } else {
        proof {
            if f.len() == 4 && forall|k: int| 0 <= k < 4 ==> (#[trigger] octet_value(f[k])) is Some {
                assert(octet_value(f[3]) is Some);
            }
        }
        None
    }
}

/// The first position of `c` is unique.
proof fn lemma_first_index(s: Seq<char>, c: char, k: int)
    requires
        is_first(s, c, k),
    ensures
        first_index(s, c) == Some(k),
{
    let j = choose|j: int| is_first(s, c, j);
    assert(is_first(s, c, j));
    if j < k {
        assert(s[j] != c);
    } else if j > k {
        assert(s[k] != c);
    }
}

/// The first position of `c` in `v[lo..hi]`.
pub(crate) fn find_char(v: &Vec<char>, lo: usize, hi: usize, c: char) -> (r: Option<usize>)
    requires
        lo <= hi <= v@.len(),
    ensures
        r == match first_index(v@.subrange(lo as int, hi as int), c) {
            Some(k) => Some((k + lo) as usize),
            None => None::<usize>,
        },
{
    let ghost s = v@.subrange(lo as int, hi as int);
    let mut i: usize = lo;
    while i < hi
        invariant
            lo <= i <= hi <= v@.len(),
            s == v@.subrange(lo as int, hi as int),
            forall|j: int| 0 <= j < i - lo ==> s[j] != c,
        decreases hi - i,
    {
        if v[i] == c {
            proof {
                lemma_first_index(s, c, i - lo);
            }
            return Some(i);
        }
        i = i + 1;
    }
    proof {
        if exists|k: int| is_first(s, c, k) {
            let k = choose|k: int| is_first(s, c, k);
            assert(s[k] != c);
        }
    }
    None
}

/// Whether `c` is white space, as `char::is_whitespace` says.
fn is_space_char(c: char) -> (r: bool)
    ensures
        r == is_space(c),
{
    ('\u{9}' <= c && c <= '\u{d}') || c == ' ' || c == '\u{85}' || c == '\u{a0}' || c == '\u{1680}'
        || ('\u{2000}' <= c && c <= '\u{200a}') || c == '\u{2028}' || c == '\u{2029}'
        || c == '\u{202f}' || c == '\u{205f}' || c == '\u{3000}'
}

/// The bounds of `v[lo..hi]` without white space at either end.
pub(crate) fn trim_bounds(v: &Vec<char>, lo: usize, hi: usize) -> (r: (usize, usize))
    requires
        lo <= hi <= v@.len(),
    ensures
        lo <= r.0 <= r.1 <= hi,
        v@.subrange(r.0 as int, r.1 as int) == trim(v@.subrange(lo as int, hi as int)),
{
    let mut a: usize = lo;
    while a < hi && is_space_char(v[a])
        invariant
            lo <= a <= hi <= v@.len(),
            trim_start(v@.subrange(a as int, hi as int)) == trim_start(v@.subrange(lo as int, hi as int)),
        decreases hi - a,
    {
        proof {
            assert(v@.subrange(a as int, hi as int).skip(1) =~= v@.subrange(a + 1, hi as int));
        }
        a = a + 1;
    }
    let mut b: usize = hi;
    while b > a && is_space_char(v[b - 1])
        invariant
            lo <= a <= b <= hi <= v@.len(),
            trim_end(v@.subrange(a as int, b as int)) == trim(v@.subrange(lo as int, hi as int)),
        decreases b - a,
    {
        proof {
            assert(v@.subrange(a as int, b as int).drop_last() =~= v@.subrange(a as int, b - 1));
        }
        b = b - 1;
    }
    (a, b)
}

/// Reads a prefix length from `v[lo..hi]`.
pub(crate) fn parse_prefix(v: &Vec<char>, lo: usize, hi: usize) -> (r: Result<u8, RangeError>)
    requires
        lo <= hi <= v@.len(),
    ensures
        r == prefix_result(v@.subrange(lo as int, hi as int)),
{
    let ghost s = v@.subrange(lo as int, hi as int);
    let mut start: usize = lo;
    if lo < hi && v[lo] == '+' {
        start = lo + 1;
    }
    let ghost d = v@.subrange(start as int, hi as int);
    proof {
        assert(unsigned_digits(s) =~= d);
    }
    if start == hi {
        return Err(RangeError::UnrecognizedFormat);
    }
    let mut val: u32 = 0;
    let mut i: usize = start;
    proof {
        assert(v@.subrange(start as int, start as int) =~= Seq::<char>::empty());
    }
    while i < hi
        invariant
            start <= i <= hi <= v@.len(),
            d == v@.subrange(start as int, hi as int),
            s == v@.subrange(lo as int, hi as int),
            unsigned_digits(s) == d,
            all_digits(v@.subrange(start as int, i as int)),
            decimal_value(v@.subrange(start as int, i as int)) <= 32 ==> val as int == decimal_value(
                v@.subrange(start as int, i as int),
            ),
            decimal_value(v@.subrange(start as int, i as int)) > 32 ==> val == 33,
        decreases hi - i,
    {
        let c = v[i];
        let ghost t = v@.subrange(start as int, i + 1);
        proof {
            assert(t.drop_last() =~= v@.subrange(start as int, i as int));
        }
        if !('0' <= c && c <= '9') {
            proof {
                assert(d[i - start] == c);
                assert(!is_digit(d[i - start]));
            }
            return Err(RangeError::UnrecognizedFormat);
        }
        let digit: u32 = (c as u32) - ('0' as u32);
        let next: u32 = val * 10 + digit;
        val = if next > 32 { 33 } else { next };
        proof {
            assert forall|k: int| 0 <= k < t.len() implies #[trigger] is_digit(t[k]) by {
                if k < t.len() - 1 {
                    assert(t[k] == v@.subrange(start as int, i as int)[k]);
                }
            }
        }
        i = i + 1;
    }
    proof {
        assert(v@.subrange(start as int, i as int) == d);
    }
    if val > 32 {
        Err(RangeError::InvalidPrefix)
    } else {
        Ok(val as u8)
    }
}

impl Ipv4Range {
    /// Reads a range from text: `a.b.c.d/p` gives the addresses of that subnet;
    /// `a.b.c.d - e.f.g.h` gives the addresses between the two, both included.
    pub fn parse_range(text: &str) -> (r: Result<Ipv4Range, RangeError>)
        ensures
            match range_result(text@) {
                Ok((a, b)) => r is Ok && r->Ok_0.start() == a && r->Ok_0.end() == b,
                Err(e) => r == Err::<Ipv4Range, RangeError>(e),
            },
    {
        let v = chars_of(text);
        let n = v.len();
        proof {
            assert(v@.subrange(0, n as int) =~= v@);
        }
        match find_char(&v, 0, n, '/') {
            Some(k) => {
                proof {
                    assert(v@.subrange(k + 1, n as int) =~= v@.skip(k + 1));
                    assert(v@.subrange(0, k as int) =~= v@.take(k as int));
                }
                let p = match parse_prefix(&v, k + 1, n) {
                    Ok(p) => p,
                    Err(e) => return Err(e),
                };
                match parse_addr(&v, 0, k) {
                    Some(a) => Ipv4Range::from_addr_prefix(a, p),
                    None => Err(RangeError::UnrecognizedFormat),
                }
            },
            None => match find_char(&v, 0, n, '-') {
                Some(k) => {
                    proof {
                        assert(v@.subrange(k + 1, n as int) =~= v@.skip(k + 1));
                        assert(v@.subrange(0, k as int) =~= v@.take(k as int));
                    }
                    let (a0, a1) = trim_bounds(&v, 0, k);
                    let (b0, b1) = trim_bounds(&v, k + 1, n);
                    match (parse_addr(&v, a0, a1), parse_addr(&v, b0, b1)) {
                        (Some(a), Some(b)) => Ipv4Range::from_bounds(a, b),
                        _ => Err(RangeError::UnrecognizedFormat),
                    }
                },
                None => Err(RangeError::UnrecognizedFormat),
            },
        }
    }
}

impl Ipv4Subnet {
    /// Reads a subnet `a.b.c.d/p` from text, keeping the address as written.
    pub fn parse_subnet(text: &str) -> (r: Result<Ipv4Subnet, RangeError>)
        ensures
            match subnet_result(text@) {
                Ok((a, p)) => r is Ok && r->Ok_0.addr() == a && r->Ok_0.prefix() == p,
                Err(e) => r == Err::<Ipv4Subnet, RangeError>(e),
            },
    {
        let v = chars_of(text);
        let n = v.len();
        proof {
            assert(v@.subrange(0, n as int) =~= v@);
        }
        match find_char(&v, 0, n, '/') {
            Some(k) => {
                proof {
                    assert(v@.subrange(k + 1, n as int) =~= v@.skip(k + 1));
                    assert(v@.subrange(0, k as int) =~= v@.take(k as int));
                }
                let p = match parse_prefix(&v, k + 1, n) {
                    Ok(p) => p,
                    Err(e) => return Err(e),
                };
                match parse_addr(&v, 0, k) {
                    Some(a) => Ipv4Subnet::from_addr_prefix(a, p),
                    None => Err(RangeError::UnrecognizedFormat),
                }
            },
            None => Err(RangeError::UnrecognizedFormat),
        }
    }
}

impl std::str::FromStr for Ipv4Range {
    type Err = RangeError;

    fn from_str(s: &str) -> Result<Ipv4Range, RangeError> {
        Ipv4Range::parse_range(s)
    }
}

impl std::str::FromStr for Ipv4Subnet {
    type Err = RangeError;

    fn from_str(s: &str) -> Result<Ipv4Subnet, RangeError> {
        Ipv4Subnet::parse_subnet(s)
    }
}

} // verus!
