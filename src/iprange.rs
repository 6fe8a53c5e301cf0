//! The two descriptions of a block of IPv4 addresses: an inclusive range
//! `start..=end`, and a subnet (a base address with a prefix length).
use vstd::prelude::*;
use vstd::arithmetic::power2::{
    pow2, lemma_pow2_pos, lemma_pow2_strictly_increases, lemma_pow2_unfold, lemma2_to64,
};
use vstd::bits::{lemma_u32_shr_is_div, lemma_u64_shl_is_mul, lemma_u64_pow2_no_overflow};
use crate::mask::{
    aligned, block_start, count_suffix_zero_bits, host_bits, lemma_aligned_smaller, lemma_mask_bounds,
    make_mask, mask_ipaddr,
};

verus! {

/// Why a range or a subnet could not be built.
#[derive(Debug, Clone, Copy, PartialEq, Eq, Structural)]
pub enum RangeError {
    /// A prefix length greater than 32.
    InvalidPrefix,
    /// A start address greater than the end address.
    InvalidRange,
    /// Text that is neither `a.b.c.d/p` nor `a.b.c.d - e.f.g.h`.
    UnrecognizedFormat,
}

/// An inclusive range of IPv4 addresses; the start never exceeds the end.
#[derive(Debug, Clone, Copy, PartialEq, Eq, Structural, PartialOrd, Ord, Hash)]
pub struct Ipv4Range {
    start: u32,
    end: u32,
}

/// An IPv4 address with a prefix length of at most 32. The address is kept
/// as given: it need not be the first address of the subnet.
#[derive(Debug, Clone, Copy, PartialEq, Eq, Structural, PartialOrd, Ord, Hash)]
pub struct Ipv4Subnet {
    addr: u32,
    prefix: u8,
}

/// Whether the top `p` bits of `a` and `b` agree.
pub open spec fn share_prefix(a: int, b: int, p: nat) -> bool {
    a / (pow2(host_bits(p)) as int) == b / (pow2(host_bits(p)) as int)
}

/// The longest prefix, at most `p` bits long, that `a` and `b` share.
pub open spec fn shared_prefix_upto(a: int, b: int, p: nat) -> nat
    decreases p,
{
    if p == 0 || share_prefix(a, b, p) {
        p
    } else {
        shared_prefix_upto(a, b, (p - 1) as nat)
    }
}

/// A prefix that `a` and `b` share, with no longer one up to `q`, is the
/// longest shared one up to `q`.
proof fn lemma_shared_prefix_upto(a: int, b: int, r: nat, q: nat)
    requires
        r <= q,
        share_prefix(a, b, r),
        forall|t: nat| r < t <= q ==> !#[trigger] share_prefix(a, b, t),
    ensures
        shared_prefix_upto(a, b, q) == r,
    decreases q,
{
    if q > r {
        assert(!share_prefix(a, b, q));
        lemma_shared_prefix_upto(a, b, r, (q - 1) as nat);
    }
}

/// A block of `2^h` addresses starting at `first` cannot be doubled within
/// `..=end`: it is the whole space, or the double block would not be aligned,
/// or it would pass `end`.
pub open spec fn cannot_double(first: int, h: nat, end: int) -> bool {
    h >= 32 || !aligned(first, h + 1) || first + pow2(h + 1) - 1 > end
}

/// `subs` tiles `start..=end` in ascending order with aligned subnets, each the
/// largest aligned block that fits where it starts.
pub open spec fn is_decomposition(start: int, end: int, subs: Seq<Ipv4Subnet>) -> bool {
    &&& subs.len() > 0
    &&& forall|i: int| 0 <= i < subs.len() ==> #[trigger] subs[i].prefix() <= 32
    &&& subs[0].first() == start
    &&& subs.last().last() == end
    &&& forall|i: int| 0 <= i < subs.len() - 1 ==> #[trigger] subs[i + 1].first() == subs[i].last() + 1
    &&& forall|i: int| 0 <= i < subs.len() ==> #[trigger] subs[i].is_exact()
    &&& forall|i: int| 0 <= i < subs.len() ==> cannot_double(#[trigger] subs[i].first(), subs[i].host(), end)
}

impl Ipv4Range {
    #[verifier::type_invariant]
    spec fn ordered(self) -> bool {
        self.start <= self.end
    }

    pub closed spec fn spec_start(&self) -> u32 {
        self.start
    }

    pub closed spec fn spec_end(&self) -> u32 {
        self.end
    }

    /// A range is determined by its start and end.
    pub proof fn lemma_same_bounds(a: Ipv4Range, b: Ipv4Range)
        requires
            a.start() == b.start(),
            a.end() == b.end(),
        ensures
            a == b,
    {
    }

    /// Whether `x` lies in the range.
    pub open spec fn contains(&self, x: int) -> bool {
        self.start() <= x <= self.end()
    }

    /// The first address; it never exceeds the last.
    #[verifier::when_used_as_spec(spec_start)]
    pub fn start(&self) -> (r: u32)
        ensures
            r == self.spec_start(),
            r <= self.spec_end(),
    {
        proof {
            use_type_invariant(self);
        }
        self.start
    }

    /// The last address.
    #[verifier::when_used_as_spec(spec_end)]
    pub fn end(&self) -> (r: u32)
        ensures
            r == self.spec_end(),
    {
        self.end
    }

    /// The range `start..=end`, or `InvalidRange` when `start > end`.
    pub fn from_bounds(start: u32, end: u32) -> (r: Result<Ipv4Range, RangeError>)
        ensures
            start <= end <==> r is Ok,
            r is Ok ==> r->Ok_0.start() == start && r->Ok_0.end() == end,
            r is Err ==> r->Err_0 == RangeError::InvalidRange,
    {
        if start > end {
            Err(RangeError::InvalidRange)
        } else {
            Ok(Ipv4Range { start, end })
        }
    }

    /// The addresses of a subnet, from its first to its last.
    pub fn from_subnet(subnet: &Ipv4Subnet) -> (r: Ipv4Range)
        ensures
            r.start() == subnet.first(),
            r.end() == subnet.last(),
    {
        proof {
            lemma_pow2_pos(subnet.host());
        }
        Ipv4Range { start: subnet.start_addr(), end: subnet.end_addr() }
    }

    /// The addresses of the subnet `addr/prefix`, or `InvalidPrefix` when
    /// `prefix > 32`.
    pub fn from_addr_prefix(addr: u32, prefix: u8) -> (r: Result<Ipv4Range, RangeError>)
        ensures
            prefix <= 32 <==> r is Ok,
            r is Ok ==> r->Ok_0.start() == block_start(addr as int, host_bits(prefix as nat))
                && r->Ok_0.end() == r->Ok_0.start() + pow2(host_bits(prefix as nat)) - 1,
            r is Err ==> r->Err_0 == RangeError::InvalidPrefix,
    {
        match Ipv4Subnet::from_addr_prefix(addr, prefix) {
            Ok(s) => Ok(Ipv4Range::from_subnet(&s)),
            Err(e) => Err(e),
        }
    }

    /// Moves the end to `end` and returns `true`, unless `end` is below the
    /// start: then the range is left as it was and `false` is returned.
    pub fn update_end(&mut self, end: u32) -> (r: bool)
        ensures
            r == (end >= old(self).start()),
            final(self).start() == old(self).start(),
            final(self).end() == if r { end } else { old(self).end() },
    {
        if end < self.start {
            false
        } else {
            self.end = end;
            true
        }
    }

    /// The length of the longest prefix shared by the start and the end: the
    /// prefix of the smallest single subnet that covers the whole range.
    pub fn get_prefix(&self) -> (r: u8)
        ensures
            r <= 32,
            share_prefix(self.start() as int, self.end() as int, r as nat),
            forall|q: nat| r < q <= 32 ==> !#[trigger] share_prefix(self.start() as int, self.end() as int, q),
            r == shared_prefix_upto(self.start() as int, self.end() as int, 32),
    {
        let start: u32 = self.start;
        let end: u32 = self.end;
        for i in 0..32u32
            invariant
                start == self.start(),
                end == self.end(),
                forall|q: nat| 32 - i < q <= 32 ==> !#[trigger] share_prefix(start as int, end as int, q),
        {
            proof {
                lemma_u32_shr_is_div(start, i);
                lemma_u32_shr_is_div(end, i);
                assert(host_bits((32 - i) as nat) == i);
            }
            if (start >> i) == (end >> i) {
                proof {
                    lemma_shared_prefix_upto(start as int, end as int, (32 - i) as nat, 32);
                }
                return (32 - i) as u8;
            }
            proof {
                assert forall|q: nat| 32 - (i + 1) < q <= 32 implies !#[trigger] share_prefix(start as int, end as int, q) by {
                    if q == 32 - i {
                        assert(host_bits(q) == i);
                    }
                }
            }
        }
        proof {
            lemma2_to64();
            assert(host_bits(0) == 32);
            lemma_shared_prefix_upto(start as int, end as int, 0, 32);
        }
        0
    }

    /// The exact decomposition of the range into subnets: ascending, with no gap
    /// and no overlap, each the largest aligned block that starts where the
    /// previous one ended and does not pass the end of the range.
    pub fn to_subnets(&self) -> (r: Vec<Ipv4Subnet>)
        ensures
            is_decomposition(self.start() as int, self.end() as int, r@),
    {
        proof {
            use_type_invariant(self);
            lemma2_to64();
        }
        let mut vec: Vec<Ipv4Subnet> = Vec::new();
        let start: u64 = self.start as u64;
        let end: u64 = self.end as u64;
        let mut cur: u64 = start;
        while cur <= end
            invariant
                start == self.start(),
                end == self.end(),
                start <= end < 0x1_0000_0000,
                start <= cur <= end + 1,
                vec@.len() == 0 ==> cur == start,
                vec@.len() > 0 ==> vec@[0].first() == start && vec@.last().last() == cur - 1,
                forall|i: int| 0 <= i < vec@.len() ==> #[trigger] vec@[i].prefix() <= 32,
                forall|i: int| 0 <= i < vec@.len() - 1 ==> #[trigger] vec@[i + 1].first() == vec@[i].last() + 1,
                forall|i: int| 0 <= i < vec@.len() ==> #[trigger] vec@[i].is_exact(),
                forall|i: int| 0 <= i < vec@.len() ==> cannot_double(#[trigger] vec@[i].first(), vec@[i].host(), end as int),
            decreases end + 1 - cur,
        {
            let s0: u8 = count_suffix_zero_bits(cur);
            let mut s: u8 = s0;
            proof {
                lemma_u64_pow2_no_overflow(s as nat);
                lemma_u64_shl_is_mul(1, s as u64);
                lemma2_to64();
                if s < 32 {
                    lemma_pow2_strictly_increases(s as nat, 32);
                }
            }
            let mut diff: u64 = (1u64 << s) - 1;
            while cur + diff > end
                invariant
                    s <= s0 <= 32,
                    cur <= end < 0x1_0000_0000,
                    diff == pow2(s as nat) - 1,
                    diff <= 0xffffffff,
                    aligned(cur as int, s as nat),
                    s < s0 ==> cur + pow2((s + 1) as nat) - 1 > end,
                decreases s,
            {
                proof {
                    lemma_pow2_pos(s as nat);
                    lemma2_to64();
                    lemma_pow2_unfold(s as nat);
                    lemma_pow2_pos((s - 1) as nat);
                    lemma_aligned_smaller(cur as int, (s - 1) as nat, s as nat);
                    assert(diff >> 1 == diff / 2) by (bit_vector);
                }
                diff = diff >> 1;
                s = s - 1;
            }
            proof {
                lemma_pow2_pos(s as nat);
            }
            let sub = Ipv4Subnet { addr: cur as u32, prefix: 32 - s };
            proof {
                assert(sub.host() == s);
                assert(sub.first() == cur);
                assert(sub.last() == cur + diff);
            }
            vec.push(sub);
            cur = cur + diff + 1;
        }
        vec
    }
}

impl Ipv4Subnet {
    #[verifier::type_invariant]
    spec fn bounded(self) -> bool {
        self.prefix <= 32
    }

    pub closed spec fn spec_addr(&self) -> u32 {
        self.addr
    }

    pub closed spec fn spec_prefix(&self) -> u8 {
        self.prefix
    }

    /// The number of host bits.
    pub open spec fn host(&self) -> nat {
        host_bits(self.prefix() as nat)
    }

    /// The first address of the subnet.
    pub open spec fn first(&self) -> int {
        block_start(self.addr() as int, self.host())
    }

    /// The last address of the subnet.
    pub open spec fn last(&self) -> int {
        self.first() + pow2(self.host()) - 1
    }

    /// Whether the stored address is the first address of the subnet.
    pub open spec fn is_exact(&self) -> bool {
        self.addr() == self.first()
    }

    /// The address as it was given.
    #[verifier::when_used_as_spec(spec_addr)]
    pub fn addr(&self) -> (r: u32)
        ensures
            r == self.spec_addr(),
    {
        self.addr
    }

    /// The prefix length, at most 32.
    #[verifier::when_used_as_spec(spec_prefix)]
    pub fn prefix(&self) -> (r: u8)
        ensures
            r == self.spec_prefix(),
            r <= 32,
    {
        proof {
            use_type_invariant(self);
        }
        self.prefix
    }

    /// The subnet `addr/prefix`, keeping `addr` as given, or `InvalidPrefix`
    /// when `prefix > 32`.
    pub fn from_addr_prefix(addr: u32, prefix: u8) -> (r: Result<Ipv4Subnet, RangeError>)
        ensures
            prefix <= 32 <==> r is Ok,
            r is Ok ==> r->Ok_0.addr() == addr && r->Ok_0.prefix() == prefix,
            r is Err ==> r->Err_0 == RangeError::InvalidPrefix,
    {
        if prefix > 32 {
            Err(RangeError::InvalidPrefix)
        } else {
            Ok(Ipv4Subnet { addr, prefix })
        }
    }

    /// The smallest single subnet that covers a range: its start with the
    /// longest prefix that the start and the end share.
    pub fn from_range(range: &Ipv4Range) -> (r: Ipv4Subnet)
        ensures
            r.addr() == range.start(),
            share_prefix(range.start() as int, range.end() as int, r.prefix() as nat),
            forall|q: nat| r.prefix() < q <= 32 ==> !#[trigger] share_prefix(range.start() as int, range.end() as int, q),
            r.prefix() == shared_prefix_upto(range.start() as int, range.end() as int, 32),
    {
        Ipv4Subnet { addr: range.start(), prefix: range.get_prefix() }
    }

    /// The first address: the stored address with its host bits cleared.
    pub fn start_addr(&self) -> (r: u32)
        ensures
            r == self.first(),
    {
        proof {
            use_type_invariant(self);
        }
        mask_ipaddr(self.addr, self.prefix)
    }

    /// The last address: the first one with all host bits set.
    pub fn end_addr(&self) -> (r: u32)
        ensures
            r == self.last(),
    {
        proof {
            use_type_invariant(self);
        }
        let start = mask_ipaddr(self.addr, self.prefix);
        let m = make_mask(self.prefix);
        proof {
            lemma_mask_bounds(self.addr, self.prefix, m);
        }
        start | !m
    }
}

} // verus!
