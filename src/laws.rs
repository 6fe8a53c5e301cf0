//! What holds across the operations: a subnet survives a round trip through
//! its range, a decomposition covers its range exactly and minimally, and a
//! merge leaves every address in exactly one range.
use vstd::prelude::*;
use vstd::arithmetic::power2::{lemma_pow2_pos, lemma_pow2_strictly_increases, lemma_pow2_unfold};
use crate::iprange::{cannot_double, is_decomposition, Ipv4Range, Ipv4Subnet};
use crate::mask::{aligned, lemma_aligned_smaller, lemma_block_start_aligned};
use crate::merge::{covers, is_merged, starts_sorted};

verus! {

/// Whether the subnet `s` holds the address `x`.
pub open spec fn holds(s: Ipv4Subnet, x: int) -> bool {
    s.first() <= x <= s.last()
}

/// Whether some subnet of `subs` holds the address `x`.
pub open spec fn some_holds(subs: Seq<Ipv4Subnet>, x: int) -> bool {
    exists|i: int| 0 <= i < subs.len() && #[trigger] holds(subs[i], x)
}

/// Two neighbouring subnets of one size that together form an aligned subnet
/// of twice that size.
pub open spec fn can_join(a: Ipv4Subnet, b: Ipv4Subnet) -> bool {
    &&& a.prefix() == b.prefix()
    &&& 0 < a.prefix() <= 32
    &&& b.first() == a.last() + 1
    &&& aligned(a.first(), a.host() + 1)
}

/// In a decomposition each subnet is nonempty, lies in the range, and ends
/// before every later one begins.
proof fn lemma_decomposition_ordered(start: int, end: int, subs: Seq<Ipv4Subnet>)
    requires
        is_decomposition(start, end, subs),
    ensures
        forall|i: int| 0 <= i < subs.len() ==> start <= #[trigger] subs[i].first() <= subs[i].last() <= end,
        forall|i: int, j: int| 0 <= i < j < subs.len() ==> #[trigger] subs[i].last() < #[trigger] subs[j].first(),
{
    assert forall|i: int| 0 <= i < subs.len() implies #[trigger] subs[i].first() <= subs[i].last() by {
        lemma_pow2_pos(subs[i].host());
    }
    assert forall|i: int| 0 <= i < subs.len() implies start <= #[trigger] subs[i].first() by {
        lemma_first_from_start(start, end, subs, i);
    }
    assert forall|i: int| 0 <= i < subs.len() implies #[trigger] subs[i].last() <= end by {
        lemma_last_to_end(start, end, subs, i);
    }
    assert forall|i: int, j: int| 0 <= i < j < subs.len() implies #[trigger] subs[i].last() < #[trigger] subs[j].first() by {
        lemma_ascending(start, end, subs, i, j);
    }
}

/// Each subnet of a decomposition after the first begins right after the one
/// before it.
proof fn lemma_next_first(start: int, end: int, subs: Seq<Ipv4Subnet>, k: int)
    requires
        is_decomposition(start, end, subs),
        0 <= k < subs.len() - 1,
    ensures
        subs[k + 1].first() == subs[k].last() + 1,
{
}

/// Every subnet of a decomposition begins at or after the start.
proof fn lemma_first_from_start(start: int, end: int, subs: Seq<Ipv4Subnet>, i: int)
    requires
        is_decomposition(start, end, subs),
        0 <= i < subs.len(),
    ensures
        start <= subs[i].first(),
    decreases i,
{
    if i > 0 {
        lemma_first_from_start(start, end, subs, i - 1);
        lemma_pow2_pos(subs[i - 1].host());
        lemma_next_first(start, end, subs, i - 1);
    }
}

/// Every subnet of a decomposition ends at or before the end.
proof fn lemma_last_to_end(start: int, end: int, subs: Seq<Ipv4Subnet>, i: int)
    requires
        is_decomposition(start, end, subs),
        0 <= i < subs.len(),
    ensures
        subs[i].last() <= end,
    decreases subs.len() - i,
{
    if i < subs.len() - 1 {
        lemma_last_to_end(start, end, subs, i + 1);
        lemma_pow2_pos(subs[i + 1].host());
        assert(subs[i + 1].first() == subs[i].last() + 1);
    }
}

/// A subnet of a decomposition ends before any later one begins.
proof fn lemma_ascending(start: int, end: int, subs: Seq<Ipv4Subnet>, i: int, j: int)
    requires
        is_decomposition(start, end, subs),
        0 <= i < j < subs.len(),
    ensures
        subs[i].last() < subs[j].first(),
    decreases j - i,
{
    assert(subs[i + 1].first() == subs[i].last() + 1);
    if j > i + 1 {
        lemma_ascending(start, end, subs, i + 1, j);
        lemma_pow2_pos(subs[i + 1].host());
    }
}

/// Some subnet among the first `n + 1` of a decomposition holds each address
/// from the start up to the end of subnet `n`.
proof fn lemma_covered_upto(start: int, end: int, subs: Seq<Ipv4Subnet>, n: int, x: int)
    requires
        is_decomposition(start, end, subs),
        0 <= n < subs.len(),
        start <= x <= subs[n].last(),
    ensures
        exists|i: int| 0 <= i <= n && #[trigger] holds(subs[i], x),
    decreases n,
{
    if n == 0 {
        assert(holds(subs[0], x));
    } else if x <= subs[n - 1].last() {
        lemma_covered_upto(start, end, subs, n - 1, x);
        let i = choose|i: int| 0 <= i <= n - 1 && #[trigger] holds(subs[i], x);
        assert(holds(subs[i], x));
    } else {
        lemma_next_first(start, end, subs, n - 1);
        assert(holds(subs[n], x));
    }
}

/// The subnets of a decomposition hold exactly the addresses of the range,
/// each address in one subnet only, and they come in ascending order.
pub proof fn lemma_decomposition_exact(start: int, end: int, subs: Seq<Ipv4Subnet>)
    requires
        is_decomposition(start, end, subs),
    ensures
        forall|x: int| start <= x <= end <==> #[trigger] some_holds(subs, x),
        forall|i: int, j: int, x: int| 0 <= i < subs.len() && 0 <= j < subs.len() && #[trigger] holds(subs[i], x)
            && #[trigger] holds(subs[j], x) ==> i == j,
        forall|i: int, j: int| 0 <= i < j < subs.len() ==> #[trigger] subs[i].last() < #[trigger] subs[j].first(),
{
    lemma_decomposition_ordered(start, end, subs);
    assert forall|x: int| start <= x <= end <==> #[trigger] some_holds(subs, x) by {
        if some_holds(subs, x) {
            let i = choose|i: int| 0 <= i < subs.len() && #[trigger] holds(subs[i], x);
            assert(holds(subs[i], x));
        }
        if start <= x <= end {
            lemma_covered_upto(start, end, subs, subs.len() - 1, x);
        }
    }
    assert forall|i: int, j: int, x: int| 0 <= i < subs.len() && 0 <= j < subs.len() && #[trigger] holds(subs[i], x)
        && #[trigger] holds(subs[j], x) implies i == j by {
        if i < j {
            assert(subs[i].last() < subs[j].first());
        } else if j < i {
            assert(subs[j].last() < subs[i].first());
        }
    }
}

/// No two neighbours of a decomposition could be joined into one aligned
/// subnet of twice their size: each subnet is as large as it can be.
pub proof fn lemma_decomposition_minimal(start: int, end: int, subs: Seq<Ipv4Subnet>)
    requires
        is_decomposition(start, end, subs),
    ensures
        forall|i: int| 0 <= i < subs.len() - 1 ==> !can_join(#[trigger] subs[i], subs[i + 1]),
{
    lemma_decomposition_ordered(start, end, subs);
    assert forall|i: int| 0 <= i < subs.len() - 1 implies !can_join(#[trigger] subs[i], subs[i + 1]) by {
        if can_join(subs[i], subs[i + 1]) {
            let h = subs[i].host();
            lemma_pow2_unfold(h + 1);
            assert(cannot_double(subs[i].first(), subs[i].host(), end));
            assert(subs[i + 1].last() <= end);
        }
    }
}

/// Decomposing the range of a subnet gives back that one subnet, with its
/// address masked: the same first address and the same prefix length.
pub proof fn lemma_subnet_round_trip(s: Ipv4Subnet, range: Ipv4Range, subs: Seq<Ipv4Subnet>)
    requires
        s.prefix() <= 32,
        range.start() == s.first(),
        range.end() == s.last(),
        is_decomposition(range.start() as int, range.end() as int, subs),
    ensures
        subs.len() == 1,
        subs[0].addr() == s.first(),
        subs[0].prefix() == s.prefix(),
        forall|x: int| holds(subs[0], x) <==> holds(s, x),
{
    let start = range.start() as int;
    let end = range.end() as int;
    let h = s.host();
    let b = subs[0];
    let hb = b.host();
    lemma_decomposition_ordered(start, end, subs);
    lemma_block_start_aligned(s.addr() as int, h);
    lemma_pow2_pos(h);
    lemma_pow2_pos(hb);
    if hb > h {
        lemma_pow2_strictly_increases(h, hb);
    } else if hb < h {
        lemma_aligned_smaller(start, hb + 1, h);
        if hb + 1 < h {
            lemma_pow2_strictly_increases(hb + 1, h);
        }
        assert(cannot_double(b.first(), b.host(), end));
    }
    assert(hb == h);
    assert(subs[0].is_exact());
    if subs.len() > 1 {
        assert(subs[1].first() == subs[0].last() + 1);
    }
}

/// After a merge of ranges sorted by start, every address that an input range
/// holds lies in exactly one output range, and any two output ranges are
/// apart, with a gap between them.
pub proof fn lemma_merge_exact(input: Seq<Ipv4Range>, output: Seq<Ipv4Range>)
    requires
        starts_sorted(input),
        is_merged(output),
        forall|x: int| covers(output, x) <==> covers(input, x),
    ensures
        forall|x: int| covers(input, x) ==> exists|i: int| 0 <= i < output.len() && #[trigger] output[i].contains(x),
        forall|i: int, j: int, x: int| 0 <= i < output.len() && 0 <= j < output.len()
            && #[trigger] output[i].contains(x) && #[trigger] output[j].contains(x) ==> i == j,
        forall|i: int, j: int| 0 <= i < j < output.len() ==> #[trigger] output[i].end() + 1 < #[trigger] output[j].start(),
{
    assert forall|i: int, j: int| 0 <= i < j < output.len() implies #[trigger] output[i].end() + 1 < #[trigger] output[j].start() by {
        lemma_merged_apart(output, i, j);
    }
    assert forall|x: int| covers(input, x) implies exists|i: int| 0 <= i < output.len() && #[trigger] output[i].contains(x) by {
        assert(covers(output, x));
    }
    assert forall|i: int, j: int, x: int| 0 <= i < output.len() && 0 <= j < output.len()
        && #[trigger] output[i].contains(x) && #[trigger] output[j].contains(x) implies i == j by {
        if i < j {
            lemma_merged_apart(output, i, j);
        } else if j < i {
            lemma_merged_apart(output, j, i);
        }
    }
}

/// Two merged lists that cover the same addresses are equal: a merge has
/// exactly one possible result.
pub proof fn lemma_merged_unique(a: Seq<Ipv4Range>, b: Seq<Ipv4Range>)
    requires
        is_merged(a),
        is_merged(b),
        forall|x: int| covers(a, x) <==> covers(b, x),
    ensures
        a == b,
    decreases a.len() + b.len(),
{
    if a.len() == 0 || b.len() == 0 {
        if a.len() > 0 {
            assert(a[0].contains(a[0].start() as int));
            assert(covers(a, a[0].start() as int));
        }
        if b.len() > 0 {
            assert(b[0].contains(b[0].start() as int));
            assert(covers(b, b[0].start() as int));
        }
        assert(a =~= b);
    } else {
        lemma_first_start(a, b);
        lemma_first_start(b, a);
        lemma_first_end(a, b);
        lemma_first_end(b, a);
        Ipv4Range::lemma_same_bounds(a[0], b[0]);
        let ta = a.drop_first();
        let tb = b.drop_first();
        lemma_rest_of_merged(a);
        lemma_rest_of_merged(b);
        assert forall|x: int| covers(ta, x) <==> covers(tb, x) by {
            lemma_rest_covers(a, x);
            lemma_rest_covers(b, x);
        }
        lemma_merged_unique(ta, tb);
        assert(a =~= seq![a[0]] + ta);
        assert(b =~= seq![b[0]] + tb);
    }
}

/// The first range of a merged list starts no later than the first range of
/// any other merged list that covers the same addresses.
proof fn lemma_first_start(a: Seq<Ipv4Range>, b: Seq<Ipv4Range>)
    requires
        is_merged(a),
        is_merged(b),
        a.len() > 0,
        b.len() > 0,
        forall|x: int| covers(a, x) <==> covers(b, x),
    ensures
        b[0].start() <= a[0].start(),
{
    let s = a[0].start() as int;
    assert(a[0].contains(s));
    assert(covers(a, s));
    let k = choose|k: int| 0 <= k < b.len() && #[trigger] b[k].contains(s);
    if k > 0 {
        lemma_merged_apart(b, 0, k);
    }
}

/// Of two merged lists that cover the same addresses and start together, the
/// first range of one ends no later than the first range of the other.
proof fn lemma_first_end(a: Seq<Ipv4Range>, b: Seq<Ipv4Range>)
    requires
        is_merged(a),
        is_merged(b),
        a.len() > 0,
        b.len() > 0,
        a[0].start() == b[0].start(),
        forall|x: int| covers(a, x) <==> covers(b, x),
    ensures
        a[0].end() <= b[0].end(),
{
    if a[0].end() > b[0].end() {
        let x = b[0].end() + 1;
        assert(b[0].start() <= b[0].end());
        assert(a[0].contains(x));
        assert(covers(a, x));
        let j = choose|j: int| 0 <= j < b.len() && #[trigger] b[j].contains(x);
        if j > 0 {
            lemma_merged_apart(b, 0, j);
        }
    }
}

/// What follows the first range of a merged list is merged.
proof fn lemma_rest_of_merged(a: Seq<Ipv4Range>)
    requires
        is_merged(a),
        a.len() > 0,
    ensures
        is_merged(a.drop_first()),
{
    let t = a.drop_first();
    assert forall|i: int| 0 <= i < t.len() implies #[trigger] t[i].start() <= t[i].end() by {
        assert(t[i] == a[i + 1]);
    }
    assert forall|i: int| 0 <= i < t.len() - 1 implies #[trigger] t[i].end() + 1 < t[i + 1].start() by {
        assert(t[i] == a[i + 1]);
        assert(t[i + 1] == a[i + 2]);
    }
}

/// The rest of a merged list covers exactly the covered addresses past the
/// end of its first range.
proof fn lemma_rest_covers(a: Seq<Ipv4Range>, x: int)
    requires
        is_merged(a),
        a.len() > 0,
    ensures
        covers(a.drop_first(), x) <==> (covers(a, x) && x > a[0].end()),
{
    let t = a.drop_first();
    if covers(t, x) {
        let i = choose|i: int| 0 <= i < t.len() && #[trigger] t[i].contains(x);
        assert(a[i + 1].contains(x));
        lemma_merged_apart(a, 0, i + 1);
    }
    if covers(a, x) && x > a[0].end() {
        let i = choose|i: int| 0 <= i < a.len() && #[trigger] a[i].contains(x);
        assert(i > 0);
        assert(t[i - 1].contains(x));
    }
}

/// In a merged list, a gap lies between any two ranges, not only neighbours.
proof fn lemma_merged_apart(s: Seq<Ipv4Range>, i: int, j: int)
    requires
        is_merged(s),
        0 <= i < j < s.len(),
    ensures
        s[i].end() + 1 < s[j].start(),
    decreases j - i,
{
    assert(s[i].end() + 1 < s[i + 1].start());
    if j > i + 1 {
        lemma_merged_apart(s, i + 1, j);
        assert(s[i + 1].start() <= s[i + 1].end());
    }
}

} // verus!
