//! Collapsing a list of ranges, sorted by start, into the fewest ranges that
//! cover the same addresses: ranges that overlap or touch become one.
use vstd::prelude::*;
use crate::iprange::{is_decomposition, Ipv4Range, Ipv4Subnet};

verus! {

/// The starts never decrease along `s`.
pub open spec fn starts_sorted(s: Seq<Ipv4Range>) -> bool {
    forall|i: int, j: int| 0 <= i < j < s.len() ==> #[trigger] s[i].start() <= #[trigger] s[j].start()
}

/// Whether one of the first `n` ranges of `s` holds `x`.
pub open spec fn covered_by(s: Seq<Ipv4Range>, n: int, x: int) -> bool {
    exists|i: int| 0 <= i < n && #[trigger] s[i].contains(x)
}

/// Whether a range of `s` holds `x`.
pub open spec fn covers(s: Seq<Ipv4Range>, x: int) -> bool {
    covered_by(s, s.len() as int, x)
}

/// The first `n` ranges of `s` are ordered, and between two neighbours among
/// them lies at least one address that neither holds.
pub open spec fn merged_upto(s: Seq<Ipv4Range>, n: int) -> bool {
    &&& forall|i: int| 0 <= i < n ==> #[trigger] s[i].start() <= s[i].end()
    &&& forall|i: int| 0 <= i < n - 1 ==> #[trigger] s[i].end() + 1 < s[i + 1].start()
}

/// Each range of `s` is ordered, and between two neighbours lies at least
/// one address that neither holds.
pub open spec fn is_merged(s: Seq<Ipv4Range>) -> bool {
    merged_upto(s, s.len() as int)
}

/// One range more is covered by exactly what it adds.
proof fn lemma_covered_extend(s: Seq<Ipv4Range>, n: int, x: int)
    requires
        0 <= n < s.len(),
    ensures
        covered_by(s, n + 1, x) <==> (covered_by(s, n, x) || s[n].contains(x)),
{
    if covered_by(s, n + 1, x) && !s[n].contains(x) {
        let k = choose|k: int| 0 <= k < n + 1 && #[trigger] s[k].contains(x);
        assert(k < n);
    }
}

/// Coverage by the first `n` ranges depends on those ranges alone.
proof fn lemma_covered_same(a: Seq<Ipv4Range>, b: Seq<Ipv4Range>, n: int, x: int)
    requires
        0 <= n <= a.len(),
        n <= b.len(),
        forall|k: int| 0 <= k < n ==> #[trigger] a[k] == b[k],
    ensures
        covered_by(a, n, x) <==> covered_by(b, n, x),
{
    if covered_by(a, n, x) {
        let k = choose|k: int| 0 <= k < n && #[trigger] a[k].contains(x);
        assert(b[k].contains(x));
    }
    if covered_by(b, n, x) {
        let k = choose|k: int| 0 <= k < n && #[trigger] b[k].contains(x);
        assert(a[k].contains(x));
    }
}

/// Merges, in place, ranges sorted by start: the result holds the same
/// addresses, in the fewest ranges, with a gap between any two of them. A list
/// that is merged already is left as it is.
pub fn merge_ranges(ranges: &mut Vec<Ipv4Range>)
    requires
        starts_sorted(old(ranges)@),
    ensures
        is_merged(final(ranges)@),
        forall|x: int| covers(final(ranges)@, x) <==> covers(old(ranges)@, x),
        is_merged(old(ranges)@) ==> final(ranges)@ == old(ranges)@,
{
    let ghost orig = ranges@;
    let n = ranges.len();
    if n == 0 {
        return;
    }
    // The getter also states that the first range is ordered.
    let _first_start: u32 = ranges[0].start();
    if n == 1 {
        return;
    }
    let mut j: usize = 0;
    let mut i: usize = 1;
    while i < n
        invariant
            1 <= i <= n,
            n == orig.len(),
            ranges@.len() == n,
            starts_sorted(orig),
            j < i,
            forall|k: int| i <= k < n ==> #[trigger] ranges@[k] == orig[k],
            merged_upto(ranges@, j + 1),
            forall|k: int| i <= k < n ==> ranges@[j as int].start() <= #[trigger] orig[k].start(),
            forall|x: int| covered_by(ranges@, j + 1, x) <==> covered_by(orig, i as int, x),
            is_merged(orig) ==> j == i - 1 && forall|k: int| 0 <= k < i ==> #[trigger] ranges@[k] == orig[k],
        decreases n - i,
    {
        let ghost before = ranges@;
        let ghost j0 = j as int;
        let next = ranges[i];
        let cur = ranges[j];
        let next_start: u32 = next.start();
        let cur_end: u32 = cur.end();
        let cur_start: u32 = cur.start();
        proof {
            assert(next == orig[i as int]);
            if is_merged(orig) {
                assert(orig[i - 1].end() + 1 < orig[i as int].start());
            }
        }
        if next_start as u64 > cur_end as u64 + 1 {
            j = j + 1;
            ranges.set(j, next);
            proof {
                assert(forall|k: int| 0 <= k < j ==> #[trigger] ranges@[k] == before[k]);
                assert forall|x: int| #[trigger] covered_by(ranges@, j + 1, x) <==> covered_by(orig, i + 1, x) by {
                    lemma_covered_extend(orig, i as int, x);
                    lemma_covered_extend(ranges@, j as int, x);
                    lemma_covered_same(ranges@, before, j as int, x);
                    assert(covered_by(before, j0 + 1, x) <==> covered_by(orig, i as int, x));
                }
                assert(ranges@[j - 1] == before[j - 1]);
            }
        } else {
            let mut merged = cur;
            let next_end: u32 = next.end();
            let new_end: u32 = if next_end > cur_end { next_end } else { cur_end };
            merged.update_end(new_end);
            ranges.set(j, merged);
            proof {
                assert(next == orig[i as int]);
                assert(cur_start <= next_start);
                assert forall|x: int| #[trigger] covered_by(ranges@, j + 1, x) <==> covered_by(orig, i + 1, x) by {
                    assert(ranges@[j as int].contains(x) <==> (before[j as int].contains(x)
                        || orig[i as int].contains(x)));
                    lemma_covered_extend(orig, i as int, x);
                    lemma_covered_extend(ranges@, j as int, x);
                    lemma_covered_extend(before, j as int, x);
                    lemma_covered_same(ranges@, before, j as int, x);
                    assert(covered_by(before, j0 + 1, x) <==> covered_by(orig, i as int, x));
                }
                if j > 0 {
                    assert(ranges@[j - 1] == before[j - 1]);
                }
            }
        }
        i = i + 1;
    }
    let ghost merged_all = ranges@;
    ranges.truncate(j + 1);
    proof {
        assert forall|x: int| #[trigger] covers(ranges@, x) <==> covers(orig, x) by {
            lemma_covered_same(ranges@, merged_all, j + 1, x);
        }
    }
}

/// `a` comes no later than `b` in the order of ranges: by start, then by end.
pub open spec fn range_le(a: Ipv4Range, b: Ipv4Range) -> bool {
    a.start() < b.start() || (a.start() == b.start() && a.end() <= b.end())
}

/// The ranges of `s` are in order: by start, then by end.
pub open spec fn ranges_sorted(s: Seq<Ipv4Range>) -> bool {
    forall|i: int, j: int| 0 <= i < j < s.len() ==> range_le(#[trigger] s[i], #[trigger] s[j])
}

/// Puts the ranges in order, by start and then by end, keeping each one.
pub fn sort_ranges(v: &mut Vec<Ipv4Range>)
    ensures
        ranges_sorted(final(v)@),
        final(v)@.to_multiset() == old(v)@.to_multiset(),
{
    broadcast use vstd::seq_lib::to_multiset_update, vstd::multiset::group_multiset_properties;

    let n = v.len();
    let mut i: usize = 1;
    while i < n
        invariant
            v@.len() == n,
            v@.to_multiset() == old(v)@.to_multiset(),
            n == 0 || 1 <= i <= n,
            forall|a: int, b: int| 0 <= a < b < i ==> range_le(#[trigger] v@[a], #[trigger] v@[b]),
        decreases n - i,
    {
        let mut j: usize = i;
        while j > 0 && !(v[j - 1].start() < v[j].start()
            || (v[j - 1].start() == v[j].start() && v[j - 1].end() <= v[j].end()))
            invariant
                v@.len() == n,
                v@.to_multiset() == old(v)@.to_multiset(),
                1 <= i < n,
                j <= i,
                forall|a: int, b: int| 0 <= a < b <= i && b != j && a != j ==> range_le(#[trigger] v@[a], #[trigger] v@[b]),
                forall|b: int| j < b <= i ==> range_le(v@[j as int], #[trigger] v@[b]),
                forall|a: int, b: int| 0 <= a < j < b <= i ==> range_le(#[trigger] v@[a], #[trigger] v@[b]),
            decreases j,
        {
            let x = v[j - 1];
            let y = v[j];
            let ghost before = v@;
            v.set(j - 1, y);
            v.set(j, x);
            proof {
                let m = before.to_multiset();
                let mid = before.update(j - 1, y);
                assert(v@ == mid.update(j as int, x));
                assert(before[j - 1] == x && mid[j as int] == y);
                vstd::seq_lib::to_multiset_update(before, j - 1, y);
                vstd::seq_lib::to_multiset_update(mid, j as int, x);
                assert(mid.to_multiset() == m.insert(y).remove(x));
                assert(v@.to_multiset() == m.insert(y).remove(x).insert(x).remove(y));
                assert(m.contains(x)) by {
                    vstd::seq_lib::to_multiset_contains(before, x);
                    assert(before[j - 1] == x);
                }
                assert(m.insert(y).remove(x).insert(x).remove(y) =~= m);
            }
            j = j - 1;
        }
        i = i + 1;
    }
}

/// Each of `parts` is the decomposition of the range at its place in `ranges`.
pub open spec fn decomposes_each(ranges: Seq<Ipv4Range>, parts: Seq<Seq<Ipv4Subnet>>) -> bool {
    &&& parts.len() == ranges.len()
    &&& forall|i: int| 0 <= i < ranges.len() ==> is_decomposition(
        #[trigger] ranges[i].start() as int,
        ranges[i].end() as int,
        parts[i],
    )
}

/// The decompositions of the ranges, one after another.
pub fn ranges_to_subnets(ranges: &Vec<Ipv4Range>) -> (r: Vec<Ipv4Subnet>)
    ensures
        exists|parts: Seq<Seq<Ipv4Subnet>>| #[trigger] decomposes_each(ranges@, parts) && r@ == parts.flatten(),
{
    let mut out: Vec<Ipv4Subnet> = Vec::new();
    let ghost mut parts: Seq<Seq<Ipv4Subnet>> = Seq::empty();
    let mut i: usize = 0;
    while i < ranges.len()
        invariant
            i <= ranges@.len(),
            decomposes_each(ranges@.take(i as int), parts),
            out@ == parts.flatten(),
        decreases ranges@.len() - i,
    {
        let mut subs = ranges[i].to_subnets();
        proof {
            parts.lemma_flatten_push(subs@);
            parts = parts.push(subs@);
            assert(ranges@.take(i + 1)[i as int] == ranges@[i as int]);
            assert forall|k: int| 0 <= k < i + 1 implies is_decomposition(
                #[trigger] ranges@.take(i + 1)[k].start() as int,
                ranges@.take(i + 1)[k].end() as int,
                parts[k],
            ) by {
                if k < i {
                    assert(ranges@.take(i + 1)[k] == ranges@.take(i as int)[k]);
                }
            }
        }
        out.append(&mut subs);
        i = i + 1;
    }
    proof {
        assert(ranges@.take(i as int) =~= ranges@);
    }
    out
}

/// Two lists with the same ranges cover the same addresses.
proof fn lemma_covers_same_ranges(a: Seq<Ipv4Range>, b: Seq<Ipv4Range>, x: int)
    requires
        a.to_multiset() == b.to_multiset(),
    ensures
        covers(a, x) ==> covers(b, x),
{
    if covers(a, x) {
        let i = choose|i: int| 0 <= i < a.len() && #[trigger] a[i].contains(x);
        vstd::seq_lib::to_multiset_contains(a, a[i]);
        vstd::seq_lib::to_multiset_contains(b, a[i]);
        let j = choose|j: int| 0 <= j < b.len() && b[j] == a[i];
        assert(b[j].contains(x));
    }
}

/// Sorts and merges the ranges in place, and gives the decompositions of the
/// merged ranges, one after another: the fewest ranges and the exact subnets
/// that hold the addresses that the ranges held.
pub fn process_ranges(ranges: &mut Vec<Ipv4Range>) -> (r: Vec<Ipv4Subnet>)
    ensures
        is_merged(final(ranges)@),
        forall|x: int| covers(final(ranges)@, x) <==> covers(old(ranges)@, x),
        exists|parts: Seq<Seq<Ipv4Subnet>>| #[trigger] decomposes_each(final(ranges)@, parts) && r@ == parts.flatten(),
{
    sort_ranges(ranges);
    let ghost sorted = ranges@;
    proof {
        assert forall|x: int| #[trigger] covers(sorted, x) <==> covers(old(ranges)@, x) by {
            lemma_covers_same_ranges(sorted, old(ranges)@, x);
            lemma_covers_same_ranges(old(ranges)@, sorted, x);
        }
        assert forall|i: int, j: int| 0 <= i < j < sorted.len() implies #[trigger] sorted[i].start() <= #[trigger] sorted[j].start() by {
            assert(range_le(sorted[i], sorted[j]));
        }
    }
    merge_ranges(ranges);
    ranges_to_subnets(ranges)
}

} // verus!
