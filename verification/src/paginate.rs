//! The paginator: slices an ordered path sequence into pages of a fixed
//! size, the last page possibly shorter, each page telling whether another
//! follows.  Paging never reorders, drops or duplicates an item.

use vstd::prelude::*;
use crate::order::clone_bytes;

verus! {

/// One page: a contiguous slice of the source sequence, and whether a
/// further page follows it.
pub struct Page {
    pub items: Vec<Vec<u8>>,
    pub has_more: bool,
}

/// The pages of `s` under page size `k`: full pages of `k` items, then a
/// shorter final page holding any remainder.
pub open spec fn spec_pages(s: Seq<Seq<u8>>, k: nat) -> Seq<Seq<Seq<u8>>>
    decreases s.len(),
{
    if s.len() == 0 || k == 0 {
        Seq::empty()
    } else if s.len() <= k {
        seq![s]
    } else {
        seq![s.take(k as int)] + spec_pages(s.skip(k as int), k)
    }
}

/// Where page `i` of a length-`n` sequence ends: after `k` items, or at the
/// end of the sequence.
pub open spec fn page_end(n: int, k: int, i: int) -> int {
    if (i + 1) * k <= n {
        (i + 1) * k
    } else {
        n
    }
}

/// A sequence of `n` items yields exactly `ceil(n / k)` pages.
pub proof fn lemma_page_count(s: Seq<Seq<u8>>, k: nat)
    requires
        k >= 1,
    ensures
        spec_pages(s, k).len() == (s.len() + k - 1) / (k as int),
    decreases s.len(),
{
    let n = s.len() as int;
    if s.len() == 0 {
        assert((n + k - 1) / (k as int) == 0) by (nonlinear_arith)
            requires
                n == 0,
                k as int >= 1,
        ;
    } else if s.len() <= k {
        assert((n + k - 1) / (k as int) == 1) by (nonlinear_arith)
            requires
                1 <= n <= k as int,
        ;
    } else {
        lemma_page_count(s.skip(k as int), k);
        assert((n - k + k - 1) / (k as int) + 1 == (n + k - 1) / (k as int)) by (nonlinear_arith)
            requires
                n > k as int >= 1,
        ;
    }
}

/// Page `i` holds exactly the items from `i * k` up to `page_end`.
pub proof fn lemma_page_slices(s: Seq<Seq<u8>>, k: nat, i: int)
    requires
        k >= 1,
        0 <= i < spec_pages(s, k).len(),
    ensures
        spec_pages(s, k)[i] == s.subrange(i * k, page_end(s.len() as int, k as int, i)),
        i * k < s.len(),
    decreases s.len(),
{
    let n = s.len() as int;
    assert(0 * (k as int) == 0) by (nonlinear_arith);
    if s.len() <= k {
        assert(s.subrange(0, page_end(n, k as int, 0)) =~= s);
    } else if i == 0 {
        assert(1 * (k as int) == k as int) by (nonlinear_arith);
        assert(s.take(k as int) =~= s.subrange(0, k as int));
    } else {
        let rest = s.skip(k as int);
        lemma_page_slices(rest, k, i - 1);
        assert(i * k == (i - 1) * k + k) by (nonlinear_arith);
        assert((i + 1) * k == i * k + k) by (nonlinear_arith);
        assert((i - 1) * k >= 0) by (nonlinear_arith)
            requires
                i >= 1,
                k as int >= 1,
        ;
        assert((i - 1) * k < rest.len());
        if i * k <= n - k as int {
            assert(page_end(rest.len() as int, k as int, i - 1) == i * k);
            assert(page_end(n, k as int, i) == (i + 1) * k);
        } else {
            assert(page_end(rest.len() as int, k as int, i - 1) == rest.len() as int);
            assert(page_end(n, k as int, i) == n);
        }
        assert(rest.subrange((i - 1) * k, page_end(rest.len() as int, k as int, i - 1))
            =~= s.subrange(i * k, page_end(n, k as int, i)));
    }
}

/// Concatenating all pages in order reproduces the source sequence exactly.
pub proof fn lemma_pages_flatten(s: Seq<Seq<u8>>, k: nat)
    requires
        k >= 1,
    ensures
        spec_pages(s, k).flatten() == s,
    decreases s.len(),
{
    if s.len() == 0 {
        assert(spec_pages(s, k).flatten() =~= s);
    } else if s.len() <= k {
        let ps = spec_pages(s, k);
        assert(ps.drop_first() =~= Seq::<Seq<Seq<u8>>>::empty());
        assert(ps.flatten() == s + ps.drop_first().flatten());
        assert(ps.flatten() =~= s);
    } else {
        let ps = spec_pages(s, k);
        lemma_pages_flatten(s.skip(k as int), k);
        assert(ps.drop_first() =~= spec_pages(s.skip(k as int), k));
        assert(ps.flatten() == s.take(k as int) + ps.drop_first().flatten());
        assert(s.take(k as int) + s.skip(k as int) =~= s);
    }
}

/// Copies the items of `v` from `start` (inclusive) to `end` (exclusive).
fn clone_range(v: &Vec<Vec<u8>>, start: usize, end: usize) -> (r: Vec<Vec<u8>>)
    requires
        start <= end <= v@.len(),
    ensures
        r.deep_view() == v.deep_view().subrange(start as int, end as int),
{
    let mut r: Vec<Vec<u8>> = Vec::new();
    let mut i: usize = start;
    while i < end
        invariant
            start <= i <= end <= v@.len(),
            r@.len() == i - start,
            forall|m: int| 0 <= m < i - start ==> (#[trigger] r@[m]@) == v@[start + m]@,
        decreases end - i,
    {
        r.push(clone_bytes(&v[i]));
        i = i + 1;
    }
    proof {
        assert forall|m: int| 0 <= m < r@.len() implies r.deep_view()[m] == v.deep_view().subrange(
            start as int,
            end as int,
        )[m] by {
            assert(r.deep_view()[m] == r@[m].deep_view());
            assert(r@[m].deep_view() =~= r@[m]@);
            assert(v.deep_view()[start + m] == v@[start + m].deep_view());
            assert(v@[start + m].deep_view() =~= v@[start + m]@);
        }
        assert(r.deep_view() =~= v.deep_view().subrange(start as int, end as int));
    }
    r
}

/// Splits `items` into pages of `page_size` in order, the last page possibly
/// shorter; each page's flag says whether a further page exists.
pub fn paginate(items: &Vec<Vec<u8>>, page_size: usize) -> (pages: Vec<Page>)
    requires
        page_size >= 1,
    ensures
        pages@.len() == spec_pages(items.deep_view(), page_size as nat).len(),
        forall|i: int|
            0 <= i < pages@.len() ==> (#[trigger] pages@[i].items.deep_view()) == spec_pages(
                items.deep_view(),
                page_size as nat,
            )[i],
        forall|i: int|
            0 <= i < pages@.len() ==> (#[trigger] pages@[i].has_more) == (i + 1 < pages@.len()),
{
    let ghost dv = items.deep_view();
    let ghost k = page_size as int;
    let n = items.len();
    let mut pages: Vec<Page> = Vec::new();
    let mut start: usize = 0;
    proof {
        assert(0 * k == 0) by (nonlinear_arith);
    }
    while start < n
        invariant
            page_size >= 1,
            k == page_size as int,
            n == items@.len(),
            dv == items.deep_view(),
            dv.len() == n,
            0 <= start <= n,
            start < n ==> start == pages@.len() * k,
            start == n ==> (n == 0 && pages@.len() == 0) || (pages@.len() >= 1 && (pages@.len()
                - 1) * k < n <= pages@.len() * k),
            forall|m: int|
                0 <= m < pages@.len() ==> (#[trigger] pages@[m].items.deep_view()) == dv.subrange(
                    m * k,
                    page_end(n as int, k, m),
                ),
            forall|m: int|
                0 <= m < pages@.len() ==> (#[trigger] pages@[m].has_more) == ((m + 1) * k
                    < n as int),
        decreases n - start,
    {
        let ghost p = pages@.len() as int;
        let end = if n - start < page_size {
            n
        } else {
            start + page_size
        };
        proof {
            assert((p + 1) * k == p * k + k) by (nonlinear_arith);
        }
        let chunk = clone_range(items, start, end);
        pages.push(Page { items: chunk, has_more: end < n });
        proof {
            assert(start as int == p * k);
            assert(end as int == page_end(n as int, k, p));
            assert(pages@[p].items.deep_view() == dv.subrange(p * k, page_end(n as int, k, p)));
        }
        start = end;
    }
    proof {
        let total = spec_pages(dv, page_size as nat).len() as int;
        if n == 0 {
            assert(pages@.len() == 0);
            assert(total == 0);
        } else {
            lemma_page_count(dv, page_size as nat);
            let p = pages@.len() as int;
            assert((n as int + k - 1) / k == p) by (nonlinear_arith)
                requires
                    k >= 1,
                    (p - 1) * k < n as int <= p * k,
            ;
        }
        assert forall|i: int| 0 <= i < pages@.len() implies (#[trigger] pages@[i].items.deep_view())
            == spec_pages(dv, page_size as nat)[i] by {
            lemma_page_slices(dv, page_size as nat, i);
        }
        assert forall|i: int| 0 <= i < pages@.len() implies (#[trigger] pages@[i].has_more) == (i
            + 1 < pages@.len()) by {
            let p = pages@.len() as int;
            assert(((i + 1) * k < n as int) == (i + 1 < p)) by (nonlinear_arith)
                requires
                    k >= 1,
                    0 <= i < p,
                    (p - 1) * k < n as int <= p * k,
            ;
        }
    }
    pages
}

} // verus!
