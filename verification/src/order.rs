//! Priced materials in ascending order of price.
//!
//! Entries of equal price keep the order in which they stood, so the sorted
//! sequence is determined by the input alone.

use vstd::prelude::*;
use crate::catalog::distinct_names;

verus! {

/// Entry `i` of `s` stands before entry `j` once `s` is sorted: it is
/// cheaper, or as cheap and earlier in `s`.
pub open spec fn comes_before(s: Seq<(Seq<char>, u32)>, i: int, j: int) -> bool {
    s[i].1 < s[j].1 || (s[i].1 == s[j].1 && i < j)
}

/// `order` lists every position of `s` once, cheapest entry first, entries
/// of equal price in the order in which they stand in `s`.
pub open spec fn is_price_order(s: Seq<(Seq<char>, u32)>, order: Seq<int>) -> bool {
    &&& order.len() == s.len()
    &&& forall|r: int| 0 <= r < order.len() ==> 0 <= #[trigger] order[r] < s.len()
    &&& forall|a: int, b: int|
        0 <= a < b < order.len() ==> comes_before(s, #[trigger] order[a], #[trigger] order[b])
    &&& forall|i: int| 0 <= i < s.len() ==> #[trigger] order.contains(i)
}

/// The entries of `s` at the positions that `order` lists.
pub open spec fn arranged(s: Seq<(Seq<char>, u32)>, order: Seq<int>) -> Seq<(Seq<char>, u32)> {
    Seq::new(order.len(), |r: int| s[order[r]])
}

/// The positions of `s` in ascending order of price.
pub open spec fn price_order(s: Seq<(Seq<char>, u32)>) -> Seq<int> {
    choose|order: Seq<int>| is_price_order(s, order)
}

/// The entries of `s` in ascending order of price, entries of equal price
/// in the order in which they stand in `s`.
pub open spec fn sorted_by_price(s: Seq<(Seq<char>, u32)>) -> Seq<(Seq<char>, u32)> {
    arranged(s, price_order(s))
}

/// Where an entry of price `x` goes among the entries listed by `order`:
/// behind the last one that is not dearer.
pub open spec fn slot_for(s: Seq<(Seq<char>, u32)>, order: Seq<int>, x: u32) -> int
    decreases order.len(),
{
    if order.len() == 0 {
        0
    } else if s[order.last()].1 <= x {
        order.len() as int
    } else {
        slot_for(s, order.drop_last(), x)
    }
}

/// `slot_for` splits an ascending list into the entries up to price `x` and
/// the dearer ones.
pub proof fn lemma_slot_for(s: Seq<(Seq<char>, u32)>, order: Seq<int>, x: u32)
    requires
        forall|a: int, b: int|
            0 <= a < b < order.len() ==> s[#[trigger] order[a]].1 <= s[#[trigger] order[b]].1,
    ensures
        0 <= slot_for(s, order, x) <= order.len(),
        forall|r: int| 0 <= r < slot_for(s, order, x) ==> s[#[trigger] order[r]].1 <= x,
        forall|r: int| slot_for(s, order, x) <= r < order.len() ==> s[#[trigger] order[r]].1 > x,
    decreases order.len(),
{
    if order.len() == 0 {
    } else if s[order.last()].1 <= x {
        assert forall|r: int| 0 <= r < order.len() implies s[#[trigger] order[r]].1 <= x by {
            if r < order.len() - 1 {
                assert(s[order[r]].1 <= s[order[order.len() - 1]].1);
            }
        }
    } else {
        let front = order.drop_last();
        assert forall|a: int, b: int| 0 <= a < b < front.len() implies s[#[trigger] front[a]].1
            <= s[#[trigger] front[b]].1 by {
            assert(front[a] == order[a] && front[b] == order[b]);
        }
        lemma_slot_for(s, front, x);
        let p = slot_for(s, front, x);
        assert forall|r: int| 0 <= r < p implies s[#[trigger] order[r]].1 <= x by {
            assert(order[r] == front[r]);
        }
        assert forall|r: int| p <= r < order.len() implies s[#[trigger] order[r]].1 > x by {
            if r < front.len() {
                assert(order[r] == front[r]);
            }
        }
    }
}

/// An order of all entries but the last becomes an order of all entries
/// when the last position is put behind the entries that are not dearer.
pub proof fn lemma_order_extends(s: Seq<(Seq<char>, u32)>, order: Seq<int>, p: int)
    requires
        s.len() > 0,
        is_price_order(s.drop_last(), order),
        0 <= p <= order.len(),
        forall|r: int| 0 <= r < p ==> s[#[trigger] order[r]].1 <= s.last().1,
        forall|r: int| p <= r < order.len() ==> s[#[trigger] order[r]].1 > s.last().1,
    ensures
        is_price_order(s, order.insert(p, s.len() - 1)),
{
    let n = s.len() as int;
    let front = s.drop_last();
    let next = order.insert(p, n - 1);
    assert forall|r: int| 0 <= r < next.len() implies 0 <= #[trigger] next[r] < s.len() by {
        if r < p {
            assert(next[r] == order[r]);
        } else if r > p {
            assert(next[r] == order[r - 1]);
        }
    }
    assert forall|a: int, b: int| 0 <= a < b < next.len() implies comes_before(
        s,
        #[trigger] next[a],
        #[trigger] next[b],
    ) by {
        let ia = if a < p {
            a
        } else {
            a - 1
        };
        let ib = if b < p {
            b
        } else {
            b - 1
        };
        if a != p && b != p {
            assert(next[a] == order[ia] && next[b] == order[ib]);
            assert(comes_before(front, order[ia], order[ib]));
            assert(front[order[ia]] == s[order[ia]] && front[order[ib]] == s[order[ib]]);
        } else if a == p {
            assert(next[b] == order[ib]);
            assert(s[order[ib]].1 > s.last().1);
        } else {
            assert(next[a] == order[ia]);
            assert(s[order[ia]].1 <= s.last().1);
            assert(order[ia] < n - 1);
        }
    }
    assert forall|i: int| 0 <= i < s.len() implies #[trigger] next.contains(i) by {
        if i == n - 1 {
            assert(next[p] == i);
        } else {
            assert(order.contains(i));
            let r = choose|r: int| 0 <= r < order.len() && order[r] == i;
            if r < p {
                assert(next[r] == i);
            } else {
                assert(next[r + 1] == i);
            }
        }
    }
}

/// Two price orders of one sequence agree up to position `r`.
proof fn lemma_orders_agree(s: Seq<(Seq<char>, u32)>, o1: Seq<int>, o2: Seq<int>, r: int)
    requires
        is_price_order(s, o1),
        is_price_order(s, o2),
        0 <= r < s.len(),
    ensures
        forall|q: int| 0 <= q <= r ==> o1[q] == o2[q],
    decreases r,
{
    if r > 0 {
        lemma_orders_agree(s, o1, o2, r - 1);
    }
    let i = o1[r];
    let j = o2[r];
    assert(o2.contains(i));
    let qi = choose|q: int| 0 <= q < o2.len() && o2[q] == i;
    assert(o1.contains(j));
    let qj = choose|q: int| 0 <= q < o1.len() && o1[q] == j;
    if qi < r {
        assert(o1[qi] == o2[qi]);
        assert(comes_before(s, o1[qi], o1[r]));
    }
    if qj < r {
        assert(o1[qj] == o2[qj]);
        assert(comes_before(s, o2[qj], o2[r]));
    }
    if qi > r && qj > r {
        assert(comes_before(s, o2[r], o2[qi]));
        assert(comes_before(s, o1[r], o1[qj]));
    }
}

/// A sequence has one price order at most.
pub proof fn lemma_price_order_unique(s: Seq<(Seq<char>, u32)>, o1: Seq<int>, o2: Seq<int>)
    requires
        is_price_order(s, o1),
        is_price_order(s, o2),
    ensures
        o1 == o2,
{
    if s.len() > 0 {
        lemma_orders_agree(s, o1, o2, s.len() - 1);
    }
    assert(o1 =~= o2);
}

/// Every sequence has a price order, so `price_order` is one.
pub proof fn lemma_price_order_exists(s: Seq<(Seq<char>, u32)>)
    ensures
        is_price_order(s, price_order(s)),
    decreases s.len(),
{
    if s.len() == 0 {
        assert(is_price_order(s, Seq::<int>::empty()));
    } else {
        let front = s.drop_last();
        lemma_price_order_exists(front);
        let order = price_order(front);
        assert forall|a: int, b: int| 0 <= a < b < order.len() implies s[#[trigger] order[a]].1
            <= s[#[trigger] order[b]].1 by {
            assert(comes_before(front, order[a], order[b]));
        }
        lemma_slot_for(s, order, s.last().1);
        lemma_order_extends(s, order, slot_for(s, order, s.last().1));
    }
}

/// Sorting keeps every entry and puts the prices in ascending order.
pub proof fn lemma_sorted_by_price(s: Seq<(Seq<char>, u32)>)
    ensures
        sorted_by_price(s).len() == s.len(),
        forall|a: int, b: int|
            0 <= a < b < s.len() ==> (#[trigger] sorted_by_price(s)[a]).1 <= (
            #[trigger] sorted_by_price(s)[b]).1,
        forall|i: int| 0 <= i < s.len() ==> sorted_by_price(s).contains(#[trigger] s[i]),
        forall|r: int| 0 <= r < s.len() ==> s.contains(#[trigger] sorted_by_price(s)[r]),
{
    lemma_price_order_exists(s);
    let order = price_order(s);
    let sorted = sorted_by_price(s);
    assert forall|a: int, b: int| 0 <= a < b < s.len() implies (#[trigger] sorted[a]).1 <= (
    #[trigger] sorted[b]).1 by {
        assert(comes_before(s, order[a], order[b]));
    }
    assert forall|i: int| 0 <= i < s.len() implies sorted.contains(#[trigger] s[i]) by {
        assert(order.contains(i));
        let r = choose|r: int| 0 <= r < order.len() && order[r] == i;
        assert(sorted[r] == s[i]);
    }
    assert forall|r: int| 0 <= r < s.len() implies s.contains(#[trigger] sorted[r]) by {
        assert(s[order[r]] == sorted[r]);
    }
}

/// Sorting entries of distinct names leaves the names distinct.
pub proof fn lemma_sorted_names_distinct(s: Seq<(Seq<char>, u32)>)
    requires
        distinct_names(s),
    ensures
        distinct_names(sorted_by_price(s)),
{
    lemma_price_order_exists(s);
    let order = price_order(s);
    let sorted = sorted_by_price(s);
    assert forall|a: int, b: int| 0 <= a < b < sorted.len() implies (#[trigger] sorted[a]).0 != (
    #[trigger] sorted[b]).0 by {
        assert(comes_before(s, order[a], order[b]));
        if order[a] < order[b] {
            assert(s[order[a]].0 != s[order[b]].0);
        } else {
            assert(s[order[b]].0 != s[order[a]].0);
        }
    }
}

/// The entries of `v` in ascending order of price; entries of equal price
/// keep the order in which they stand in `v`.
pub fn sort_by_price(v: &Vec<(String, u32)>) -> (out: Vec<(String, u32)>)
    ensures
        out.deep_view() == sorted_by_price(v.deep_view()),
{
    let ghost s = v.deep_view();
    let ghost mut order: Seq<int> = Seq::empty();
    let mut out: Vec<(String, u32)> = Vec::new();
    let mut i: usize = 0;
    proof {
        assert(is_price_order(s.take(0), order));
        assert(out.deep_view() =~= arranged(s, order));
    }
    while i < v.len()
        invariant
            i <= v.len(),
            s == v.deep_view(),
            out.len() == i,
            is_price_order(s.take(i as int), order),
            out.deep_view() == arranged(s, order),
        decreases v.len() - i,
    {
        let price = v[i].1;
        let ghost before = out.deep_view();
        let mut p: usize = out.len();
        while p > 0 && out[p - 1].1 > price
            invariant
                p <= out.len(),
                out.deep_view() == before,
                forall|r: int| p <= r < out.len() ==> (#[trigger] before[r]).1 > price,
            decreases p,
        {
            p -= 1;
        }
        let name = v[i].0.clone();
        out.insert(p, (name, price));
        proof {
            let grown = s.take(i + 1);
            let next = order.insert(p as int, i as int);
            assert(grown.drop_last() =~= s.take(i as int));
            assert(grown.last() == s[i as int]);
            assert forall|r: int| 0 <= r < order.len() implies grown[order[r]] == #[trigger] before[r] by {
                assert(before[r] == s[order[r]]);
            }
            assert forall|r: int| 0 <= r < p implies grown[#[trigger] order[r]].1 <= price by {
                if r < p - 1 {
                    assert(comes_before(s.take(i as int), order[r], order[p - 1]));
                    assert(grown[order[p - 1]] == before[p - 1]);
                }
                assert(grown[order[r]] == before[r]);
            }
            assert forall|r: int| p <= r < order.len() implies grown[#[trigger] order[r]].1
                > price by {
                assert(grown[order[r]] == before[r]);
            }
            lemma_order_extends(grown, order, p as int);
            assert(out.deep_view() =~= arranged(s, next)) by {
                assert forall|r: int| 0 <= r < next.len() implies out.deep_view()[r] == arranged(
                    s,
                    next,
                )[r] by {
                    if r < p {
                        assert(next[r] == order[r]);
                        assert(before[r] == s[order[r]]);
                    } else if r > p {
                        assert(next[r] == order[r - 1]);
                        assert(before[r - 1] == s[order[r - 1]]);
                    }
                }
            }
            order = next;
        }
        i += 1;
    }
    proof {
        assert(s.take(i as int) =~= s);
        lemma_price_order_exists(s);
        lemma_price_order_unique(s, order, price_order(s));
    }
    out
}

} // verus!
