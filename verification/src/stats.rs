//! Sums and means over priced materials.

use vstd::prelude::*;
use crate::catalog::Catalog;
use crate::error::InvalidInput;
use crate::order::{
    lemma_sorted_by_price, lemma_sorted_names_distinct, sort_by_price, sorted_by_price,
};

verus! {

/// The sum of the prices of `s`.
pub open spec fn total(s: Seq<(Seq<char>, u32)>) -> int
    decreases s.len(),
{
    if s.len() == 0 {
        0
    } else {
        total(s.drop_last()) + s.last().1
    }
}

/// The arithmetic mean of the prices of `s`, rounded towards zero.
/// The mean of no prices is 0.
pub open spec fn mean_of(s: Seq<(Seq<char>, u32)>) -> int {
    if s.len() == 0 {
        0
    } else {
        total(s) / (s.len() as int)
    }
}

/// A sum of prices is at most as many times the greatest price as there are entries.
pub proof fn lemma_total_bounds(s: Seq<(Seq<char>, u32)>)
    ensures
        0 <= total(s) <= s.len() * 0xffff_ffff,
    decreases s.len(),
{
    if s.len() > 0 {
        lemma_total_bounds(s.drop_last());
    }
}

/// A mean of prices is itself a price.
pub proof fn lemma_mean_bounds(s: Seq<(Seq<char>, u32)>)
    ensures
        0 <= mean_of(s) <= 0xffff_ffff,
{
    if s.len() > 0 {
        lemma_total_bounds(s);
        let t = total(s);
        let n = s.len() as int;
        assert(0 <= t / n <= 0xffff_ffff) by (nonlinear_arith)
            requires
                n > 0,
                0 <= t <= n * 0xffff_ffff,
        ;
    }
}

/// The sum of the prices of `a`; 0 where `a` is empty.
pub fn sum(a: &Vec<(String, u32)>) -> (r: u128)
    ensures
        r == total(a.deep_view()),
{
    let ghost s = a.deep_view();
    let mut acc: u128 = 0;
    let mut i: usize = 0;
    while i < a.len()
        invariant
            i <= a.len(),
            s == a.deep_view(),
            acc == total(s.take(i as int)),
        decreases a.len() - i,
    {
        proof {
            assert(s.take(i + 1).drop_last() =~= s.take(i as int));
            lemma_total_bounds(s.take(i + 1));
        }
        acc = acc + a[i].1 as u128;
        i += 1;
    }
    proof {
        assert(s.take(i as int) =~= s);
    }
    acc
}

/// The arithmetic mean of the prices of `a`, rounded towards zero; 0 where `a` is empty.
pub fn average(a: &Vec<(String, u32)>) -> (r: u32)
    ensures
        r == mean_of(a.deep_view()),
{
    let n = a.len();
    if n == 0 {
        return 0;
    }
    let t = sum(a);
    proof {
        lemma_mean_bounds(a.deep_view());
    }
    (t / n as u128) as u32
}

/// The `k` cheapest entries of `catalog`, cheapest first; among entries of
/// equal price, those that stand earlier in the catalog come first.
///
/// Asking for more entries than the catalog holds is turned down with
/// `CatalogTooSmall`.
pub fn k_smallest(catalog: &Catalog, k: usize) -> (r: Result<Catalog, InvalidInput>)
    ensures
        k > catalog@.len() ==> r == Err::<Catalog, InvalidInput>(InvalidInput::CatalogTooSmall),
        k <= catalog@.len() ==> (r matches Ok(c) && c@ == sorted_by_price(catalog@).take(
            k as int,
        )),
{
    let entries = catalog.entries();
    if k > entries.len() {
        return Err(InvalidInput::CatalogTooSmall);
    }
    let mut sorted = sort_by_price(entries);
    let ghost all = sorted.deep_view();
    proof {
        lemma_sorted_by_price(catalog@);
    }
    sorted.truncate(k);
    proof {
        lemma_sorted_names_distinct(catalog@);
        assert(sorted.deep_view() =~= all.take(k as int));
    }
    Ok(Catalog::from_distinct(sorted))
}

/// The five cheapest entries of `mats`, as `k_smallest` gives them.
pub fn smallest_five(mats: &Catalog) -> (r: Result<Catalog, InvalidInput>)
    ensures
        mats@.len() < 5 ==> r == Err::<Catalog, InvalidInput>(InvalidInput::CatalogTooSmall),
        mats@.len() >= 5 ==> (r matches Ok(c) && c@ == sorted_by_price(mats@).take(5)),
{
    k_smallest(mats, 5)
}

/// Five entries to hand in, taken from the front of `input`: its first five
/// entries, or all of them followed by as many copies of the first as are
/// missing. Nothing can be taken from an empty `input`.
pub open spec fn filled_to_five(s: Seq<(Seq<char>, u32)>) -> Seq<(Seq<char>, u32)> {
    if s.len() == 0 {
        s
    } else {
        Seq::new(
            5,
            |i: int|
                if i < s.len() {
                    s[i]
                } else {
                    s[0]
                },
        )
    }
}

/// Five entries to hand in, taken from the front of `input`.
pub fn fill_transmute_vec(input: &Vec<(String, u32)>) -> (to_trans: Vec<(String, u32)>)
    ensures
        to_trans.deep_view() == filled_to_five(input.deep_view()),
{
    let ghost s = input.deep_view();
    let mut to_trans: Vec<(String, u32)> = Vec::with_capacity(5);
    if input.len() > 0 {
        let mut i: usize = 0;
        while i < 5
            invariant
                i <= 5,
                input.len() > 0,
                s == input.deep_view(),
                to_trans.deep_view() == filled_to_five(s).take(i as int),
            decreases 5 - i,
        {
            let ghost before = to_trans.deep_view();
            let from = if i < input.len() {
                i
            } else {
                0
            };
            to_trans.push((input[from].0.clone(), input[from].1));
            proof {
                assert(to_trans.deep_view() =~= before.push(s[from as int]));
                assert(before.push(s[from as int]) =~= filled_to_five(s).take(i + 1));
            }
            i += 1;
        }
        proof {
            assert(filled_to_five(s).take(5) =~= filled_to_five(s));
        }
    } else {
        assert(to_trans.deep_view() =~= s);
    }
    to_trans
}

/// The entries of `s` priced at `threshold` or above, in their order.
pub open spec fn at_or_above(s: Seq<(Seq<char>, u32)>, threshold: int) -> Seq<(Seq<char>, u32)> {
    s.filter(|e: (Seq<char>, u32)| e.1 >= threshold)
}

/// The entries of `s` priced below `threshold`, in their order.
pub open spec fn below(s: Seq<(Seq<char>, u32)>, threshold: int) -> Seq<(Seq<char>, u32)> {
    s.filter(|e: (Seq<char>, u32)| e.1 < threshold)
}

/// Splits `pairs` at a price: first the entries at `threshold` or above,
/// second those below it, each part in the order of `pairs`.
pub fn partition_by_threshold(pairs: &Vec<(String, u32)>, threshold: u32) -> (parts: (
    Vec<(String, u32)>,
    Vec<(String, u32)>,
))
    ensures
        parts.0.deep_view() == at_or_above(pairs.deep_view(), threshold as int),
        parts.1.deep_view() == below(pairs.deep_view(), threshold as int),
{
    let ghost s = pairs.deep_view();
    let ghost high = |e: (Seq<char>, u32)| e.1 >= threshold;
    let ghost low = |e: (Seq<char>, u32)| e.1 < threshold;
    let mut upper: Vec<(String, u32)> = Vec::new();
    let mut lower: Vec<(String, u32)> = Vec::new();
    let mut i: usize = 0;
    proof {
        reveal(Seq::filter);
        assert(upper.deep_view() =~= s.take(0).filter(high));
        assert(lower.deep_view() =~= s.take(0).filter(low));
    }
    while i < pairs.len()
        invariant
            i <= pairs.len(),
            s == pairs.deep_view(),
            high == |e: (Seq<char>, u32)| e.1 >= threshold,
            low == |e: (Seq<char>, u32)| e.1 < threshold,
            upper.deep_view() == s.take(i as int).filter(high),
            lower.deep_view() == s.take(i as int).filter(low),
        decreases pairs.len() - i,
    {
        let ghost upper_before = upper.deep_view();
        let ghost lower_before = lower.deep_view();
        let entry = (pairs[i].0.clone(), pairs[i].1);
        if entry.1 >= threshold {
            upper.push(entry);
        } else {
            lower.push(entry);
        }
        proof {
            reveal(Seq::filter);
            assert(s.take(i + 1).drop_last() =~= s.take(i as int));
            assert(s.take(i + 1).last() == s[i as int]);
            if s[i as int].1 >= threshold {
                assert(upper.deep_view() =~= upper_before.push(s[i as int]));
                assert(lower.deep_view() =~= lower_before);
            } else {
                assert(upper.deep_view() =~= upper_before);
                assert(lower.deep_view() =~= lower_before.push(s[i as int]));
            }
        }
        i += 1;
    }
    proof {
        assert(s.take(i as int) =~= s);
    }
    (upper, lower)
}

} // verus!
