//! The most profitable selection of a catalog.

use vstd::prelude::*;
use crate::catalog::Catalog;
use crate::combos::{Cursor, TransmuteSet, lemma_selection_known, pow5, selection_at};
use crate::transmute::{
    TransmuteResult,
    cost_of,
    expected_output,
    operate_specific_materia,
    profit_of,
};

verus! {

/// The profit of selection number `t` of `cat`.
pub open spec fn profit_at(cat: Seq<(Seq<char>, u32)>, t: int) -> int {
    profit_of(cat, selection_at(cat, t))
}

/// No selection of `cat` is more profitable than number `t`, and every
/// selection before it is less profitable.
pub open spec fn is_first_best(cat: Seq<(Seq<char>, u32)>, t: int) -> bool {
    &&& 0 <= t < pow5(cat.len() as int)
    &&& forall|u: int|
        0 <= u < pow5(cat.len() as int) ==> #[trigger] profit_at(cat, u) <= profit_at(cat, t)
    &&& forall|u: int| 0 <= u < t ==> #[trigger] profit_at(cat, u) < profit_at(cat, t)
}

/// A catalog has one first best selection at most: which of several equally
/// profitable selections is reported is decided by their order alone.
pub proof fn lemma_first_best_unique(cat: Seq<(Seq<char>, u32)>, t1: int, t2: int)
    requires
        is_first_best(cat, t1),
        is_first_best(cat, t2),
    ensures
        t1 == t2,
{
    if t1 < t2 {
        assert(profit_at(cat, t1) < profit_at(cat, t2));
        assert(profit_at(cat, t2) <= profit_at(cat, t1));
    } else if t2 < t1 {
        assert(profit_at(cat, t2) < profit_at(cat, t1));
        assert(profit_at(cat, t1) <= profit_at(cat, t2));
    }
}

/// The most profitable selection of a catalog, with what it costs and yields.
#[derive(Debug)]
pub struct BestResult {
    /// The five materials to hand in.
    pub combo: TransmuteSet,
    /// Their summed price and the mean price of the others.
    pub result: TransmuteResult,
    /// Expected output less input cost.
    pub profit: i64,
}

impl BestResult {
    /// The record describes selection number `t` of `cat`.
    pub open spec fn describes(&self, cat: Seq<(Seq<char>, u32)>, t: int) -> bool {
        &&& self.combo@ == selection_at(cat, t)
        &&& self.result.input_sum() == cost_of(cat, selection_at(cat, t))
        &&& self.result.others_average() == expected_output(cat, selection_at(cat, t))
        &&& self.profit == profit_at(cat, t)
    }

    /// Expected output per unit of input cost, in thousandths, rounded
    /// towards zero. No ratio exists where the input costs nothing.
    pub fn ratio_per_mille(&self) -> (r: Option<u64>)
        ensures
            self.result.input_sum() == 0 ==> r is None,
            self.result.input_sum() > 0 ==> r == Some(
                ((self.result.others_average() * 1000) / (self.result.input_sum() as int)) as u64,
            ),
    {
        let cost = self.result.input_sum();
        if cost == 0 {
            None
        } else {
            Some((self.result.others_average() as u64 * 1000) / cost)
        }
    }
}

/// `best` is what the search of `cat` has to report: nothing for a catalog
/// without entries, else the first best selection with its cost, its
/// expected output and its profit, which no selection exceeds.
pub open spec fn is_best_of(cat: Seq<(Seq<char>, u32)>, best: Option<BestResult>) -> bool {
    match best {
        None => cat.len() == 0,
        Some(b) => {
            &&& cat.len() > 0
            &&& exists|t: int| is_first_best(cat, t) && #[trigger] b.describes(cat, t)
            &&& forall|u: int|
                0 <= u < pow5(cat.len() as int) ==> #[trigger] profit_at(cat, u) <= b.profit
        },
    }
}

/// Searches all selections of `catalog` for the most profitable one.
///
/// An empty catalog has no selection and gives `None`. Any other catalog
/// gives the selection of greatest profit; among several of that profit,
/// the one that comes first in the order of `enumerate_combinations`.
pub fn find_best(catalog: &Catalog) -> (best: Option<BestResult>)
    ensures
        is_best_of(catalog@, best),
{
    let ghost cat = catalog@;
    let entries = catalog.entries();
    let n = entries.len();
    let mut best: Option<BestResult> = None;
    if n == 0 {
        return best;
    }
    let ghost mut best_at: int = 0;
    let mut cursor = Cursor::start(n);
    while !cursor.finished(n)
        invariant
            n == entries.len(),
            cat == catalog@,
            entries.deep_view() == cat,
            cursor.valid(n as int),
            cursor.rank(n as int) == 0 ==> best is None,
            cursor.rank(n as int) > 0 ==> (best matches Some(b) && 0 <= best_at < cursor.rank(
                n as int,
            ) && b.describes(cat, best_at)),
            forall|u: int|
                0 <= u < cursor.rank(n as int) ==> #[trigger] profit_at(cat, u) <= profit_at(
                    cat,
                    best_at,
                ),
            forall|u: int| 0 <= u < best_at ==> #[trigger] profit_at(cat, u) < profit_at(cat, best_at),
        decreases pow5(n as int) - cursor.rank(n as int),
    {
        let ghost t = cursor.rank(n as int);
        let combo = cursor.selection(entries);
        let names = combo.to_string_vec();
        proof {
            lemma_selection_known(cat, t);
        }
        let result = operate_specific_materia(catalog, names).unwrap();
        let profit = result.profit();
        let improved = match &best {
            None => true,
            Some(b) => b.profit < profit,
        };
        if improved {
            best = Some(BestResult { combo, result, profit });
            proof {
                best_at = t;
            }
        }
        cursor.advance(n);
    }
    proof {
        assert(pow5(n as int) > 0) by (nonlinear_arith)
            requires
                n > 0,
        ;
        assert(is_first_best(cat, best_at));
    }
    best
}

} // verus!
