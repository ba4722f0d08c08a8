//! The outcome of handing five materials in for a conversion.

use vstd::prelude::*;
use vstd::seq_lib::{to_multiset_contains, to_multiset_len, to_multiset_remove};
use crate::catalog::{Catalog, all_known, distinct_names, has_name, price_of};
use crate::error::InvalidInput;
use crate::stats::{lemma_mean_bounds, lemma_total_bounds, mean_of, total};

verus! {

/// The prices of the names of `sel`, added up; a name counts as often as it occurs.
pub open spec fn cost_of(cat: Seq<(Seq<char>, u32)>, sel: Seq<Seq<char>>) -> int
    decreases sel.len(),
{
    if sel.len() == 0 {
        0
    } else {
        cost_of(cat, sel.drop_last()) + price_of(cat, sel.last())
    }
}

/// The entries of `cat` that `sel` does not name, in catalog order.
pub open spec fn others(cat: Seq<(Seq<char>, u32)>, sel: Seq<Seq<char>>) -> Seq<(Seq<char>, u32)> {
    cat.filter(|e: (Seq<char>, u32)| !sel.contains(e.0))
}

/// What a conversion of `sel` yields on average: the mean price of the
/// entries that were not handed in, 0 where none is left.
pub open spec fn expected_output(cat: Seq<(Seq<char>, u32)>, sel: Seq<Seq<char>>) -> int {
    mean_of(others(cat, sel))
}

/// Expected output less input cost.
pub open spec fn profit_of(cat: Seq<(Seq<char>, u32)>, sel: Seq<Seq<char>>) -> int {
    expected_output(cat, sel) - cost_of(cat, sel)
}

/// A selection costs at most as many times the greatest price as it has names.
pub proof fn lemma_cost_bounds(cat: Seq<(Seq<char>, u32)>, sel: Seq<Seq<char>>)
    ensures
        0 <= cost_of(cat, sel) <= sel.len() * 0xffff_ffff,
    decreases sel.len(),
{
    if sel.len() > 0 {
        lemma_cost_bounds(cat, sel.drop_last());
    }
}

/// The cost of five names is the sum of their five prices.
pub proof fn lemma_cost_of_five(cat: Seq<(Seq<char>, u32)>, sel: Seq<Seq<char>>)
    requires
        sel.len() == 5,
    ensures
        cost_of(cat, sel) == price_of(cat, sel[0]) + price_of(cat, sel[1]) + price_of(cat, sel[2])
            + price_of(cat, sel[3]) + price_of(cat, sel[4]),
{
    reveal_with_fuel(cost_of, 6);
    let s4 = sel.drop_last();
    let s3 = s4.drop_last();
    let s2 = s3.drop_last();
    let s1 = s2.drop_last();
    assert(s4.last() == sel[3] && s3.last() == sel[2] && s2.last() == sel[1] && s1.last()
        == sel[0]);
}

/// The entries of `cat` that `sel` names, in catalog order.
pub open spec fn chosen(cat: Seq<(Seq<char>, u32)>, sel: Seq<Seq<char>>) -> Seq<(Seq<char>, u32)> {
    cat.filter(|e: (Seq<char>, u32)| sel.contains(e.0))
}

/// The names of `s`, in order.
pub open spec fn names_of(s: Seq<(Seq<char>, u32)>) -> Seq<Seq<char>> {
    Seq::new(s.len(), |i: int| s[i].0)
}

/// A sum of prices grows by the price of an entry that is appended.
proof fn lemma_total_push(s: Seq<(Seq<char>, u32)>, e: (Seq<char>, u32))
    ensures
        total(s.push(e)) == total(s) + e.1,
{
    assert(s.push(e).drop_last() =~= s);
}

/// A filter leaves distinct names distinct.
proof fn lemma_filter_keeps_distinct(
    s: Seq<(Seq<char>, u32)>,
    p: spec_fn((Seq<char>, u32)) -> bool,
)
    requires
        distinct_names(s),
    ensures
        distinct_names(s.filter(p)),
    decreases s.len(),
{
    reveal(Seq::filter);
    if s.len() > 0 {
        let front = s.drop_last();
        assert forall|i: int, j: int| 0 <= i < j < front.len() implies (#[trigger] front[i]).0 != (
        #[trigger] front[j]).0 by {
            assert(front[i] == s[i] && front[j] == s[j]);
        }
        lemma_filter_keeps_distinct(front, p);
        let kept = front.filter(p);
        if p(s.last()) {
            let all = kept.push(s.last());
            assert forall|i: int, j: int| 0 <= i < j < all.len() implies (#[trigger] all[i]).0 != (
            #[trigger] all[j]).0 by {
                if j == kept.len() {
                    assert(kept.contains(kept[i]));
                    front.lemma_filter_contains_rev(p, kept[i]);
                    let k = choose|k: int| 0 <= k < front.len() && front[k] == kept[i];
                    assert(s[k].0 != s[s.len() - 1].0);
                } else {
                    assert(all[i] == kept[i] && all[j] == kept[j]);
                }
            }
        }
    }
}

/// Every entry of a catalog is either named by a selection or left over.
proof fn lemma_chosen_and_others(cat: Seq<(Seq<char>, u32)>, sel: Seq<Seq<char>>)
    ensures
        chosen(cat, sel).len() + others(cat, sel).len() == cat.len(),
        total(chosen(cat, sel)) + total(others(cat, sel)) == total(cat),
    decreases cat.len(),
{
    reveal(Seq::filter);
    if cat.len() > 0 {
        let front = cat.drop_last();
        lemma_chosen_and_others(front, sel);
        if sel.contains(cat.last().0) {
            lemma_total_push(chosen(front, sel), cat.last());
        } else {
            lemma_total_push(others(front, sel), cat.last());
        }
    }
}

/// The entries that a selection names carry each of its names once.
proof fn lemma_chosen_names(cat: Seq<(Seq<char>, u32)>, sel: Seq<Seq<char>>)
    requires
        distinct_names(cat),
        all_known(cat, sel),
    ensures
        names_of(chosen(cat, sel)).no_duplicates(),
        names_of(chosen(cat, sel)).to_set() == sel.to_set(),
{
    let named = |e: (Seq<char>, u32)| sel.contains(e.0);
    let picked = chosen(cat, sel);
    let names = names_of(picked);
    lemma_filter_keeps_distinct(cat, named);
    assert forall|i: int, j: int| 0 <= i < names.len() && 0 <= j < names.len() && i != j implies names[i]
        != names[j] by {
        if i < j {
            assert(picked[i].0 != picked[j].0);
        } else {
            assert(picked[j].0 != picked[i].0);
        }
    }
    assert forall|name: Seq<char>| names.to_set().contains(name) == sel.to_set().contains(
        name,
    ) by {
        if names.contains(name) {
            let i = choose|i: int| 0 <= i < names.len() && names[i] == name;
            cat.lemma_filter_pred(named, i);
            assert(sel.contains(picked[i].0));
        }
        if sel.contains(name) {
            let k = choose|k: int| 0 <= k < sel.len() && sel[k] == name;
            assert(has_name(cat, sel[k]));
            let i = choose|i: int| 0 <= i < cat.len() && (#[trigger] cat[i]).0 == name;
            cat.lemma_filter_contains(named, i);
            let j = choose|j: int| 0 <= j < picked.len() && picked[j] == cat[i];
            assert(names[j] == name);
        }
    }
    assert(names.to_set() =~= sel.to_set());
}

/// Every material that a selection names is left out of the others once,
/// however often the selection names it: of a catalog of distinct names,
/// as many entries are left out as the selection has different names, and
/// the others are what remains, in number and in summed price.
pub proof fn lemma_others_leave_each_name_out_once(
    cat: Seq<(Seq<char>, u32)>,
    sel: Seq<Seq<char>>,
)
    requires
        distinct_names(cat),
        all_known(cat, sel),
    ensures
        chosen(cat, sel).len() == sel.to_set().len(),
        others(cat, sel).len() == cat.len() - sel.to_set().len(),
        total(others(cat, sel)) == total(cat) - total(chosen(cat, sel)),
        forall|i: int|
            0 <= i < cat.len() && !sel.contains(cat[i].0) ==> others(cat, sel).contains(
                #[trigger] cat[i],
            ),
        forall|j: int|
            0 <= j < others(cat, sel).len() ==> !sel.contains((#[trigger] others(cat, sel)[j]).0),
{
    lemma_chosen_and_others(cat, sel);
    lemma_chosen_names(cat, sel);
    names_of(chosen(cat, sel)).unique_seq_to_set();
    let unnamed = |e: (Seq<char>, u32)| !sel.contains(e.0);
    assert forall|i: int| 0 <= i < cat.len() && !sel.contains(cat[i].0) implies others(
        cat,
        sel,
    ).contains(#[trigger] cat[i]) by {
        cat.lemma_filter_contains(unnamed, i);
    }
    assert forall|j: int| 0 <= j < others(cat, sel).len() implies !sel.contains(
        (#[trigger] others(cat, sel)[j]).0,
    ) by {
        cat.lemma_filter_pred(unnamed, j);
    }
}

/// Selections that name the same materials leave the same others, and so
/// the same expected output, however often each name is repeated.
pub proof fn lemma_others_ignore_repetition(
    cat: Seq<(Seq<char>, u32)>,
    sel1: Seq<Seq<char>>,
    sel2: Seq<Seq<char>>,
)
    requires
        sel1.to_set() == sel2.to_set(),
    ensures
        others(cat, sel1) == others(cat, sel2),
        expected_output(cat, sel1) == expected_output(cat, sel2),
    decreases cat.len(),
{
    reveal(Seq::filter);
    if cat.len() > 0 {
        lemma_others_ignore_repetition(cat.drop_last(), sel1, sel2);
        let name = cat.last().0;
        assert(sel1.contains(name) == sel1.to_set().contains(name));
        assert(sel2.contains(name) == sel2.to_set().contains(name));
    }
}

/// Taking a name out of a selection lowers the cost by the price of that name.
proof fn lemma_cost_remove(cat: Seq<(Seq<char>, u32)>, sel: Seq<Seq<char>>, j: int)
    requires
        0 <= j < sel.len(),
    ensures
        cost_of(cat, sel) == cost_of(cat, sel.remove(j)) + price_of(cat, sel[j]),
    decreases sel.len(),
{
    if j == sel.len() - 1 {
        assert(sel.remove(j) =~= sel.drop_last());
    } else {
        lemma_cost_remove(cat, sel.drop_last(), j);
        assert(sel.remove(j).drop_last() =~= sel.drop_last().remove(j));
        assert(sel.remove(j).last() == sel.last());
    }
}

/// Selections that hold the same names equally often cost the same.
proof fn lemma_cost_ignores_order(
    cat: Seq<(Seq<char>, u32)>,
    sel1: Seq<Seq<char>>,
    sel2: Seq<Seq<char>>,
)
    requires
        sel1.to_multiset() == sel2.to_multiset(),
    ensures
        cost_of(cat, sel1) == cost_of(cat, sel2),
    decreases sel1.len(),
{
    to_multiset_len(sel1);
    to_multiset_len(sel2);
    if sel1.len() > 0 {
        let last = sel1.len() - 1;
        let name = sel1[last];
        assert(sel1.contains(name));
        to_multiset_contains(sel1, name);
        to_multiset_contains(sel2, name);
        let j = choose|j: int| 0 <= j < sel2.len() && sel2[j] == name;
        to_multiset_remove(sel1, last);
        to_multiset_remove(sel2, j);
        assert(sel1.remove(last) =~= sel1.drop_last());
        lemma_cost_ignores_order(cat, sel1.drop_last(), sel2.remove(j));
        lemma_cost_remove(cat, sel2, j);
    }
}

/// The order of the names in a selection does not matter: selections that
/// hold the same names equally often cost the same, leave the same others
/// and so bring the same profit.
pub proof fn lemma_evaluation_ignores_order(
    cat: Seq<(Seq<char>, u32)>,
    sel1: Seq<Seq<char>>,
    sel2: Seq<Seq<char>>,
)
    requires
        sel1.to_multiset() == sel2.to_multiset(),
    ensures
        cost_of(cat, sel1) == cost_of(cat, sel2),
        others(cat, sel1) == others(cat, sel2),
        expected_output(cat, sel1) == expected_output(cat, sel2),
        profit_of(cat, sel1) == profit_of(cat, sel2),
{
    lemma_cost_ignores_order(cat, sel1, sel2);
    assert forall|name: Seq<char>| sel1.to_set().contains(name) == sel2.to_set().contains(
        name,
    ) by {
        to_multiset_contains(sel1, name);
        to_multiset_contains(sel2, name);
    }
    assert(sel1.to_set() =~= sel2.to_set());
    lemma_others_ignore_repetition(cat, sel1, sel2);
}

/// Input cost and expected output of one conversion.
#[derive(Clone, Copy, Debug)]
pub struct TransmuteResult {
    input_sum: u64,
    others_average: u32,
}

impl TransmuteResult {
    #[verifier::type_invariant]
    spec fn cost_is_of_five(&self) -> bool {
        self.input_sum <= 5 * 0xffff_ffff
    }

    /// The summed price of the five materials handed in.
    pub closed spec fn spec_input_sum(&self) -> u64 {
        self.input_sum
    }

    /// The mean price of the materials not handed in.
    pub closed spec fn spec_others_average(&self) -> u32 {
        self.others_average
    }

    /// The summed price of the five materials handed in.
    #[verifier::when_used_as_spec(spec_input_sum)]
    pub fn input_sum(&self) -> (r: u64)
        ensures
            r == self.spec_input_sum(),
            r <= 5 * 0xffff_ffff,
    {
        proof {
            use_type_invariant(self);
        }
        self.input_sum
    }

    /// The mean price of the materials not handed in.
    #[verifier::when_used_as_spec(spec_others_average)]
    pub fn others_average(&self) -> (r: u32)
        ensures
            r == self.spec_others_average(),
    {
        self.others_average
    }

    /// Expected output less input cost.
    pub fn profit(&self) -> (p: i64)
        ensures
            p == self.others_average() - self.input_sum(),
    {
        proof {
            use_type_invariant(self);
        }
        self.others_average as i64 - self.input_sum as i64
    }
}

/// Whether `name` occurs among `names`.
fn names_contain(names: &Vec<String>, name: &String) -> (b: bool)
    ensures
        b == names.deep_view().contains(name@),
{
    let ghost sel = names.deep_view();
    let mut k: usize = 0;
    while k < names.len()
        invariant
            k <= names.len(),
            sel == names.deep_view(),
            forall|j: int| 0 <= j < k ==> sel[j] != name@,
        decreases names.len() - k,
    {
        if names[k] == *name {
            assert(sel[k as int] == name@);
            return true;
        }
        k += 1;
    }
    false
}

/// The mean price, rounded towards zero, of the entries of `materia` that
/// `names` does not name; 0 where every entry is named.
pub fn others_average(materia: &Catalog, names: &Vec<String>) -> (r: u32)
    ensures
        r == expected_output(materia@, names.deep_view()),
{
    let ghost cat = materia@;
    let ghost sel = names.deep_view();
    let entries = materia.entries();
    let ghost unnamed = |e: (Seq<char>, u32)| !sel.contains(e.0);
    let mut rest_total: u128 = 0;
    let mut rest_count: usize = 0;
    let mut i: usize = 0;
    while i < entries.len()
        invariant
            i <= entries.len(),
            entries.deep_view() == cat,
            sel == names.deep_view(),
            unnamed == |e: (Seq<char>, u32)| !sel.contains(e.0),
            rest_count == cat.take(i as int).filter(unnamed).len(),
            rest_count <= i,
            rest_total == total(cat.take(i as int).filter(unnamed)),
        decreases entries.len() - i,
    {
        proof {
            reveal(Seq::filter);
            assert(cat.take(i + 1).drop_last() =~= cat.take(i as int));
            assert(cat.take(i + 1).last() == (entries[i as int].0@, entries[i as int].1));
            let kept = cat.take(i as int).filter(unnamed);
            assert(kept.push(cat[i as int]).drop_last() =~= kept);
            lemma_total_bounds(kept.push(cat[i as int]));
        }
        if !names_contain(names, &entries[i].0) {
            rest_total = rest_total + entries[i].1 as u128;
            rest_count = rest_count + 1;
        }
        i += 1;
    }
    proof {
        assert(cat.take(i as int) =~= cat);
        lemma_mean_bounds(others(cat, sel));
    }
    if rest_count == 0 {
        0
    } else {
        (rest_total / rest_count as u128) as u32
    }
}

/// Evaluates the conversion of the five materials named in `trans`.
///
/// The input cost adds up the prices of the five names, a repeated name
/// counting each time. The expected output is the mean price, rounded
/// towards zero, of the entries that `trans` does not name; where every
/// entry is named, it is 0.
///
/// A selection of another size than five is turned down with
/// `SelectionSize`, one of five names with a name that `materia` does not
/// list with `UnknownMaterial`.
pub fn operate_specific_materia(materia: &Catalog, trans: Vec<String>) -> (r: Result<
    TransmuteResult,
    InvalidInput,
>)
    ensures
        trans.deep_view().len() != 5 ==> r == Err::<TransmuteResult, InvalidInput>(
            InvalidInput::SelectionSize,
        ),
        trans.deep_view().len() == 5 && !all_known(materia@, trans.deep_view()) ==> r == Err::<
            TransmuteResult,
            InvalidInput,
        >(InvalidInput::UnknownMaterial),
        trans.deep_view().len() == 5 && all_known(materia@, trans.deep_view()) ==> (r matches Ok(
            res,
        ) && res.input_sum() == cost_of(materia@, trans.deep_view()) && res.others_average()
            == expected_output(materia@, trans.deep_view())),
{
    let ghost cat = materia@;
    let ghost sel = trans.deep_view();
    if trans.len() != 5 {
        return Err(InvalidInput::SelectionSize);
    }
    let mut cost: u64 = 0;
    let mut k: usize = 0;
    while k < 5
        invariant
            k <= 5,
            trans.len() == 5,
            cat == materia@,
            sel == trans.deep_view(),
            all_known(cat, sel.take(k as int)),
            cost == cost_of(cat, sel.take(k as int)),
        decreases 5 - k,
    {
        proof {
            assert(sel.take(k + 1).drop_last() =~= sel.take(k as int));
            lemma_cost_bounds(cat, sel.take(k + 1));
        }
        match materia.get(&trans[k]) {
            Some(p) => {
                cost = cost + p as u64;
                proof {
                    assert forall|j: int| 0 <= j < k + 1 implies has_name(
                        cat,
                        #[trigger] sel.take(k + 1)[j],
                    ) by {
                        if j < k {
                            assert(sel.take(k + 1)[j] == sel.take(k as int)[j]);
                        }
                    }
                }
            },
            None => {
                assert(!has_name(cat, sel[k as int]));
                return Err(InvalidInput::UnknownMaterial);
            },
        }
        k += 1;
    }
    proof {
        assert(sel.take(5) =~= sel);
        lemma_cost_bounds(cat, sel);
    }
    let others_average = others_average(materia, &trans);
    Ok(TransmuteResult { input_sum: cost, others_average })
}

} // verus!
