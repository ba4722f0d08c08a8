//! What the reports on an economy are made of: the figures, without the
//! printing.

use vstd::prelude::*;
use crate::catalog::{Catalog, all_known};
use crate::error::InvalidInput;
use crate::economy::{Materia, catalogs_of};
use crate::order::{sort_by_price, sorted_by_price};
use crate::search::{BestResult, find_best, is_best_of};
use crate::stats::{
    at_or_above,
    average,
    below,
    fill_transmute_vec,
    filled_to_five,
    mean_of,
    partition_by_threshold,
    smallest_five,
    sum,
    total,
};
use crate::transmute::{
    TransmuteResult,
    cost_of,
    expected_output,
    names_of,
    operate_specific_materia,
    others_average,
};

verus! {

/// Tier `g` is the first one that lists every name of `sel`.
pub open spec fn is_working_grade(
    catalogs: Seq<Seq<(Seq<char>, u32)>>,
    sel: Seq<Seq<char>>,
    g: int,
) -> bool {
    &&& 0 <= g < catalogs.len()
    &&& all_known(catalogs[g], sel)
    &&& forall|h: int| 0 <= h < g ==> !all_known(#[trigger] catalogs[h], sel)
}

/// No tier lists every name of `sel`.
pub open spec fn no_working_grade(catalogs: Seq<Seq<(Seq<char>, u32)>>, sel: Seq<Seq<char>>) -> bool {
    forall|h: int| 0 <= h < catalogs.len() ==> !all_known(#[trigger] catalogs[h], sel)
}

/// The most profitable selection of every tier, tier by tier.
pub fn operate_all(materia: &Materia) -> (out: Vec<Option<BestResult>>)
    ensures
        out.len() == materia@.len(),
        forall|g: int| 0 <= g < out.len() ==> is_best_of(materia@[g].1, #[trigger] out[g]),
{
    let grades = materia.grades();
    let mut out: Vec<Option<BestResult>> = Vec::new();
    let mut g: usize = 0;
    while g < grades.len()
        invariant
            g <= grades.len(),
            grades@.len() == materia@.len(),
            forall|h: int| 0 <= h < grades@.len() ==> (#[trigger] grades@[h])@ == materia@[h],
            out.len() == g,
            forall|h: int| 0 <= h < g ==> is_best_of(materia@[h].1, #[trigger] out[h]),
        decreases grades.len() - g,
    {
        let best = find_best(&grades[g].materia);
        assert(grades@[g as int]@ == materia@[g as int]);
        out.push(best);
        g += 1;
    }
    out
}

/// Evaluates the conversion of the materials named in `input` in the first
/// tier that lists them all.
///
/// An `input` of another size than five is turned down with
/// `SelectionSize`, one that no tier lists in full with `UnknownMaterial`.
pub fn operate_specific(materia: &Materia, input: Vec<String>) -> (r: Result<
    TransmuteResult,
    InvalidInput,
>)
    ensures
        input.deep_view().len() != 5 ==> r == Err::<TransmuteResult, InvalidInput>(
            InvalidInput::SelectionSize,
        ),
        input.deep_view().len() == 5 && no_working_grade(catalogs_of(materia@), input.deep_view())
            ==> r == Err::<TransmuteResult, InvalidInput>(InvalidInput::UnknownMaterial),
        input.deep_view().len() == 5 && !no_working_grade(catalogs_of(materia@), input.deep_view())
            ==> (r matches Ok(res) && exists|g: int| #[trigger]
            is_working_grade(catalogs_of(materia@), input.deep_view(), g) && res.input_sum()
                == cost_of(catalogs_of(materia@)[g], input.deep_view()) && res.others_average()
                == expected_output(catalogs_of(materia@)[g], input.deep_view())),
{
    let ghost sel = input.deep_view();
    let ghost catalogs = catalogs_of(materia@);
    if input.len() != 5 {
        return Err(InvalidInput::SelectionSize);
    }
    let grades = materia.grades();
    let mut g: usize = 0;
    while g < grades.len()
        invariant
            g <= grades.len(),
            sel == input.deep_view(),
            sel.len() == 5,
            catalogs == catalogs_of(materia@),
            grades@.len() == materia@.len(),
            forall|h: int| 0 <= h < grades@.len() ==> (#[trigger] grades@[h])@ == materia@[h],
            forall|h: int| 0 <= h < g ==> !all_known(#[trigger] catalogs[h], sel),
        decreases grades.len() - g,
    {
        assert(grades@[g as int]@ == materia@[g as int]);
        assert(catalogs[g as int] == grades@[g as int].materia@);
        if grades[g].materia.contains_all(&input) {
            assert(all_known(catalogs[g as int], sel));
            assert(is_working_grade(catalogs, sel, g as int));
            return operate_specific_materia(&grades[g].materia, input);
        }
        assert(!all_known(catalogs[g as int], sel));
        g += 1;
    }
    Err(InvalidInput::UnknownMaterial)
}

/// The figures of the basic report on one tier.
#[derive(Debug)]
pub struct BasicReport {
    /// The five cheapest materials, cheapest first.
    pub cheapest: Catalog,
    /// What the five cheapest materials cost together.
    pub cost: u128,
    /// The mean price of the other materials.
    pub rest_average: u32,
}

/// The five cheapest materials of `set`, what they cost together, and the
/// mean price of the materials that are not among them.
///
/// A catalog of less than five entries is turned down with
/// `CatalogTooSmall`.
pub fn operate_basic(set: &Catalog) -> (r: Result<BasicReport, InvalidInput>)
    ensures
        set@.len() < 5 ==> r == Err::<BasicReport, InvalidInput>(InvalidInput::CatalogTooSmall),
        set@.len() >= 5 ==> (r matches Ok(rep) && rep.cheapest@ == sorted_by_price(set@).take(5)
            && rep.cost == total(rep.cheapest@) && rep.rest_average == expected_output(
            set@,
            names_of(rep.cheapest@),
        )),
{
    match smallest_five(set) {
        Err(e) => Err(e),
        Ok(cheapest) => {
            let entries = cheapest.entries();
            let cost = sum(entries);
            let mut names: Vec<String> = Vec::new();
            let mut i: usize = 0;
            while i < entries.len()
                invariant
                    i <= entries.len(),
                    entries.deep_view() == cheapest@,
                    names.deep_view() == names_of(cheapest@).take(i as int),
                decreases entries.len() - i,
            {
                let ghost before = names.deep_view();
                names.push(entries[i].0.clone());
                proof {
                    assert(names.deep_view() =~= before.push(cheapest@[i as int].0));
                    assert(before.push(cheapest@[i as int].0) =~= names_of(cheapest@).take(i + 1));
                }
                i += 1;
            }
            proof {
                assert(names_of(cheapest@).take(i as int) =~= names_of(cheapest@));
            }
            let rest_average = others_average(set, &names);
            Ok(BasicReport { cheapest, cost, rest_average })
        },
    }
}

/// The price from which on a material of a tier is sold rather than handed
/// in: twice the quarter, rounded towards zero, of the tier's mean price.
pub open spec fn sell_threshold(s: Seq<(Seq<char>, u32)>) -> int {
    mean_of(s) / 4 * 2
}

/// What to do with the materials of one tier.
#[derive(Debug)]
pub struct GradeAdvice {
    /// Materials to sell: those at the sell threshold or above.
    pub sell: Vec<(String, u32)>,
    /// Materials below the sell threshold that are worth buying to hand in:
    /// those below the buying cutoff.
    pub buy: Vec<(String, u32)>,
    /// Materials below the sell threshold to hand in but not to buy.
    pub trans: Vec<(String, u32)>,
    /// The five materials to hand in: the cheapest below the sell threshold.
    pub to_transmute: Vec<(String, u32)>,
    /// What the five materials to hand in cost together.
    pub transmute_sum: u128,
    /// The mean price of the materials to sell.
    pub sell_average: u32,
}

/// Sorts the materials of a tier into those to sell, those to buy and those
/// to hand in without buying, given the price below which buying pays.
pub fn grade_advice(catalog: &Catalog, buy_cutoff: u32) -> (advice: GradeAdvice)
    ensures
        advice.sell.deep_view() == at_or_above(catalog@, sell_threshold(catalog@)),
        advice.buy.deep_view() == below(
            below(catalog@, sell_threshold(catalog@)),
            buy_cutoff as int,
        ),
        advice.trans.deep_view() == at_or_above(
            below(catalog@, sell_threshold(catalog@)),
            buy_cutoff as int,
        ),
        advice.to_transmute.deep_view() == filled_to_five(
            sorted_by_price(below(catalog@, sell_threshold(catalog@))),
        ),
        advice.transmute_sum == total(advice.to_transmute.deep_view()),
        advice.sell_average == mean_of(advice.sell.deep_view()),
{
    let entries = catalog.entries();
    let threshold = average(entries) / 4 * 2;
    let (sell, buy_or_trans) = partition_by_threshold(entries, threshold);
    let (trans, buy) = partition_by_threshold(&buy_or_trans, buy_cutoff);
    let sorted = sort_by_price(&buy_or_trans);
    let to_transmute = fill_transmute_vec(&sorted);
    let transmute_sum = sum(&to_transmute);
    let sell_average = average(&sell);
    GradeAdvice { sell, buy, trans, to_transmute, transmute_sum, sell_average }
}

} // verus!
