//! Every selection of five catalog entries, in a fixed order.
//!
//! The selections of a catalog of `n` entries are numbered from 0 to
//! `n^5 - 1`. The five catalog positions of selection `t` are the digits of
//! `t` written in base `n`, the first slot being the most significant: the
//! last slot changes with every step, the first one slowest.

use vstd::prelude::*;
use vstd::arithmetic::div_mod::lemma_fundamental_div_mod_converse;
use crate::catalog::{Catalog, all_known, has_name};

verus! {

/// The fifth power of `n`: how many selections a catalog of `n` entries has.
pub open spec fn pow5(n: int) -> int {
    n * n * n * n * n
}

/// Digit `k` of `t` in base `n`, digit 0 being the least significant.
pub open spec fn digit(n: int, t: int, k: nat) -> int
    decreases k,
{
    if k == 0 {
        t % n
    } else {
        digit(n, t / n, (k - 1) as nat)
    }
}

/// The names of selection number `t` of `cat`.
pub open spec fn selection_at(cat: Seq<(Seq<char>, u32)>, t: int) -> Seq<Seq<char>> {
    Seq::new(5, |slot: int| cat[digit(cat.len() as int, t, (4 - slot) as nat)].0)
}

/// The number of the selection that takes catalog positions `d0` to `d4`.
pub open spec fn rank_of(n: int, d0: int, d1: int, d2: int, d3: int, d4: int) -> int {
    (((d0 * n + d1) * n + d2) * n + d3) * n + d4
}

/// Every digit in base `n` lies below `n`.
pub proof fn lemma_digit_range(n: int, t: int, k: nat)
    requires
        n > 0,
    ensures
        0 <= digit(n, t, k) < n,
    decreases k,
{
    if k > 0 {
        lemma_digit_range(n, t / n, (k - 1) as nat);
    }
}

/// Five catalog positions are the digits of their rank, and the rank is a
/// selection number.
pub proof fn lemma_rank_digits(n: int, d0: int, d1: int, d2: int, d3: int, d4: int)
    requires
        0 <= d0 < n,
        0 <= d1 < n,
        0 <= d2 < n,
        0 <= d3 < n,
        0 <= d4 < n,
    ensures
        0 <= rank_of(n, d0, d1, d2, d3, d4) < pow5(n),
        digit(n, rank_of(n, d0, d1, d2, d3, d4), 0) == d4,
        digit(n, rank_of(n, d0, d1, d2, d3, d4), 1) == d3,
        digit(n, rank_of(n, d0, d1, d2, d3, d4), 2) == d2,
        digit(n, rank_of(n, d0, d1, d2, d3, d4), 3) == d1,
        digit(n, rank_of(n, d0, d1, d2, d3, d4), 4) == d0,
{
    let x1 = d0 * n + d1;
    let x2 = x1 * n + d2;
    let x3 = x2 * n + d3;
    let x4 = x3 * n + d4;
    assert(0 <= x1 < n * n) by (nonlinear_arith)
        requires
            0 <= d0 < n,
            0 <= d1 < n,
            x1 == d0 * n + d1,
    ;
    assert(0 <= x2 < n * n * n) by (nonlinear_arith)
        requires
            0 <= x1 < n * n,
            0 <= d2 < n,
            x2 == x1 * n + d2,
    ;
    assert(0 <= x3 < n * n * n * n) by (nonlinear_arith)
        requires
            0 <= x2 < n * n * n,
            0 <= d3 < n,
            x3 == x2 * n + d3,
    ;
    assert(0 <= x4 < n * n * n * n * n) by (nonlinear_arith)
        requires
            0 <= x3 < n * n * n * n,
            0 <= d4 < n,
            x4 == x3 * n + d4,
    ;
    lemma_fundamental_div_mod_converse(x4, n, x3, d4);
    lemma_fundamental_div_mod_converse(x3, n, x2, d3);
    lemma_fundamental_div_mod_converse(x2, n, x1, d2);
    lemma_fundamental_div_mod_converse(x1, n, d0, d1);
    lemma_fundamental_div_mod_converse(d0, n, 0, d0);
    reveal_with_fuel(digit, 5);
}

/// The rank just behind the last selection is the number of selections.
proof fn lemma_rank_of_end(n: int)
    ensures
        rank_of(n, n, 0, 0, 0, 0) == pow5(n),
{
    assert((((n * n + 0) * n + 0) * n + 0) * n + 0 == n * n * n * n * n) by (nonlinear_arith);
}

/// Where the last slots wrap around to position 0, the slot before them
/// moves on by one, and the rank by one.
proof fn lemma_rank_carry(n: int, d0: int, d1: int, d2: int, d3: int)
    ensures
        rank_of(n, d0, d1, d2, d3 + 1, 0) == rank_of(n, d0, d1, d2, d3, n - 1) + 1,
        rank_of(n, d0, d1, d2 + 1, 0, 0) == rank_of(n, d0, d1, d2, n - 1, n - 1) + 1,
        rank_of(n, d0, d1 + 1, 0, 0, 0) == rank_of(n, d0, d1, n - 1, n - 1, n - 1) + 1,
        rank_of(n, d0 + 1, 0, 0, 0, 0) == rank_of(n, d0, n - 1, n - 1, n - 1, n - 1) + 1,
{
    let x1 = d0 * n + d1;
    let x2 = x1 * n + d2;
    let x3 = x2 * n + d3;
    assert((x3 + 1) * n + 0 == x3 * n + (n - 1) + 1) by (nonlinear_arith);
    assert(((x2 + 1) * n + 0) * n + 0 == (x2 * n + (n - 1)) * n + (n - 1) + 1)
        by (nonlinear_arith);
    assert((((x1 + 1) * n + 0) * n + 0) * n + 0 == ((x1 * n + (n - 1)) * n + (n - 1)) * n + (n
        - 1) + 1) by (nonlinear_arith);
    assert(((((d0 + 1) * n + 0) * n + 0) * n + 0) * n + 0 == (((d0 * n + (n - 1)) * n + (n - 1))
        * n + (n - 1)) * n + (n - 1) + 1) by (nonlinear_arith);
}

/// Every selection has five names, each listed in the catalog.
pub proof fn lemma_selection_known(cat: Seq<(Seq<char>, u32)>, t: int)
    requires
        cat.len() > 0,
    ensures
        selection_at(cat, t).len() == 5,
        all_known(cat, selection_at(cat, t)),
{
    assert forall|slot: int| 0 <= slot < 5 implies has_name(
        cat,
        #[trigger] selection_at(cat, t)[slot],
    ) by {
        lemma_digit_range(cat.len() as int, t, (4 - slot) as nat);
        let i = digit(cat.len() as int, t, (4 - slot) as nat);
        assert(cat[i].0 == selection_at(cat, t)[slot]);
    }
}

/// The selection that takes catalog positions `d0` to `d4` names the
/// entries at these positions, slot by slot.
pub proof fn lemma_selection_of_positions(
    cat: Seq<(Seq<char>, u32)>,
    d0: int,
    d1: int,
    d2: int,
    d3: int,
    d4: int,
)
    requires
        0 <= d0 < cat.len(),
        0 <= d1 < cat.len(),
        0 <= d2 < cat.len(),
        0 <= d3 < cat.len(),
        0 <= d4 < cat.len(),
    ensures
        selection_at(cat, rank_of(cat.len() as int, d0, d1, d2, d3, d4)) == seq![
            cat[d0].0,
            cat[d1].0,
            cat[d2].0,
            cat[d3].0,
            cat[d4].0,
        ],
{
    lemma_rank_digits(cat.len() as int, d0, d1, d2, d3, d4);
    assert(selection_at(cat, rank_of(cat.len() as int, d0, d1, d2, d3, d4)) =~= seq![
        cat[d0].0,
        cat[d1].0,
        cat[d2].0,
        cat[d3].0,
        cat[d4].0,
    ]);
}

/// Five materials handed in together for one conversion.
#[derive(Debug)]
pub struct TransmuteSet {
    pub m1: String,
    pub m2: String,
    pub m3: String,
    pub m4: String,
    pub m5: String,
}

impl View for TransmuteSet {
    type V = Seq<Seq<char>>;

    open spec fn view(&self) -> Seq<Seq<char>> {
        seq![self.m1@, self.m2@, self.m3@, self.m4@, self.m5@]
    }
}

impl TransmuteSet {
    /// The five names, first slot first.
    pub fn to_string_vec(&self) -> (v: Vec<String>)
        ensures
            v.deep_view() == self@,
    {
        let v = vec![
            self.m1.clone(),
            self.m2.clone(),
            self.m3.clone(),
            self.m4.clone(),
            self.m5.clone(),
        ];
        assert(v.deep_view() =~= self@);
        v
    }
}

/// Five catalog positions that step through the selections in order.
pub(crate) struct Cursor {
    pub(crate) d0: usize,
    pub(crate) d1: usize,
    pub(crate) d2: usize,
    pub(crate) d3: usize,
    pub(crate) d4: usize,
}

impl Cursor {
    /// The cursor is on a selection of a catalog of `n` entries, or just
    /// behind the last one.
    pub(crate) open spec fn valid(&self, n: int) -> bool {
        &&& n > 0
        &&& self.d0 <= n
        &&& self.d1 < n
        &&& self.d2 < n
        &&& self.d3 < n
        &&& self.d4 < n
        &&& self.d0 == n ==> self.d1 == 0 && self.d2 == 0 && self.d3 == 0 && self.d4 == 0
    }

    /// The number of the selection that the cursor is on.
    pub(crate) open spec fn rank(&self, n: int) -> int {
        rank_of(n, self.d0 as int, self.d1 as int, self.d2 as int, self.d3 as int, self.d4 as int)
    }

    /// A cursor on selection 0.
    pub(crate) fn start(n: usize) -> (c: Cursor)
        requires
            n > 0,
        ensures
            c.valid(n as int),
            c.rank(n as int) == 0,
    {
        let c = Cursor { d0: 0, d1: 0, d2: 0, d3: 0, d4: 0 };
        assert(c.rank(n as int) == 0) by (nonlinear_arith)
            requires
                c.d0 == 0 && c.d1 == 0 && c.d2 == 0 && c.d3 == 0 && c.d4 == 0,
        ;
        c
    }

    /// Whether the cursor has passed the last selection.
    pub(crate) fn finished(&self, n: usize) -> (b: bool)
        requires
            self.valid(n as int),
        ensures
            b == (self.rank(n as int) == pow5(n as int)),
            0 <= self.rank(n as int) <= pow5(n as int),
    {
        proof {
            let m = n as int;
            if self.d0 == n {
                lemma_rank_of_end(m);
            } else {
                lemma_rank_digits(
                    m,
                    self.d0 as int,
                    self.d1 as int,
                    self.d2 as int,
                    self.d3 as int,
                    self.d4 as int,
                );
            }
        }
        self.d0 == n
    }

    /// Moves on to the next selection.
    pub(crate) fn advance(&mut self, n: usize)
        requires
            old(self).valid(n as int),
            old(self).rank(n as int) < pow5(n as int),
        ensures
            final(self).valid(n as int),
            final(self).rank(n as int) == old(self).rank(n as int) + 1,
    {
        proof {
            let m = n as int;
            if self.d0 == n {
                lemma_rank_of_end(m);
            }
            lemma_rank_carry(m, self.d0 as int, self.d1 as int, self.d2 as int, self.d3 as int);
        }
        self.d4 += 1;
        if self.d4 == n {
            self.d4 = 0;
            self.d3 += 1;
            if self.d3 == n {
                self.d3 = 0;
                self.d2 += 1;
                if self.d2 == n {
                    self.d2 = 0;
                    self.d1 += 1;
                    if self.d1 == n {
                        self.d1 = 0;
                        self.d0 += 1;
                    }
                }
            }
        }
    }

    /// The selection that the cursor is on.
    pub(crate) fn selection(&self, entries: &Vec<(String, u32)>) -> (s: TransmuteSet)
        requires
            self.valid(entries.len() as int),
            self.rank(entries.len() as int) < pow5(entries.len() as int),
        ensures
            s@ == selection_at(entries.deep_view(), self.rank(entries.len() as int)),
    {
        proof {
            let m = entries.len() as int;
            if self.d0 == m {
                lemma_rank_of_end(m);
            }
            lemma_selection_of_positions(
                entries.deep_view(),
                self.d0 as int,
                self.d1 as int,
                self.d2 as int,
                self.d3 as int,
                self.d4 as int,
            );
        }
        let s = TransmuteSet {
            m1: entries[self.d0].0.clone(),
            m2: entries[self.d1].0.clone(),
            m3: entries[self.d2].0.clone(),
            m4: entries[self.d3].0.clone(),
            m5: entries[self.d4].0.clone(),
        };
        s
    }
}

/// All selections of five entries of `catalog`, repetition allowed, in the
/// order of their numbers: `n^5` of them for `n` entries, none for an empty
/// catalog.
pub fn enumerate_combinations(catalog: &Catalog) -> (out: Vec<TransmuteSet>)
    ensures
        out.len() == pow5(catalog@.len() as int),
        forall|t: int| 0 <= t < out.len() ==> (#[trigger] out[t])@ == selection_at(catalog@, t),
        forall|t: int| 0 <= t < out.len() ==> all_known(catalog@, (#[trigger] out[t])@),
{
    let entries = catalog.entries();
    let n = entries.len();
    let mut out: Vec<TransmuteSet> = Vec::new();
    if n == 0 {
        assert(pow5(0) == 0) by (nonlinear_arith);
        return out;
    }
    let mut cursor = Cursor::start(n);
    while !cursor.finished(n)
        invariant
            n == entries.len(),
            entries.deep_view() == catalog@,
            cursor.valid(n as int),
            out.len() == cursor.rank(n as int),
            forall|t: int| 0 <= t < out.len() ==> (#[trigger] out[t])@ == selection_at(catalog@, t),
        decreases pow5(n as int) - cursor.rank(n as int),
    {
        let s = cursor.selection(entries);
        out.push(s);
        cursor.advance(n);
    }
    proof {
        assert forall|t: int| 0 <= t < out.len() implies all_known(
            catalog@,
            (#[trigger] out[t])@,
        ) by {
            lemma_selection_known(catalog@, t);
        }
    }
    out
}

} // verus!
