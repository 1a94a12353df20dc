//! Enumeration mode: every string over the 62 symbols, shortest first, each
//! followed by every suffix, produced one candidate at a time.
use vstd::prelude::*;
use crate::dict::{alphanum, alphanum_chars};
use crate::text::{push_char, views};
use itertools::structs::MultiProduct;
use itertools::Itertools;
use std::ops::Range;

verus! {

/// `62^l`: the number of strings of length `l`.
pub open spec fn pow62(l: nat) -> nat
    decreases l,
{
    if l == 0 {
        1
    } else {
        62 * pow62((l - 1) as nat)
    }
}

/// `62^from + ... + 62^to` (zero when `from > to`).
pub open spec fn sum_pow62(from: nat, to: nat) -> nat
    decreases to + 1 - from,
{
    if from > to {
        0
    } else {
        pow62(from) + sum_pow62(from + 1, to)
    }
}

/// The `idx`-th string of length `len`, in lexicographic order over the
/// symbols' order.
pub open spec fn combo(len: nat, idx: nat) -> Seq<char>
    decreases len,
{
    if len == 0 {
        Seq::empty()
    } else {
        combo((len - 1) as nat, idx / 62).push(alphanum()[(idx % 62) as int])
    }
}

/// A place in the enumeration: length, index of the string among those of
/// that length, index of the suffix.
pub struct EnumPos {
    pub len: nat,
    pub idx: nat,
    pub sfx: nat,
}

/// Where the enumeration starts.
pub open spec fn start_pos(max_len: nat, fixed: bool) -> EnumPos {
    EnumPos { len: if fixed { max_len } else { 1 }, idx: 0, sfx: 0 }
}

/// The candidate at `p`.
pub open spec fn candidate_at(p: EnumPos, sfx: Seq<Seq<char>>) -> Seq<char> {
    combo(p.len, p.idx) + sfx[p.sfx as int]
}

/// The place after `p`: next suffix, else next string, else next length.
pub open spec fn advance(p: EnumPos, n_sfx: nat) -> EnumPos {
    if p.sfx + 1 < n_sfx {
        EnumPos { sfx: p.sfx + 1, ..p }
    } else if p.idx + 1 < pow62(p.len) {
        EnumPos { idx: p.idx + 1, sfx: 0, ..p }
    } else {
        EnumPos { len: p.len + 1, idx: 0, sfx: 0 }
    }
}

/// How many candidates are left from `p` on, `p`'s own included.
pub open spec fn remaining_from(p: EnumPos, max_len: nat, n_sfx: nat) -> int {
    if p.len > max_len || n_sfx == 0 {
        0
    } else {
        (pow62(p.len) - p.idx) * n_sfx - p.sfx + sum_pow62(p.len + 1, max_len) * n_sfx
    }
}

/// The size of a whole enumeration: `62^max_len` strings when the length is
/// fixed, else `62^1 + ... + 62^max_len`, each once per suffix.
pub open spec fn enumeration_count(max_len: nat, fixed: bool, n_sfx: nat) -> nat {
    if fixed {
        pow62(max_len) * n_sfx
    } else {
        sum_pow62(1, max_len) * n_sfx
    }
}

/// The whole enumeration has as many candidates as `enumeration_count` says:
/// `remaining_from` at the start equals it.
pub proof fn lemma_enumeration_count(max_len: nat, fixed: bool, n_sfx: nat)
    ensures
        remaining_from(start_pos(max_len, fixed), max_len, n_sfx) == enumeration_count(
            max_len,
            fixed,
            n_sfx,
        ),
{
    let p = start_pos(max_len, fixed);
    if n_sfx > 0 && p.len <= max_len {
        if fixed {
            assert(sum_pow62(max_len + 1, max_len) == 0);
        } else {
            assert(sum_pow62(1, max_len) == pow62(1) + sum_pow62(2, max_len));
            assert((pow62(1) + sum_pow62(2, max_len)) * n_sfx == pow62(1) * n_sfx + sum_pow62(
                2,
                max_len,
            ) * n_sfx) by (nonlinear_arith);
        }
    } else if n_sfx == 0 {
        assert(pow62(max_len) * 0 == 0);
        assert(sum_pow62(1, max_len) * 0 == 0);
    } else {
        assert(sum_pow62(1, max_len) == 0);
    }
}

/// A place inside the enumeration has at least its own candidate left.
pub proof fn lemma_remaining_positive(p: EnumPos, max_len: nat, n_sfx: nat)
    requires
        p.len <= max_len,
        p.idx < pow62(p.len),
        p.sfx < n_sfx,
    ensures
        remaining_from(p, max_len, n_sfx) > 0,
{
    let big = pow62(p.len);
    assert((big - p.idx) * n_sfx >= n_sfx) by (nonlinear_arith)
        requires
            p.idx < big,
            n_sfx > 0,
    ;
    assert(sum_pow62(p.len + 1, max_len) * n_sfx >= 0) by (nonlinear_arith);
}

/// Each step of the enumeration leaves one candidate fewer.
pub proof fn lemma_advance_remaining(p: EnumPos, max_len: nat, n_sfx: nat)
    requires
        p.len <= max_len,
        p.idx < pow62(p.len),
        p.sfx < n_sfx,
    ensures
        remaining_from(advance(p, n_sfx), max_len, n_sfx) == remaining_from(p, max_len, n_sfx) - 1,
{
    let q = advance(p, n_sfx);
    let big = pow62(p.len);
    let rest = sum_pow62(p.len + 1, max_len);
    let before = (big - p.idx) * n_sfx - p.sfx + rest * n_sfx;
    assert(remaining_from(p, max_len, n_sfx) == before);
    if p.sfx + 1 < n_sfx {
        assert(remaining_from(q, max_len, n_sfx) == (big - p.idx) * n_sfx - (p.sfx + 1) + rest
            * n_sfx);
    } else if p.idx + 1 < big {
        assert((big - p.idx) * n_sfx == (big - (p.idx + 1)) * n_sfx + n_sfx) by (nonlinear_arith);
        assert(remaining_from(q, max_len, n_sfx) == (big - (p.idx + 1)) * n_sfx - 0 + rest
            * n_sfx);
    } else {
        assert((big - p.idx) * n_sfx == n_sfx) by (nonlinear_arith)
            requires
                p.idx + 1 == big,
        ;
        if p.len + 1 <= max_len {
            let nb = pow62(p.len + 1);
            let tail = sum_pow62(p.len + 2, max_len);
            assert(rest == nb + tail);
            assert(rest * n_sfx == (nb - 0) * n_sfx + tail * n_sfx) by (nonlinear_arith)
                requires
                    rest == nb + tail,
            ;
            assert(remaining_from(q, max_len, n_sfx) == (nb - 0) * n_sfx - 0 + tail * n_sfx);
        } else {
            assert(rest == 0);
            assert(rest * n_sfx == 0) by (nonlinear_arith)
                requires
                    rest == 0,
            ;
            assert(remaining_from(q, max_len, n_sfx) == 0);
        }
    }
}

/// The position of a symbol among the 62, or -1 for any other character.
pub open spec fn sym_code(c: char) -> int {
    let u = c as u32 as int;
    if 97 <= u <= 122 {
        u - 97
    } else if 65 <= u <= 90 {
        u - 65 + 26
    } else if 48 <= u <= 57 {
        u - 48 + 52
    } else {
        -1
    }
}

/// One of the 62 symbols.
pub open spec fn is_symbol(c: char) -> bool {
    sym_code(c) >= 0
}

pub proof fn lemma_sym_code()
    ensures
        forall|i: int| 0 <= i < 62 ==> sym_code(#[trigger] alphanum()[i]) == i,
{
    assert forall|i: int| 0 <= i < 62 implies sym_code(#[trigger] alphanum()[i]) == i by {
        assert(alphanum().len() == 62);
    }
}

pub proof fn lemma_combo_symbols(len: nat, idx: nat)
    ensures
        combo(len, idx).len() == len,
        forall|i: int| 0 <= i < len ==> is_symbol(#[trigger] combo(len, idx)[i]),
    decreases len,
{
    if len > 0 {
        lemma_combo_symbols((len - 1) as nat, idx / 62);
        lemma_sym_code();
        let prev = combo((len - 1) as nat, idx / 62);
        let c = alphanum()[(idx % 62) as int];
        assert(is_symbol(c));
        assert forall|i: int| 0 <= i < len implies is_symbol(#[trigger] combo(len, idx)[i]) by {
            if i < len - 1 {
                assert(combo(len, idx)[i] == prev[i]);
            }
        }
    }
}

/// Distinct indices below `62^len` give distinct strings.
pub proof fn lemma_combo_injective(len: nat, x: nat, y: nat)
    requires
        x < pow62(len),
        y < pow62(len),
        combo(len, x) == combo(len, y),
    ensures
        x == y,
    decreases len,
{
    if len > 0 {
        lemma_sym_code();
        let cx = combo(len, x);
        let cy = combo(len, y);
        lemma_combo_symbols((len - 1) as nat, x / 62);
        lemma_combo_symbols((len - 1) as nat, y / 62);
        assert(cx.last() == alphanum()[(x % 62) as int]);
        assert(cy.last() == alphanum()[(y % 62) as int]);
        assert(sym_code(cx.last()) == x % 62);
        assert(sym_code(cy.last()) == y % 62);
        assert(cx.drop_last() =~= combo((len - 1) as nat, x / 62));
        assert(cy.drop_last() =~= combo((len - 1) as nat, y / 62));
        assert(x / 62 < pow62((len - 1) as nat) && y / 62 < pow62((len - 1) as nat))
            by (nonlinear_arith)
            requires
                x < 62 * pow62((len - 1) as nat),
                y < 62 * pow62((len - 1) as nat),
        ;
        lemma_combo_injective((len - 1) as nat, x / 62, y / 62);
        assert(x == 62 * (x / 62) + x % 62) by (nonlinear_arith);
        assert(y == 62 * (y / 62) + y % 62) by (nonlinear_arith);
    } else {
        assert(pow62(0) == 1);
    }
}

/// A place inside the enumeration.
pub open spec fn valid_pos(p: EnumPos, max_len: nat, n_sfx: nat) -> bool {
    p.len <= max_len && p.idx < pow62(p.len) && p.sfx < n_sfx
}

/// Suffixes that keep candidates apart: pairwise distinct, and each empty or
/// starting with a character that is not one of the 62 symbols.
pub open spec fn separating_suffixes(sfx: Seq<Seq<char>>) -> bool {
    &&& forall|i: int, j: int| 0 <= i < j < sfx.len() ==> sfx[i] != sfx[j]
    &&& forall|i: int| 0 <= i < sfx.len() ==> (#[trigger] sfx[i]).len() == 0 || !is_symbol(sfx[i][0])
}

proof fn lemma_symbol_prefix(p: EnumPos, sfx: Seq<Seq<char>>)
    requires
        separating_suffixes(sfx),
        p.sfx < sfx.len(),
    ensures
        candidate_at(p, sfx).len() == p.len + sfx[p.sfx as int].len(),
        forall|i: int| 0 <= i < p.len ==> is_symbol(#[trigger] candidate_at(p, sfx)[i]),
        p.len < candidate_at(p, sfx).len() ==> !is_symbol(candidate_at(p, sfx)[p.len as int]),
{
    lemma_combo_symbols(p.len, p.idx);
    let c = candidate_at(p, sfx);
    assert forall|i: int| 0 <= i < p.len implies is_symbol(#[trigger] c[i]) by {
        assert(c[i] == combo(p.len, p.idx)[i]);
    }
    if p.len < c.len() {
        assert(sfx[p.sfx as int].len() > 0);
        assert(c[p.len as int] == sfx[p.sfx as int][0]);
    }
}

/// With separating suffixes, two places of the enumeration never give the
/// same candidate: the enumeration has no duplicates.
pub proof fn lemma_candidates_distinct(p: EnumPos, q: EnumPos, max_len: nat, sfx: Seq<Seq<char>>)
    requires
        separating_suffixes(sfx),
        valid_pos(p, max_len, sfx.len()),
        valid_pos(q, max_len, sfx.len()),
        candidate_at(p, sfx) == candidate_at(q, sfx),
    ensures
        p == q,
{
    let c = candidate_at(p, sfx);
    lemma_symbol_prefix(p, sfx);
    lemma_symbol_prefix(q, sfx);
    if p.len < q.len {
        assert(is_symbol(c[p.len as int]));
    } else if q.len < p.len {
        assert(is_symbol(c[q.len as int]));
    }
    assert(p.len == q.len);
    let cp = combo(p.len, p.idx);
    let cq = combo(q.len, q.idx);
    lemma_combo_symbols(p.len, p.idx);
    lemma_combo_symbols(q.len, q.idx);
    assert(cp =~= c.take(p.len as int));
    assert(cq =~= c.take(q.len as int));
    lemma_combo_injective(p.len, p.idx, q.idx);
    assert(sfx[p.sfx as int] =~= c.skip(p.len as int));
    assert(sfx[q.sfx as int] =~= c.skip(q.len as int));
    if p.sfx < q.sfx {
        assert(sfx[p.sfx as int] != sfx[q.sfx as int]);
    } else if q.sfx < p.sfx {
        assert(sfx[q.sfx as int] != sfx[p.sfx as int]);
    }
}

/// The place reached from `p` after `k` steps.
pub open spec fn nth_pos(p: EnumPos, n_sfx: nat, k: nat) -> EnumPos
    decreases k,
{
    if k == 0 {
        p
    } else {
        advance(nth_pos(p, n_sfx, (k - 1) as nat), n_sfx)
    }
}

proof fn lemma_valid_while_remaining(p: EnumPos, max_len: nat, n_sfx: nat)
    requires
        remaining_from(p, max_len, n_sfx) > 0,
        p.idx < pow62(p.len),
        p.sfx < n_sfx,
    ensures
        valid_pos(p, max_len, n_sfx),
{
}

/// Stepping `k` times from a place inside the enumeration leaves `k`
/// candidates fewer, and every place passed on the way is inside it.
pub proof fn lemma_run_remaining(p: EnumPos, max_len: nat, n_sfx: nat, k: nat)
    requires
        valid_pos(p, max_len, n_sfx),
        k < remaining_from(p, max_len, n_sfx),
    ensures
        valid_pos(nth_pos(p, n_sfx, k), max_len, n_sfx),
        remaining_from(nth_pos(p, n_sfx, k), max_len, n_sfx) == remaining_from(p, max_len, n_sfx)
            - k,
    decreases k,
{
    if k > 0 {
        lemma_run_remaining(p, max_len, n_sfx, (k - 1) as nat);
        let q = nth_pos(p, n_sfx, (k - 1) as nat);
        lemma_advance_remaining(q, max_len, n_sfx);
        let r = advance(q, n_sfx);
        lemma_power62(r.len);
        lemma_valid_while_remaining(r, max_len, n_sfx);
    }
}

/// The whole enumeration has no duplicates: with separating suffixes, the
/// `i`-th and `j`-th candidates of distinct steps differ.
pub proof fn lemma_enumeration_distinct(
    max_len: nat,
    fixed: bool,
    sfx: Seq<Seq<char>>,
    i: nat,
    j: nat,
)
    requires
        separating_suffixes(sfx),
        i < j < enumeration_count(max_len, fixed, sfx.len()),
    ensures
        candidate_at(nth_pos(start_pos(max_len, fixed), sfx.len(), i), sfx) != candidate_at(
            nth_pos(start_pos(max_len, fixed), sfx.len(), j),
            sfx,
        ),
{
    let s = start_pos(max_len, fixed);
    let n = sfx.len();
    lemma_enumeration_count(max_len, fixed, n);
    lemma_power62(s.len);
    lemma_valid_while_remaining(s, max_len, n);
    lemma_run_remaining(s, max_len, n, i);
    lemma_run_remaining(s, max_len, n, j);
    let p = nth_pos(s, n, i);
    let q = nth_pos(s, n, j);
    if candidate_at(p, sfx) == candidate_at(q, sfx) {
        lemma_candidates_distinct(p, q, max_len, sfx);
    }
}

/// With a fixed length, every candidate of the enumeration is a string of
/// exactly that length followed by a suffix.
pub proof fn lemma_fixed_length_stems(max_len: nat, sfx: Seq<Seq<char>>, k: nat)
    requires
        k < enumeration_count(max_len, true, sfx.len()),
    ensures
        nth_pos(start_pos(max_len, true), sfx.len(), k).len == max_len,
        candidate_at(nth_pos(start_pos(max_len, true), sfx.len(), k), sfx) == combo(
            max_len,
            nth_pos(start_pos(max_len, true), sfx.len(), k).idx,
        ) + sfx[nth_pos(start_pos(max_len, true), sfx.len(), k).sfx as int],
        combo(max_len, nth_pos(start_pos(max_len, true), sfx.len(), k).idx).len() == max_len,
    decreases k,
{
    let s = start_pos(max_len, true);
    let n = sfx.len();
    lemma_enumeration_count(max_len, true, n);
    lemma_power62(max_len);
    lemma_valid_while_remaining(s, max_len, n);
    lemma_run_remaining(s, max_len, n, k);
    lemma_combo_symbols(max_len, nth_pos(s, n, k).idx);
    if k > 0 {
        lemma_fixed_length_stems(max_len, sfx, (k - 1) as nat);
    }
}

/// `b^e`.
pub open spec fn power(b: nat, e: nat) -> nat
    decreases e,
{
    if e == 0 {
        1
    } else {
        b * power(b, (e - 1) as nat)
    }
}

/// The `len` digits of `idx` in base `b`, most significant first.
pub open spec fn base_digits(len: nat, b: nat, idx: nat) -> Seq<usize>
    decreases len,
{
    if len == 0 {
        Seq::empty()
    } else {
        base_digits((len - 1) as nat, b, idx / b).push((idx % b) as usize)
    }
}

/// Every tuple of `len` values below `b`, in lexicographic order.
pub open spec fn lex_tuples(len: nat, b: nat) -> Seq<Seq<usize>> {
    Seq::new(power(b, len), |k: int| base_digits(len, b, k as nat))
}

/// What an index product has still to yield, in order.
pub uninterp spec fn tuples_left(p: MultiProduct<Range<usize>>) -> Seq<Seq<usize>>;

#[verifier::external_type_specification]
#[verifier::external_body]
#[verifier::reject_recursive_types(I)]
pub struct ExMultiProduct<I>(MultiProduct<I>) where I: Iterator + Clone, I::Item: Clone;

/// Relies on itertools' `multi_cartesian_product` over `len` copies of
/// `0..b`: every tuple, in lexicographic order (the last place varies
/// fastest).
#[verifier::external_body]
fn index_product(len: usize, b: usize) -> (r: MultiProduct<Range<usize>>)
    requires
        len > 0,
        b > 0,
    ensures
        tuples_left(r) == lex_tuples(len as nat, b as nat),
{
    std::iter::repeat(0..b).take(len).multi_cartesian_product()
}

/// Relies on `MultiProduct::next`: the first tuple left, while any is left.
#[verifier::external_body]
fn next_tuple(p: &mut MultiProduct<Range<usize>>) -> (r: Option<Vec<usize>>)
    ensures
        tuples_left(*old(p)).len() > 0 ==> (r matches Some(v) && v@ == tuples_left(*old(p))[0]
            && tuples_left(*final(p)) == tuples_left(*old(p)).drop_first()),
        tuples_left(*old(p)).len() == 0 ==> r is None,
{
    p.next()
}

pub proof fn lemma_power62(l: nat)
    ensures
        power(62, l) == pow62(l),
        pow62(l) > 0,
    decreases l,
{
    if l > 0 {
        lemma_power62((l - 1) as nat);
    }
}

/// The `idx`-th string of length `len` spells the base-62 digits of `idx`.
pub proof fn lemma_combo_digits(len: nat, idx: nat)
    ensures
        base_digits(len, 62, idx).len() == len,
        forall|i: int| 0 <= i < len ==> #[trigger] base_digits(len, 62, idx)[i] < 62,
        combo(len, idx) == base_digits(len, 62, idx).map_values(|d: usize| alphanum()[d as int]),
    decreases len,
{
    if len > 0 {
        lemma_combo_digits((len - 1) as nat, idx / 62);
        let prev = base_digits((len - 1) as nat, 62, idx / 62);
        let ds = base_digits(len, 62, idx);
        assert(ds == prev.push((idx % 62) as usize));
        assert forall|i: int| 0 <= i < len implies #[trigger] ds[i] < 62 by {
            if i < len - 1 {
                assert(ds[i] == prev[i]);
            }
        }
        assert(combo(len, idx) =~= ds.map_values(|d: usize| alphanum()[d as int]));
    } else {
        assert(combo(len, idx) =~= base_digits(len, 62, idx).map_values(
            |d: usize| alphanum()[d as int],
        ));
    }
}

/// The string that a tuple of symbol indices spells.
fn spell(pool: &Vec<char>, ds: &Vec<usize>) -> (r: String)
    requires
        pool@ == alphanum(),
        forall|i: int| 0 <= i < ds@.len() ==> #[trigger] ds@[i] < 62,
    ensures
        r@ == ds@.map_values(|d: usize| alphanum()[d as int]),
{
    let mut r = String::new();
    let mut i: usize = 0;
    while i < ds.len()
        invariant
            pool@ == alphanum(),
            forall|j: int| 0 <= j < ds@.len() ==> #[trigger] ds@[j] < 62,
            i <= ds@.len(),
            r@ == ds@.take(i as int).map_values(|d: usize| alphanum()[d as int]),
        decreases ds@.len() - i,
    {
        push_char(&mut r, pool[ds[i]]);
        i += 1;
        assert(r@ =~= ds@.take(i as int).map_values(|d: usize| alphanum()[d as int]));
    }
    assert(ds@.take(i as int) =~= ds@);
    r
}

/// Produces the enumeration one candidate at a time.
pub struct EnumCursor {
    max_len: usize,
    suffixes: Vec<String>,
    pool: Vec<char>,
    len: usize,
    idx: Ghost<nat>,
    sfx: usize,
    /// The string of the current place.
    stem: String,
    /// The strings of the current length that come after `stem`.
    product: Option<MultiProduct<Range<usize>>>,
}

impl EnumCursor {
    /// The current place.
    pub closed spec fn pos(&self) -> EnumPos {
        EnumPos { len: self.len as nat, idx: self.idx@, sfx: self.sfx as nat }
    }

    /// The longest length produced.
    pub closed spec fn max_len(&self) -> nat {
        self.max_len as nat
    }

    /// The suffix set.
    pub closed spec fn suffixes(&self) -> Seq<Seq<char>> {
        views(self.suffixes@)
    }

    /// How many candidates are still to come.
    pub open spec fn remaining(&self) -> int {
        remaining_from(self.pos(), self.max_len(), self.suffixes().len())
    }

    pub closed spec fn wf(&self) -> bool {
        &&& self.max_len < usize::MAX
        &&& self.pool@ == alphanum()
        &&& self.len <= self.max_len + 1
        &&& self.len == 0 ==> self.product is None
        &&& (self.len <= self.max_len && self.suffixes@.len() > 0) ==> {
            &&& self.idx@ < pow62(self.len as nat)
            &&& self.sfx < self.suffixes@.len()
            &&& self.stem@ == combo(self.len as nat, self.idx@)
            &&& self.len > 0 ==> (self.product matches Some(p) && tuples_left(p) == lex_tuples(
                self.len as nat,
                62,
            ).skip(self.idx@ + 1 as int))
        }
    }

    /// The first string of length `len`, and the product that yields the
    /// others.
    fn first_of_length(pool: &Vec<char>, len: usize) -> (r: (String, Option<MultiProduct<Range<usize>>>))
        requires
            pool@ == alphanum(),
        ensures
            r.0@ == combo(len as nat, 0),
            len == 0 ==> r.1 is None,
            len > 0 ==> (r.1 matches Some(p) && tuples_left(p) == lex_tuples(len as nat, 62).skip(1)),
    {
        proof {
            lemma_combo_digits(len as nat, 0);
            lemma_power62(len as nat);
        }
        if len == 0 {
            let r = (String::new(), None);
            assert(r.0@ =~= combo(0, 0));
            return r;
        }
        let mut p = index_product(len, 62);
        let ghost all = tuples_left(p);
        let first = next_tuple(&mut p);
        match first {
            Some(ds) => {
                assert(ds@ == all[0]);
                let stem = spell(pool, &ds);
                (stem, Some(p))
            },
            None => {
                assert(false);
                (String::new(), None)
            },
        }
    }

    /// A cursor at the start of the enumeration of lengths `1..=length` (only
    /// `length` when `fixed_length`), each string followed by each suffix.
    pub fn new(length: usize, fixed_length: bool, suffixes: Vec<String>) -> (r: Self)
        requires
            length < usize::MAX,
        ensures
            r.wf(),
            r.pos() == start_pos(length as nat, fixed_length),
            r.max_len() == length,
            r.suffixes() == views(suffixes@),
            r.remaining() == enumeration_count(length as nat, fixed_length, suffixes@.len()),
    {
        let len = if fixed_length {
            length
        } else {
            1
        };
        proof {
            lemma_enumeration_count(length as nat, fixed_length, suffixes@.len());
            lemma_power62(len as nat);
        }
        let pool = alphanum_chars();
        let (stem, product) = Self::first_of_length(&pool, len);
        EnumCursor { max_len: length, suffixes, pool, len, idx: Ghost(0), sfx: 0, stem, product }
    }

    /// The next candidate, or `None` once the enumeration is over.
    pub fn next(&mut self) -> (r: Option<String>)
        requires
            old(self).wf(),
        ensures
            final(self).wf(),
            final(self).max_len() == old(self).max_len(),
            final(self).suffixes() == old(self).suffixes(),
            old(self).remaining() == 0 ==> r is None && final(self).pos() == old(self).pos(),
            old(self).remaining() > 0 ==> {
                &&& r is Some
                &&& r->0@ == candidate_at(old(self).pos(), old(self).suffixes())
                &&& final(self).pos() == advance(old(self).pos(), old(self).suffixes().len())
                &&& final(self).remaining() == old(self).remaining() - 1
            },
    {
        if self.len > self.max_len || self.suffixes.len() == 0 {
            return None;
        }
        proof {
            lemma_remaining_positive(self.pos(), self.max_len(), self.suffixes().len());
            lemma_advance_remaining(self.pos(), self.max_len(), self.suffixes().len());
            lemma_power62(self.len as nat);
        }
        let mut s = self.stem.clone();
        s.append(self.suffixes[self.sfx].as_str());
        assert(self.suffixes@[self.sfx as int]@ == self.suffixes()[self.sfx as int]);
        if self.sfx + 1 < self.suffixes.len() {
            self.sfx = self.sfx + 1;
            return Some(s);
        }
        self.sfx = 0;
        let ghost idx = self.idx@;
        let step = match &mut self.product {
            Some(p) => {
                let ghost left = tuples_left(*p);
                let t = next_tuple(p);
                proof {
                    assert(left == lex_tuples(self.len as nat, 62).skip(idx + 1 as int));
                    assert(lex_tuples(self.len as nat, 62).len() == pow62(self.len as nat));
                    if idx + 1 < pow62(self.len as nat) {
                        assert(left.len() > 0);
                    } else {
                        assert(left.len() == 0);
                    }
                }
                t
            },
            None => None,
        };
        match step {
            Some(ds) => {
                proof {
                    lemma_combo_digits(self.len as nat, (idx + 1) as nat);
                    assert(ds@ == lex_tuples(self.len as nat, 62)[idx + 1 as int]);
                }
                self.stem = spell(&self.pool, &ds);
                self.idx = Ghost((idx + 1) as nat);
                proof {
                    let p = self.product->0;
                    assert(tuples_left(p) =~= lex_tuples(self.len as nat, 62).skip(idx + 2 as int));
                }
            },
            None => {
                proof {
                    if self.len > 0 {
                        assert(idx + 1 >= pow62(self.len as nat));
                    }
                }
                self.len = self.len + 1;
                self.idx = Ghost(0);
                let (stem, product) = Self::first_of_length(&self.pool, self.len);
                self.stem = stem;
                self.product = product;
            },
        }
        Some(s)
    }
}

} // verus!
