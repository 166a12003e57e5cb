//! The base-unit expansion algorithm: a fixed-point reduction of one unit to
//! its closure of atomic units plus an accumulated scale factor.
//!
//! The work list starts with the unit itself.  Each round replaces every
//! pending unit that still decomposes — through its inline `base` list first,
//! then through the catalog — by its components, with the parent's exponent
//! propagated onto each component: the component's exponent is multiplied by
//! the parent's, and its local scale factor is raised to the parent's power.
//! A pending unit with no inline decomposition folds its own local scale
//! factor into the running multiplier.  When a round produces no components
//! the previous round's work list is the atomic closure.

use crate::register::Catalog;
use crate::scale::{
    exp_fits, factor_wf, factors_pow, factors_wf, Factor, FactorS,
};
use crate::units::{
    BaseUnits, BaseUnitsS,
    find_tag, lemma_find_tag, lemma_units_view_concat, lemma_units_view_index,
    lemma_units_view_len, unit_dup, unit_view, unit_wf, units_dup, units_view, units_wf, Unit,
    UnitS,
};
use vstd::prelude::*;

verus! {

/// A component with its parent's exponent propagated onto it.
pub open spec fn scaled_unit(c: UnitS, p: int) -> UnitS {
    UnitS { tag: c.tag, mpl: factors_pow(c.mpl, p), pow: c.pow * p, base: c.base }
}

pub open spec fn scaled_units(cs: Seq<UnitS>, p: int) -> Seq<UnitS> {
    cs.map_values(|c: UnitS| scaled_unit(c, p))
}

/// The components one pending unit contributes to the next round: its inline
/// decomposition when it has one, else its catalog decomposition, else none.
pub open spec fn step_children(cat: Seq<UnitS>, p: UnitS) -> Seq<UnitS> {
    if p.base.len() > 0 {
        scaled_units(p.base, p.pow)
    } else if find_tag(cat, p.tag) >= 0 {
        scaled_units(cat[find_tag(cat, p.tag)].base, p.pow)
    } else {
        Seq::empty()
    }
}

/// The scale factors one pending unit folds into the running multiplier: its
/// own local scale, but only when it carries no inline decomposition.
pub open spec fn step_factors(p: UnitS) -> Seq<FactorS> {
    if p.base.len() > 0 {
        Seq::empty()
    } else {
        p.mpl
    }
}

/// One round of the work list: every pending unit is replaced by its
/// components.
pub open spec fn round_units(cat: Seq<UnitS>, ws: Seq<UnitS>) -> Seq<UnitS>
    decreases ws.len(),
{
    if ws.len() == 0 {
        Seq::empty()
    } else {
        step_children(cat, ws[0]) + round_units(cat, ws.drop_first())
    }
}

/// The scale factors one round folds into the running multiplier.
pub open spec fn round_factors(ws: Seq<UnitS>) -> Seq<FactorS>
    decreases ws.len(),
{
    if ws.len() == 0 {
        Seq::empty()
    } else {
        step_factors(ws[0]) + round_factors(ws.drop_first())
    }
}

/// The work list before round `n`, starting from the unit itself.
pub open spec fn ws_at(cat: Seq<UnitS>, u: UnitS, n: nat) -> Seq<UnitS>
    decreases n,
{
    if n == 0 {
        seq![u]
    } else {
        round_units(cat, ws_at(cat, u, (n - 1) as nat))
    }
}

/// The multiplier accumulated by rounds `0 .. n`.
pub open spec fn acc_factors(cat: Seq<UnitS>, u: UnitS, n: nat) -> Seq<FactorS>
    decreases n,
{
    if n == 0 {
        Seq::empty()
    } else {
        acc_factors(cat, u, (n - 1) as nat) + round_factors(ws_at(cat, u, (n - 1) as nat))
    }
}

/// Round `n` produces no components: the fixed point is reached.
pub open spec fn terminal_at(cat: Seq<UnitS>, u: UnitS, n: nat) -> bool {
    round_units(cat, ws_at(cat, u, n)).len() == 0
}

/// The exponent and every scale-factor exponent of the unit lie within the
/// machine word that carries them.
pub open spec fn unit_fits(u: UnitS) -> bool {
    &&& exp_fits(u.pow)
    &&& forall|i: int| 0 <= i < u.mpl.len() ==> exp_fits((#[trigger] u.mpl[i]).exp)
}

pub open spec fn units_fit(s: Seq<UnitS>) -> bool {
    forall|i: int| 0 <= i < s.len() ==> unit_fits(#[trigger] s[i])
}

/// Every work list up to round `n` stays within machine bounds.
pub open spec fn rounds_fit(cat: Seq<UnitS>, u: UnitS, n: nat) -> bool {
    forall|i: nat| i <= n ==> units_fit(#[trigger] ws_at(cat, u, i))
}

/// The expansion of `u` against `cat` reaches its fixed point, and every
/// intermediate exponent stays within machine bounds.  This holds of every
/// acyclic catalog whose decomposition chains use moderate exponents; a
/// cyclic catalog never reaches the fixed point and is out of scope.
pub open spec fn expansion_ok(cat: Seq<UnitS>, u: UnitS) -> bool {
    if u.base.len() == 0 {
        forall|i: int| 0 <= i < u.mpl.len() ==> exp_fits((#[trigger] u.mpl[i]).exp * u.pow)
    } else {
        exists|n: nat| #[trigger] terminal_at(cat, u, n) && rounds_fit(cat, u, n)
    }
}

/// The first round that produces no components.
pub open spec fn min_rounds(cat: Seq<UnitS>, u: UnitS) -> nat {
    choose|m: nat|
        terminal_at(cat, u, m) && (forall|k: nat| k < m ==> !#[trigger] terminal_at(cat, u, k))
}

/// What the expansion returns: the accumulated multiplier, the unit's own
/// local scale folded in once more, and the final work list as the atomic
/// closure.  A unit with no inline decomposition is terminal by itself: the
/// multiplier is its local scale raised to its exponent.
pub open spec fn to_bases_spec(cat: Seq<UnitS>, u: UnitS) -> (Seq<FactorS>, Seq<UnitS>) {
    if u.base.len() == 0 {
        (factors_pow(u.mpl, u.pow), seq![u])
    } else {
        let m = min_rounds(cat, u);
        (acc_factors(cat, u, (m + 1) as nat) + u.mpl, ws_at(cat, u, m))
    }
}

/// Some round is terminal, so a first terminal round exists.
pub proof fn lemma_min_rounds(cat: Seq<UnitS>, u: UnitS, n: nat)
    requires
        terminal_at(cat, u, n),
    ensures
        terminal_at(cat, u, min_rounds(cat, u)),
        min_rounds(cat, u) <= n,
        forall|k: nat| k < min_rounds(cat, u) ==> !#[trigger] terminal_at(cat, u, k),
    decreases n,
{
    if forall|k: nat| k < n ==> !#[trigger] terminal_at(cat, u, k) {
        assert(terminal_at(cat, u, n) && (forall|k: nat|
            k < n ==> !#[trigger] terminal_at(cat, u, k)));
        let m = min_rounds(cat, u);
        assert(terminal_at(cat, u, m) && (forall|k: nat|
            k < m ==> !#[trigger] terminal_at(cat, u, k)));
        if m > n {
            assert(!terminal_at(cat, u, n));
        }
    } else {
        let k = choose|k: nat| k < n && #[trigger] terminal_at(cat, u, k);
        lemma_min_rounds(cat, u, k);
    }
}

/// Concatenation distributes over one round.
pub proof fn lemma_round_units_concat(cat: Seq<UnitS>, a: Seq<UnitS>, b: Seq<UnitS>)
    ensures
        round_units(cat, a + b) == round_units(cat, a) + round_units(cat, b),
        round_factors(a + b) == round_factors(a) + round_factors(b),
    decreases a.len(),
{
    if a.len() == 0 {
        assert(a + b =~= b);
        assert(Seq::<UnitS>::empty() + round_units(cat, b) =~= round_units(cat, b));
        assert(Seq::<FactorS>::empty() + round_factors(b) =~= round_factors(b));
    } else {
        assert((a + b).drop_first() =~= a.drop_first() + b);
        lemma_round_units_concat(cat, a.drop_first(), b);
        assert(step_children(cat, a[0]) + (round_units(cat, a.drop_first()) + round_units(cat, b))
            =~= (step_children(cat, a[0]) + round_units(cat, a.drop_first())) + round_units(
            cat,
            b,
        ));
        assert(step_factors(a[0]) + (round_factors(a.drop_first()) + round_factors(b)) =~= (
        step_factors(a[0]) + round_factors(a.drop_first())) + round_factors(b));
    }
}

/// One round of a one-element work list.
pub proof fn lemma_round_units_one(cat: Seq<UnitS>, p: UnitS)
    ensures
        round_units(cat, seq![p]) == step_children(cat, p),
        round_factors(seq![p]) == step_factors(p),
{
    assert(seq![p].drop_first() =~= Seq::<UnitS>::empty());
    assert(step_children(cat, p) + round_units(cat, seq![p].drop_first()) =~= step_children(
        cat,
        p,
    ));
    assert(step_factors(p) + round_factors(seq![p].drop_first()) =~= step_factors(p));
}

/// The components of element `k` sit in the round's output; when the whole
/// output fits, they fit.
pub proof fn lemma_step_fits(cat: Seq<UnitS>, ws: Seq<UnitS>, k: int)
    requires
        0 <= k < ws.len(),
        units_fit(round_units(cat, ws)),
    ensures
        units_fit(step_children(cat, ws[k])),
{
    assert(ws =~= ws.take(k) + seq![ws[k]] + ws.skip(k + 1));
    lemma_round_units_concat(cat, ws.take(k) + seq![ws[k]], ws.skip(k + 1));
    lemma_round_units_concat(cat, ws.take(k), seq![ws[k]]);
    lemma_round_units_one(cat, ws[k]);
    let a = round_units(cat, ws.take(k));
    let m = step_children(cat, ws[k]);
    let b = round_units(cat, ws.skip(k + 1));
    assert(round_units(cat, ws) == (a + m) + b);
    assert forall|j: int| 0 <= j < m.len() implies unit_fits(#[trigger] m[j]) by {
        assert(((a + m) + b)[a.len() + j] == m[j]);
        assert(unit_fits(round_units(cat, ws)[a.len() + j]));
    }
}

/// Scaled well-formed units are well formed.
pub proof fn lemma_scaled_units_wf(cs: Seq<UnitS>, p: int)
    requires
        units_wf(cs),
    ensures
        units_wf(scaled_units(cs, p)),
{
    assert forall|i: int| 0 <= i < scaled_units(cs, p).len() implies unit_wf(
        #[trigger] scaled_units(cs, p)[i],
    ) by {
        assert(unit_wf(cs[i]));
        assert(scaled_units(cs, p)[i] == scaled_unit(cs[i], p));
        assert forall|j: int| 0 <= j < factors_pow(cs[i].mpl, p).len() implies factor_wf(
            #[trigger] factors_pow(cs[i].mpl, p)[j],
        ) by {
            assert(factor_wf(cs[i].mpl[j]));
        }
    }
}

/// A round of well-formed pending units is well formed, and so are the
/// factors it folds.
pub proof fn lemma_round_wf(cat: Seq<UnitS>, ws: Seq<UnitS>)
    requires
        units_wf(cat),
        units_wf(ws),
    ensures
        units_wf(round_units(cat, ws)),
        factors_wf(round_factors(ws)),
    decreases ws.len(),
{
    broadcast use lemma_find_tag;

    if ws.len() > 0 {
        assert(unit_wf(ws[0]));
        if ws[0].base.len() > 0 {
            lemma_scaled_units_wf(ws[0].base, ws[0].pow);
        } else if find_tag(cat, ws[0].tag) >= 0 {
            assert(unit_wf(cat[find_tag(cat, ws[0].tag)]));
            lemma_scaled_units_wf(cat[find_tag(cat, ws[0].tag)].base, ws[0].pow);
        }
        assert(units_wf(ws.drop_first()));
        lemma_round_wf(cat, ws.drop_first());
        let h = step_children(cat, ws[0]);
        let t = round_units(cat, ws.drop_first());
        assert forall|i: int| 0 <= i < (h + t).len() implies unit_wf(#[trigger] (h + t)[i]) by {
            if i < h.len() {
                assert((h + t)[i] == h[i]);
            } else {
                assert((h + t)[i] == t[i - h.len()]);
            }
        }
        let hf = step_factors(ws[0]);
        let tf = round_factors(ws.drop_first());
        assert forall|i: int| 0 <= i < (hf + tf).len() implies factor_wf(#[trigger] (hf + tf)[i]) by {
            if i < hf.len() {
                assert((hf + tf)[i] == hf[i]);
            } else {
                assert((hf + tf)[i] == tf[i - hf.len()]);
            }
        }
    }
}

/// Every work list of a well-formed expansion is well formed.
pub proof fn lemma_ws_wf(cat: Seq<UnitS>, u: UnitS, n: nat)
    requires
        units_wf(cat),
        unit_wf(u),
    ensures
        units_wf(ws_at(cat, u, n)),
        factors_wf(acc_factors(cat, u, n)),
    decreases n,
{
    if n == 0 {
        assert forall|i: int| 0 <= i < seq![u].len() implies unit_wf(#[trigger] seq![u][i]) by {
            assert(seq![u][i] == u);
        }
    } else {
        lemma_ws_wf(cat, u, (n - 1) as nat);
        lemma_round_wf(cat, ws_at(cat, u, (n - 1) as nat));
        let a = acc_factors(cat, u, (n - 1) as nat);
        let b = round_factors(ws_at(cat, u, (n - 1) as nat));
        assert forall|i: int| 0 <= i < (a + b).len() implies factor_wf(#[trigger] (a + b)[i]) by {
            if i < a.len() {
                assert((a + b)[i] == a[i]);
            } else {
                assert((a + b)[i] == b[i - a.len()]);
            }
        }
    }
}

/// A copy of a component list with the parent exponent `p` propagated onto
/// every component.
fn scaled_units_vec(cs: &Vec<Unit>, p: i64) -> (r: Vec<Unit>)
    requires
        units_fit(scaled_units(units_view(cs@), p as int)),
    ensures
        units_view(r@) == scaled_units(units_view(cs@), p as int),
{
    broadcast use lemma_units_view_len, lemma_units_view_index;

    let ghost target = scaled_units(units_view(cs@), p as int);
    let mut r: Vec<Unit> = Vec::new();
    let mut j: usize = 0;
    while j < cs.len()
        invariant
            j <= cs.len(),
            r@.len() == j,
            forall|t: int|
                0 <= t < j ==> unit_view(#[trigger] r@[t]) == scaled_unit(
                    unit_view(cs@[t]),
                    p as int,
                ),
        decreases cs.len() - j,
    {
        let c = &cs[j];
        proof {
            assert(c@ == units_view(cs@)[j as int]);
            assert(target[j as int] == scaled_unit(c@, p as int));
            assert(unit_fits(scaled_unit(c@, p as int)));
            assert forall|t: int| 0 <= t < c@.mpl.len() implies exp_fits(
                (#[trigger] c@.mpl[t]).exp * p as int,
            ) by {
                let su = scaled_unit(c@, p as int);
                assert(unit_fits(su));
                assert(su.mpl[t] == crate::scale::factor_powed(c@.mpl[t], p as int));
                assert(exp_fits(su.mpl[t].exp));
            }
        }
        let nu = Unit {
            tag: c.tag.clone(),
            mpl: crate::scale::factors_powed_vec(&c.mpl, p),
            pow: c.pow * p,
            base: units_dup(&c.base),
        };
        r.push(nu);
        j = j + 1;
    }
    proof {
        assert forall|t: int| 0 <= t < r@.len() implies units_view(r@)[t] == target[t] by {
            assert(unit_view(r@[t]) == scaled_unit(unit_view(cs@[t]), p as int));
        }
        assert(units_view(r@) =~= target);
    }
    r
}

/// Expands one unit to its atomic closure against the catalog, returning the
/// accumulated scale factor and the atomic units, each still carrying its
/// propagated exponent.
pub fn to_bases(u: &Unit, voc: &Catalog) -> (r: (Vec<Factor>, Vec<Unit>))
    requires
        expansion_ok(voc@, u@),
    ensures
        r.0.deep_view() == to_bases_spec(voc@, u@).0,
        units_view(r.1@) == to_bases_spec(voc@, u@).1,
{
    broadcast use lemma_units_view_len, lemma_units_view_index;

    if u.base.is_empty() {
        proof {
            assert(u@.base.len() == 0);
            assert forall|t: int| 0 <= t < u.mpl.deep_view().len() implies i64::MIN <= (
            #[trigger] u.mpl.deep_view()[t]).exp * u.pow as int <= i64::MAX by {
                assert(exp_fits((u@.mpl[t]).exp * u@.pow));
            }
        }
        let m = crate::scale::factors_powed_vec(&u.mpl, u.pow);
        let d = unit_dup(u);
        let mut atoms: Vec<Unit> = Vec::new();
        atoms.push(d);
        proof {
            assert(units_view(atoms@) =~= seq![u@]);
        }
        return (m, atoms);
    }
    let ghost cat = voc@;
    let ghost u0 = u@;
    let ghost n0 = choose|n: nat| #[trigger] terminal_at(cat, u0, n) && rounds_fit(cat, u0, n);
    proof {
        assert(terminal_at(cat, u0, n0) && rounds_fit(cat, u0, n0));
        lemma_min_rounds(cat, u0, n0);
    }
    let ghost m = min_rounds(cat, u0);
    let mut acc: Vec<Factor> = Vec::new();
    let mut ws: Vec<Unit> = Vec::new();
    ws.push(unit_dup(u));
    let ghost mut i: int = 0;
    proof {
        assert(units_view(ws@) =~= seq![u0]);
        assert(acc.deep_view() =~= acc_factors(cat, u0, 0));
    }
    let mut done = false;
    while !done
        invariant
            0 <= i <= m,
            !done ==> units_view(ws@) == ws_at(cat, u0, i as nat),
            !done ==> acc.deep_view() == acc_factors(cat, u0, i as nat),
            done ==> units_view(ws@) == ws_at(cat, u0, m),
            done ==> acc.deep_view() == acc_factors(cat, u0, (m + 1) as nat),
        decreases m - i + (if done { 0int } else { 1int }),
    {
        let ghost wsv = units_view(ws@);
        proof {
            if i < m {
                assert(units_fit(ws_at(cat, u0, (i + 1) as nat)));
                assert(ws_at(cat, u0, (i + 1) as nat) == round_units(cat, wsv));
            } else {
                assert(terminal_at(cat, u0, i as nat));
            }
            assert(units_fit(round_units(cat, wsv)));
        }
        let mut new_ws: Vec<Unit> = Vec::new();
        let n = ws.len();
        let mut k: usize = 0;
        proof {
            assert(units_view(new_ws@) =~= round_units(cat, wsv.take(0)));
            assert(round_units(cat, wsv.take(0)) =~= Seq::<UnitS>::empty());
            assert(round_factors(wsv.take(0)) =~= Seq::<FactorS>::empty());
            assert(acc.deep_view() =~= acc_factors(cat, u0, i as nat) + round_factors(
                wsv.take(0),
            ));
        }
        while k < n
            invariant
                n == ws@.len(),
                k <= n,
                wsv == units_view(ws@),
                units_fit(round_units(cat, wsv)),
                units_view(new_ws@) == round_units(cat, wsv.take(k as int)),
                acc.deep_view() == acc_factors(cat, u0, i as nat) + round_factors(
                    wsv.take(k as int),
                ),
            decreases n - k,
        {
            let p = &ws[k];
            proof {
                assert(p@ == wsv[k as int]);
                lemma_step_fits(cat, wsv, k as int);
                assert(wsv.take(k + 1 as int) =~= wsv.take(k as int) + seq![wsv[k as int]]);
                lemma_round_units_concat(cat, wsv.take(k as int), seq![wsv[k as int]]);
                lemma_round_units_one(cat, wsv[k as int]);
            }
            if !p.base.is_empty() {
                proof {
                    assert(step_children(cat, p@) == scaled_units(p@.base, p@.pow));
                }
                let mut sc = scaled_units_vec(&p.base, p.pow);
                let ghost pre = new_ws@;
                new_ws.append(&mut sc);
                proof {
                    lemma_units_view_concat(pre, new_ws@.skip(pre.len() as int));
                    assert(new_ws@ =~= pre + new_ws@.skip(pre.len() as int));
                    assert(units_view(new_ws@) =~= round_units(cat, wsv.take(k + 1 as int)));
                    assert(step_factors(p@) =~= Seq::<FactorS>::empty());
                    assert(round_factors(wsv.take(k + 1 as int)) =~= round_factors(
                        wsv.take(k as int),
                    ));
                }
            } else {
                proof {
                    assert(p@.base.len() == 0);
                }
                match voc.resolve(&p.tag) {
                    Some(cu) => {
                        if !cu.base.is_empty() {
                            proof {
                                assert(cu@ == cat[find_tag(cat, p@.tag)]);
                                assert(step_children(cat, p@) == scaled_units(cu@.base, p@.pow));
                            }
                            let mut sc = scaled_units_vec(&cu.base, p.pow);
                            let ghost pre = new_ws@;
                            new_ws.append(&mut sc);
                            proof {
                                lemma_units_view_concat(pre, new_ws@.skip(pre.len() as int));
                                assert(new_ws@ =~= pre + new_ws@.skip(pre.len() as int));
                                assert(units_view(new_ws@) =~= round_units(
                                    cat,
                                    wsv.take(k + 1 as int),
                                ));
                            }
                        } else {
                            proof {
                                assert(cu@ == cat[find_tag(cat, p@.tag)]);
                                assert(step_children(cat, p@) =~= Seq::<UnitS>::empty());
                                assert(units_view(new_ws@) =~= round_units(
                                    cat,
                                    wsv.take(k + 1 as int),
                                ));
                            }
                        }
                    },
                    None => {
                        proof {
                            assert(step_children(cat, p@) =~= Seq::<UnitS>::empty());
                            assert(units_view(new_ws@) =~= round_units(
                                cat,
                                wsv.take(k + 1 as int),
                            ));
                        }
                    },
                }
                let ghost preacc = acc.deep_view();
                crate::scale::factors_extend(&mut acc, &p.mpl);
                proof {
                    assert(step_factors(p@) == p@.mpl);
                    assert(acc.deep_view() =~= acc_factors(cat, u0, i as nat) + round_factors(
                        wsv.take(k + 1 as int),
                    ));
                }
            }
            k = k + 1;
        }
        proof {
            assert(wsv.take(n as int) =~= wsv);
        }
        if new_ws.is_empty() {
            proof {
                assert(round_units(cat, wsv).len() == 0);
                assert(terminal_at(cat, u0, i as nat));
                if i < m {
                    assert(!terminal_at(cat, u0, i as nat));
                }
                assert(i == m);
            }
            done = true;
        } else {
            ws = new_ws;
            proof {
                if i == m {
                    assert(round_units(cat, ws_at(cat, u0, m)).len() == 0);
                }
                assert(i < m);
                i = i + 1;
                assert(units_view(ws@) == ws_at(cat, u0, i as nat));
                assert(acc.deep_view() == acc_factors(cat, u0, i as nat));
            }
        }
    }
    factors_extend_final(&mut acc, u);
    (acc, ws)
}

/// Folds the original unit's own local scale factor into the accumulated
/// multiplier once more.
fn factors_extend_final(acc: &mut Vec<Factor>, u: &Unit)
    ensures
        final(acc).deep_view() == old(acc).deep_view() + u@.mpl,
{
    crate::scale::factors_extend(acc, &u.mpl);
}

/// The scale factors that reduction folds for a sequence of entries: an
/// entry with exponent zero contributes its own local scale factor once, any
/// other entry contributes its expansion's multiplier.
pub open spec fn reduce_factors(cat: Seq<UnitS>, entries: Seq<UnitS>) -> Seq<FactorS>
    decreases entries.len(),
{
    if entries.len() == 0 {
        Seq::empty()
    } else {
        let h = if entries[0].pow == 0 {
            entries[0].mpl
        } else {
            to_bases_spec(cat, entries[0]).0
        };
        h + reduce_factors(cat, entries.drop_first())
    }
}

/// The atomic units that reduction collects: entries with exponent zero
/// contribute none, any other entry contributes its expansion's closure.
pub open spec fn reduce_atoms(cat: Seq<UnitS>, entries: Seq<UnitS>) -> Seq<UnitS>
    decreases entries.len(),
{
    if entries.len() == 0 {
        Seq::empty()
    } else {
        let h = if entries[0].pow == 0 {
            Seq::empty()
        } else {
            to_bases_spec(cat, entries[0]).1
        };
        h + reduce_atoms(cat, entries.drop_first())
    }
}

/// Folds a list of atoms into a signature, one after the other.
pub open spec fn merge_all(s: Seq<UnitS>, atoms: Seq<UnitS>) -> Seq<UnitS>
    decreases atoms.len(),
{
    if atoms.len() == 0 {
        s
    } else {
        merge_all(crate::units::merge_entry(s, atoms[0]), atoms.drop_first())
    }
}

/// Every exponent sum taken while folding the atoms stays within the machine
/// word.
pub open spec fn merge_all_fits(s: Seq<UnitS>, atoms: Seq<UnitS>) -> bool
    decreases atoms.len(),
{
    if atoms.len() == 0 {
        true
    } else {
        let i = find_tag(s, atoms[0].tag);
        &&& (i >= 0 ==> exp_fits(s[i].pow + atoms[0].pow))
        &&& merge_all_fits(crate::units::merge_entry(s, atoms[0]), atoms.drop_first())
    }
}

/// What it takes to reduce a signature: every entry with a nonzero exponent
/// expands, and the exponent sums taken while the collected atoms are folded
/// back together stay within machine bounds.
pub open spec fn reduce_ok(cat: Seq<UnitS>, b: BaseUnitsS) -> bool {
    &&& forall|i: int|
        0 <= i < b.units.len() && (#[trigger] b.units[i]).pow != 0 ==> expansion_ok(
            cat,
            b.units[i],
        )
    &&& merge_all_fits(Seq::empty(), reduce_atoms(cat, b.units))
}

/// What reduction returns: the collected atoms merged by tag into a fresh
/// mapping with zero exponents pruned, and the signature's scale factor
/// multiplied by everything the expansions accumulated.
pub open spec fn reduce_spec(cat: Seq<UnitS>, b: BaseUnitsS) -> BaseUnitsS {
    BaseUnitsS {
        units: merge_all(Seq::empty(), reduce_atoms(cat, b.units)).filter(|u: UnitS| u.pow != 0),
        mpl: b.mpl + reduce_factors(cat, b.units),
    }
}

/// Concatenation distributes over the reduction of entry lists.
pub proof fn lemma_reduce_concat(cat: Seq<UnitS>, a: Seq<UnitS>, b: Seq<UnitS>)
    ensures
        reduce_factors(cat, a + b) == reduce_factors(cat, a) + reduce_factors(cat, b),
        reduce_atoms(cat, a + b) == reduce_atoms(cat, a) + reduce_atoms(cat, b),
    decreases a.len(),
{
    if a.len() == 0 {
        assert(a + b =~= b);
        assert(Seq::<FactorS>::empty() + reduce_factors(cat, b) =~= reduce_factors(cat, b));
        assert(Seq::<UnitS>::empty() + reduce_atoms(cat, b) =~= reduce_atoms(cat, b));
    } else {
        assert((a + b).drop_first() =~= a.drop_first() + b);
        lemma_reduce_concat(cat, a.drop_first(), b);
        let hf = if a[0].pow == 0 {
            a[0].mpl
        } else {
            to_bases_spec(cat, a[0]).0
        };
        let ha = if a[0].pow == 0 {
            Seq::<UnitS>::empty()
        } else {
            to_bases_spec(cat, a[0]).1
        };
        assert(hf + (reduce_factors(cat, a.drop_first()) + reduce_factors(cat, b)) =~= (hf
            + reduce_factors(cat, a.drop_first())) + reduce_factors(cat, b));
        assert(ha + (reduce_atoms(cat, a.drop_first()) + reduce_atoms(cat, b)) =~= (ha
            + reduce_atoms(cat, a.drop_first())) + reduce_atoms(cat, b));
    }
}

/// The reduction of a one-entry list.
pub proof fn lemma_reduce_one(cat: Seq<UnitS>, u: UnitS)
    ensures
        reduce_factors(cat, seq![u]) == if u.pow == 0 {
            u.mpl
        } else {
            to_bases_spec(cat, u).0
        },
        reduce_atoms(cat, seq![u]) == if u.pow == 0 {
            Seq::<UnitS>::empty()
        } else {
            to_bases_spec(cat, u).1
        },
{
    assert(seq![u].drop_first() =~= Seq::<UnitS>::empty());
    let hf = if u.pow == 0 {
        u.mpl
    } else {
        to_bases_spec(cat, u).0
    };
    let ha = if u.pow == 0 {
        Seq::<UnitS>::empty()
    } else {
        to_bases_spec(cat, u).1
    };
    assert(hf + reduce_factors(cat, seq![u].drop_first()) =~= hf);
    assert(ha + reduce_atoms(cat, seq![u].drop_first()) =~= ha);
}

/// Folding one more atom merges it into the accumulated signature.
pub proof fn lemma_merge_all_push(s: Seq<UnitS>, atoms: Seq<UnitS>, x: UnitS)
    ensures
        merge_all(s, atoms.push(x)) == crate::units::merge_entry(merge_all(s, atoms), x),
    decreases atoms.len(),
{
    if atoms.len() == 0 {
        assert(atoms.push(x).drop_first() =~= Seq::<UnitS>::empty());
        assert(atoms.push(x)[0] == x);
        assert(merge_all(s, atoms.push(x)) == merge_all(
            crate::units::merge_entry(s, x),
            Seq::<UnitS>::empty(),
        ));
    } else {
        assert(atoms.push(x).drop_first() =~= atoms.drop_first().push(x));
        assert(atoms.push(x)[0] == atoms[0]);
        lemma_merge_all_push(crate::units::merge_entry(s, atoms[0]), atoms.drop_first(), x);
        assert(merge_all(s, atoms.push(x)) == merge_all(
            crate::units::merge_entry(s, atoms[0]),
            atoms.drop_first().push(x),
        ));
        assert(merge_all(s, atoms) == merge_all(
            crate::units::merge_entry(s, atoms[0]),
            atoms.drop_first(),
        ));
    }
}

/// Expands every entry of `entries`, folding the multipliers into `acc` and
/// returning the collected atomic units.
#[verifier::rlimit(100)]
fn collect_expansions(units: &Vec<Unit>, voc: &Catalog, acc: &mut Vec<Factor>) -> (atoms: Vec<
    Unit,
>)
    requires
        forall|i: int|
            0 <= i < units_view(units@).len() && (#[trigger] units_view(units@)[i]).pow != 0
                ==> expansion_ok(voc@, units_view(units@)[i]),
    ensures
        final(acc).deep_view() == old(acc).deep_view() + reduce_factors(
            voc@,
            units_view(units@),
        ),
        units_view(atoms@) == reduce_atoms(voc@, units_view(units@)),
{
    broadcast use lemma_units_view_len, lemma_units_view_index;

    let ghost cat = voc@;
    let ghost uv = units_view(units@);
    let mut atoms: Vec<Unit> = Vec::new();
    let n = units.len();
    let mut i: usize = 0;
    proof {
        assert(uv.take(0) =~= Seq::<UnitS>::empty());
        assert(acc.deep_view() =~= old(acc).deep_view() + reduce_factors(cat, uv.take(0)));
        assert(units_view(atoms@) =~= reduce_atoms(cat, uv.take(0)));
    }
    while i < n
        invariant
            n == units@.len(),
            uv == units_view(units@),
            acc.deep_view() == old(acc).deep_view() + reduce_factors(cat, uv.take(i as int)),
            units_view(atoms@) == reduce_atoms(cat, uv.take(i as int)),
            i <= n,
        decreases n - i,
    {
        let u = &units[i];
        proof {
            assert(u@ == uv[i as int]);
            assert(uv.take(i + 1 as int) =~= uv.take(i as int) + seq![uv[i as int]]);
            lemma_reduce_concat(cat, uv.take(i as int), seq![uv[i as int]]);
            lemma_reduce_one(cat, uv[i as int]);
        }
        if u.pow == 0 {
            crate::scale::factors_extend(acc, &u.mpl);
            proof {
                assert(acc.deep_view() =~= old(acc).deep_view() + reduce_factors(
                    cat,
                    uv.take(i + 1 as int),
                ));
                assert(units_view(atoms@) =~= reduce_atoms(cat, uv.take(i + 1 as int)));
            }
        } else {
            proof {
                assert(expansion_ok(cat, uv[i as int]));
            }
            let (m, mut bu) = to_bases(u, voc);
            crate::scale::factors_extend(acc, &m);
            let ghost pre = atoms@;
            atoms.append(&mut bu);
            proof {
                lemma_units_view_concat(pre, atoms@.skip(pre.len() as int));
                assert(atoms@ =~= pre + atoms@.skip(pre.len() as int));
                assert(acc.deep_view() =~= old(acc).deep_view() + reduce_factors(
                    cat,
                    uv.take(i + 1 as int),
                ));
                assert(units_view(atoms@) =~= reduce_atoms(cat, uv.take(i + 1 as int)));
            }
        }
        i = i + 1;
    }
    proof {
        assert(uv.take(n as int) =~= uv);
    }
    atoms
}

impl crate::units::BaseUnits {
    /// Folds a list of atomic units into this signature, one after the other.
    #[verifier::rlimit(50)]
    pub(crate) fn merge_atoms(&mut self, atoms: &Vec<Unit>)
        requires
            merge_all_fits(old(self)@.units, units_view(atoms@)),
        ensures
            final(self)@.units == merge_all(old(self)@.units, units_view(atoms@)),
            final(self)@.mpl == old(self)@.mpl,
    {
        broadcast use lemma_units_view_len, lemma_units_view_index;

        let ghost av = units_view(atoms@);
        let ghost s0 = old(self)@.units;
        let na = atoms.len();
        let mut k: usize = 0;
        proof {
            assert(av.take(0) =~= Seq::<UnitS>::empty());
            assert(av.skip(0) =~= av);
            assert(units_view(self.units@) =~= merge_all(s0, av.take(0)));
        }
        while k < na
            invariant
                na == atoms@.len(),
                av == units_view(atoms@),
                k <= na,
                units_view(self.units@) == merge_all(s0, av.take(k as int)),
                self@.mpl == old(self)@.mpl,
                merge_all_fits(merge_all(s0, av.take(k as int)), av.skip(k as int)),
            decreases na - k,
        {
            let a = &atoms[k];
            proof {
                assert(a@ == av[k as int]);
                assert(av.take(k + 1 as int) =~= av.take(k as int).push(av[k as int]));
                lemma_merge_all_push(s0, av.take(k as int), av[k as int]);
                assert(av.skip(k as int)[0] == av[k as int]);
                assert(av.skip(k as int).drop_first() =~= av.skip(k + 1 as int));
            }
            self.merge_base_one_ref(a);
            k = k + 1;
        }
        proof {
            assert(av.take(na as int) =~= av);
        }
    }

    /// Canonicalizes the signature: every entry is expanded to its atomic
    /// closure, the closures are merged by tag, entries whose exponents
    /// cancelled to zero are pruned, and the accumulated scale factor is
    /// folded into the signature's own.
    pub fn reduce(self, voc: &Catalog) -> (r: Self)
        requires
            reduce_ok(voc@, self@),
        ensures
            r@ == reduce_spec(voc@, self@),
    {
        broadcast use lemma_units_view_len, lemma_units_view_index;

        let ghost cat = voc@;
        let ghost b0 = self@;
        let BaseUnits { units, mpl } = self;
        let mut acc: Vec<Factor> = mpl;
        let atoms = collect_expansions(&units, voc, &mut acc);
        let mut out = BaseUnits { units: Vec::new(), mpl: acc };
        proof {
            assert(units_view(out.units@) =~= Seq::<UnitS>::empty());
            assert(out@.units =~= Seq::<UnitS>::empty());
        }
        out.merge_atoms(&atoms);
        out.exclude_zero_powered();
        out
    }
}

} // verus!
