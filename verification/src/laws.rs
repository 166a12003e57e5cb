//! The laws of the unit algebra, stated and proved over the same spec
//! functions that the executable functions' contracts use.

use crate::expand::{
    lemma_min_rounds, lemma_round_units_concat, lemma_round_units_one, merge_all, min_rounds,
    reduce_atoms, reduce_factors, reduce_spec, round_units, scaled_units, step_children,
    terminal_at, to_bases_spec, ws_at,
};
use crate::ast::ExprS;
use crate::folder::{bu_empty, fold_expr_s};
use crate::scale::{
    factors_inv, factors_pow, lemma_scale_concat, lemma_scale_inv, scale_den, scale_eq, scale_num,
    FactorS,
};
use crate::units::{
    add_parsed_spec, coherent, coherent_at, find_tag, has_tag, lemma_find_tag, merge_entry,
    tags_unique, BaseUnitsS, ParsedUnitS, UnitS,
};
use vstd::prelude::*;

verus! {

/// The expansion of `u` reaches its fixed point (with no regard to machine
/// bounds): true of every unit under an acyclic catalog.
pub open spec fn expansion_terminates(cat: Seq<UnitS>, u: UnitS) -> bool {
    u.base.len() == 0 || exists|n: nat| #[trigger] terminal_at(cat, u, n)
}

/// Every entry of the signature that reduction expands reaches its fixed
/// point.
pub open spec fn reduce_terminates(cat: Seq<UnitS>, b: BaseUnitsS) -> bool {
    forall|i: int|
        0 <= i < b.units.len() && (#[trigger] b.units[i]).pow != 0 ==> expansion_terminates(
            cat,
            b.units[i],
        )
}

/// All entries are atomic: no inline decomposition is left.
pub open spec fn all_atomic(s: Seq<UnitS>) -> bool {
    forall|i: int| 0 <= i < s.len() ==> (#[trigger] s[i]).base.len() == 0
}

/// When a round produces no components, every pending unit was atomic.
proof fn lemma_terminal_elements(cat: Seq<UnitS>, ws: Seq<UnitS>)
    requires
        round_units(cat, ws).len() == 0,
    ensures
        all_atomic(ws),
{
    assert forall|i: int| 0 <= i < ws.len() implies (#[trigger] ws[i]).base.len() == 0 by {
        if ws[i].base.len() > 0 {
            assert(ws =~= ws.take(i) + seq![ws[i]] + ws.skip(i + 1));
            lemma_round_units_concat(cat, ws.take(i) + seq![ws[i]], ws.skip(i + 1));
            lemma_round_units_concat(cat, ws.take(i), seq![ws[i]]);
            lemma_round_units_one(cat, ws[i]);
            assert(step_children(cat, ws[i]).len() == scaled_units(ws[i].base, ws[i].pow).len());
        }
    }
}

/// The atomic closure an expansion returns holds only atomic units.
proof fn lemma_expansion_atoms_atomic(cat: Seq<UnitS>, u: UnitS)
    requires
        expansion_terminates(cat, u),
    ensures
        all_atomic(to_bases_spec(cat, u).1),
{
    if u.base.len() == 0 {
        assert forall|i: int| 0 <= i < seq![u].len() implies (#[trigger] seq![u][i]).base.len()
            == 0 by {
            assert(seq![u][i] == u);
        }
    } else {
        let n = choose|n: nat| #[trigger] terminal_at(cat, u, n);
        lemma_min_rounds(cat, u, n);
        lemma_terminal_elements(cat, ws_at(cat, u, min_rounds(cat, u)));
    }
}

/// Everything reduction collects is atomic.
proof fn lemma_reduce_atoms_atomic(cat: Seq<UnitS>, entries: Seq<UnitS>)
    requires
        forall|i: int|
            0 <= i < entries.len() && (#[trigger] entries[i]).pow != 0 ==> expansion_terminates(
                cat,
                entries[i],
            ),
    ensures
        all_atomic(reduce_atoms(cat, entries)),
    decreases entries.len(),
{
    if entries.len() > 0 {
        let h = if entries[0].pow == 0 {
            Seq::<UnitS>::empty()
        } else {
            to_bases_spec(cat, entries[0]).1
        };
        if entries[0].pow != 0 {
            lemma_expansion_atoms_atomic(cat, entries[0]);
        }
        assert(forall|i: int|
            0 <= i < entries.drop_first().len() && (#[trigger] entries.drop_first()[i]).pow != 0
                ==> expansion_terminates(cat, entries.drop_first()[i]));
        lemma_reduce_atoms_atomic(cat, entries.drop_first());
        let t = reduce_atoms(cat, entries.drop_first());
        assert forall|i: int| 0 <= i < (h + t).len() implies (#[trigger] (h + t)[i]).base.len()
            == 0 by {
            if i < h.len() {
                assert((h + t)[i] == h[i]);
            } else {
                assert((h + t)[i] == t[i - h.len()]);
            }
        }
    }
}

/// Merging atoms into a signature keeps every entry atomic, keeps tags
/// unique, and introduces no tag that neither side carried.
proof fn lemma_merge_all_shape(s: Seq<UnitS>, atoms: Seq<UnitS>)
    requires
        tags_unique(s),
        all_atomic(s),
        all_atomic(atoms),
    ensures
        tags_unique(merge_all(s, atoms)),
        all_atomic(merge_all(s, atoms)),
    decreases atoms.len(),
{
    broadcast use lemma_find_tag;

    if atoms.len() > 0 {
        let m = merge_entry(s, atoms[0]);
        let i = find_tag(s, atoms[0].tag);
        if i >= 0 {
            assert forall|a: int, b: int| 0 <= a < b < m.len() implies (#[trigger] m[a]).tag != (
            #[trigger] m[b]).tag by {
                assert(m[a].tag == s[a].tag);
                assert(m[b].tag == s[b].tag);
            }
            assert(all_atomic(m));
        } else {
            assert forall|a: int, b: int| 0 <= a < b < m.len() implies (#[trigger] m[a]).tag != (
            #[trigger] m[b]).tag by {
                if b == s.len() {
                    assert(m[a] == s[a]);
                    assert(m[b] == atoms[0]);
                    assert(s[a].tag != atoms[0].tag);
                } else {
                    assert(m[a] == s[a] && m[b] == s[b]);
                }
            }
            assert forall|a: int| 0 <= a < m.len() implies (#[trigger] m[a]).base.len() == 0 by {
                if a < s.len() {
                    assert(m[a] == s[a]);
                } else {
                    assert(m[a] == atoms[0]);
                }
            }
        }
        assert(all_atomic(atoms.drop_first()));
        lemma_merge_all_shape(m, atoms.drop_first());
    }
}

/// Filtering keeps the elements of the original.
proof fn lemma_filter_sub(s: Seq<UnitS>, pred: spec_fn(UnitS) -> bool, i: int)
    requires
        0 <= i < s.filter(pred).len(),
    ensures
        s.contains(s.filter(pred)[i]),
    decreases s.len(),
{
    reveal(Seq::filter);
    if s.len() > 0 {
        let f = s.filter(pred);
        let fd = s.drop_last().filter(pred);
        if pred(s.last()) {
            if i < fd.len() {
                lemma_filter_sub(s.drop_last(), pred, i);
                let w = choose|k: int| 0 <= k < s.drop_last().len() && s.drop_last()[k] == fd[i];
                assert(s[w] == fd[i]);
            } else {
                assert(f[i] == s.last());
                assert(s[s.len() - 1] == s.last());
            }
        } else {
            lemma_filter_sub(s.drop_last(), pred, i);
            let w = choose|k: int| 0 <= k < s.drop_last().len() && s.drop_last()[k] == fd[i];
            assert(s[w] == fd[i]);
        }
    }
}

/// Filtering a uniquely tagged sequence keeps the tags unique, and keeps
/// every entry's shape.
proof fn lemma_filter_shape(s: Seq<UnitS>, pred: spec_fn(UnitS) -> bool)
    requires
        tags_unique(s),
    ensures
        tags_unique(s.filter(pred)),
        all_atomic(s) ==> all_atomic(s.filter(pred)),
    decreases s.len(),
{
    reveal(Seq::filter);
    if s.len() > 0 {
        assert forall|a: int, b: int| 0 <= a < b < s.drop_last().len() implies (
        #[trigger] s.drop_last()[a]).tag != (#[trigger] s.drop_last()[b]).tag by {
            assert(s.drop_last()[a] == s[a] && s.drop_last()[b] == s[b]);
        }
        lemma_filter_shape(s.drop_last(), pred);
        let f = s.filter(pred);
        let fd = s.drop_last().filter(pred);
        if pred(s.last()) {
            assert(f == fd.push(s.last()));
            assert forall|a: int, b: int| 0 <= a < b < f.len() implies (#[trigger] f[a]).tag != (
            #[trigger] f[b]).tag by {
                if b == fd.len() {
                    lemma_filter_sub(s.drop_last(), pred, a);
                    let w = choose|k: int|
                        0 <= k < s.drop_last().len() && s.drop_last()[k] == fd[a];
                    assert(s[w] == f[a]);
                    assert(s[w].tag != s[s.len() - 1].tag);
                } else {
                    assert(f[a] == fd[a] && f[b] == fd[b]);
                }
            }
        }
        if all_atomic(s) {
            assert forall|a: int| 0 <= a < f.len() implies (#[trigger] f[a]).base.len() == 0 by {
                lemma_filter_sub(s, pred, a);
                let w = choose|k: int| 0 <= k < s.len() && s[k] == f[a];
            }
        }
    }
}

/// Reduction of atomic entries with nonzero exponents returns them as they
/// are.
proof fn lemma_reduce_atoms_identity(cat: Seq<UnitS>, entries: Seq<UnitS>)
    requires
        all_atomic(entries),
        forall|i: int| 0 <= i < entries.len() ==> (#[trigger] entries[i]).pow != 0,
    ensures
        reduce_atoms(cat, entries) == entries,
    decreases entries.len(),
{
    if entries.len() > 0 {
        assert(entries[0].base.len() == 0);
        assert(to_bases_spec(cat, entries[0]).1 == seq![entries[0]]);
        assert(all_atomic(entries.drop_first()));
        lemma_reduce_atoms_identity(cat, entries.drop_first());
        assert(seq![entries[0]] + entries.drop_first() =~= entries);
    }
}

/// Merging uniquely tagged atoms into a signature that shares no tag with
/// them appends them unchanged.
proof fn lemma_merge_all_distinct(s: Seq<UnitS>, atoms: Seq<UnitS>)
    requires
        tags_unique(atoms),
        forall|i: int| 0 <= i < atoms.len() ==> !has_tag(s, (#[trigger] atoms[i]).tag),
    ensures
        merge_all(s, atoms) == s + atoms,
    decreases atoms.len(),
{
    broadcast use lemma_find_tag;

    if atoms.len() == 0 {
        assert(s + atoms =~= s);
    } else {
        assert(!has_tag(s, atoms[0].tag));
        let m = merge_entry(s, atoms[0]);
        assert(m == s.push(atoms[0]));
        assert forall|i: int| 0 <= i < atoms.drop_first().len() implies !has_tag(
            m,
            (#[trigger] atoms.drop_first()[i]).tag,
        ) by {
            assert(atoms.drop_first()[i] == atoms[i + 1]);
            if has_tag(m, atoms[i + 1].tag) {
                let k = find_tag(m, atoms[i + 1].tag);
                assert(m[k].tag == atoms[i + 1].tag);
                if k < s.len() {
                    assert(m[k] == s[k]);
                    assert(has_tag(s, atoms[i + 1].tag)) by {
                        lemma_find_tag_present(s, k);
                    }
                } else {
                    assert(m[k] == atoms[0]);
                }
            }
        }
        assert forall|a: int, b: int| 0 <= a < b < atoms.drop_first().len() implies (
        #[trigger] atoms.drop_first()[a]).tag != (#[trigger] atoms.drop_first()[b]).tag by {
            assert(atoms.drop_first()[a] == atoms[a + 1] && atoms.drop_first()[b] == atoms[b + 1]);
        }
        lemma_merge_all_distinct(m, atoms.drop_first());
        assert(s.push(atoms[0]) + atoms.drop_first() =~= s + atoms);
    }
}

/// A tag that stands at some position is found.
proof fn lemma_find_tag_present(s: Seq<UnitS>, k: int)
    requires
        0 <= k < s.len(),
    ensures
        has_tag(s, s[k].tag),
{
    broadcast use lemma_find_tag;

    if find_tag(s, s[k].tag) < 0 {
        assert(s[k].tag != s[k].tag);
    }
}

/// A sequence whose elements all satisfy the predicate filters to itself.
proof fn lemma_filter_all(s: Seq<UnitS>, pred: spec_fn(UnitS) -> bool)
    requires
        forall|i: int| 0 <= i < s.len() ==> pred(#[trigger] s[i]),
    ensures
        s.filter(pred) == s,
    decreases s.len(),
{
    reveal(Seq::filter);
    if s.len() > 0 {
        assert forall|i: int| 0 <= i < s.drop_last().len() implies pred(
            #[trigger] s.drop_last()[i],
        ) by {
            assert(s.drop_last()[i] == s[i]);
        }
        lemma_filter_all(s.drop_last(), pred);
        assert(pred(s.last()));
        assert(s.drop_last().push(s.last()) =~= s);
    }
}

/// A reduced signature is a well-formed mapping: its tags are unique, its
/// entries are atomic, and every exponent is nonzero.  This is what makes the
/// coherence test meaningful on reduced signatures.
pub proof fn lemma_reduce_shape(cat: Seq<UnitS>, b: BaseUnitsS)
    requires
        reduce_terminates(cat, b),
    ensures
        tags_unique(reduce_spec(cat, b).units),
        all_atomic(reduce_spec(cat, b).units),
        forall|i: int|
            0 <= i < reduce_spec(cat, b).units.len() ==> (#[trigger] reduce_spec(
                cat,
                b,
            ).units[i]).pow != 0,
{
    let pred = |u: UnitS| u.pow != 0;
    let atoms = reduce_atoms(cat, b.units);
    let merged = merge_all(Seq::empty(), atoms);
    lemma_reduce_atoms_atomic(cat, b.units);
    lemma_merge_all_shape(Seq::empty(), atoms);
    lemma_filter_shape(merged, pred);
    assert forall|i: int| 0 <= i < reduce_spec(cat, b).units.len() implies (
    #[trigger] reduce_spec(cat, b).units[i]).pow != 0 by {
        merged.lemma_filter_pred(pred, i);
    }
}

/// Idempotence of reduction, dimensional part: reducing a reduced signature
/// leaves its entries untouched, for every signature whose expansions reach
/// their fixed points.  (The scale factor of a twice-reduced signature can
/// differ: an atom that came out of the first reduction carrying a scale
/// factor and an exponent other than one counts that factor again.)
pub proof fn lemma_reduce_idempotent_units(cat: Seq<UnitS>, b: BaseUnitsS)
    requires
        reduce_terminates(cat, b),
    ensures
        reduce_spec(cat, reduce_spec(cat, b)).units == reduce_spec(cat, b).units,
{
    let pred = |u: UnitS| u.pow != 0;
    let atoms = reduce_atoms(cat, b.units);
    let merged = merge_all(Seq::empty(), atoms);
    let units1 = merged.filter(pred);
    lemma_reduce_atoms_atomic(cat, b.units);
    lemma_merge_all_shape(Seq::empty(), atoms);
    lemma_filter_shape(merged, pred);
    assert(all_atomic(units1)) by {
        lemma_filter_shape(merged, pred);
    }
    assert forall|i: int| 0 <= i < units1.len() implies (#[trigger] units1[i]).pow != 0 by {
        merged.lemma_filter_pred(pred, i);
    }
    lemma_reduce_atoms_identity(cat, units1);
    assert forall|i: int| 0 <= i < units1.len() implies !has_tag(
        Seq::<UnitS>::empty(),
        (#[trigger] units1[i]).tag,
    ) by {}
    lemma_merge_all_distinct(Seq::empty(), units1);
    assert(Seq::<UnitS>::empty() + units1 =~= units1);
    lemma_filter_all(units1, pred);
}

/// Idempotence of reduction, in full, for a pure dimensional signature: when
/// every entry is atomic and carries no local scale factor, a second
/// reduction changes nothing at all.
pub proof fn lemma_reduce_idempotent(cat: Seq<UnitS>, b: BaseUnitsS)
    requires
        tags_unique(b.units),
        all_atomic(b.units),
        forall|i: int| 0 <= i < b.units.len() ==> (#[trigger] b.units[i]).mpl == Seq::<
            FactorS,
        >::empty(),
    ensures
        reduce_spec(cat, reduce_spec(cat, b)) == reduce_spec(cat, b),
{
    let pred = |u: UnitS| u.pow != 0;
    lemma_reduce_idempotent_units(cat, b);
    let r1 = reduce_spec(cat, b);
    lemma_reduce_pure(cat, b.units);
    assert(reduce_factors(cat, b.units) == Seq::<FactorS>::empty());
    assert(r1.mpl =~= b.mpl);
    let atoms = reduce_atoms(cat, b.units);
    lemma_reduce_atoms_atomic(cat, b.units);
    lemma_merge_all_shape(Seq::empty(), atoms);
    lemma_filter_shape(merge_all(Seq::empty(), atoms), pred);
    assert forall|i: int| 0 <= i < r1.units.len() implies (#[trigger] r1.units[i]).pow != 0 by {
        merge_all(Seq::empty(), atoms).lemma_filter_pred(pred, i);
    }
    assert forall|i: int| 0 <= i < r1.units.len() implies (#[trigger] r1.units[i]).mpl == Seq::<
        FactorS,
    >::empty() by {
        lemma_filter_sub(merge_all(Seq::empty(), atoms), pred, i);
        let w = choose|k: int|
            0 <= k < merge_all(Seq::empty(), atoms).len() && merge_all(Seq::empty(), atoms)[k]
                == r1.units[i];
        lemma_merge_pure(cat, b.units);
    }
    lemma_reduce_pure(cat, r1.units);
    assert(reduce_spec(cat, r1).mpl =~= r1.mpl);
}

/// Reducing atomic entries with no local scale factors folds no factors, and
/// the merged signature's entries carry none either.
proof fn lemma_reduce_pure(cat: Seq<UnitS>, entries: Seq<UnitS>)
    requires
        all_atomic(entries),
        forall|i: int| 0 <= i < entries.len() ==> (#[trigger] entries[i]).mpl == Seq::<
            FactorS,
        >::empty(),
    ensures
        reduce_factors(cat, entries) == Seq::<FactorS>::empty(),
    decreases entries.len(),
{
    if entries.len() > 0 {
        let h = if entries[0].pow == 0 {
            entries[0].mpl
        } else {
            to_bases_spec(cat, entries[0]).0
        };
        assert(entries[0].base.len() == 0);
        if entries[0].pow != 0 {
            assert(h == factors_pow(entries[0].mpl, entries[0].pow));
            assert(h =~= Seq::<FactorS>::empty());
        }
        assert(all_atomic(entries.drop_first()));
        lemma_reduce_pure(cat, entries.drop_first());
        assert(h + reduce_factors(cat, entries.drop_first()) =~= Seq::<FactorS>::empty());
    }
}

/// Atoms merged out of entries that carry no local scale factors carry none.
proof fn lemma_merge_pure(cat: Seq<UnitS>, entries: Seq<UnitS>)
    requires
        all_atomic(entries),
        forall|i: int| 0 <= i < entries.len() ==> (#[trigger] entries[i]).mpl == Seq::<
            FactorS,
        >::empty(),
    ensures
        forall|i: int|
            0 <= i < merge_all(Seq::empty(), reduce_atoms(cat, entries)).len() ==> (
            #[trigger] merge_all(Seq::empty(), reduce_atoms(cat, entries))[i]).mpl == Seq::<
                FactorS,
            >::empty(),
{
    let atoms = reduce_atoms(cat, entries);
    lemma_reduce_atoms_pure(cat, entries);
    lemma_merge_all_pure(Seq::empty(), atoms);
}

/// Atoms collected from scale-free atomic entries are scale-free.
proof fn lemma_reduce_atoms_pure(cat: Seq<UnitS>, entries: Seq<UnitS>)
    requires
        all_atomic(entries),
        forall|i: int| 0 <= i < entries.len() ==> (#[trigger] entries[i]).mpl == Seq::<
            FactorS,
        >::empty(),
    ensures
        forall|i: int|
            0 <= i < reduce_atoms(cat, entries).len() ==> (#[trigger] reduce_atoms(
                cat,
                entries,
            )[i]).mpl == Seq::<FactorS>::empty(),
    decreases entries.len(),
{
    if entries.len() > 0 {
        let h = if entries[0].pow == 0 {
            Seq::<UnitS>::empty()
        } else {
            to_bases_spec(cat, entries[0]).1
        };
        assert(entries[0].base.len() == 0);
        assert(all_atomic(entries.drop_first()));
        lemma_reduce_atoms_pure(cat, entries.drop_first());
        let t = reduce_atoms(cat, entries.drop_first());
        assert forall|i: int| 0 <= i < (h + t).len() implies (#[trigger] (h + t)[i]).mpl == Seq::<
            FactorS,
        >::empty() by {
            if i < h.len() {
                assert((h + t)[i] == h[i]);
                assert(h[0] == entries[0]);
            } else {
                assert((h + t)[i] == t[i - h.len()]);
            }
        }
    }
}

/// Merging scale-free atoms concatenates scale-free local factors.
proof fn lemma_merge_all_pure(s: Seq<UnitS>, atoms: Seq<UnitS>)
    requires
        forall|i: int|
            0 <= i < s.len() ==> (#[trigger] s[i]).mpl == Seq::<FactorS>::empty(),
        forall|i: int|
            0 <= i < atoms.len() ==> (#[trigger] atoms[i]).mpl == Seq::<FactorS>::empty(),
    ensures
        forall|i: int|
            0 <= i < merge_all(s, atoms).len() ==> (#[trigger] merge_all(s, atoms)[i]).mpl
                == Seq::<FactorS>::empty(),
    decreases atoms.len(),
{
    broadcast use lemma_find_tag;

    if atoms.len() > 0 {
        let m = merge_entry(s, atoms[0]);
        let k = find_tag(s, atoms[0].tag);
        assert forall|i: int| 0 <= i < m.len() implies (#[trigger] m[i]).mpl == Seq::<
            FactorS,
        >::empty() by {
            if k >= 0 {
                if i == k {
                    assert(m[i].mpl == s[k].mpl + atoms[0].mpl);
                    assert(m[i].mpl =~= Seq::<FactorS>::empty());
                } else {
                    assert(m[i] == s[i]);
                }
            } else {
                if i < s.len() {
                    assert(m[i] == s[i]);
                } else {
                    assert(m[i] == atoms[0]);
                }
            }
        }
        assert forall|i: int| 0 <= i < atoms.drop_first().len() implies (
        #[trigger] atoms.drop_first()[i]).mpl == Seq::<FactorS>::empty() by {
            assert(atoms.drop_first()[i] == atoms[i + 1]);
        }
        lemma_merge_all_pure(m, atoms.drop_first());
        assert(merge_all(s, atoms) == merge_all(m, atoms.drop_first()));
    }
}

/// Exponent additivity: folding two occurrences of one tag into a fresh
/// signature leaves one entry whose exponent is the sum of the two, and a sum
/// of zero is pruned away by reduction.
pub proof fn lemma_exponent_additivity(
    cat: Seq<UnitS>,
    pt: Seq<(Seq<char>, int)>,
    u1: ParsedUnitS,
    u2: ParsedUnitS,
)
    requires
        u1.tag == u2.tag,
        !u1.den,
        !u2.den,
        add_parsed_spec(bu_empty(), cat, pt, u1) is Ok,
        add_parsed_spec(
            add_parsed_spec(bu_empty(), cat, pt, u1)->Ok_0,
            cat,
            pt,
            u2,
        ) is Ok,
    ensures
        ({
            let b2 = add_parsed_spec(
                add_parsed_spec(bu_empty(), cat, pt, u1)->Ok_0,
                cat,
                pt,
                u2,
            )->Ok_0;
            b2.units.len() == 1 && b2.units[0].tag == u1.tag && b2.units[0].pow == u1.pow + u2.pow
                && (u1.pow + u2.pow == 0 ==> reduce_spec(cat, b2).units == Seq::<UnitS>::empty())
        }),
{
    broadcast use lemma_find_tag;

    let b1 = add_parsed_spec(bu_empty(), cat, pt, u1)->Ok_0;
    let ci = find_tag(cat, u1.tag);
    assert(ci >= 0);
    assert(cat[ci].tag == u1.tag);
    assert(find_tag(bu_empty().units, u1.tag) == -1);
    assert(b1.units.len() == 1 && b1.units[0].tag == u1.tag && b1.units[0].pow == u1.pow);
    let b2 = add_parsed_spec(b1, cat, pt, u2)->Ok_0;
    assert(find_tag(b1.units, u2.tag) == 0);
    assert(b2.units.len() == 1 && b2.units[0].tag == u1.tag && b2.units[0].pow == u1.pow + u2.pow);
    if u1.pow + u2.pow == 0 {
        assert(reduce_atoms(cat, b2.units) =~= Seq::<UnitS>::empty()) by {
            assert(b2.units[0].pow == 0);
            assert(b2.units.drop_first() =~= Seq::<UnitS>::empty());
            assert(reduce_atoms(cat, b2.units.drop_first()) == Seq::<UnitS>::empty());
        }
        assert(merge_all(Seq::empty(), Seq::<UnitS>::empty()) == Seq::<UnitS>::empty());
        reveal(Seq::filter);
        assert(reduce_spec(cat, b2).units =~= Seq::<UnitS>::empty());
    }
}

/// Denominator inversion: a denominator occurrence yields the negated
/// exponent and the exact reciprocal of the scale factor that the occurrence
/// written in the numerator would yield.
pub proof fn lemma_denominator_inversion(
    cat: Seq<UnitS>,
    pt: Seq<(Seq<char>, int)>,
    u: ParsedUnitS,
)
    requires
        !u.den,
        add_parsed_spec(bu_empty(), cat, pt, u) is Ok,
    ensures
        add_parsed_spec(bu_empty(), cat, pt, ParsedUnitS { den: true, ..u }) is Ok,
        ({
            let en = add_parsed_spec(bu_empty(), cat, pt, u)->Ok_0.units[0];
            let ed = add_parsed_spec(
                bu_empty(),
                cat,
                pt,
                ParsedUnitS { den: true, ..u },
            )->Ok_0.units[0];
            &&& ed.pow == -en.pow
            &&& ed.mpl == factors_inv(en.mpl)
            &&& scale_num(ed.mpl) == scale_den(en.mpl)
            &&& scale_den(ed.mpl) == scale_num(en.mpl)
        }),
{
    broadcast use lemma_find_tag;

    let ud = ParsedUnitS { den: true, ..u };
    let ci = find_tag(cat, u.tag);
    assert(ci >= 0);
    assert(find_tag(bu_empty().units, u.tag) == -1);
    let en = add_parsed_spec(bu_empty(), cat, pt, u)->Ok_0.units[0];
    let ed = add_parsed_spec(bu_empty(), cat, pt, ud)->Ok_0.units[0];
    lemma_scale_inv(en.mpl);
}

/// Coherence is symmetric, for signatures whose tags are unique.
pub proof fn lemma_coherence_symmetry(a: Seq<UnitS>, b: Seq<UnitS>)
    requires
        tags_unique(a),
        tags_unique(b),
    ensures
        coherent(a, b) == coherent(b, a),
{
    if coherent(a, b) {
        lemma_coherence_one_way(a, b);
    }
    if coherent(b, a) {
        lemma_coherence_one_way(b, a);
    }
}

proof fn lemma_coherence_one_way(a: Seq<UnitS>, b: Seq<UnitS>)
    requires
        tags_unique(a),
        tags_unique(b),
        coherent(a, b),
    ensures
        coherent(b, a),
{
    broadcast use lemma_find_tag;

    assert forall|j: int| 0 <= j < b.len() implies #[trigger] coherent_at(b, a, j) by {
        assert(has_tag(a, b[j].tag));
        let i = find_tag(a, b[j].tag);
        assert(a[i].tag == b[j].tag);
        assert(coherent_at(a, b, i));
        let j2 = find_tag(b, a[i].tag);
        assert(b[j2].tag == b[j].tag);
        if j2 != j {
            assert(b[j2].tag != b[j].tag);
        }
        assert(j2 == j);
    }
    assert forall|i: int| 0 <= i < a.len() implies has_tag(b, (#[trigger] a[i]).tag) by {
        assert(coherent_at(a, b, i));
    }
}

/// Conversion round trip: converting one way and then back multiplies the
/// value by exactly one.  The two conversions' scale factors together denote
/// the rational number one (the empty scale).
pub proof fn lemma_conversion_round_trip(
    cat: Seq<UnitS>,
    pt: Seq<(Seq<char>, int)>,
    v1: Seq<char>,
    v2: Seq<char>,
    e1: ExprS,
    e2: ExprS,
)
    requires
        fold_expr_s(cat, pt, ExprS::Convert(v1, Box::new(e1), Box::new(e2))) is Ok,
        fold_expr_s(cat, pt, ExprS::Convert(v2, Box::new(e2), Box::new(e1))) is Ok,
    ensures
        ({
            let m12 = fold_expr_s(cat, pt, ExprS::Convert(v1, Box::new(e1), Box::new(e2)))->Ok_0.mpl;
            let m21 = fold_expr_s(cat, pt, ExprS::Convert(v2, Box::new(e2), Box::new(e1)))->Ok_0.mpl;
            scale_eq(m12 + m21, Seq::<FactorS>::empty())
        }),
{
    let s1 = fold_expr_s(cat, pt, e1)->Ok_0;
    let s2 = fold_expr_s(cat, pt, e2)->Ok_0;
    let m12 = fold_expr_s(cat, pt, ExprS::Convert(v1, Box::new(e1), Box::new(e2)))->Ok_0.mpl;
    let m21 = fold_expr_s(cat, pt, ExprS::Convert(v2, Box::new(e2), Box::new(e1)))->Ok_0.mpl;
    assert(m12 == s1.mpl + factors_inv(s2.mpl));
    assert(m21 == s2.mpl + factors_inv(s1.mpl));
    lemma_scale_concat(m12, m21);
    lemma_scale_concat(s1.mpl, factors_inv(s2.mpl));
    lemma_scale_concat(s2.mpl, factors_inv(s1.mpl));
    lemma_scale_inv(s1.mpl);
    lemma_scale_inv(s2.mpl);
    let a = scale_num(s1.mpl);
    let b = scale_den(s1.mpl);
    let c = scale_num(s2.mpl);
    let d = scale_den(s2.mpl);
    assert(scale_num(m12 + m21) == (a * d) * (c * b));
    assert(scale_den(m12 + m21) == (b * c) * (d * a));
    assert((a * d) * (c * b) == (b * c) * (d * a)) by (nonlinear_arith);
    assert(scale_num(Seq::<FactorS>::empty()) == 1 && scale_den(Seq::<FactorS>::empty()) == 1);
}

} // verus!
