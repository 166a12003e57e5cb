//! The evaluator: walks an expression tree, folding every unit occurrence
//! into canonical signatures, and the errors the algebra can raise.

use crate::ast::{exprs_view, Expr, ExprS, Stmt, StmtS};
use crate::expand::{reduce_ok, reduce_spec};
use crate::register::{Catalog, PrefixTable};
use crate::scale::{exp_fits, factors_inv, FactorS};
use crate::text::log_data_spec;
use crate::units::{
    add_parsed_spec, coherent, find_tag, merge_entry, BaseUnits, BaseUnitsS, ParsedUnit,
    ParsedUnitS, UnitS,
};
use vstd::prelude::*;
use vstd::string::StringExecFns;

verus! {

/// The errors of the unit algebra.
#[derive(Debug)]
pub enum UnitsError {
    /// A conversion's two sides reduce to different dimensional signatures.
    NotCoherent(String, String),
    /// A referenced tag does not exist in the catalog.
    NoUnit(String),
    /// A referenced prefix symbol does not exist in the prefix table.
    NoUnitPrefix(String),
}

/// Mathematical image of a `UnitsError`.
pub ghost enum UnitsErrorS {
    NotCoherent(Seq<char>, Seq<char>),
    NoUnit(Seq<char>),
    NoUnitPrefix(Seq<char>),
}

impl View for UnitsError {
    type V = UnitsErrorS;

    open spec fn view(&self) -> UnitsErrorS {
        match self {
            UnitsError::NotCoherent(a, b) => UnitsErrorS::NotCoherent(a@, b@),
            UnitsError::NoUnit(t) => UnitsErrorS::NoUnit(t@),
            UnitsError::NoUnitPrefix(p) => UnitsErrorS::NoUnitPrefix(p@),
        }
    }
}

impl UnitsError {
    /// The error rendered for a reader.
    pub fn message(&self) -> (r: String)
        ensures
            r@ == match self@ {
                UnitsErrorS::NotCoherent(a, b) => "units not coherent:"@ + a + " <=> "@ + b,
                UnitsErrorS::NoUnit(t) => "unit "@ + t + " not found"@,
                UnitsErrorS::NoUnitPrefix(p) => "unit prefix "@ + p + " not found"@,
            },
    {
        match self {
            UnitsError::NotCoherent(a, b) => {
                let mut s = String::new();
                s.append("units not coherent:");
                s.append(a.as_str());
                s.append(" <=> ");
                s.append(b.as_str());
                s
            },
            UnitsError::NoUnit(t) => {
                let mut s = String::new();
                s.append("unit ");
                s.append(t.as_str());
                s.append(" not found");
                s
            },
            UnitsError::NoUnitPrefix(p) => {
                let mut s = String::new();
                s.append("unit prefix ");
                s.append(p.as_str());
                s.append(" not found");
                s
            },
        }
    }
}

/// The empty signature.
pub open spec fn bu_empty() -> BaseUnitsS {
    BaseUnitsS { units: Seq::empty(), mpl: Seq::empty() }
}

/// What folding a single unit expression yields: the occurrence resolved
/// against catalog and prefix table, in a fresh signature.
pub open spec fn fold_unit_s(
    cat: Seq<UnitS>,
    pt: Seq<(Seq<char>, int)>,
    pu: ParsedUnitS,
) -> Result<BaseUnitsS, UnitsErrorS> {
    add_parsed_spec(bu_empty(), cat, pt, pu)
}

/// Folding the elements of a fraction, left to right, into an accumulator:
/// each element must be a single unit expression; it is folded into a fresh
/// signature whose one entry is then merged into the accumulator by tag.
pub open spec fn fold_items_s(
    cat: Seq<UnitS>,
    pt: Seq<(Seq<char>, int)>,
    acc: BaseUnitsS,
    items: Seq<ExprS>,
) -> Result<BaseUnitsS, UnitsErrorS>
    decreases items.len(),
{
    if items.len() == 0 {
        Ok(acc)
    } else {
        match items[0] {
            ExprS::Unit(pu) => match fold_unit_s(cat, pt, pu) {
                Ok(folded) => {
                    let entry = folded.units[find_tag(folded.units, pu.tag)];
                    fold_items_s(
                        cat,
                        pt,
                        BaseUnitsS { units: merge_entry(acc.units, entry), mpl: acc.mpl },
                        items.drop_first(),
                    )
                },
                Err(e) => Err(e),
            },
            _ => Err(UnitsErrorS::NoUnit("sorry"@)),
        }
    }
}

/// What folding an expression yields.
pub open spec fn fold_expr_s(
    cat: Seq<UnitS>,
    pt: Seq<(Seq<char>, int)>,
    e: ExprS,
) -> Result<BaseUnitsS, UnitsErrorS>
    decreases e,
{
    match e {
        ExprS::Unit(pu) => fold_unit_s(cat, pt, pu),
        ExprS::Fraction(up, down) => match fold_items_s(cat, pt, bu_empty(), up + down) {
            Ok(b) => Ok(reduce_spec(cat, b)),
            Err(er) => Err(er),
        },
        ExprS::Convert(v, src, dst) => match fold_expr_s(cat, pt, *src) {
            Ok(sb) => match fold_expr_s(cat, pt, *dst) {
                Ok(db) => {
                    if coherent(sb.units, db.units) {
                        Ok(BaseUnitsS { units: sb.units, mpl: sb.mpl + factors_inv(db.mpl) })
                    } else {
                        Err(
                            UnitsErrorS::NotCoherent(
                                log_data_spec(sb.units),
                                log_data_spec(db.units),
                            ),
                        )
                    }
                },
                Err(er) => Err(er),
            },
            Err(er) => Err(er),
        },
    }
}

/// What folding a statement yields: both statement forms fold their
/// expression.
pub open spec fn fold_stmt_s(
    cat: Seq<UnitS>,
    pt: Seq<(Seq<char>, int)>,
    s: StmtS,
) -> Result<BaseUnitsS, UnitsErrorS> {
    match s {
        StmtS::Conversation(e) => fold_expr_s(cat, pt, e),
        StmtS::Decomposition(e) => fold_expr_s(cat, pt, e),
    }
}

/// Machine bounds that folding the elements of a fraction must respect: every
/// exponent sum taken while merging stays within its word.
pub open spec fn fold_items_ok(
    cat: Seq<UnitS>,
    pt: Seq<(Seq<char>, int)>,
    acc: BaseUnitsS,
    items: Seq<ExprS>,
) -> bool
    decreases items.len(),
{
    if items.len() == 0 {
        true
    } else {
        match items[0] {
            ExprS::Unit(pu) => match fold_unit_s(cat, pt, pu) {
                Ok(folded) => {
                    let entry = folded.units[find_tag(folded.units, pu.tag)];
                    let i = find_tag(acc.units, entry.tag);
                    &&& (i >= 0 ==> exp_fits(acc.units[i].pow + entry.pow))
                    &&& fold_items_ok(
                        cat,
                        pt,
                        BaseUnitsS { units: merge_entry(acc.units, entry), mpl: acc.mpl },
                        items.drop_first(),
                    )
                },
                Err(_) => true,
            },
            _ => true,
        }
    }
}

/// Machine bounds that folding an expression must respect: the fraction
/// merges fit, every expansion taken by reduction is defined and fits, and
/// the scale inversion of a conversion fits.
pub open spec fn fold_expr_ok(cat: Seq<UnitS>, pt: Seq<(Seq<char>, int)>, e: ExprS) -> bool
    decreases e,
{
    match e {
        ExprS::Unit(_) => true,
        ExprS::Fraction(up, down) => {
            &&& fold_items_ok(cat, pt, bu_empty(), up + down)
            &&& (match fold_items_s(cat, pt, bu_empty(), up + down) {
                Ok(b) => reduce_ok(cat, b),
                Err(_) => true,
            })
        },
        ExprS::Convert(v, src, dst) => {
            &&& fold_expr_ok(cat, pt, *src)
            &&& fold_expr_ok(cat, pt, *dst)
            &&& (match (fold_expr_s(cat, pt, *src), fold_expr_s(cat, pt, *dst)) {
                (Ok(sb), Ok(db)) => forall|i: int|
                    0 <= i < db.mpl.len() ==> exp_fits(-(#[trigger] db.mpl[i]).exp),
                _ => true,
            })
        },
    }
}

pub open spec fn fold_stmt_ok(cat: Seq<UnitS>, pt: Seq<(Seq<char>, int)>, s: StmtS) -> bool {
    match s {
        StmtS::Conversation(e) => fold_expr_ok(cat, pt, e),
        StmtS::Decomposition(e) => fold_expr_ok(cat, pt, e),
    }
}

/// Splitting the head off the conditions for folding a fraction's elements.
pub proof fn lemma_fold_items_ok_head(
    cat: Seq<UnitS>,
    pt: Seq<(Seq<char>, int)>,
    acc: BaseUnitsS,
    items: Seq<ExprS>,
)
    requires
        items.len() > 0,
        fold_items_ok(cat, pt, acc, items),
    ensures
        fold_items_ok(cat, pt, acc, seq![items[0]]),
        fold_items_s(cat, pt, acc, seq![items[0]]) is Err ==> fold_items_s(cat, pt, acc, items)
            == fold_items_s(cat, pt, acc, seq![items[0]]),
{
    let one = seq![items[0]];
    assert(one[0] == items[0]);
    assert(one.drop_first() =~= Seq::<ExprS>::empty());
    match items[0] {
        ExprS::Unit(pu) => {
            match fold_unit_s(cat, pt, pu) {
                Ok(folded) => {
                    let entry = folded.units[find_tag(folded.units, pu.tag)];
                    let merged = BaseUnitsS {
                        units: merge_entry(acc.units, entry),
                        mpl: acc.mpl,
                    };
                    assert(fold_items_ok(cat, pt, merged, one.drop_first()));
                    assert(fold_items_s(cat, pt, merged, one.drop_first()) == Ok::<
                        BaseUnitsS,
                        UnitsErrorS,
                    >(merged));
                    assert(fold_items_s(cat, pt, acc, one) is Ok);
                },
                Err(e) => {
                    assert(fold_items_ok(cat, pt, acc, one));
                    assert(fold_items_s(cat, pt, acc, one) == Err::<BaseUnitsS, UnitsErrorS>(e));
                    assert(fold_items_s(cat, pt, acc, items) == Err::<BaseUnitsS, UnitsErrorS>(e));
                },
            }
        },
        ExprS::Convert(v, a, b) => {
            assert(fold_items_ok(cat, pt, acc, one));
            assert(fold_items_s(cat, pt, acc, one) == Err::<BaseUnitsS, UnitsErrorS>(
                UnitsErrorS::NoUnit("sorry"@),
            ));
            assert(fold_items_s(cat, pt, acc, items) == Err::<BaseUnitsS, UnitsErrorS>(
                UnitsErrorS::NoUnit("sorry"@),
            ));
        },
        ExprS::Fraction(a, b) => {
            assert(fold_items_ok(cat, pt, acc, one));
            assert(fold_items_s(cat, pt, acc, one) == Err::<BaseUnitsS, UnitsErrorS>(
                UnitsErrorS::NoUnit("sorry"@),
            ));
            assert(fold_items_s(cat, pt, acc, items) == Err::<BaseUnitsS, UnitsErrorS>(
                UnitsErrorS::NoUnit("sorry"@),
            ));
        },
    }
}

/// A successfully folded unit expression holds exactly one entry, carrying
/// the occurrence's tag.
pub proof fn lemma_fold_unit_single(cat: Seq<UnitS>, pt: Seq<(Seq<char>, int)>, pu: ParsedUnitS)
    ensures
        fold_unit_s(cat, pt, pu) matches Ok(folded) ==> folded.units.len() == 1
            && folded.units[0].tag == pu.tag && find_tag(folded.units, pu.tag) == 0,
{
    broadcast use crate::units::lemma_find_tag;

    if fold_unit_s(cat, pt, pu) is Ok {
        let ci = find_tag(cat, pu.tag);
        assert(ci >= 0);
        assert(cat[ci].tag == pu.tag);
        let folded = fold_unit_s(cat, pt, pu)->Ok_0;
        assert(find_tag(bu_empty().units, pu.tag) == -1);
        assert(folded.units == bu_empty().units.push(
            folded.units[find_tag(folded.units, pu.tag)],
        )) by {
            assert(folded.units.len() == 1);
        }
    }
}

/// Folds one statement into a canonical signature.
pub fn fold_stmt(s: &Stmt, voc: &Catalog, pt: &PrefixTable) -> (r: Result<BaseUnits, UnitsError>)
    requires
        fold_stmt_ok(voc@, pt@, s@),
    ensures
        match r {
            Ok(b) => fold_stmt_s(voc@, pt@, s@) == Ok::<BaseUnitsS, UnitsErrorS>(b@),
            Err(er) => fold_stmt_s(voc@, pt@, s@) == Err::<BaseUnitsS, UnitsErrorS>(er@),
        },
{
    match s {
        Stmt::Conversation(conv) => fold_expr(conv, voc, pt),
        Stmt::Decomposition(expr) => fold_expr(expr, voc, pt),
    }
}

/// Folds one expression into a canonical signature: a conversion folds both
/// sides and requires them coherent, a fraction folds and reduces its unit
/// occurrences, a single unit occurrence is resolved and folded alone.
pub fn fold_expr(e: &Expr, voc: &Catalog, pt: &PrefixTable) -> (r: Result<BaseUnits, UnitsError>)
    requires
        fold_expr_ok(voc@, pt@, e@),
    ensures
        match r {
            Ok(b) => fold_expr_s(voc@, pt@, e@) == Ok::<BaseUnitsS, UnitsErrorS>(b@),
            Err(er) => fold_expr_s(voc@, pt@, e@) == Err::<BaseUnitsS, UnitsErrorS>(er@),
        },
    decreases *e,
{
    broadcast use crate::units::lemma_units_view_len, crate::units::lemma_units_view_index;

    match e {
        Expr::Convert(v, src, dst) => {
            let src_base = match fold_expr(src, voc, pt) {
                Ok(b) => b,
                Err(er) => {
                    return Err(er);
                },
            };
            let dst_base = match fold_expr(dst, voc, pt) {
                Ok(b) => b,
                Err(er) => {
                    return Err(er);
                },
            };
            let ghost sbv = src_base@;
            let ghost dbv = dst_base@;
            if src_base.is_coherent(&dst_base) {
                proof {
                    assert forall|i: int| 0 <= i < dst_base.mpl.deep_view().len() implies i64::MIN
                        <= (#[trigger] dst_base.mpl.deep_view()[i]).exp * (-1) <= i64::MAX by {
                        assert(exp_fits(-dst_base.mpl.deep_view()[i].exp));
                    }
                }
                let inv = crate::scale::factors_powed_vec(&dst_base.mpl, -1);
                let BaseUnits { units, mpl } = src_base;
                let mut mpl = mpl;
                crate::scale::factors_extend(&mut mpl, &inv);
                let out = BaseUnits { units, mpl };
                proof {
                    assert(out@.mpl =~= sbv.mpl + factors_inv(dbv.mpl));
                    assert(out@.units == sbv.units);
                }
                Ok(out)
            } else {
                Err(UnitsError::NotCoherent(src_base.as_readable(), dst_base.as_readable()))
            }
        },
        Expr::Fraction { up, down } => {
            let ghost cat = voc@;
            let ghost pts = pt@;
            let ghost items = exprs_view(up@) + exprs_view(down@);
            let mut base = BaseUnits::new();
            proof {
                broadcast use crate::ast::lemma_exprs_view_len, crate::ast::lemma_exprs_view_index;

                assert(base@ == bu_empty());
                assert(items.skip(0) =~= items);
                assert(items.len() == up@.len() + down@.len());
            }
            let nu = up.len();
            let mut j: usize = 0;
            while j < nu
                invariant
                    nu == up@.len(),
                    j <= nu,
                    base@.mpl == Seq::<FactorS>::empty(),
                    fold_items_s(cat, pts, bu_empty(), items) == fold_items_s(
                        cat,
                        pts,
                        base@,
                        items.skip(j as int),
                    ),
                    fold_items_ok(cat, pts, base@, items.skip(j as int)),
                decreases nu - j,
            {
                proof {
                    broadcast use crate::ast::lemma_exprs_view_len, crate::ast::lemma_exprs_view_index;

                    assert(items.skip(j as int)[0] == items[j as int]);
                    assert(items[j as int] == exprs_view(up@)[j as int]);
                    assert(items.skip(j as int).drop_first() =~= items.skip(j + 1 as int));
                    lemma_fold_items_ok_head(cat, pts, base@, items.skip(j as int));
                }
                match fold_frac_item(&up[j], voc, pt, &mut base) {
                    Ok(_) => {},
                    Err(er) => {
                        return Err(er);
                    },
                }
                j = j + 1;
            }
            let nd = down.len();
            let mut k: usize = 0;
            while k < nd
                invariant
                    nd == down@.len(),
                    k <= nd,
                    base@.mpl == Seq::<FactorS>::empty(),
                    fold_items_s(cat, pts, bu_empty(), items) == fold_items_s(
                        cat,
                        pts,
                        base@,
                        items.skip(up@.len() + k as int),
                    ),
                    fold_items_ok(cat, pts, base@, items.skip(up@.len() + k as int)),
                decreases nd - k,
            {
                proof {
                    broadcast use crate::ast::lemma_exprs_view_len, crate::ast::lemma_exprs_view_index;

                    let pos = up@.len() + k as int;
                    assert(items.skip(pos)[0] == items[pos]);
                    assert(items[pos] == exprs_view(down@)[k as int]);
                    assert(items.skip(pos).drop_first() =~= items.skip(pos + 1));
                    lemma_fold_items_ok_head(cat, pts, base@, items.skip(pos));
                }
                match fold_frac_item(&down[k], voc, pt, &mut base) {
                    Ok(_) => {},
                    Err(er) => {
                        return Err(er);
                    },
                }
                k = k + 1;
            }
            proof {
                assert(items.skip(up@.len() + nd as int) =~= Seq::<ExprS>::empty());
                assert(fold_items_s(cat, pts, bu_empty(), items) == Ok::<
                    BaseUnitsS,
                    UnitsErrorS,
                >(base@));
            }
            let reduced = base.reduce(voc);
            Ok(reduced)
        },
        Expr::Unit { pfx, tag, pow, den } => {
            let mut base = BaseUnits::new();
            let p_unit = ParsedUnit {
                pfx: match pfx {
                    Some(s) => Some(s.clone()),
                    None => None,
                },
                tag: tag.clone(),
                pow: *pow,
                den: *den,
            };
            proof {
                assert(find_tag(base@.units, p_unit@.tag) == -1);
            }
            match base.add_parsed_unit(p_unit, voc, pt) {
                Ok(_) => Ok(base),
                Err(er) => Err(er),
            }
        },
    }
}

/// Folds one element of a fraction into the accumulator: the element must be
/// a single unit occurrence.
fn fold_frac_item(
    item: &Expr,
    voc: &Catalog,
    pt: &PrefixTable,
    base: &mut BaseUnits,
) -> (r: Result<(), UnitsError>)
    requires
        fold_items_ok(voc@, pt@, old(base)@, seq![item@]),
    ensures
        match r {
            Ok(_) => {
                &&& item@ matches ExprS::Unit(pu)
                &&& fold_unit_s(voc@, pt@, item@->Unit_0) matches Ok(folded)
                &&& final(base)@ == (BaseUnitsS {
                    units: merge_entry(
                        old(base)@.units,
                        folded.units[find_tag(folded.units, item@->Unit_0.tag)],
                    ),
                    mpl: old(base)@.mpl,
                })
            },
            Err(er) => fold_items_s(voc@, pt@, old(base)@, seq![item@]) == Err::<
                BaseUnitsS,
                UnitsErrorS,
            >(er@) && final(base)@ == old(base)@,
        },
{
    broadcast use crate::units::lemma_units_view_len, crate::units::lemma_units_view_index;

    proof {
        assert(seq![item@][0] == item@);
    }
    match item {
        Expr::Unit { pfx, tag, pow, den } => {
            let mut folded = BaseUnits::new();
            let p_unit = ParsedUnit {
                pfx: match pfx {
                    Some(s) => Some(s.clone()),
                    None => None,
                },
                tag: tag.clone(),
                pow: *pow,
                den: *den,
            };
            let ghost pu = p_unit@;
            proof {
                assert(find_tag(folded@.units, pu.tag) == -1);
                lemma_fold_unit_single(voc@, pt@, pu);
            }
            match folded.add_parsed_unit(p_unit, voc, pt) {
                Ok(_) => {},
                Err(er) => {
                    return Err(er);
                },
            }
            base.merge_one(folded, tag.clone());
            Ok(())
        },
        _ => Err(UnitsError::NoUnit(String::from_str("sorry"))),
    }
}

} // verus!
