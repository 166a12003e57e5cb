//! The thin orchestrator: validate, parse, fold; the caller does the scalar
//! arithmetic on the returned signature.

use crate::folder::{fold_stmt, fold_stmt_ok, fold_stmt_s, UnitsError, UnitsErrorS};
use crate::parser::{
    conv_stmt_ok, enter_validation, enter_validation_s, parse_stmt, parse_stmt_s, ParseError,
    ParseErrorS,
};
use crate::register::{Catalog, PrefixTable};
use crate::text::{lex_lt, log_data, log_data_spec, str_lex_lt};
use crate::units::{
    lemma_units_view_index, lemma_units_view_len, unit_dup, unit_view, units_view, BaseUnits,
    BaseUnitsS, Unit, UnitS,
};
use vstd::prelude::*;

verus! {

/// An error of the whole pipeline: from the parse layer or from the algebra.
#[derive(Debug)]
pub enum EvalError {
    Parse(ParseError),
    Units(UnitsError),
}

/// Mathematical image of an `EvalError`.
pub ghost enum EvalErrorS {
    Parse(ParseErrorS),
    Units(UnitsErrorS),
}

impl View for EvalError {
    type V = EvalErrorS;

    open spec fn view(&self) -> EvalErrorS {
        match self {
            EvalError::Parse(e) => EvalErrorS::Parse(e@),
            EvalError::Units(e) => EvalErrorS::Units(e@),
        }
    }
}

/// What the whole pipeline yields on raw input: validation, then parsing,
/// then folding, stopping at the first failure.
pub open spec fn eval_s(
    cat: Seq<UnitS>,
    pt: Seq<(Seq<char>, int)>,
    s: Seq<char>,
) -> Result<BaseUnitsS, EvalErrorS> {
    match enter_validation_s(s) {
        Err(pe) => Err(EvalErrorS::Parse(pe)),
        Ok(_) => match parse_stmt_s(s) {
            Err(pe) => Err(EvalErrorS::Parse(pe)),
            Ok(st) => match fold_stmt_s(cat, pt, st) {
                Err(ue) => Err(EvalErrorS::Units(ue)),
                Ok(b) => Ok(b),
            },
        },
    }
}

/// What the pipeline needs of input and catalog so that no step runs out of
/// machine bounds: the statement shape that the parser asks for, and the fold
/// bounds for the parsed statement.
pub open spec fn eval_ok(cat: Seq<UnitS>, pt: Seq<(Seq<char>, int)>, s: Seq<char>) -> bool {
    &&& (enter_validation_s(s) is Ok ==> conv_stmt_ok(s))
    &&& (match (enter_validation_s(s), parse_stmt_s(s)) {
        (Ok(_), Ok(st)) => fold_stmt_ok(cat, pt, st),
        _ => true,
    })
}

/// Entries sorted by tag: each entry inserted before the first entry whose
/// tag is not below its own.
pub open spec fn insert_sorted(u: UnitS, s: Seq<UnitS>) -> Seq<UnitS>
    decreases s.len(),
{
    if s.len() == 0 {
        seq![u]
    } else if lex_lt(s[0].tag, u.tag) {
        seq![s[0]] + insert_sorted(u, s.drop_first())
    } else {
        seq![u] + s
    }
}

pub open spec fn sort_by_tag(s: Seq<UnitS>) -> Seq<UnitS>
    decreases s.len(),
{
    if s.len() == 0 {
        Seq::empty()
    } else {
        insert_sorted(s[0], sort_by_tag(s.drop_first()))
    }
}

/// Inserts a copy of `u` into the sorted vector `s`.
fn insert_sorted_vec(u: &Unit, s: Vec<Unit>) -> (r: Vec<Unit>)
    ensures
        units_view(r@) == insert_sorted(u@, units_view(s@)),
{
    broadcast use lemma_units_view_len, lemma_units_view_index;

    let ghost sv = units_view(s@);
    let n = s.len();
    let mut k: usize = 0;
    proof {
        assert(sv.skip(0) =~= sv);
        assert(sv.take(0) + insert_sorted(u@, sv.skip(0)) =~= insert_sorted(u@, sv));
    }
    while k < n
        invariant
            k <= n,
            n == s@.len(),
            sv == units_view(s@),
            forall|j: int| 0 <= j < k ==> lex_lt((#[trigger] sv[j]).tag, u@.tag),
            insert_sorted(u@, sv) == sv.take(k as int) + insert_sorted(u@, sv.skip(k as int)),
        decreases n - k,
    {
        proof {
            assert(sv.skip(k as int)[0] == sv[k as int]);
            assert(sv.skip(k as int).drop_first() =~= sv.skip(k + 1 as int));
        }
        if !str_lex_lt(&s[k].tag, &u.tag) {
            break ;
        }
        proof {
            assert(insert_sorted(u@, sv.skip(k as int)) == seq![sv[k as int]] + insert_sorted(
                u@,
                sv.skip(k + 1 as int),
            ));
            assert(sv.take(k as int) + (seq![sv[k as int]] + insert_sorted(
                u@,
                sv.skip(k + 1 as int),
            )) =~= sv.take(k + 1 as int) + insert_sorted(u@, sv.skip(k + 1 as int)));
        }
        k = k + 1;
    }
    let ghost cut = k as int;
    proof {
        if k < n {
            assert(insert_sorted(u@, sv.skip(cut)) == seq![u@] + sv.skip(cut));
        } else {
            assert(sv.skip(cut).len() == 0);
            assert(insert_sorted(u@, sv.skip(cut)) =~= seq![u@] + sv.skip(cut));
        }
        assert(insert_sorted(u@, sv) == sv.take(cut) + (seq![u@] + sv.skip(cut)));
    }
    let mut r: Vec<Unit> = Vec::new();
    let mut i: usize = 0;
    while i < k
        invariant
            i <= k <= n,
            n == s@.len(),
            sv == units_view(s@),
            r@.len() == i,
            forall|j: int| 0 <= j < i ==> unit_view(#[trigger] r@[j]) == sv[j],
        decreases k - i,
    {
        let d = unit_dup(&s[i]);
        r.push(d);
        i = i + 1;
    }
    let d = unit_dup(u);
    r.push(d);
    let mut i2: usize = k;
    while i2 < n
        invariant
            k <= i2 <= n,
            n == s@.len(),
            sv == units_view(s@),
            r@.len() == i2 + 1,
            forall|j: int| 0 <= j < k ==> unit_view(#[trigger] r@[j]) == sv[j],
            unit_view(r@[cut]) == u@,
            forall|j: int| k < j <= i2 ==> unit_view(#[trigger] r@[j]) == sv[j - 1],
        decreases n - i2,
    {
        let d = unit_dup(&s[i2]);
        r.push(d);
        i2 = i2 + 1;
    }
    proof {
        assert forall|j: int| 0 <= j < units_view(r@).len() implies units_view(r@)[j] == (sv.take(
            cut,
        ) + (seq![u@] + sv.skip(cut)))[j] by {
            if j < cut {
            } else if j == cut {
            } else {
                assert(unit_view(r@[j]) == sv[j - 1]);
            }
        }
        assert(units_view(r@) =~= sv.take(cut) + (seq![u@] + sv.skip(cut)));
    }
    r
}

/// A copy of the entries, sorted by tag.  A reduced signature carries each
/// tag at most once, so no further tie-breaking is called for.
pub fn sorted_by_tag(units: &Vec<Unit>) -> (r: Vec<Unit>)
    ensures
        units_view(r@) == sort_by_tag(units_view(units@)),
{
    broadcast use lemma_units_view_len, lemma_units_view_index;

    let ghost uv = units_view(units@);
    let mut r: Vec<Unit> = Vec::new();
    let mut i: usize = units.len();
    proof {
        assert(uv.skip(units@.len() as int).len() == 0);
        assert(units_view(r@) =~= sort_by_tag(uv.skip(units@.len() as int)));
    }
    while i > 0
        invariant
            i <= units@.len(),
            uv == units_view(units@),
            units_view(r@) == sort_by_tag(uv.skip(i as int)),
        decreases i,
    {
        i = i - 1;
        proof {
            assert(uv.skip(i as int)[0] == uv[i as int]);
            assert(uv.skip(i as int).drop_first() =~= uv.skip(i + 1 as int));
        }
        r = insert_sorted_vec(&units[i], r);
    }
    proof {
        assert(uv.skip(0) =~= uv);
    }
    r
}

/// The interpreter: owns the last decomposition result.
#[derive(Debug)]
pub struct Interpreter {
    pub state: BaseUnits,
}

impl Interpreter {
    /// A fresh interpreter with an empty signature as state.
    pub fn new() -> (r: Interpreter)
        ensures
            r.state@ == crate::folder::bu_empty(),
    {
        let r = Interpreter { state: BaseUnits::new() };
        proof {
            assert(r.state@.units =~= crate::folder::bu_empty().units);
            assert(r.state@.mpl =~= crate::folder::bu_empty().mpl);
        }
        r
    }

    /// Evaluates a conversion statement down to a signature whose scale
    /// factor is the ratio between the two sides; the caller multiplies the
    /// scalar value by that ratio.
    pub fn conv(&mut self, stmt: &str, voc: &Catalog, pt: &PrefixTable) -> (r: Result<
        BaseUnits,
        EvalError,
    >)
        requires
            eval_ok(voc@, pt@, stmt@),
        ensures
            *final(self) == *old(self),
            match r {
                Ok(b) => eval_s(voc@, pt@, stmt@) == Ok::<BaseUnitsS, EvalErrorS>(b@),
                Err(e) => eval_s(voc@, pt@, stmt@) == Err::<BaseUnitsS, EvalErrorS>(e@),
            },
    {
        match enter_validation(stmt) {
            Ok(_) => {},
            Err(pe) => {
                return Err(EvalError::Parse(pe));
            },
        }
        let st = match parse_stmt(stmt) {
            Ok(st) => st,
            Err(pe) => {
                return Err(EvalError::Parse(pe));
            },
        };
        match fold_stmt(&st, voc, pt) {
            Ok(b) => Ok(b),
            Err(ue) => Err(EvalError::Units(ue)),
        }
    }

    /// Evaluates a decomposition statement, keeps the resulting signature as
    /// the interpreter's state, and renders its entries sorted by tag; the
    /// caller prepends the numeric scale factor.
    pub fn deco(&mut self, stmt: &str, voc: &Catalog, pt: &PrefixTable) -> (r: Result<
        String,
        EvalError,
    >)
        requires
            eval_ok(voc@, pt@, stmt@),
        ensures
            match r {
                Ok(out) => {
                    &&& eval_s(voc@, pt@, stmt@) matches Ok(b)
                    &&& final(self).state@ == b
                    &&& out@ == log_data_spec(sort_by_tag(b.units))
                },
                Err(e) => eval_s(voc@, pt@, stmt@) == Err::<BaseUnitsS, EvalErrorS>(e@)
                    && *final(self) == *old(self),
            },
    {
        match enter_validation(stmt) {
            Ok(_) => {},
            Err(pe) => {
                return Err(EvalError::Parse(pe));
            },
        }
        let st = match parse_stmt(stmt) {
            Ok(st) => st,
            Err(pe) => {
                return Err(EvalError::Parse(pe));
            },
        };
        let deco = match fold_stmt(&st, voc, pt) {
            Ok(b) => b,
            Err(ue) => {
                return Err(EvalError::Units(ue));
            },
        };
        let rf = sorted_by_tag(&deco.units);
        let out = log_data(&rf);
        self.state = deco;
        Ok(out)
    }
}

} // verus!
