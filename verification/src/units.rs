//! The unit signature type and its algebra: accumulate parsed units, merge
//! signatures, and test two signatures for coherence.

use crate::scale::{factor_wf, factors_wf, Factor, FactorS};
use vstd::prelude::*;

verus! {

/// One unit occurrence as written in an expression: optional prefix symbol,
/// tag, integer exponent, denominator flag.
#[derive(Debug)]
pub struct ParsedUnit {
    pub pfx: Option<String>,
    pub tag: String,
    pub pow: i8,
    pub den: bool,
}

/// Mathematical image of a `ParsedUnit`.
pub ghost struct ParsedUnitS {
    pub pfx: Option<Seq<char>>,
    pub tag: Seq<char>,
    pub pow: int,
    pub den: bool,
}

impl View for ParsedUnit {
    type V = ParsedUnitS;

    open spec fn view(&self) -> ParsedUnitS {
        ParsedUnitS {
            pfx: match self.pfx {
                Some(s) => Some(s@),
                None => None,
            },
            tag: self.tag@,
            pow: self.pow as int,
            den: self.den,
        }
    }
}

/// A named unit: a tag, a local scale factor, an exponent, and an optional
/// inline decomposition into other units (empty means no inline decomposition).
#[derive(Debug)]
pub struct Unit {
    pub tag: String,
    pub mpl: Vec<Factor>,
    pub pow: i64,
    pub base: Vec<Unit>,
}

/// Mathematical image of a `Unit`.
pub ghost struct UnitS {
    pub tag: Seq<char>,
    pub mpl: Seq<FactorS>,
    pub pow: int,
    pub base: Seq<UnitS>,
}

/// Mathematical image of one `Unit` value.
pub open spec fn unit_view(u: Unit) -> UnitS
    decreases u,
{
    UnitS { tag: u.tag@, mpl: u.mpl.deep_view(), pow: u.pow as int, base: units_view(u.base@) }
}

/// Mathematical image of a sequence of `Unit` values.
pub open spec fn units_view(s: Seq<Unit>) -> Seq<UnitS>
    decreases s,
{
    if s.len() == 0 {
        Seq::empty()
    } else {
        seq![unit_view(s[0])] + units_view(s.drop_first())
    }
}

impl View for Unit {
    type V = UnitS;

    open spec fn view(&self) -> UnitS {
        unit_view(*self)
    }
}

pub broadcast proof fn lemma_units_view_len(s: Seq<Unit>)
    ensures
        #[trigger] units_view(s).len() == s.len(),
    decreases s,
{
    if s.len() != 0 {
        lemma_units_view_len(s.drop_first());
    }
}

pub broadcast proof fn lemma_units_view_index(s: Seq<Unit>, i: int)
    requires
        0 <= i < s.len(),
    ensures
        #[trigger] units_view(s)[i] == unit_view(s[i]),
    decreases s,
{
    lemma_units_view_len(s);
    if i > 0 {
        lemma_units_view_index(s.drop_first(), i - 1);
    }
}

/// A unit is well formed when every scale factor in it, inline decompositions
/// included, has a positive numerator and denominator.
pub open spec fn unit_wf(u: UnitS) -> bool
    decreases u,
{
    &&& factors_wf(u.mpl)
    &&& units_wf(u.base)
}

pub open spec fn units_wf(s: Seq<UnitS>) -> bool
    decreases s,
{
    forall|i: int| 0 <= i < s.len() ==> unit_wf(#[trigger] s[i])
}

/// Index of the first entry carrying `tag`, or -1 when no entry does.
pub open spec fn find_tag(s: Seq<UnitS>, tag: Seq<char>) -> int
    decreases s.len(),
{
    if s.len() == 0 {
        -1
    } else if s[0].tag == tag {
        0
    } else {
        let r = find_tag(s.drop_first(), tag);
        if r < 0 {
            -1
        } else {
            r + 1
        }
    }
}

pub open spec fn has_tag(s: Seq<UnitS>, tag: Seq<char>) -> bool {
    find_tag(s, tag) >= 0
}

pub broadcast proof fn lemma_find_tag(s: Seq<UnitS>, tag: Seq<char>)
    ensures
        #[trigger] find_tag(s, tag) >= 0 ==> find_tag(s, tag) < s.len() && s[find_tag(s, tag)].tag
            == tag && (forall|j: int| 0 <= j < find_tag(s, tag) ==> (#[trigger] s[j]).tag != tag),
        find_tag(s, tag) < 0 ==> find_tag(s, tag) == -1 && (forall|j: int|
            0 <= j < s.len() ==> (#[trigger] s[j]).tag != tag),
    decreases s.len(),
{
    if s.len() > 0 && s[0].tag != tag {
        lemma_find_tag(s.drop_first(), tag);
        let r = find_tag(s.drop_first(), tag);
        if r >= 0 {
            assert(s[r + 1] == s.drop_first()[r]);
            assert forall|j: int| 0 <= j < find_tag(s, tag) implies (#[trigger] s[j]).tag
                != tag by {
                if j > 0 {
                    assert(s[j] == s.drop_first()[j - 1]);
                }
            }
        } else {
            assert forall|j: int| 0 <= j < s.len() implies (#[trigger] s[j]).tag != tag by {
                if j > 0 {
                    assert(s[j] == s.drop_first()[j - 1]);
                }
            }
        }
    }
}

/// Each tag occurs at most once.
pub open spec fn tags_unique(s: Seq<UnitS>) -> bool {
    forall|i: int, j: int| 0 <= i < j < s.len() ==> (#[trigger] s[i]).tag != (#[trigger] s[j]).tag
}

/// A deep copy of a unit.
pub fn unit_dup(u: &Unit) -> (r: Unit)
    ensures
        r@ == u@,
    decreases *u,
{
    let mut mpl: Vec<Factor> = Vec::new();
    crate::scale::factors_extend(&mut mpl, &u.mpl);
    proof {
        assert(mpl.deep_view() =~= u.mpl.deep_view());
    }
    Unit { tag: u.tag.clone(), mpl, pow: u.pow, base: units_dup(&u.base) }
}

/// A deep copy of a vector of units.
pub fn units_dup(s: &Vec<Unit>) -> (r: Vec<Unit>)
    ensures
        units_view(r@) == units_view(s@),
    decreases *s,
{
    let mut r: Vec<Unit> = Vec::new();
    let mut i: usize = 0;
    while i < s.len()
        invariant
            i <= s.len(),
            r@.len() == i,
            forall|j: int| 0 <= j < i ==> unit_view(#[trigger] r@[j]) == unit_view(s@[j]),
        decreases s.len() - i,
    {
        let d = unit_dup(&s[i]);
        r.push(d);
        i = i + 1;
    }
    proof {
        lemma_units_views_equal(r@, s@);
    }
    r
}

pub proof fn lemma_units_view_concat(a: Seq<Unit>, b: Seq<Unit>)
    ensures
        units_view(a + b) == units_view(a) + units_view(b),
{
    broadcast use lemma_units_view_len, lemma_units_view_index;

    assert forall|i: int| 0 <= i < (a + b).len() implies units_view(a + b)[i] == (units_view(a)
        + units_view(b))[i] by {
        if i < a.len() {
            assert((a + b)[i] == a[i]);
        } else {
            assert((a + b)[i] == b[i - a.len()]);
        }
    }
    assert(units_view(a + b) =~= units_view(a) + units_view(b));
}

/// Two unit sequences whose elements have equal images have equal images.
pub proof fn lemma_units_views_equal(a: Seq<Unit>, b: Seq<Unit>)
    requires
        a.len() == b.len(),
        forall|j: int| 0 <= j < a.len() ==> unit_view(#[trigger] a[j]) == unit_view(b[j]),
    ensures
        units_view(a) == units_view(b),
{
    broadcast use lemma_units_view_len, lemma_units_view_index;

    assert(units_view(a) =~= units_view(b));
}

/// The canonical signature: a mapping from tag to accumulated unit, and one
/// accumulated scale factor for the whole signature.
#[derive(Debug)]
pub struct BaseUnits {
    pub units: Vec<Unit>,
    pub mpl: Vec<Factor>,
}

/// Mathematical image of a `BaseUnits`.
pub ghost struct BaseUnitsS {
    pub units: Seq<UnitS>,
    pub mpl: Seq<FactorS>,
}

impl Default for BaseUnits {
    /// The empty signature, as `BaseUnits::new` builds it.
    fn default() -> (r: Self)
        ensures
            r@.units == Seq::<UnitS>::empty(),
            r@.mpl == Seq::<FactorS>::empty(),
    {
        BaseUnits::new()
    }
}

impl View for BaseUnits {
    type V = BaseUnitsS;

    open spec fn view(&self) -> BaseUnitsS {
        BaseUnitsS { units: units_view(self.units@), mpl: self.mpl.deep_view() }
    }
}

/// Internal invariant of a signature: tags are unique and every entry is well
/// formed.
pub open spec fn bu_wf(b: BaseUnitsS) -> bool {
    &&& tags_unique(b.units)
    &&& units_wf(b.units)
    &&& factors_wf(b.mpl)
}

/// Folding one unit into a signature: when the tag is present, the exponents
/// add and the scale factors multiply; otherwise the unit is appended.
pub open spec fn merge_entry(s: Seq<UnitS>, u: UnitS) -> Seq<UnitS> {
    let i = find_tag(s, u.tag);
    if i >= 0 {
        s.update(
            i,
            UnitS { tag: s[i].tag, mpl: s[i].mpl + u.mpl, pow: s[i].pow + u.pow, base: s[i].base },
        )
    } else {
        s.push(u)
    }
}

impl BaseUnits {
    /// The empty signature, with scale factor one.
    pub fn new() -> (r: BaseUnits)
        ensures
            r@.units == Seq::<UnitS>::empty(),
            r@.mpl == Seq::<FactorS>::empty(),
            bu_wf(r@),
    {
        let r = BaseUnits { units: Vec::new(), mpl: Vec::new() };
        proof {
            assert(r@.units =~= Seq::<UnitS>::empty());
            assert(r@.mpl =~= Seq::<FactorS>::empty());
        }
        r
    }

    /// Folds the entry of `other` that carries `tag` into this signature.
    pub fn merge_one(&mut self, bu: BaseUnits, tag: String)
        requires
            has_tag(bu@.units, tag@),
            find_tag(old(self)@.units, tag@) >= 0 ==> crate::scale::exp_fits(
                old(self)@.units[find_tag(old(self)@.units, tag@)].pow + bu@.units[find_tag(
                    bu@.units,
                    tag@,
                )].pow,
            ),
        ensures
            final(self)@.units == merge_entry(
                old(self)@.units,
                bu@.units[find_tag(bu@.units, tag@)],
            ),
            final(self)@.mpl == old(self)@.mpl,
    {
        broadcast use lemma_units_view_len, lemma_units_view_index, lemma_find_tag;

        let mut k: usize = 0;
        let n = bu.units.len();
        while k < n
            invariant
                n == bu.units@.len(),
                k <= n,
                self@ == old(self)@,
                has_tag(bu@.units, tag@),
                forall|j: int| 0 <= j < k ==> (#[trigger] bu@.units[j]).tag != tag@,
            decreases n - k,
        {
            if bu.units[k].tag == tag {
                proof {
                    assert(bu@.units[k as int].tag == tag@);
                    let f = find_tag(bu@.units, tag@);
                    if f < k {
                        assert(bu@.units[f].tag == tag@);
                    }
                    if f > k {
                        assert(bu@.units[k as int].tag != tag@);
                    }
                    assert(f == k);
                }
                let u = &bu.units[k];
                proof {
                    assert(u@ == bu@.units[find_tag(bu@.units, tag@)]);
                    assert(u@.tag == tag@);
                }
                self.merge_base_one_ref(u);
                return ;
            }
            k = k + 1;
        }
        proof {
        assert(false);
        }
    }

    /// Folds one unit into this signature by the multiply-scale/add-exponent
    /// rule.
    pub(crate) fn merge_base_one_ref(&mut self, bu: &Unit)
        requires
            find_tag(old(self)@.units, bu@.tag) >= 0 ==> crate::scale::exp_fits(
                old(self)@.units[find_tag(old(self)@.units, bu@.tag)].pow + bu@.pow,
            ),
        ensures
            final(self)@.units == merge_entry(old(self)@.units, bu@),
            final(self)@.mpl == old(self)@.mpl,
    {
        broadcast use lemma_units_view_len, lemma_units_view_index, lemma_find_tag;

        let n = self.units.len();
        let mut k: usize = 0;
        while k < n
            invariant
                n == self.units@.len(),
                self@ == old(self)@,
                forall|j: int| 0 <= j < k ==> (#[trigger] self@.units[j]).tag != bu@.tag,
                k <= n,
                find_tag(old(self)@.units, bu@.tag) >= 0 ==> crate::scale::exp_fits(
                    old(self)@.units[find_tag(old(self)@.units, bu@.tag)].pow + bu@.pow,
                ),
        decreases n - k,
    {
            if self.units[k].tag == bu.tag {
                proof {
                    assert(self@.units[k as int].tag == bu@.tag);
                    let f = find_tag(self@.units, bu@.tag);
                    if f < k {
                        assert(self@.units[f].tag == bu@.tag);
                    }
                    if f > k {
                        assert(self@.units[k as int].tag != bu@.tag);
                    }
                    assert(f == k);
                }
                let e = &self.units[k];
                let mut mpl: Vec<Factor> = Vec::new();
                crate::scale::factors_extend(&mut mpl, &e.mpl);
                crate::scale::factors_extend(&mut mpl, &bu.mpl);
                let merged = Unit {
                    tag: e.tag.clone(),
                    mpl,
                    pow: e.pow + bu.pow,
                    base: units_dup(&e.base),
                };
                proof {
                    assert(merged@.mpl =~= self@.units[k as int].mpl + bu@.mpl);
                }
                let ghost pre = self.units@;
                self.units.set(k, merged);
                proof {
                    lemma_units_views_equal_update(pre, self.units@, k as int, merged);
                    assert(units_view(self.units@) =~= merge_entry(
                        units_view(pre),
                        bu@,
                    ));
                }
                return ;
            }
            k = k + 1;
        }
        let d = unit_dup(bu);
        let ghost pre = self.units@;
        self.units.push(d);
        proof {
            assert(self.units@ == pre.push(d));
            assert(units_view(self.units@) =~= units_view(pre).push(bu@));
        }
    }

    /// Renders the signature's entries as `[tag^pow * ...]`, for diagnostics
    /// and decomposition output.
    pub fn as_readable(&self) -> (r: String)
        ensures
            r@ == crate::text::log_data_spec(self@.units),
    {
        crate::text::log_data(&self.units)
    }

    /// Coherence: the two signatures can be converted into one another.  The
    /// scale factors are deliberately not compared.
    pub fn is_coherent(&self, other: &BaseUnits) -> (r: bool)
        ensures
            r == coherent(self@.units, other@.units),
    {
        broadcast use lemma_units_view_len, lemma_units_view_index, lemma_find_tag;

        let n = self.units.len();
        let mut i: usize = 0;
        while i < n
            invariant
                n == self.units@.len(),
                i <= n,
                forall|k: int| 0 <= k < i ==> coherent_at(self@.units, other@.units, k),
            decreases n - i,
        {
            let e = &self.units[i];
            proof {
                assert(e@ == self@.units[i as int]);
            }
            if !e.base.is_empty() {
                proof {
                    assert(!coherent_at(self@.units, other@.units, i as int));
                }
                return false;
            }
            match find_unit(&other.units, &e.tag) {
                Some(j) => {
                    let o = &other.units[j];
                    proof {
                        assert(o@ == other@.units[find_tag(other@.units, e@.tag)]);
                    }
                    if e.pow != o.pow || !o.base.is_empty() {
                        proof {
                            assert(!coherent_at(self@.units, other@.units, i as int));
                        }
                        return false;
                    }
                    proof {
                        assert(coherent_at(self@.units, other@.units, i as int));
                    }
                },
                None => {
                    proof {
                        assert(!coherent_at(self@.units, other@.units, i as int));
                    }
                    return false;
                },
            }
            i = i + 1;
        }
        let m = other.units.len();
        let mut j: usize = 0;
        while j < m
            invariant
                m == other.units@.len(),
                j <= m,
                forall|k: int| 0 <= k < j ==> has_tag(self@.units, (#[trigger] other@.units[k]).tag),
            decreases m - j,
        {
            let o = &other.units[j];
            proof {
                assert(o@ == other@.units[j as int]);
            }
            if find_unit(&self.units, &o.tag).is_none() {
                return false;
            }
            j = j + 1;
        }
        true
    }

    /// Removes every entry whose exponent is exactly zero.
    pub(crate) fn exclude_zero_powered(&mut self)
        ensures
            final(self)@.units == old(self)@.units.filter(|u: UnitS| u.pow != 0),
            final(self)@.mpl == old(self)@.mpl,
    {
        broadcast use lemma_units_view_len, lemma_units_view_index;

        let n = self.units.len();
        let mut kept: Vec<Unit> = Vec::new();
        let mut i: usize = 0;
        proof {
            reveal(Seq::filter);
            assert(units_view(kept@) =~= units_view(self.units@).take(0).filter(
                |u: UnitS| u.pow != 0,
            ));
        }
        while i < n
            invariant
                n == self.units@.len(),
                self@ == old(self)@,
                i <= n,
                units_view(kept@) == units_view(self.units@).take(i as int).filter(
                    |u: UnitS| u.pow != 0,
                ),
            decreases n - i,
        {
            let ghost pred = |u: UnitS| u.pow != 0;
            let ghost vs = units_view(self.units@);
            let e = &self.units[i];
            proof {
                assert(e@ == vs[i as int]);
                assert(vs.take(i + 1 as int).drop_last() =~= vs.take(i as int));
                assert(vs.take(i + 1 as int).last() == vs[i as int]);
                reveal(Seq::filter);
            }
            if e.pow != 0 {
                let d = unit_dup(e);
                let ghost prek = kept@;
                kept.push(d);
                proof {
                    assert(kept@ == prek.push(d));
                    assert(units_view(kept@) =~= units_view(prek).push(e@));
                    assert(units_view(kept@) =~= vs.take(i + 1 as int).filter(pred));
                }
            } else {
                proof {
                    assert(units_view(kept@) =~= vs.take(i + 1 as int).filter(pred));
                }
            }
            i = i + 1;
        }
        self.units = kept;
        proof {
            assert(units_view(old(self).units@).take(n as int) =~= units_view(old(self).units@));
        }
    }
}

/// Condition that coherence puts on entry `i` of `a` against `b`: the tag is
/// present in `b`, the exponents are equal, and neither side's entry still
/// carries an inline decomposition.
pub open spec fn coherent_at(a: Seq<UnitS>, b: Seq<UnitS>, i: int) -> bool {
    let j = find_tag(b, a[i].tag);
    &&& has_tag(b, a[i].tag)
    &&& a[i].pow == b[j].pow
    &&& a[i].base.len() == 0
    &&& b[j].base.len() == 0
}

/// Two signatures are coherent when they carry the same tags, with equal
/// exponents, and every entry on both sides is atomic.
pub open spec fn coherent(a: Seq<UnitS>, b: Seq<UnitS>) -> bool {
    &&& forall|i: int| 0 <= i < a.len() ==> #[trigger] coherent_at(a, b, i)
    &&& forall|j: int| 0 <= j < b.len() ==> has_tag(a, (#[trigger] b[j]).tag)
}

/// Finds the first entry of `units` carrying `tag`.
pub fn find_unit(units: &Vec<Unit>, tag: &String) -> (r: Option<usize>)
    ensures
        match r {
            Some(i) => find_tag(units_view(units@), tag@) == i as int,
            None => find_tag(units_view(units@), tag@) < 0,
        },
{
    broadcast use lemma_units_view_len, lemma_units_view_index, lemma_find_tag;

    let n = units.len();
    let mut k: usize = 0;
    while k < n
        invariant
            n == units@.len(),
            k <= n,
            forall|j: int| 0 <= j < k ==> (#[trigger] units_view(units@)[j]).tag != tag@,
        decreases n - k,
    {
        if units[k].tag == *tag {
            proof {
                let vs = units_view(units@);
                assert(vs[k as int].tag == tag@);
                let f = find_tag(vs, tag@);
                if f < k {
                    assert(vs[f].tag == tag@);
                }
                if f > k {
                    assert(vs[k as int].tag != tag@);
                }
                assert(f == k);
            }
            return Some(k);
        }
        k = k + 1;
    }
    None
}

/// What folding one parsed unit occurrence into a signature yields.  The tag
/// must resolve in the catalog; a prefix, when present, must resolve in the
/// prefix table and contributes the factor `10 ^ (prefixExponent * pow)`.  A
/// denominator occurrence inverts that factor — computed from the exponent as
/// written, before negation — and negates the exponent.  The resolved catalog
/// definition, with its local scale and exponent replaced by the occurrence's,
/// is then merged into the signature by tag.
pub open spec fn add_parsed_spec(
    b: BaseUnitsS,
    cat: Seq<UnitS>,
    pt: Seq<(Seq<char>, int)>,
    u: ParsedUnitS,
) -> Result<BaseUnitsS, crate::folder::UnitsErrorS> {
    let ci = find_tag(cat, u.tag);
    if ci < 0 {
        Err(crate::folder::UnitsErrorS::NoUnit(u.tag))
    } else {
        match u.pfx {
            Some(sym) => {
                if !crate::register::has_prefix(pt, sym) {
                    Err(crate::folder::UnitsErrorS::NoUnitPrefix(sym))
                } else {
                    let m0 = seq![
                        FactorS { num: 10, den: 1, exp: crate::register::prefix_exp(pt, sym) * u.pow },
                    ];
                    Ok(add_parsed_merge(b, cat[ci], m0, u))
                }
            },
            None => Ok(add_parsed_merge(b, cat[ci], Seq::empty(), u)),
        }
    }
}

/// The merge half of folding a parsed occurrence: the denominator flag
/// inverts the local scale and negates the exponent, then the entry merges.
pub open spec fn add_parsed_merge(
    b: BaseUnitsS,
    def: UnitS,
    m0: Seq<FactorS>,
    u: ParsedUnitS,
) -> BaseUnitsS {
    let m = if u.den {
        crate::scale::factors_inv(m0)
    } else {
        m0
    };
    let w = if u.den {
        -u.pow
    } else {
        u.pow
    };
    BaseUnitsS {
        units: merge_entry(b.units, UnitS { tag: def.tag, mpl: m, pow: w, base: def.base }),
        mpl: b.mpl,
    }
}

impl BaseUnits {
    /// Resolves one parsed unit occurrence against the catalog and prefix
    /// table and folds it into this signature.
    pub fn add_parsed_unit(
        &mut self,
        u: ParsedUnit,
        voc: &crate::register::Catalog,
        pt: &crate::register::PrefixTable,
    ) -> (r: Result<(), crate::folder::UnitsError>)
        requires
            find_tag(old(self)@.units, u@.tag) >= 0 ==> crate::scale::exp_fits(
                old(self)@.units[find_tag(old(self)@.units, u@.tag)].pow + (if u@.den {
                    -u@.pow
                } else {
                    u@.pow
                }),
            ),
        ensures
            match r {
                Ok(_) => add_parsed_spec(old(self)@, voc@, pt@, u@) == Ok::<
                    BaseUnitsS,
                    crate::folder::UnitsErrorS,
                >(final(self)@),
                Err(e) => final(self)@ == old(self)@ && add_parsed_spec(old(self)@, voc@, pt@, u@)
                    == Err::<BaseUnitsS, crate::folder::UnitsErrorS>(e@),
            },
    {
        broadcast use lemma_units_view_len, lemma_units_view_index, lemma_find_tag;

        let ex_u = match voc.resolve(&u.tag) {
            Some(e) => e,
            None => {
                return Err(crate::folder::UnitsError::NoUnit(u.tag.clone()));
            },
        };
        let w: i64 = if u.den {
            -(u.pow as i64)
        } else {
            u.pow as i64
        };
        let mut mpl: Vec<Factor> = Vec::new();
        match &u.pfx {
            Some(sym) => {
                match pt.lookup(sym) {
                    Some(e) => {
                        proof {
                            assert(crate::scale::exp_fits((e as int) * (u.pow as int)) && crate::scale::exp_fits(
                                -((e as int) * (u.pow as int)),
                            )) by (nonlinear_arith)
                                requires
                                    -0x8000_0000 <= e as int <= 0x7fff_ffff && -128 <= u.pow as int
                                        <= 127,
                            ;
                        }
                        let exp0: i64 = (e as i64) * (u.pow as i64);
                        let exp: i64 = if u.den {
                            -exp0
                        } else {
                            exp0
                        };
                        mpl.push(Factor { num: 10, den: 1, exp });
                        proof {
                            let ghost m0 = seq![
                                FactorS {
                                    num: 10,
                                    den: 1,
                                    exp: crate::register::prefix_exp(pt@, sym@) * u@.pow,
                                },
                            ];
                            if u@.den {
                                assert(mpl.deep_view() =~= crate::scale::factors_inv(m0));
                            } else {
                                assert(mpl.deep_view() =~= m0);
                            }
                        }
                    },
                    None => {
                        return Err(crate::folder::UnitsError::NoUnitPrefix(sym.clone()));
                    },
                }
            },
            None => {
                proof {
                    assert(mpl.deep_view() =~= Seq::<FactorS>::empty());
                    assert(crate::scale::factors_inv(Seq::<FactorS>::empty())
                        =~= Seq::<FactorS>::empty());
                }
            },
        }
        let proto = Unit { tag: ex_u.tag.clone(), mpl, pow: w, base: units_dup(&ex_u.base) };
        proof {
            assert(proto@.tag == voc@[find_tag(voc@, u@.tag)].tag);
            assert(proto@.base == voc@[find_tag(voc@, u@.tag)].base);
            assert(voc@[find_tag(voc@, u@.tag)].tag == u@.tag);
        }
        self.merge_base_one_ref(&proto);
        Ok(())
    }
}

/// Updating one element of a vector updates the same element of its image.
pub proof fn lemma_units_views_equal_update(pre: Seq<Unit>, post: Seq<Unit>, k: int, u: Unit)
    requires
        0 <= k < pre.len(),
        post == pre.update(k, u),
    ensures
        units_view(post) == units_view(pre).update(k, unit_view(u)),
{
    broadcast use lemma_units_view_len, lemma_units_view_index;

    assert(units_view(post) =~= units_view(pre).update(k, unit_view(u)));
}

} // verus!
