//! Exact representation of the scale factor of a unit signature.
//!
//! A scale factor is a product of factors `(num/den)^exp` with positive
//! integer numerator and denominator and a signed integer exponent.  The
//! product is never multiplied out at run time; its mathematical value is the
//! unreduced fraction `scale_num(s) / scale_den(s)`.

use vstd::arithmetic::power::{
    lemma_pow1, lemma_pow_distributes, lemma_pow_multiplies, lemma_pow_positive, pow,
};
use vstd::prelude::*;

verus! {

/// One factor `(num/den)^exp` of a scale value.
#[derive(Clone, Copy, Debug)]
pub struct Factor {
    pub num: u64,
    pub den: u64,
    pub exp: i64,
}

/// Mathematical image of a `Factor`.
pub ghost struct FactorS {
    pub num: int,
    pub den: int,
    pub exp: int,
}

impl View for Factor {
    type V = FactorS;

    open spec fn view(&self) -> FactorS {
        FactorS { num: self.num as int, den: self.den as int, exp: self.exp as int }
    }
}

impl DeepView for Factor {
    type V = FactorS;

    open spec fn deep_view(&self) -> FactorS {
        self.view()
    }
}

/// A factor is well formed when its numerator and denominator are positive,
/// so that its value is a positive rational number.
pub open spec fn factor_wf(f: FactorS) -> bool {
    &&& f.num >= 1
    &&& f.den >= 1
}

pub open spec fn factors_wf(s: Seq<FactorS>) -> bool {
    forall|i: int| 0 <= i < s.len() ==> factor_wf(#[trigger] s[i])
}

/// Numerator of the value of one factor: `num^exp`, written with a positive
/// exponent by swapping numerator and denominator when `exp < 0`.
pub open spec fn factor_num(f: FactorS) -> int {
    if f.exp >= 0 {
        pow(f.num, f.exp as nat)
    } else {
        pow(f.den, (-f.exp) as nat)
    }
}

/// Denominator of the value of one factor.
pub open spec fn factor_den(f: FactorS) -> int {
    if f.exp >= 0 {
        pow(f.den, f.exp as nat)
    } else {
        pow(f.num, (-f.exp) as nat)
    }
}

/// Numerator of the value of a whole factor sequence.
pub open spec fn scale_num(s: Seq<FactorS>) -> int
    decreases s.len(),
{
    if s.len() == 0 {
        1
    } else {
        factor_num(s[0]) * scale_num(s.drop_first())
    }
}

/// Denominator of the value of a whole factor sequence.
pub open spec fn scale_den(s: Seq<FactorS>) -> int
    decreases s.len(),
{
    if s.len() == 0 {
        1
    } else {
        factor_den(s[0]) * scale_den(s.drop_first())
    }
}

/// A mathematical integer that a machine word can carry.
pub open spec fn exp_fits(x: int) -> bool {
    i64::MIN <= x <= i64::MAX
}

/// Two scales denote the same rational number.
pub open spec fn scale_eq(a: Seq<FactorS>, b: Seq<FactorS>) -> bool {
    scale_num(a) * scale_den(b) == scale_num(b) * scale_den(a)
}

/// Raising a scale to an integer power multiplies every exponent.
pub open spec fn factor_powed(f: FactorS, p: int) -> FactorS {
    FactorS { num: f.num, den: f.den, exp: f.exp * p }
}

pub open spec fn factors_pow(s: Seq<FactorS>, p: int) -> Seq<FactorS> {
    s.map_values(|f: FactorS| factor_powed(f, p))
}

/// The reciprocal of a scale negates every exponent.
pub open spec fn factors_inv(s: Seq<FactorS>) -> Seq<FactorS> {
    factors_pow(s, -1)
}

pub proof fn lemma_pow_one(e: nat)
    ensures
        pow(1, e) == 1,
    decreases e,
{
    reveal(pow);
    if e > 0 {
        lemma_pow_one((e - 1) as nat);
    }
}

/// The value of a concatenation is the product of the values.
pub proof fn lemma_scale_concat(s1: Seq<FactorS>, s2: Seq<FactorS>)
    ensures
        scale_num(s1 + s2) == scale_num(s1) * scale_num(s2),
        scale_den(s1 + s2) == scale_den(s1) * scale_den(s2),
    decreases s1.len(),
{
    if s1.len() == 0 {
        assert(s1 + s2 =~= s2);
    } else {
        assert((s1 + s2).drop_first() =~= s1.drop_first() + s2);
        lemma_scale_concat(s1.drop_first(), s2);
        assert(factor_num(s1[0]) * (scale_num(s1.drop_first()) * scale_num(s2)) == (factor_num(
            s1[0],
        ) * scale_num(s1.drop_first())) * scale_num(s2)) by (nonlinear_arith);
        assert(factor_den(s1[0]) * (scale_den(s1.drop_first()) * scale_den(s2)) == (factor_den(
            s1[0],
        ) * scale_den(s1.drop_first())) * scale_den(s2)) by (nonlinear_arith);
    }
}

/// The value of one powered factor is the power of the factor's value.
pub proof fn lemma_factor_pow(f: FactorS, p: int)
    ensures
        factor_num(factor_powed(f, p)) == if p >= 0 {
            pow(factor_num(f), p as nat)
        } else {
            pow(factor_den(f), (-p) as nat)
        },
        factor_den(factor_powed(f, p)) == if p >= 0 {
            pow(factor_den(f), p as nat)
        } else {
            pow(factor_num(f), (-p) as nat)
        },
{
    broadcast use vstd::arithmetic::power::lemma_pow0;

    let e = f.exp;
    if e >= 0 && p >= 0 {
        assert(e * p >= 0) by (nonlinear_arith)
            requires
                e >= 0 && p >= 0,
        ;
        lemma_pow_multiplies(f.num, e as nat, p as nat);
        lemma_pow_multiplies(f.den, e as nat, p as nat);
        assert((e * p) as nat == (e as nat) * (p as nat)) by (nonlinear_arith)
            requires
                e >= 0 && p >= 0,
        ;
    } else if e >= 0 && p < 0 {
        assert(e * p <= 0) by (nonlinear_arith)
            requires
                e >= 0 && p < 0,
        ;
        if e * p == 0 {
            assert(e == 0) by (nonlinear_arith)
                requires
                    e * p == 0 && p < 0,
            ;
            lemma_pow_one((-p) as nat);
        } else {
            lemma_pow_multiplies(f.num, e as nat, (-p) as nat);
            lemma_pow_multiplies(f.den, e as nat, (-p) as nat);
            assert((-(e * p)) as nat == (e as nat) * ((-p) as nat)) by (nonlinear_arith)
                requires
                    e >= 0 && p < 0,
            ;
        }
    } else if e < 0 && p >= 0 {
        assert(e * p <= 0) by (nonlinear_arith)
            requires
                e < 0 && p >= 0,
        ;
        if e * p == 0 {
            assert(p == 0) by (nonlinear_arith)
                requires
                    e * p == 0 && e < 0,
            ;
            lemma_pow_one(0);
        } else {
            lemma_pow_multiplies(f.num, (-e) as nat, p as nat);
            lemma_pow_multiplies(f.den, (-e) as nat, p as nat);
            assert((-(e * p)) as nat == ((-e) as nat) * (p as nat)) by (nonlinear_arith)
                requires
                    e < 0 && p >= 0,
            ;
        }
    } else {
        assert(e * p > 0) by (nonlinear_arith)
            requires
                e < 0 && p < 0,
        ;
        lemma_pow_multiplies(f.num, (-e) as nat, (-p) as nat);
        lemma_pow_multiplies(f.den, (-e) as nat, (-p) as nat);
        assert((e * p) as nat == ((-e) as nat) * ((-p) as nat)) by (nonlinear_arith)
            requires
                e < 0 && p < 0,
        ;
    }
}

/// The value of a powered scale is the power of the scale's value.
pub proof fn lemma_scale_pow(s: Seq<FactorS>, p: int)
    ensures
        scale_num(factors_pow(s, p)) == if p >= 0 {
            pow(scale_num(s), p as nat)
        } else {
            pow(scale_den(s), (-p) as nat)
        },
        scale_den(factors_pow(s, p)) == if p >= 0 {
            pow(scale_den(s), p as nat)
        } else {
            pow(scale_num(s), (-p) as nat)
        },
    decreases s.len(),
{
    if s.len() == 0 {
        assert(factors_pow(s, p) =~= Seq::<FactorS>::empty());
        if p >= 0 {
            lemma_pow_one(p as nat);
        } else {
            lemma_pow_one((-p) as nat);
        }
    } else {
        assert(factors_pow(s, p).drop_first() =~= factors_pow(s.drop_first(), p));
        assert(factors_pow(s, p)[0] == factor_powed(s[0], p));
        lemma_scale_pow(s.drop_first(), p);
        lemma_factor_pow(s[0], p);
        if p >= 0 {
            lemma_pow_distributes(factor_num(s[0]), scale_num(s.drop_first()), p as nat);
            lemma_pow_distributes(factor_den(s[0]), scale_den(s.drop_first()), p as nat);
        } else {
            lemma_pow_distributes(factor_den(s[0]), scale_den(s.drop_first()), (-p) as nat);
            lemma_pow_distributes(factor_num(s[0]), scale_num(s.drop_first()), (-p) as nat);
        }
    }
}

/// The value of the reciprocal swaps numerator and denominator.
pub proof fn lemma_scale_inv(s: Seq<FactorS>)
    ensures
        scale_num(factors_inv(s)) == scale_den(s),
        scale_den(factors_inv(s)) == scale_num(s),
{
    lemma_scale_pow(s, -1);
    lemma_pow1(scale_den(s));
    lemma_pow1(scale_num(s));
}

/// Appends a copy of `src` to `dst`.
pub fn factors_extend(dst: &mut Vec<Factor>, src: &Vec<Factor>)
    ensures
        final(dst).deep_view() == old(dst).deep_view() + src.deep_view(),
{
    let ghost orig = dst@;
    let mut i: usize = 0;
    while i < src.len()
        invariant
            i <= src.len(),
            dst@ == orig + src@.take(i as int),
        decreases src.len() - i,
    {
        let ghost pre = dst@;
        dst.push(src[i]);
        proof {
            assert(dst@ =~= orig + src@.take(i + 1 as int));
        }
        i = i + 1;
    }
    proof {
        assert(src@.take(src@.len() as int) =~= src@);
        assert forall|k: int| 0 <= k < dst.deep_view().len() implies dst.deep_view()[k] == (old(
            dst,
        ).deep_view() + src.deep_view())[k] by {
            assert(dst@[k] == (orig + src@)[k]);
        }
        assert(dst.deep_view() =~= old(dst).deep_view() + src.deep_view());
    }
}

/// A copy of `v` raised to the power `p`: every exponent is multiplied by `p`.
pub fn factors_powed_vec(v: &Vec<Factor>, p: i64) -> (r: Vec<Factor>)
    requires
        forall|i: int|
            0 <= i < v.deep_view().len() ==> i64::MIN <= (#[trigger] v.deep_view()[i]).exp * p
                <= i64::MAX,
    ensures
        r.deep_view() == factors_pow(v.deep_view(), p as int),
{
    let mut r: Vec<Factor> = Vec::new();
    let mut i: usize = 0;
    while i < v.len()
        invariant
            i <= v.len(),
            r@.len() == i,
            forall|j: int|
                0 <= j < v.deep_view().len() ==> i64::MIN <= (#[trigger] v.deep_view()[j]).exp * p
                    <= i64::MAX,
            forall|j: int|
                0 <= j < i ==> #[trigger] r@[j].num == v@[j].num && r@[j].den == v@[j].den
                    && r@[j].exp as int == v@[j].exp as int * p as int,
        decreases v.len() - i,
    {
        let f = v[i];
        assert(v.deep_view()[i as int] == f@);
        let g = Factor { num: f.num, den: f.den, exp: f.exp * p };
        r.push(g);
        i = i + 1;
    }
    proof {
        assert forall|k: int| 0 <= k < r.deep_view().len() implies r.deep_view()[k] == factors_pow(
            v.deep_view(),
            p as int,
        )[k] by {
            assert(r@.len() == i);
            assert(0 <= k < i);
            assert(r@[k].num == v@[k].num);
            assert(r@[k].den == v@[k].den);
            assert(r@[k].exp as int == v@[k].exp as int * p as int);
            assert(r.deep_view()[k] == r@[k]@);
            assert(v.deep_view()[k] == v@[k]@);
            assert(factors_pow(v.deep_view(), p as int)[k] == factor_powed(v@[k]@, p as int));
        }
        assert(r.deep_view() =~= factors_pow(v.deep_view(), p as int));
    }
    r
}

} // verus!
