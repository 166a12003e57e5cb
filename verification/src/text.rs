//! Verified text helpers: decimal rendering of integers, lexicographic
//! comparison, and the human-readable form of a unit signature.

use crate::units::{
    lemma_units_view_index, lemma_units_view_len, units_view, Unit, UnitS,
};
use vstd::prelude::*;
use vstd::string::StrSliceExecFns;
use vstd::string::StringExecFns;

verus! {

/// Relies on `String::push`: appends the given character to the end of the
/// string.
pub assume_specification[ String::push ](s: &mut String, c: char)
    ensures
        final(s)@ == old(s)@.push(c),
;

/// The decimal digit character for `d`.
pub open spec fn digit_char(d: nat) -> char
    recommends
        d < 10,
{
    (48 + d) as char
}

/// The decimal digits of a natural number, most significant first.
pub open spec fn dec_digits(n: nat) -> Seq<char>
    decreases n,
{
    if n < 10 {
        seq![digit_char(n)]
    } else {
        dec_digits(n / 10).push(digit_char(n % 10))
    }
}

/// The decimal rendering of an integer, with a leading minus sign when
/// negative.
pub open spec fn dec_str(n: int) -> Seq<char> {
    if n < 0 {
        seq!['-'] + dec_digits((-n) as nat)
    } else {
        dec_digits(n as nat)
    }
}

/// Appends the decimal digits of `n` to `s`.
pub fn push_digits(s: &mut String, n: u64)
    ensures
        final(s)@ == old(s)@ + dec_digits(n as nat),
    decreases n,
{
    if n < 10 {
        let c = (48 + n as u8) as char;
        proof {
            assert(c == digit_char(n as nat));
        }
        s.push(c);
        proof {
            assert(s@ =~= old(s)@ + dec_digits(n as nat));
        }
    } else {
        push_digits(s, n / 10);
        let c = (48 + (n % 10) as u8) as char;
        proof {
            assert(c == digit_char((n % 10) as nat));
        }
        s.push(c);
        proof {
            assert((n / 10) as nat == n as nat / 10);
            assert((n % 10) as nat == n as nat % 10);
            assert(s@ =~= old(s)@ + dec_digits(n as nat));
        }
    }
}

/// Appends the decimal rendering of `n` to `s`.
pub fn push_i64(s: &mut String, n: i64)
    ensures
        final(s)@ == old(s)@ + dec_str(n as int),
{
    if n < 0 {
        s.push('-');
        let m: u64 = if n == i64::MIN {
            9223372036854775808u64
        } else {
            (-n) as u64
        };
        proof {
            assert(m as nat == (-(n as int)) as nat);
        }
        push_digits(s, m);
        proof {
            assert(s@ =~= old(s)@ + dec_str(n as int));
        }
    } else {
        push_digits(s, n as u64);
    }
}

/// One rendered term of a signature: `tag^pow`.
pub open spec fn unit_term(u: UnitS) -> Seq<char> {
    u.tag + "^"@ + dec_str(u.pow)
}

/// The rendered terms joined by ` * `.
pub open spec fn joined_terms(s: Seq<UnitS>) -> Seq<char>
    decreases s.len(),
{
    if s.len() == 0 {
        Seq::empty()
    } else if s.len() == 1 {
        unit_term(s[0])
    } else {
        unit_term(s[0]) + " * "@ + joined_terms(s.drop_first())
    }
}

/// The rendered form of a signature: the terms joined by ` * `, in brackets.
pub open spec fn log_data_spec(s: Seq<UnitS>) -> Seq<char> {
    "["@ + joined_terms(s) + "]"@
}

/// Renders a list of units as `[tag^pow * tag^pow * ...]`.
pub fn log_data(u: &Vec<Unit>) -> (r: String)
    ensures
        r@ == log_data_spec(units_view(u@)),
{
    broadcast use lemma_units_view_len, lemma_units_view_index;

    let ghost uv = units_view(u@);
    let mut s = String::new();
    s.append("[");
    let n = u.len();
    let mut i: usize = 0;
    while i < n
        invariant
            n == u@.len(),
            i <= n,
            s@ == "["@ + joined_terms(uv.take(i as int)) + (if 0 < i < n {
                " * "@
            } else {
                Seq::<char>::empty()
            }),
        decreases n - i,
    {
        let e = &u[i];
        proof {
            assert(e@ == uv[i as int]);
        }
        s.append(e.tag.as_str());
        s.append("^");
        push_i64(&mut s, e.pow);
        if i + 1 < n {
            s.append(" * ");
        }
        proof {
            lemma_joined_step(uv, i as int);
            assert(s@ =~= "["@ + joined_terms(uv.take(i + 1 as int)) + (if 0 < i + 1 < n {
                " * "@
            } else {
                Seq::<char>::empty()
            }));
        }
        i = i + 1;
    }
    s.append("]");
    proof {
        assert(uv.take(n as int) =~= uv);
        assert(s@ =~= log_data_spec(uv));
    }
    s
}

/// Extending the rendered prefix by one more term.
proof fn lemma_joined_step(s: Seq<UnitS>, i: int)
    requires
        0 <= i < s.len(),
    ensures
        i == 0 ==> joined_terms(s.take(1)) == unit_term(s[0]),
        i > 0 ==> joined_terms(s.take(i + 1)) == joined_terms(s.take(i)) + " * "@ + unit_term(
            s[i],
        ),
    decreases i,
{
    if i == 0 {
        assert(s.take(1).len() == 1);
        assert(s.take(1)[0] == s[0]);
    } else {
        lemma_joined_step(s.drop_first(), i - 1);
        let t = s.take(i + 1);
        assert(t.len() >= 2);
        assert(t[0] == s[0]);
        assert(t.drop_first() =~= s.drop_first().take(i));
        assert(s.take(i).drop_first() =~= s.drop_first().take(i - 1));
        assert(s.drop_first()[i - 1] == s[i]);
        if i == 1 {
            assert(joined_terms(s.drop_first().take(1)) == unit_term(s.drop_first()[0]));
            assert(s.take(1).len() == 1);
            assert(joined_terms(s.take(1)) == unit_term(s[0]));
            assert(joined_terms(t) =~= joined_terms(s.take(1)) + " * "@ + unit_term(s[1]));
        } else {
            assert(joined_terms(t) == unit_term(t[0]) + " * "@ + joined_terms(t.drop_first()));
            assert(joined_terms(s.take(i)) == unit_term(s[0]) + " * "@ + joined_terms(
                s.take(i).drop_first(),
            ));
            assert(joined_terms(t) =~= joined_terms(s.take(i)) + " * "@ + unit_term(s[i]));
        }
    }
}

/// Strict lexicographic order on character sequences.
pub open spec fn lex_lt(a: Seq<char>, b: Seq<char>) -> bool
    decreases a.len(),
{
    if b.len() == 0 {
        false
    } else if a.len() == 0 {
        true
    } else if a[0] != b[0] {
        a[0] < b[0]
    } else {
        lex_lt(a.drop_first(), b.drop_first())
    }
}

/// Compares two strings lexicographically by character.
pub fn str_lex_lt(a: &String, b: &String) -> (r: bool)
    ensures
        r == lex_lt(a@, b@),
{
    let an = a.as_str().unicode_len();
    let bn = b.as_str().unicode_len();
    let mut i: usize = 0;
    proof {
        assert(a@.skip(0) =~= a@);
        assert(b@.skip(0) =~= b@);
    }
    while i < an && i < bn
        invariant
            i <= an,
            i <= bn,
            an == a@.len(),
            bn == b@.len(),
            forall|j: int| 0 <= j < i ==> a@[j] == b@[j],
            lex_lt(a@, b@) == lex_lt(a@.skip(i as int), b@.skip(i as int)),
        decreases an - i,
    {
        let ca = a.as_str().get_char(i);
        let cb = b.as_str().get_char(i);
        proof {
            assert(a@.skip(i as int)[0] == a@[i as int]);
            assert(b@.skip(i as int)[0] == b@[i as int]);
            assert(a@.skip(i as int).drop_first() =~= a@.skip(i + 1 as int));
            assert(b@.skip(i as int).drop_first() =~= b@.skip(i + 1 as int));
        }
        if ca != cb {
            return ca < cb;
        }
        i = i + 1;
    }
    proof {
        assert(a@.skip(i as int).len() == a@.len() - i);
        assert(b@.skip(i as int).len() == b@.len() - i);
    }
    an < bn && i == an
}

} // verus!
