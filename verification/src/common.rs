//! Listings of what the catalog and the prefix table offer.

use crate::register::{Catalog, PrefixTable};
use crate::units::{lemma_units_view_index, lemma_units_view_len, UnitS};
use vstd::prelude::*;
use vstd::string::StringExecFns;

verus! {

/// Names joined by `, `.
pub open spec fn joined_names(s: Seq<Seq<char>>) -> Seq<char>
    decreases s.len(),
{
    if s.len() == 0 {
        Seq::empty()
    } else if s.len() == 1 {
        s[0]
    } else {
        s[0] + ", "@ + joined_names(s.drop_first())
    }
}

/// Extending a joined prefix by one more name.
proof fn lemma_joined_names_step(s: Seq<Seq<char>>, i: int)
    requires
        0 <= i < s.len(),
    ensures
        i == 0 ==> joined_names(s.take(1)) == s[0],
        i > 0 ==> joined_names(s.take(i + 1)) == joined_names(s.take(i)) + ", "@ + s[i],
    decreases i,
{
    if i == 0 {
        assert(s.take(1).len() == 1);
        assert(s.take(1)[0] == s[0]);
    } else {
        lemma_joined_names_step(s.drop_first(), i - 1);
        let t = s.take(i + 1);
        assert(t.len() >= 2);
        assert(t[0] == s[0]);
        assert(t.drop_first() =~= s.drop_first().take(i));
        assert(s.take(i).drop_first() =~= s.drop_first().take(i - 1));
        assert(s.drop_first()[i - 1] == s[i]);
        if i == 1 {
            assert(joined_names(s.drop_first().take(1)) == s.drop_first()[0]);
            assert(s.take(1).len() == 1);
            assert(joined_names(t) =~= joined_names(s.take(1)) + ", "@ + s[1]);
        } else {
            assert(joined_names(t) == t[0] + ", "@ + joined_names(t.drop_first()));
            assert(joined_names(s.take(i)) == s[0] + ", "@ + joined_names(s.take(i).drop_first()));
            assert(joined_names(t) =~= joined_names(s.take(i)) + ", "@ + s[i]);
        }
    }
}

/// The tags of the catalog entries, in order.
pub open spec fn catalog_tags(c: Seq<UnitS>) -> Seq<Seq<char>> {
    c.map_values(|u: UnitS| u.tag)
}

/// The symbols of the prefix table, in order.
pub open spec fn prefix_syms(t: Seq<(Seq<char>, int)>) -> Seq<Seq<char>> {
    t.map_values(|p: (Seq<char>, int)| p.0)
}

/// All unit tags the catalog knows, joined by `, `.
pub fn all_units(voc: &Catalog) -> (r: String)
    ensures
        r@ == joined_names(catalog_tags(voc@)),
{
    broadcast use lemma_units_view_len, lemma_units_view_index;

    let ghost names = catalog_tags(voc@);
    let entries = voc.units();
    let mut s = String::new();
    let n = entries.len();
    let mut i: usize = 0;
    proof {
        assert(s@ =~= joined_names(names.take(0)));
    }
    while i < n
        invariant
            n == entries@.len(),
            names == catalog_tags(voc@),
            names.len() == n,
            i <= n,
            forall|j: int| 0 <= j < n ==> names[j] == voc@[j].tag,
            s@ == joined_names(names.take(i as int)) + (if 0 < i < n {
                ", "@
            } else {
                Seq::<char>::empty()
            }),
        decreases n - i,
    {
        let e = &entries[i];
        proof {
            assert(e@ == voc@[i as int]);
        }
        s.append(e.tag.as_str());
        if i + 1 < n {
            s.append(", ");
        }
        proof {
            lemma_joined_names_step(names, i as int);
            assert(s@ =~= joined_names(names.take(i + 1 as int)) + (if 0 < i + 1 < n {
                ", "@
            } else {
                Seq::<char>::empty()
            }));
        }
        i = i + 1;
    }
    proof {
        assert(names.take(n as int) =~= names);
    }
    s
}

/// All prefix symbols the table knows, joined by `, `.
pub fn all_prefixes(pt: &PrefixTable) -> (r: String)
    ensures
        r@ == joined_names(prefix_syms(pt@)),
{
    let ghost names = prefix_syms(pt@);
    let mut s = String::new();
    let n = pt.entries.len();
    let mut i: usize = 0;
    proof {
        assert(s@ =~= joined_names(names.take(0)));
    }
    while i < n
        invariant
            n == pt.entries@.len(),
            names == prefix_syms(pt@),
            names.len() == n,
            i <= n,
            forall|j: int| 0 <= j < n ==> names[j] == pt.entries@[j].0@,
            s@ == joined_names(names.take(i as int)) + (if 0 < i < n {
                ", "@
            } else {
                Seq::<char>::empty()
            }),
        decreases n - i,
    {
        s.append(pt.entries[i].0.as_str());
        if i + 1 < n {
            s.append(", ");
        }
        proof {
            lemma_joined_names_step(names, i as int);
            assert(s@ =~= joined_names(names.take(i + 1 as int)) + (if 0 < i + 1 < n {
                ", "@
            } else {
                Seq::<char>::empty()
            }));
        }
        i = i + 1;
    }
    proof {
        assert(names.take(n as int) =~= names);
    }
    s
}

} // verus!
