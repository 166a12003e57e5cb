//! The unit catalog and the metric-prefix table.
//!
//! The catalog is a table of unit definitions keyed by tag; algebra
//! operations receive it by reference.  The prefix table maps each metric
//! prefix symbol to its power-of-ten exponent.

use crate::units::{
    find_tag, find_unit, lemma_find_tag, lemma_units_view_index, lemma_units_view_len, tags_unique,
    unit_dup, unit_view, unit_wf, units_view, units_wf, Unit, UnitS,
};
use vstd::prelude::*;
use vstd::string::StringExecFns;

verus! {

/// The catalog of unit definitions: tags are unique.
#[derive(Debug)]
pub struct Catalog {
    pub entries: Vec<Unit>,
}

impl View for Catalog {
    type V = Seq<UnitS>;

    open spec fn view(&self) -> Seq<UnitS> {
        units_view(self.entries@)
    }
}

/// Internal invariant of the catalog: unique tags, well-formed entries.
pub open spec fn catalog_wf(c: Seq<UnitS>) -> bool {
    &&& tags_unique(c)
    &&& units_wf(c)
}

impl Catalog {
    /// An empty catalog.
    pub fn new() -> (r: Catalog)
        ensures
            r@ == Seq::<UnitS>::empty(),
            catalog_wf(r@),
    {
        let r = Catalog { entries: Vec::new() };
        proof {
            assert(r@ =~= Seq::<UnitS>::empty());
        }
        r
    }

    /// Inserts a definition, replacing any earlier one with the same tag.
    pub fn add_unit(&mut self, u: Unit)
        ensures
            final(self)@ == if find_tag(old(self)@, u@.tag) >= 0 {
                old(self)@.update(find_tag(old(self)@, u@.tag), u@)
            } else {
                old(self)@.push(u@)
            },
            catalog_wf(old(self)@) && unit_wf(u@) ==> catalog_wf(final(self)@),
    {
        broadcast use lemma_units_view_len, lemma_units_view_index, lemma_find_tag;

        match find_unit(&self.entries, &u.tag) {
            Some(i) => {
                let ghost pre = self.entries@;
                self.entries.set(i, u);
                proof {
                    crate::units::lemma_units_views_equal_update(
                        pre,
                        self.entries@,
                        i as int,
                        self.entries@[i as int],
                    );
                    assert(units_view(self.entries@) =~= units_view(pre).update(
                        find_tag(units_view(pre), units_view(self.entries@)[i as int].tag),
                        units_view(self.entries@)[i as int],
                    ));
                }
            },
            None => {
                let ghost pre = self.entries@;
                self.entries.push(u);
                proof {
                    assert(units_view(self.entries@) =~= units_view(pre).push(
                        unit_view(self.entries@[pre.len() as int]),
                    ));
                }
            },
        }
    }

    /// Looks a tag up; `None` when the catalog holds no such unit.
    pub fn resolve(&self, tag: &String) -> (r: Option<&Unit>)
        ensures
            match r {
                Some(u) => find_tag(self@, tag@) >= 0 && u@ == self@[find_tag(self@, tag@)],
                None => find_tag(self@, tag@) < 0,
            },
    {
        broadcast use lemma_units_view_len, lemma_units_view_index, lemma_find_tag;

        match find_unit(&self.entries, tag) {
            Some(i) => Some(&self.entries[i]),
            None => None,
        }
    }

    /// The definitions, in insertion order.
    pub fn units(&self) -> (r: &Vec<Unit>)
        ensures
            units_view(r@) == self@,
    {
        &self.entries
    }
}

/// The fixed table of metric prefixes.
#[derive(Debug)]
pub struct PrefixTable {
    pub entries: Vec<(String, i32)>,
}

/// Mathematical image of the prefix table.
pub open spec fn ptable_view(s: Seq<(String, i32)>) -> Seq<(Seq<char>, int)> {
    s.map_values(|p: (String, i32)| (p.0@, p.1 as int))
}

impl View for PrefixTable {
    type V = Seq<(Seq<char>, int)>;

    open spec fn view(&self) -> Seq<(Seq<char>, int)> {
        ptable_view(self.entries@)
    }
}

/// Index of the first entry for `sym`, or -1 when no entry matches.
pub open spec fn prefix_find(t: Seq<(Seq<char>, int)>, sym: Seq<char>) -> int
    decreases t.len(),
{
    if t.len() == 0 {
        -1
    } else if t[0].0 == sym {
        0
    } else {
        let r = prefix_find(t.drop_first(), sym);
        if r < 0 {
            -1
        } else {
            r + 1
        }
    }
}

pub open spec fn has_prefix(t: Seq<(Seq<char>, int)>, sym: Seq<char>) -> bool {
    prefix_find(t, sym) >= 0
}

/// Exponent of `sym` in the table, meaningful when the symbol is present.
pub open spec fn prefix_exp(t: Seq<(Seq<char>, int)>, sym: Seq<char>) -> int {
    t[prefix_find(t, sym)].1
}

pub broadcast proof fn lemma_prefix_find(t: Seq<(Seq<char>, int)>, sym: Seq<char>)
    ensures
        #[trigger] prefix_find(t, sym) >= 0 ==> prefix_find(t, sym) < t.len() && t[prefix_find(
            t,
            sym,
        )].0 == sym && (forall|j: int|
            0 <= j < prefix_find(t, sym) ==> (#[trigger] t[j]).0 != sym),
        prefix_find(t, sym) < 0 ==> forall|j: int| 0 <= j < t.len() ==> (#[trigger] t[j]).0 != sym,
    decreases t.len(),
{
    if t.len() > 0 && t[0].0 != sym {
        lemma_prefix_find(t.drop_first(), sym);
        let r = prefix_find(t.drop_first(), sym);
        if r >= 0 {
            assert(t[r + 1] == t.drop_first()[r]);
            assert forall|j: int| 0 <= j < prefix_find(t, sym) implies (#[trigger] t[j]).0
                != sym by {
                if j > 0 {
                    assert(t[j] == t.drop_first()[j - 1]);
                }
            }
        } else {
            assert forall|j: int| 0 <= j < t.len() implies (#[trigger] t[j]).0 != sym by {
                if j > 0 {
                    assert(t[j] == t.drop_first()[j - 1]);
                }
            }
        }
    }
}

impl PrefixTable {
    /// Looks a prefix symbol up; `None` when the table holds no such symbol.
    pub fn lookup(&self, sym: &String) -> (r: Option<i32>)
        ensures
            match r {
                Some(e) => has_prefix(self@, sym@) && e as int == prefix_exp(self@, sym@),
                None => !has_prefix(self@, sym@),
            },
    {
        broadcast use lemma_prefix_find;

        let n = self.entries.len();
        let mut k: usize = 0;
        while k < n
            invariant
                n == self.entries@.len(),
                k <= n,
                forall|j: int| 0 <= j < k ==> (#[trigger] self@[j]).0 != sym@,
            decreases n - k,
        {
            proof {
                assert(self@[k as int] == (self.entries@[k as int].0@, self.entries@[k as int].1 as int));
            }
            if self.entries[k].0 == *sym {
                proof {
                    let f = prefix_find(self@, sym@);
                    if f < k {
                        assert(self@[f].0 == sym@);
                    }
                    if f > k {
                        assert(self@[k as int].0 != sym@);
                    }
                    assert(f == k);
                }
                return Some(self.entries[k].1);
            }
            k = k + 1;
        }
        proof {
            if prefix_find(self@, sym@) >= 0 {
                assert(self@[prefix_find(self@, sym@)].0 == sym@);
            }
        }
        None
    }
}

/// The standard metric prefixes, symbol to power-of-ten exponent.
pub fn prefixes() -> (r: PrefixTable)
    ensures
        r@ =~= seq![
            ("Т"@, 12int),
            ("Г"@, 9int),
            ("М"@, 6int),
            ("к"@, 3int),
            ("г"@, 2int),
            ("да"@, 1int),
            ("д"@, -1int),
            ("с"@, -2int),
            ("м"@, -3int),
            ("мк"@, -6int),
            ("н"@, -9int),
            ("п"@, -12int),
        ],
{
    let mut entries: Vec<(String, i32)> = Vec::new();
    entries.push((String::from_str("Т"), 12));
    entries.push((String::from_str("Г"), 9));
    entries.push((String::from_str("М"), 6));
    entries.push((String::from_str("к"), 3));
    entries.push((String::from_str("г"), 2));
    entries.push((String::from_str("да"), 1));
    entries.push((String::from_str("д"), -1));
    entries.push((String::from_str("с"), -2));
    entries.push((String::from_str("м"), -3));
    entries.push((String::from_str("мк"), -6));
    entries.push((String::from_str("н"), -9));
    entries.push((String::from_str("п"), -12));
    PrefixTable { entries }
}

} // verus!
