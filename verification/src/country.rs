//! The country aggregator: one country per owner tag, holding the provinces
//! it owns in parse order together with running totals of their figures.
//! Totals and province sequence are always updated in the same operation, so
//! the totals are, provably, the sums over the owned provinces.

use vstd::prelude::*;
use crate::numbers::{ParseError, fits_i64};
use crate::province::{Province, ProvinceV, nil_tag, province_fits};
use crate::text::{bytes_eq, copy_bytes};

verus! {

/// The mathematical content of a [`Country`].
pub struct CountryV {
    pub tag: Seq<u8>,
    pub provinces: Seq<ProvinceV>,
    pub total_rural_pop: int,
    pub total_urban_pop: int,
    pub total_wealth_growth: int,
    pub total_urban_wealth_growth: int,
}

pub open spec fn sum_rural(ps: Seq<ProvinceV>) -> int
    decreases ps.len(),
{
    if ps.len() == 0 {
        0
    } else {
        sum_rural(ps.drop_last()) + ps.last().rural_pop
    }
}

pub open spec fn sum_urban(ps: Seq<ProvinceV>) -> int
    decreases ps.len(),
{
    if ps.len() == 0 {
        0
    } else {
        sum_urban(ps.drop_last()) + ps.last().urban_pop
    }
}

pub open spec fn sum_wealth(ps: Seq<ProvinceV>) -> int
    decreases ps.len(),
{
    if ps.len() == 0 {
        0
    } else {
        sum_wealth(ps.drop_last()) + ps.last().wealth_total_growth
    }
}

pub open spec fn sum_urban_wealth(ps: Seq<ProvinceV>) -> int
    decreases ps.len(),
{
    if ps.len() == 0 {
        0
    } else {
        sum_urban_wealth(ps.drop_last()) + ps.last().wealth_urban_growth
    }
}

/// A country is well formed when its four totals are exactly the sums of the
/// matching fields over its provinces, every owned province carries its tag,
/// and the tag is not the sentinel.
pub open spec fn country_wf(c: CountryV) -> bool {
    &&& c.tag != nil_tag()
    &&& c.total_rural_pop == sum_rural(c.provinces)
    &&& c.total_urban_pop == sum_urban(c.provinces)
    &&& c.total_wealth_growth == sum_wealth(c.provinces)
    &&& c.total_urban_wealth_growth == sum_urban_wealth(c.provinces)
    &&& forall|i: int| 0 <= i < c.provinces.len() ==> (#[trigger] c.provinces[i]).owner == c.tag
}

/// No two countries share a tag.
pub open spec fn tags_unique(m: Seq<CountryV>) -> bool {
    forall|i: int, j: int|
        0 <= i < j < m.len() ==> (#[trigger] m[i]).tag != (#[trigger] m[j]).tag
}

/// Every country in the map is well formed and tags are unique.
pub open spec fn map_wf(m: Seq<CountryV>) -> bool {
    &&& forall|i: int| 0 <= i < m.len() ==> country_wf(#[trigger] m[i])
    &&& tags_unique(m)
}

/// Index of the country with `tag`, or -1 if there is none.
pub open spec fn find_tag(m: Seq<CountryV>, tag: Seq<u8>) -> int
    decreases m.len(),
{
    if m.len() == 0 {
        -1
    } else if m[0].tag == tag {
        0
    } else {
        let r = find_tag(m.drop_first(), tag);
        if r == -1 {
            -1
        } else {
            r + 1
        }
    }
}

pub proof fn lemma_find_tag(m: Seq<CountryV>, tag: Seq<u8>)
    ensures
        -1 <= find_tag(m, tag) < m.len(),
        find_tag(m, tag) >= 0 ==> m[find_tag(m, tag)].tag == tag,
        find_tag(m, tag) >= 0 ==> forall|j: int| 0 <= j < find_tag(m, tag) ==> (#[trigger] m[j]).tag
            != tag,
        find_tag(m, tag) == -1 ==> forall|j: int| 0 <= j < m.len() ==> (#[trigger] m[j]).tag != tag,
    decreases m.len(),
{
    if m.len() > 0 && m[0].tag != tag {
        lemma_find_tag(m.drop_first(), tag);
        assert forall|j: int| 1 <= j < m.len() implies m.drop_first()[j - 1] == m[j] by {}
    }
}

/// `c` after absorbing province `p`: the province appended, each total grown
/// by the matching field.
pub open spec fn country_plus(c: CountryV, p: ProvinceV) -> CountryV {
    CountryV {
        tag: c.tag,
        provinces: c.provinces.push(p),
        total_rural_pop: c.total_rural_pop + p.rural_pop,
        total_urban_pop: c.total_urban_pop + p.urban_pop,
        total_wealth_growth: c.total_wealth_growth + p.wealth_total_growth,
        total_urban_wealth_growth: c.total_urban_wealth_growth + p.wealth_urban_growth,
    }
}

/// The country created by the first province seen with a new owner tag.
pub open spec fn singleton_country(p: ProvinceV) -> CountryV {
    CountryV {
        tag: p.owner,
        provinces: seq![p],
        total_rural_pop: p.rural_pop,
        total_urban_pop: p.urban_pop,
        total_wealth_growth: p.wealth_total_growth,
        total_urban_wealth_growth: p.wealth_urban_growth,
    }
}

/// Absorbing `p` into `c` would push a total outside the stored range.
pub open spec fn add_overflows(c: CountryV, p: ProvinceV) -> bool {
    ||| !fits_i64(c.total_rural_pop + p.rural_pop)
    ||| !fits_i64(c.total_urban_pop + p.urban_pop)
    ||| !fits_i64(c.total_wealth_growth + p.wealth_total_growth)
    ||| !fits_i64(c.total_urban_wealth_growth + p.wealth_urban_growth)
}

/// The map after attributing province `p` to its owner: the owner's country
/// is updated in place, or a new country is appended for a tag not seen
/// before.  Fails only when a running total would leave the stored range.
pub open spec fn spec_add_province(m: Seq<CountryV>, p: ProvinceV) -> Result<
    Seq<CountryV>,
    ParseError,
> {
    let i = find_tag(m, p.owner);
    if i == -1 {
        Ok(m.push(singleton_country(p)))
    } else if add_overflows(m[i], p) {
        Err(ParseError::Overflow)
    } else {
        Ok(m.update(i, country_plus(m[i], p)))
    }
}

/// The aggregate over all provinces a tag owns.
pub struct Country {
    pub tag: Vec<u8>,
    pub provinces: Vec<Province>,
    pub total_rural_pop: i64,
    pub total_urban_pop: i64,
    pub total_wealth_growth: i64,
    pub total_urban_wealth_growth: i64,
}

impl View for Country {
    type V = CountryV;

    open spec fn view(&self) -> CountryV {
        CountryV {
            tag: self.tag@,
            provinces: self.provinces@.map(|i: int, p: Province| p@),
            total_rural_pop: self.total_rural_pop as int,
            total_urban_pop: self.total_urban_pop as int,
            total_wealth_growth: self.total_wealth_growth as int,
            total_urban_wealth_growth: self.total_urban_wealth_growth as int,
        }
    }
}

impl Country {
    pub fn new(tag: Vec<u8>) -> (c: Country)
        ensures
            c@ == (CountryV {
                tag: tag@,
                provinces: Seq::<ProvinceV>::empty(),
                total_rural_pop: 0,
                total_urban_pop: 0,
                total_wealth_growth: 0,
                total_urban_wealth_growth: 0,
            }),
    {
        let c = Country {
            tag,
            provinces: Vec::new(),
            total_rural_pop: 0,
            total_urban_pop: 0,
            total_wealth_growth: 0,
            total_urban_wealth_growth: 0,
        };
        proof {
            assert(c@.provinces =~= Seq::<ProvinceV>::empty());
        }
        c
    }

    /// Folds `prov` into the running totals and appends it to the owned
    /// sequence, in the same operation.
    pub fn add_province(&mut self, prov: Province) -> (r: ())
        requires
            fits_i64(old(self)@.total_rural_pop + prov@.rural_pop),
            fits_i64(old(self)@.total_urban_pop + prov@.urban_pop),
            fits_i64(old(self)@.total_wealth_growth + prov@.wealth_total_growth),
            fits_i64(old(self)@.total_urban_wealth_growth + prov@.wealth_urban_growth),
        ensures
            final(self)@ == country_plus(old(self)@, prov@),
    {
        self.total_rural_pop = self.total_rural_pop + prov.rural_pop;
        self.total_urban_pop = self.total_urban_pop + prov.urban_pop;
        self.total_wealth_growth = self.total_wealth_growth + prov.wealth_total_growth;
        self.total_urban_wealth_growth = self.total_urban_wealth_growth + prov.wealth_urban_growth;
        let ghost pv = prov@;
        self.provinces.push(prov);
        proof {
            assert(self@.provinces =~= old(self)@.provinces.push(pv));
        }
    }
}

/// The map of all countries built by a parse, in order of first appearance.
pub struct CountryMap {
    pub countries: Vec<Country>,
}

impl View for CountryMap {
    type V = Seq<CountryV>;

    open spec fn view(&self) -> Seq<CountryV> {
        self.countries@.map(|i: int, c: Country| c@)
    }
}

impl CountryMap {
    pub fn new() -> (m: CountryMap)
        ensures
            m@ == Seq::<CountryV>::empty(),
            map_wf(m@),
    {
        let m = CountryMap { countries: Vec::new() };
        proof {
            assert(m@ =~= Seq::<CountryV>::empty());
        }
        m
    }

    /// Index of the country with `tag`, if present.
    pub fn find_index(&self, tag: &[u8]) -> (r: Option<usize>)
        ensures
            match r {
                Some(i) => i as int == find_tag(self@, tag@) && 0 <= i < self@.len()
                    && self@[i as int].tag == tag@,
                None => find_tag(self@, tag@) == -1,
            },
    {
        proof {
            lemma_find_tag(self@, tag@);
        }
        let n = self.countries.len();
        let mut i: usize = 0;
        while i < n
            invariant
                n == self.countries@.len(),
                0 <= i <= n,
                self@.len() == n,
                forall|j: int| 0 <= j < i ==> (#[trigger] self@[j]).tag != tag@,
                -1 <= find_tag(self@, tag@) < self@.len(),
                find_tag(self@, tag@) >= 0 ==> self@[find_tag(self@, tag@)].tag == tag@,
                find_tag(self@, tag@) >= 0 ==> forall|j: int|
                    0 <= j < find_tag(self@, tag@) ==> (#[trigger] self@[j]).tag != tag@,
                find_tag(self@, tag@) == -1 ==> forall|j: int|
                    0 <= j < self@.len() ==> (#[trigger] self@[j]).tag != tag@,
            decreases n - i,
        {
            if bytes_eq(self.countries[i].tag.as_slice(), tag) {
                proof {
                    assert(self@[i as int].tag == tag@);
                    let f = find_tag(self@, tag@);
                    if f == -1 {
                        assert(self@[i as int].tag != tag@);
                    } else if f < i {
                        assert(self@[f].tag != tag@);
                    } else if f > i {
                        assert(self@[i as int].tag != tag@);
                    }
                }
                return Some(i);
            }
            proof {
                assert(self@[i as int].tag == self.countries@[i as int]@.tag);
            }
            i = i + 1;
        }
        proof {
            let f = find_tag(self@, tag@);
            if f >= 0 {
                assert(self@[f].tag != tag@);
            }
        }
        None
    }

    /// A borrow of the country with `tag`, if present.
    pub fn get(&self, tag: &[u8]) -> (r: Option<&Country>)
        ensures
            match r {
                Some(c) => find_tag(self@, tag@) >= 0 && c@ == self@[find_tag(self@, tag@)],
                None => find_tag(self@, tag@) == -1,
            },
    {
        match self.find_index(tag) {
            Some(i) => Some(&self.countries[i]),
            None => None,
        }
    }

    /// How many countries have been created.
    pub fn len(&self) -> (r: usize)
        ensures
            r == self@.len(),
    {
        self.countries.len()
    }

    /// Attributes `prov` to the country keyed by its owner tag, creating the
    /// country if this tag has not been seen yet; totals and owned sequence
    /// are updated together.  Fails, leaving the map unchanged, exactly when
    /// a running total would leave the stored range.
    pub fn add_province(&mut self, prov: Province) -> (r: Result<(), ParseError>)
        requires
            map_wf(old(self)@),
            prov@.owner != nil_tag(),
            province_fits(prov@),
        ensures
            match spec_add_province(old(self)@, prov@) {
                Ok(m2) => r == Ok::<(), ParseError>(()) && final(self)@ == m2 && map_wf(m2),
                Err(e) => r == Err::<(), ParseError>(e) && final(self)@ == old(self)@,
            },
    {
        match self.find_index(prov.owner.as_slice()) {
            Some(i) => {
                let ghost m = self@;
                let ghost pv = prov@;
                let ghost cv = self@[i as int];
                let tr = self.countries[i].total_rural_pop.checked_add(prov.rural_pop);
                let tu = self.countries[i].total_urban_pop.checked_add(prov.urban_pop);
                let tw = self.countries[i].total_wealth_growth.checked_add(
                    prov.wealth_total_growth,
                );
                let tuw = self.countries[i].total_urban_wealth_growth.checked_add(
                    prov.wealth_urban_growth,
                );
                proof {
                    assert(self@[i as int] == self.countries@[i as int]@);
                }
                let ok = match (tr, tu, tw, tuw) {
                    (Some(a), Some(b), Some(c), Some(d)) => a != i64::MIN && b != i64::MIN && c
                        != i64::MIN && d != i64::MIN,
                    _ => false,
                };
                if !ok {
                    assert(add_overflows(m[i as int], pv));
                    return Err(ParseError::Overflow);
                }
                assert(!add_overflows(m[i as int], pv));
                let mut c = self.countries.remove(i);
                proof {
                    assert(c@ == cv);
                }
                c.add_province(prov);
                self.countries.insert(i, c);
                proof {
                    let m2 = m.update(i as int, country_plus(cv, pv));
                    assert(self@ =~= m2);
                    // The updated country stays well formed.
                    let c2 = country_plus(cv, pv);
                    assert(c2.provinces.drop_last() =~= cv.provinces);
                    assert(c2.provinces.last() == pv);
                    assert(country_wf(c2)) by {
                        assert(forall|k: int|
                            0 <= k < cv.provinces.len() ==> (#[trigger] c2.provinces[k])
                                == cv.provinces[k]);
                    }
                    assert(map_wf(m2)) by {
                        assert(forall|k: int|
                            0 <= k < m2.len() && k != i ==> (#[trigger] m2[k]) == m[k]);
                        assert(forall|k: int|
                            0 <= k < m2.len() ==> (#[trigger] m2[k]).tag == m[k].tag);
                    }
                }
                Ok(())
            },
            None => {
                let ghost m = self@;
                let ghost pv = prov@;
                let tag_copy = copy_bytes(&prov.owner);
                let mut c = Country::new(tag_copy);
                c.add_province(prov);
                proof {
                    assert(Seq::<ProvinceV>::empty().push(pv) =~= seq![pv]);
                    assert(c@ == singleton_country(pv));
                }
                self.countries.push(c);
                proof {
                    let m2 = m.push(singleton_country(pv));
                    assert(self@ =~= m2);
                    let s = singleton_country(pv);
                    assert(s.provinces.drop_last() =~= Seq::<ProvinceV>::empty());
                    assert(s.provinces.last() == pv);
                    assert(s.provinces.len() == 1);
                    assert(s.provinces[0] == pv);
                    assert(sum_rural(Seq::<ProvinceV>::empty()) == 0);
                    assert(sum_urban(Seq::<ProvinceV>::empty()) == 0);
                    assert(sum_wealth(Seq::<ProvinceV>::empty()) == 0);
                    assert(sum_urban_wealth(Seq::<ProvinceV>::empty()) == 0);
                    assert(sum_rural(s.provinces) == pv.rural_pop);
                    assert(sum_urban(s.provinces) == pv.urban_pop);
                    assert(sum_wealth(s.provinces) == pv.wealth_total_growth);
                    assert(sum_urban_wealth(s.provinces) == pv.wealth_urban_growth);
                    assert(country_wf(s));
                    lemma_find_tag(m, pv.owner);
                    assert(map_wf(m2)) by {
                        assert(forall|k: int| 0 <= k < m.len() ==> (#[trigger] m2[k]) == m[k]);
                        assert(m2[m.len() as int] == s);
                    }
                }
                Ok(())
            },
        }
    }
}

} // verus!
