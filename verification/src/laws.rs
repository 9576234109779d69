//! The library's stated laws: proof functions pinning down what aggregation
//! and the block-state machine guarantee, over the same spec functions the
//! executable contracts use.

use vstd::prelude::*;
use crate::numbers::ParseError;
use crate::province::{ProvinceV, nil_tag, empty_province};
use crate::country::{
    CountryV, map_wf, sum_rural, sum_urban, sum_wealth, sum_urban_wealth, find_tag, lemma_find_tag,
    spec_add_province, singleton_country, country_plus, country_wf, tags_unique,
};
use crate::dispatch::{spec_classify, VarKey};
use crate::scanner::{
    ScanStateV, spec_step, spec_scan, spec_parse, stripped, key_of, is_province_line,
    is_terminal_line,
};

verus! {

/// The aggregator folded over a run of finished provinces, in order.
pub open spec fn fold_provinces(m: Seq<CountryV>, ps: Seq<ProvinceV>) -> Result<
    Seq<CountryV>,
    ParseError,
> decreases ps.len(),
{
    if ps.len() == 0 {
        Ok(m)
    } else {
        match fold_provinces(m, ps.drop_last()) {
            Err(e) => Err(e),
            Ok(m1) => spec_add_province(m1, ps.last()),
        }
    }
}

/// In a well-formed map every country's four totals equal the sums of the
/// matching fields over its owned provinces, and every owned province
/// carries the country's own, non-sentinel tag.
pub proof fn lemma_totals_are_sums(m: Seq<CountryV>, i: int)
    requires
        map_wf(m),
        0 <= i < m.len(),
    ensures
        m[i].total_rural_pop == sum_rural(m[i].provinces),
        m[i].total_urban_pop == sum_urban(m[i].provinces),
        m[i].total_wealth_growth == sum_wealth(m[i].provinces),
        m[i].total_urban_wealth_growth == sum_urban_wealth(m[i].provinces),
        m[i].tag != nil_tag(),
        forall|j: int|
            0 <= j < m[i].provinces.len() ==> (#[trigger] m[i].provinces[j]).owner == m[i].tag,
{
    assert(country_wf(m[i]));
}

/// A province whose owner is still the sentinel appears in no country's
/// owned sequence.
pub proof fn lemma_no_sentinel_province(m: Seq<CountryV>, i: int, j: int)
    requires
        map_wf(m),
        0 <= i < m.len(),
        0 <= j < m[i].provinces.len(),
    ensures
        m[i].provinces[j].owner != nil_tag(),
{
    assert(country_wf(m[i]));
}

/// Closing a province whose owner is still the sentinel touches no country
/// and no total: the map after the boundary line is the map before it.
pub proof fn lemma_sentinel_province_dropped(st: ScanStateV, line: Seq<u8>)
    requires
        !st.done,
        !st.in_vars,
        is_province_line(line),
        st.prov.owner == nil_tag(),
    ensures
        spec_step(st, line) matches Ok(st2) && st2.countries == st.countries && st2.prov
            == empty_province(),
{
}

/// Attributing one province touches exactly its owner's country: an unseen
/// tag appends a fresh country at the end; a seen tag appends the province
/// at the end of that country's sequence and leaves every other country
/// unchanged.
pub proof fn lemma_add_province_appends(m: Seq<CountryV>, p: ProvinceV)
    requires
        spec_add_province(m, p) is Ok,
    ensures
        spec_add_province(m, p) matches Ok(m2) && (if find_tag(m, p.owner) == -1 {
            m2 == m.push(singleton_country(p))
        } else {
            let i = find_tag(m, p.owner);
            &&& m2.len() == m.len()
            &&& m2[i] == country_plus(m[i], p)
            &&& m2[i].provinces == m[i].provinces.push(p)
            &&& forall|j: int| 0 <= j < m.len() && j != i ==> m2[j] == m[j]
        }),
{
    lemma_find_tag(m, p.owner);
}

/// Aggregating any run of provinces that share one owner tag yields a single
/// country with that tag whose owned sequence is exactly the run, in input
/// order, and whose four totals are the arithmetic sums over the run.
pub proof fn lemma_same_owner_aggregation(ps: Seq<ProvinceV>, tag: Seq<u8>)
    requires
        tag != nil_tag(),
        ps.len() > 0,
        forall|i: int| 0 <= i < ps.len() ==> (#[trigger] ps[i]).owner == tag,
        fold_provinces(Seq::<CountryV>::empty(), ps) is Ok,
    ensures
        fold_provinces(Seq::<CountryV>::empty(), ps) matches Ok(m) && (m.len() == 1 && m[0].tag
            == tag && m[0].provinces == ps && m[0].total_rural_pop == sum_rural(ps)
            && m[0].total_urban_pop == sum_urban(ps) && m[0].total_wealth_growth == sum_wealth(ps)
            && m[0].total_urban_wealth_growth == sum_urban_wealth(ps)),
    decreases ps.len(),
{
    let e = Seq::<CountryV>::empty();
    if ps.len() == 1 {
        assert(fold_provinces(e, ps.drop_last()) == Ok::<Seq<CountryV>, ParseError>(e));
        assert(spec_add_province(e, ps.last()) == Ok::<Seq<CountryV>, ParseError>(
            e.push(singleton_country(ps.last())),
        ));
        let m = e.push(singleton_country(ps.last()));
        assert(m[0] == singleton_country(ps.last()));
        assert(m[0].provinces =~= ps);
        assert(ps[0].owner == tag);
        assert(ps.last() == ps[0]);
        assert(ps.drop_last() =~= Seq::<ProvinceV>::empty());
        assert(sum_rural(Seq::<ProvinceV>::empty()) == 0);
        assert(sum_urban(Seq::<ProvinceV>::empty()) == 0);
        assert(sum_wealth(Seq::<ProvinceV>::empty()) == 0);
        assert(sum_urban_wealth(Seq::<ProvinceV>::empty()) == 0);
        assert(sum_rural(ps) == sum_rural(ps.drop_last()) + ps.last().rural_pop);
        assert(sum_urban(ps) == sum_urban(ps.drop_last()) + ps.last().urban_pop);
        assert(sum_wealth(ps) == sum_wealth(ps.drop_last()) + ps.last().wealth_total_growth);
        assert(sum_urban_wealth(ps) == sum_urban_wealth(ps.drop_last())
            + ps.last().wealth_urban_growth);
    } else {
        let rest = ps.drop_last();
        let p = ps.last();
        assert(forall|i: int| 0 <= i < rest.len() ==> (#[trigger] rest[i]).owner == tag);
        assert(fold_provinces(e, rest) is Ok);
        lemma_same_owner_aggregation(rest, tag);
        let m1 = fold_provinces(e, rest)->Ok_0;
        assert(m1[0].tag == tag);
        assert(p.owner == tag);
        assert(find_tag(m1, p.owner) == 0);
        let m2 = spec_add_province(m1, p)->Ok_0;
        assert(m2 == m1.update(0, country_plus(m1[0], p)));
        assert(m2[0].provinces =~= ps);
        assert(m2.len() == 1);
        assert(sum_rural(ps) == sum_rural(rest) + p.rural_pop);
        assert(sum_urban(ps) == sum_urban(rest) + p.urban_pop);
        assert(sum_wealth(ps) == sum_wealth(rest) + p.wealth_total_growth);
        assert(sum_urban_wealth(ps) == sum_urban_wealth(rest) + p.wealth_urban_growth);
    }
}

/// The provinces of `ps` owned by `tag`, in their order in `ps`.
pub open spec fn owned_by(ps: Seq<ProvinceV>, tag: Seq<u8>) -> Seq<ProvinceV>
    decreases ps.len(),
{
    if ps.len() == 0 {
        Seq::<ProvinceV>::empty()
    } else {
        owned_by(ps.drop_last(), tag) + (if ps.last().owner == tag {
            seq![ps.last()]
        } else {
            Seq::<ProvinceV>::empty()
        })
    }
}

/// Aggregating any run of owned provinces partitions it: tags stay unique,
/// each country's owned sequence is exactly the provinces carrying its tag,
/// in input order, and a tag without a country owns no province of the run.
pub proof fn lemma_fold_partitions(ps: Seq<ProvinceV>)
    requires
        forall|i: int| 0 <= i < ps.len() ==> (#[trigger] ps[i]).owner != nil_tag(),
        fold_provinces(Seq::<CountryV>::empty(), ps) is Ok,
    ensures
        fold_provinces(Seq::<CountryV>::empty(), ps) matches Ok(m) && ({
            &&& tags_unique(m)
            &&& forall|i: int|
                0 <= i < m.len() ==> (#[trigger] m[i]).provinces == owned_by(ps, m[i].tag)
            &&& forall|t: Seq<u8>|
                #[trigger] find_tag(m, t) == -1 ==> owned_by(ps, t) == Seq::<ProvinceV>::empty()
        }),
    decreases ps.len(),
{
    let e = Seq::<CountryV>::empty();
    if ps.len() == 0 {
        let m = fold_provinces(e, ps)->Ok_0;
        assert(m == e);
        assert forall|t: Seq<u8>| #[trigger] find_tag(m, t) == -1 implies owned_by(ps, t) == Seq::<
            ProvinceV,
        >::empty() by {
            assert(owned_by(ps, t) =~= Seq::<ProvinceV>::empty());
        }
    } else {
        let rest = ps.drop_last();
        let p = ps.last();
        assert(forall|i: int| 0 <= i < rest.len() ==> (#[trigger] rest[i]).owner != nil_tag());
        assert(fold_provinces(e, rest) is Ok);
        lemma_fold_partitions(rest);
        let m1 = fold_provinces(e, rest)->Ok_0;
        lemma_find_tag(m1, p.owner);
        let f = find_tag(m1, p.owner);
        let m = fold_provinces(e, ps)->Ok_0;
        if f == -1 {
            assert(m == m1.push(singleton_country(p)));
            assert(tags_unique(m)) by {
                assert(forall|j: int| 0 <= j < m1.len() ==> (#[trigger] m1[j]).tag != p.owner);
                assert(forall|j: int| 0 <= j < m1.len() ==> (#[trigger] m[j]) == m1[j]);
                assert(m[m1.len() as int].tag == p.owner);
            }
            assert(owned_by(rest, p.owner) == Seq::<ProvinceV>::empty());
            assert forall|i: int| 0 <= i < m.len() implies (#[trigger] m[i]).provinces == owned_by(
                ps,
                m[i].tag,
            ) by {
                if i < m1.len() {
                    assert(m[i] == m1[i]);
                    assert(m1[i].tag != p.owner);
                    assert(owned_by(ps, m[i].tag) =~= owned_by(rest, m[i].tag));
                } else {
                    assert(m[i] == singleton_country(p));
                    assert(owned_by(ps, p.owner) =~= Seq::<ProvinceV>::empty() + seq![p]);
                    assert(m[i].provinces =~= owned_by(ps, p.owner));
                }
            }
            assert forall|t: Seq<u8>| #[trigger] find_tag(m, t) == -1 implies owned_by(ps, t)
                == Seq::<ProvinceV>::empty() by {
                lemma_find_tag(m, t);
                lemma_find_tag(m1, t);
                assert(forall|j: int| 0 <= j < m.len() ==> (#[trigger] m[j]).tag != t);
                let f1 = find_tag(m1, t);
                if f1 >= 0 {
                    assert(m1[f1].tag == t);
                    assert(m[f1] == m1[f1]);
                    assert(false);
                }
                assert(m[m1.len() as int].tag == p.owner);
                assert(t != p.owner);
                assert(owned_by(ps, t) =~= owned_by(rest, t));
            }
        } else {
            assert(m == m1.update(f, country_plus(m1[f], p)));
            assert(m1[f].tag == p.owner);
            assert(tags_unique(m)) by {
                assert(forall|j: int| 0 <= j < m.len() ==> (#[trigger] m[j]).tag == m1[j].tag);
            }
            assert forall|i: int| 0 <= i < m.len() implies (#[trigger] m[i]).provinces == owned_by(
                ps,
                m[i].tag,
            ) by {
                if i == f {
                    assert(m[i] == country_plus(m1[f], p));
                    assert(owned_by(ps, p.owner) =~= owned_by(rest, p.owner) + seq![p]);
                    assert(m[i].provinces =~= owned_by(rest, p.owner).push(p));
                    assert(owned_by(rest, p.owner).push(p) =~= owned_by(rest, p.owner) + seq![p]);
                } else {
                    assert(m[i] == m1[i]);
                    assert(m1[i].tag != m1[f].tag);
                    assert(owned_by(ps, m[i].tag) =~= owned_by(rest, m[i].tag));
                }
            }
            assert forall|t: Seq<u8>| #[trigger] find_tag(m, t) == -1 implies owned_by(ps, t)
                == Seq::<ProvinceV>::empty() by {
                lemma_find_tag(m, t);
                lemma_find_tag(m1, t);
                assert(forall|j: int| 0 <= j < m.len() ==> (#[trigger] m[j]).tag != t);
                let f1 = find_tag(m1, t);
                if f1 >= 0 {
                    assert(m1[f1].tag == t);
                    assert(m[f1].tag == m1[f1].tag);
                    assert(false);
                }
                assert(m[f].tag == p.owner);
                assert(t != p.owner);
                assert(owned_by(ps, t) =~= owned_by(rest, t));
            }
        }
    }
}

/// A line on which the scanner hands its in-progress province to the
/// aggregator: a province boundary seen outside any block, with a real owner.
pub open spec fn finalizing_step(st: ScanStateV, line: Seq<u8>) -> bool {
    !st.done && !st.in_vars && is_province_line(line) && st.prov.owner != nil_tag()
}

/// The provinces the scanner has handed to the aggregator over `lines`, in
/// the order they were finished.
pub open spec fn spec_finalized(lines: Seq<Seq<u8>>) -> Seq<ProvinceV>
    decreases lines.len(),
{
    if lines.len() == 0 {
        Seq::<ProvinceV>::empty()
    } else {
        spec_finalized(lines.drop_last()) + match spec_scan(lines.drop_last()) {
            Ok(st) => if finalizing_step(st, lines.last()) {
                seq![st.prov]
            } else {
                Seq::<ProvinceV>::empty()
            },
            Err(_) => Seq::<ProvinceV>::empty(),
        }
    }
}

/// Every province the whole run attributes: those finished at a boundary,
/// then the in-progress one finished at stream end if it has a real owner.
pub open spec fn all_finalized(lines: Seq<Seq<u8>>) -> Seq<ProvinceV> {
    spec_finalized(lines) + match spec_scan(lines) {
        Ok(st) => if st.prov.owner != nil_tag() {
            seq![st.prov]
        } else {
            Seq::<ProvinceV>::empty()
        },
        Err(_) => Seq::<ProvinceV>::empty(),
    }
}

/// The scanner's country map is, at every point, exactly the aggregator
/// folded over the provinces finished so far; none of them carries the
/// sentinel owner.
pub proof fn lemma_scan_folds_finalized(lines: Seq<Seq<u8>>)
    requires
        spec_scan(lines) is Ok,
    ensures
        spec_scan(lines) matches Ok(st) && fold_provinces(
            Seq::<CountryV>::empty(),
            spec_finalized(lines),
        ) == Ok::<Seq<CountryV>, ParseError>(st.countries),
        forall|i: int|
            0 <= i < spec_finalized(lines).len() ==> (#[trigger] spec_finalized(lines)[i]).owner
                != nil_tag(),
    decreases lines.len(),
{
    let e = Seq::<CountryV>::empty();
    if lines.len() == 0 {
        assert(fold_provinces(e, spec_finalized(lines)) == Ok::<Seq<CountryV>, ParseError>(e));
    } else {
        let prev = lines.drop_last();
        let line = lines.last();
        assert(spec_scan(prev) is Ok);
        lemma_scan_folds_finalized(prev);
        let st1 = spec_scan(prev)->Ok_0;
        let st = spec_scan(lines)->Ok_0;
        let fin_prev = spec_finalized(prev);
        let fin = spec_finalized(lines);
        if finalizing_step(st1, line) {
            assert(fin == fin_prev + seq![st1.prov]);
            assert(fin.drop_last() =~= fin_prev);
            assert(fin.last() == st1.prov);
            assert(st.countries == spec_add_province(st1.countries, st1.prov)->Ok_0);
            assert(fold_provinces(e, fin) == spec_add_province(st1.countries, st1.prov));
            assert forall|i: int| 0 <= i < fin.len() implies (#[trigger] fin[i]).owner != nil_tag()
            by {
                if i < fin_prev.len() {
                    assert(fin[i] == fin_prev[i]);
                } else {
                    assert(fin[i] == st1.prov);
                }
            }
        } else {
            assert(fin =~= fin_prev);
            // On every non-finalizing line the countries are untouched.
            assert(st.countries == st1.countries);
        }
    }
}

/// What a whole successful parse returns is exactly the aggregator folded
/// over every province the run attributed, boundary by boundary and then at
/// stream end.
pub proof fn lemma_parse_folds_finalized(lines: Seq<Seq<u8>>)
    requires
        spec_parse(lines) is Ok,
    ensures
        spec_parse(lines) matches Ok(cs) && fold_provinces(
            Seq::<CountryV>::empty(),
            all_finalized(lines),
        ) == Ok::<Seq<CountryV>, ParseError>(cs),
        forall|i: int|
            0 <= i < all_finalized(lines).len() ==> (#[trigger] all_finalized(lines)[i]).owner
                != nil_tag(),
{
    let e = Seq::<CountryV>::empty();
    assert(spec_scan(lines) is Ok);
    lemma_scan_folds_finalized(lines);
    let st = spec_scan(lines)->Ok_0;
    let fin = spec_finalized(lines);
    let all = all_finalized(lines);
    if st.prov.owner != nil_tag() {
        assert(all == fin + seq![st.prov]);
        assert(all.drop_last() =~= fin);
        assert(all.last() == st.prov);
        assert(fold_provinces(e, all) == spec_add_province(st.countries, st.prov));
        assert forall|i: int| 0 <= i < all.len() implies (#[trigger] all[i]).owner != nil_tag() by {
            if i < fin.len() {
                assert(all[i] == fin[i]);
            } else {
                assert(all[i] == st.prov);
            }
        }
    } else {
        assert(all =~= fin);
    }
}

/// The whole pipeline, in one statement: a successful parse yields one
/// country per owner tag that finished a province, each holding exactly the
/// provinces attributed to that tag, in the order they were finished.
pub proof fn lemma_parse_is_partition(lines: Seq<Seq<u8>>)
    requires
        spec_parse(lines) is Ok,
    ensures
        spec_parse(lines) matches Ok(cs) && ({
            &&& tags_unique(cs)
            &&& forall|i: int|
                0 <= i < cs.len() ==> (#[trigger] cs[i]).provinces == owned_by(
                    all_finalized(lines),
                    cs[i].tag,
                )
            &&& forall|t: Seq<u8>|
                #[trigger] find_tag(cs, t) == -1 ==> owned_by(all_finalized(lines), t) == Seq::<
                    ProvinceV,
                >::empty()
        }),
{
    lemma_parse_folds_finalized(lines);
    lemma_fold_partitions(all_finalized(lines));
}

/// Inside a variable block, a line whose key is one of the two exit keys
/// leaves the block at once, whatever came before it in the block: the
/// province and the countries are untouched.
pub proof fn lemma_exit_keys_end_block(st: ScanStateV, line: Seq<u8>)
    requires
        !st.done,
        st.in_vars,
        spec_classify(key_of(stripped(line))) == Some(VarKey::Institutions) || spec_classify(
            key_of(stripped(line)),
        ) == Some(VarKey::History),
    ensures
        spec_step(st, line) matches Ok(st2) && (!st2.in_vars && st2.prov == st.prov
            && st2.countries == st.countries && st2.done == st.done),
{
}

/// A line carrying the terminal marker stops the scan for good: the state
/// becomes done, and the countries already aggregated remain, extended only
/// by the in-progress province if it had a real owner.  Together with
/// [`crate::scanner::lemma_scan_stays_done`], every later line is ignored.
pub proof fn lemma_terminal_stops(st: ScanStateV, line: Seq<u8>)
    requires
        !st.done,
        !st.in_vars,
        is_province_line(line),
        is_terminal_line(line),
        spec_step(st, line) is Ok,
    ensures
        spec_step(st, line) matches Ok(st2) && (st2.done && st2.prov == empty_province() && (
        st.prov.owner == nil_tag() ==> st2.countries == st.countries) && (st.prov.owner
            != nil_tag() ==> spec_add_province(st.countries, st.prov) == Ok::<
            Seq<CountryV>,
            ParseError,
        >(st2.countries))),
{
}

} // verus!
