//! Rate tables and the snapshot decoding that fills them.
//!
//! A rate table maps a target-currency code to a conversion factor in
//! micro-units; a snapshot maps each base currency seen at one tick to
//! its rate table. Both are kept as vectors of key/value pairs with
//! distinct keys, modelled as `Map<Seq<char>, _>`.

use vstd::prelude::*;

verus! {

use crate::text::lower_of;
use crate::text::lowercase;
use crate::text::pair_halves;
use crate::text::parse_rate;
use crate::text::rate_micros_of;
use crate::text::split_pair;

/// The mathematical content of a key/value pair list: later entries win.
pub open spec fn keyed_map<V>(s: Seq<(String, V)>) -> Map<Seq<char>, V>
    decreases s.len(),
{
    if s.len() == 0 {
        Map::empty()
    } else {
        keyed_map(s.drop_last()).insert(s.last().0@, s.last().1)
    }
}

/// No two entries share a key, so a linear scan agrees with `keyed_map`.
pub open spec fn distinct_keys<V>(s: Seq<(String, V)>) -> bool {
    forall|i: int, j: int| 0 <= i < j < s.len() ==> s[i].0@ != s[j].0@
}

pub proof fn lemma_keyed_map_contains<V>(s: Seq<(String, V)>, k: Seq<char>)
    ensures
        keyed_map(s).contains_key(k) <==> exists|i: int| 0 <= i < s.len() && s[i].0@ == k,
    decreases s.len(),
{
    if s.len() > 0 {
        lemma_keyed_map_contains(s.drop_last(), k);
        if s.last().0@ == k {
            assert(s[s.len() - 1].0@ == k);
        } else if keyed_map(s).contains_key(k) {
            let i = choose|i: int| 0 <= i < s.drop_last().len() && s.drop_last()[i].0@ == k;
            assert(s[i].0@ == k);
        } else {
            assert forall|i: int| 0 <= i < s.len() implies s[i].0@ != k by {
                if i < s.len() - 1 {
                    assert(s.drop_last()[i].0@ == s[i].0@);
                }
            }
        }
    }
}

pub proof fn lemma_keyed_map_index<V>(s: Seq<(String, V)>, i: int)
    requires
        distinct_keys(s),
        0 <= i < s.len(),
    ensures
        keyed_map(s).contains_key(s[i].0@),
        keyed_map(s)[s[i].0@] == s[i].1,
    decreases s.len(),
{
    if i < s.len() - 1 {
        lemma_keyed_map_index(s.drop_last(), i);
        assert(s.drop_last()[i] == s[i]);
    }
}

pub proof fn lemma_keyed_map_push<V>(s: Seq<(String, V)>, key: String, value: V)
    requires
        distinct_keys(s),
        forall|j: int| 0 <= j < s.len() ==> s[j].0@ != key@,
    ensures
        distinct_keys(s.push((key, value))),
        keyed_map(s.push((key, value))) == keyed_map(s).insert(key@, value),
{
    assert(s.push((key, value)).drop_last() =~= s);
    assert(s.push((key, value)).last() == (key, value));
}

pub proof fn lemma_keyed_map_update<V>(s: Seq<(String, V)>, i: int, key: String, value: V)
    requires
        distinct_keys(s),
        0 <= i < s.len(),
        s[i].0@ == key@,
    ensures
        distinct_keys(s.update(i, (key, value))),
        keyed_map(s.update(i, (key, value))) == keyed_map(s).insert(key@, value),
    decreases s.len(),
{
    let s2 = s.update(i, (key, value));
    if i == s.len() - 1 {
        assert(s2.drop_last() =~= s.drop_last());
        assert(keyed_map(s2) =~= keyed_map(s).insert(key@, value));
    } else {
        lemma_keyed_map_update(s.drop_last(), i, key, value);
        assert(s2.drop_last() =~= s.drop_last().update(i, (key, value)));
        assert(s2.last() == s.last());
        assert(s.last().0@ != key@);
        assert(keyed_map(s2) =~= keyed_map(s).insert(key@, value));
    }
}

/// Two pair lists whose keys have equal views and whose values are equal
/// carry the same map.
pub proof fn lemma_keyed_map_view_eq<V>(a: Seq<(String, V)>, b: Seq<(String, V)>)
    requires
        a.len() == b.len(),
        forall|i: int| 0 <= i < a.len() ==> a[i].0@ == b[i].0@ && a[i].1 == b[i].1,
    ensures
        keyed_map(a) == keyed_map(b),
    decreases a.len(),
{
    if a.len() > 0 {
        assert forall|i: int| 0 <= i < a.drop_last().len() implies a.drop_last()[i].0@
            == b.drop_last()[i].0@ && a.drop_last()[i].1 == b.drop_last()[i].1 by {
            assert(a.drop_last()[i] == a[i]);
            assert(b.drop_last()[i] == b[i]);
        }
        lemma_keyed_map_view_eq(a.drop_last(), b.drop_last());
        assert(a[a.len() - 1].0@ == b[b.len() - 1].0@);
        assert(a[a.len() - 1].1 == b[b.len() - 1].1);
        assert(keyed_map(a) =~= keyed_map(b));
    }
}

/// Index of the first entry carrying `key`, if any.
pub fn keyed_find<V>(entries: &Vec<(String, V)>, key: &str) -> (r: Option<usize>)
    ensures
        match r {
            Some(i) => i < entries@.len() && entries@[i as int].0@ == key@,
            None => forall|j: int| 0 <= j < entries@.len() ==> entries@[j].0@ != key@,
        },
{
    let k: String = key.to_owned();
    let n = entries.len();
    let mut i: usize = 0;
    while i < n
        invariant
            n == entries@.len(),
            i <= n,
            k@ == key@,
            forall|j: int| 0 <= j < i ==> entries@[j].0@ != key@,
        decreases n - i,
    {
        if entries[i].0 == k {
            return Some(i);
        }
        i = i + 1;
    }
    None
}

/// Store `value` under `key`: the later write wins over any earlier entry.
pub fn keyed_upsert<V>(entries: &mut Vec<(String, V)>, key: String, value: V)
    requires
        distinct_keys(old(entries)@),
    ensures
        distinct_keys(final(entries)@),
        keyed_map(final(entries)@) == keyed_map(old(entries)@).insert(key@, value),
{
    match keyed_find(entries, key.as_str()) {
        Some(i) => {
            let ghost s = entries@;
            let e = &mut entries[i];
            *e = (key, value);
            proof {
                lemma_keyed_map_update(s, i as int, final(e).0, final(e).1);
            }
        }
        None => {
            proof {
                lemma_keyed_map_push(entries@, key, value);
            }
            entries.push((key, value));
        }
    }
}

/// A table of conversion rates for one base currency at one tick: each
/// entry says how many micro-units of the target currency one unit of
/// the base currency buys. The timestamp is the tick in milliseconds.
#[derive(Debug)]
pub struct RateTable {
    pub values: Vec<(String, u64)>,
    pub timestamp: u64,
}

pub struct RateTableView {
    pub values: Map<Seq<char>, u64>,
    pub timestamp: u64,
}

impl View for RateTable {
    type V = RateTableView;

    open spec fn view(&self) -> RateTableView {
        RateTableView { values: keyed_map(self.values@), timestamp: self.timestamp }
    }
}

impl RateTable {
    pub open spec fn wf(&self) -> bool {
        distinct_keys(self.values@)
    }

    /// A table with no entries yet.
    pub fn new(timestamp: u64) -> (r: RateTable)
        ensures
            r.wf(),
            r@.values == Map::<Seq<char>, u64>::empty(),
            r@.timestamp == timestamp,
    {
        RateTable { values: Vec::new(), timestamp }
    }

    /// The stored rate towards `target`, if the table has one.
    pub fn get(&self, target: &str) -> (r: Option<u64>)
        requires
            self.wf(),
        ensures
            match r {
                Some(x) => self@.values.contains_key(target@) && x == self@.values[target@],
                None => !self@.values.contains_key(target@),
            },
    {
        proof {
            lemma_keyed_map_contains(self.values@, target@);
        }
        match keyed_find(&self.values, target) {
            Some(i) => {
                proof {
                    lemma_keyed_map_index(self.values@, i as int);
                }
                Some(self.values[i].1)
            }
            None => None,
        }
    }

    /// Store the rate towards `target`; a duplicate target overwrites the
    /// earlier value.
    pub fn set(&mut self, target: String, rate: u64)
        requires
            old(self).wf(),
        ensures
            final(self).wf(),
            final(self)@.values == old(self)@.values.insert(target@, rate),
            final(self)@.timestamp == old(self)@.timestamp,
    {
        keyed_upsert(&mut self.values, target, rate);
    }

    /// An independent copy carrying the same view.
    pub fn duplicate(&self) -> (r: RateTable)
        ensures
            r@ == self@,
            self.wf() ==> r.wf(),
    {
        let mut values: Vec<(String, u64)> = Vec::new();
        let n = self.values.len();
        let mut i: usize = 0;
        while i < n
            invariant
                n == self.values@.len(),
                i <= n,
                values@.len() == i,
                forall|j: int|
                    0 <= j < i ==> values@[j].0@ == self.values@[j].0@ && values@[j].1
                        == self.values@[j].1,
            decreases n - i,
        {
            values.push((self.values[i].0.clone(), self.values[i].1));
            i = i + 1;
        }
        proof {
            lemma_keyed_map_view_eq(values@, self.values@);
        }
        RateTable { values, timestamp: self.timestamp }
    }
}

/// Why one tick's snapshot text yields no snapshot. Each is a returned
/// load-time error: the library reports what a hosting process may still
/// choose to treat as fatal, instead of aborting itself mid-run.
#[derive(Debug, Clone, Copy, PartialEq, Eq, Structural)]
pub enum SnapshotError {
    /// The text is not a record list with string pair and rate fields.
    Undecodable,
    /// A record's pair code has no single underscore.
    BadPair,
    /// A record's rate is not a decimal in range.
    BadRate,
}

/// All tables well formed and no base currency listed twice.
pub open spec fn tables_wf(s: Seq<(String, RateTable)>) -> bool {
    &&& distinct_keys(s)
    &&& forall|i: int| 0 <= i < s.len() ==> s[i].1.wf()
}

/// The rates a snapshot carries: base currency -> target currency -> rate.
pub open spec fn snapshot_view(s: Seq<(String, RateTable)>) -> Map<Seq<char>, Map<Seq<char>, u64>> {
    keyed_map(s).map_values(|t: RateTable| t@.values)
}

/// A snapshot never quotes a currency against itself: no rate table keys
/// its own base currency.
pub open spec fn no_self_rate(m: Map<Seq<char>, Map<Seq<char>, u64>>) -> bool {
    forall|c: Seq<char>| #[trigger] m.contains_key(c) ==> !m[c].contains_key(c)
}

/// The views of decoded records, in decoding order.
pub open spec fn records_views(rs: Seq<(String, String)>) -> Seq<(Seq<char>, Seq<char>)> {
    Seq::new(rs.len(), |i: int| (rs[i].0@, rs[i].1@))
}

/// One record folded into a snapshot: the pair code splits at its single
/// underscore and both halves are case-normalized; a record whose halves
/// are not both three characters long is skipped, and so is one whose
/// halves are equal — a rate table never keys its own base currency; a
/// later rate for the same pair overwrites the earlier one.
pub open spec fn apply_record(
    m: Map<Seq<char>, Map<Seq<char>, u64>>,
    pair: Seq<char>,
    rate: Seq<char>,
) -> Result<Map<Seq<char>, Map<Seq<char>, u64>>, SnapshotError> {
    match pair_halves(pair) {
        Option::None => Result::Err(SnapshotError::BadPair),
        Option::Some(h) => match rate_micros_of(rate) {
            Option::None => Result::Err(SnapshotError::BadRate),
            Option::Some(v) => {
                let f = lower_of(h.0);
                let t = lower_of(h.1);
                if f.len() == 3 && t.len() == 3 && f != t {
                    Result::Ok(
                        m.insert(
                            f,
                            (if m.contains_key(f) {
                                m[f]
                            } else {
                                Map::empty()
                            }).insert(t, v),
                        ),
                    )
                } else {
                    Result::Ok(m)
                }
            },
        },
    }
}

/// The snapshot a record list denotes, record by record; the first bad
/// record decides the error.
pub open spec fn snapshot_of(records: Seq<(Seq<char>, Seq<char>)>) -> Result<
    Map<Seq<char>, Map<Seq<char>, u64>>,
    SnapshotError,
>
    decreases records.len(),
{
    if records.len() == 0 {
        Result::Ok(Map::empty())
    } else {
        match snapshot_of(records.drop_last()) {
            Result::Err(e) => Result::Err(e),
            Result::Ok(m) => apply_record(m, records.last().0, records.last().1),
        }
    }
}

/// An error among the first records settles the whole list.
pub proof fn lemma_snapshot_err_persists(rs: Seq<(Seq<char>, Seq<char>)>, j: int)
    requires
        0 <= j <= rs.len(),
        snapshot_of(rs.take(j)) is Err,
    ensures
        snapshot_of(rs) == snapshot_of(rs.take(j)),
    decreases rs.len() - j,
{
    if j < rs.len() {
        assert(rs.take(j + 1).drop_last() =~= rs.take(j));
        lemma_snapshot_err_persists(rs, j + 1);
    } else {
        assert(rs.take(j) =~= rs);
    }
}

impl Default for RateTable {
    /// A table with no entries and the zero timestamp.
    fn default() -> (r: RateTable)
        ensures
            r.wf(),
            r@.values == Map::<Seq<char>, u64>::empty(),
            r@.timestamp == 0,
    {
        RateTable { values: Vec::new(), timestamp: 0 }
    }
}

/// The table under `key`, a fresh default one being added first when none
/// is there yet.
pub fn find_or_insert(map: &mut Vec<(String, RateTable)>, key: String) -> (entry: &mut RateTable)
    requires
        tables_wf(old(map)@),
    ensures
        (*entry)@ == (if keyed_map(old(map)@).contains_key(key@) {
            keyed_map(old(map)@)[key@]@
        } else {
            RateTableView { values: Map::empty(), timestamp: 0 }
        }),
        (*entry).wf(),
        distinct_keys(final(map)@),
        keyed_map(final(map)@) == keyed_map(old(map)@).insert(key@, *final(entry)),
        (*final(entry)).wf() ==> tables_wf(final(map)@),
{
    let ghost kv = key@;
    proof {
        lemma_keyed_map_contains(map@, kv);
    }
    let idx: usize = match keyed_find(map, key.as_str()) {
        Some(i) => {
            proof {
                lemma_keyed_map_index(map@, i as int);
            }
            i
        },
        None => {
            let n = map.len();
            let fresh = RateTable::default();
            proof {
                lemma_keyed_map_push(map@, key, fresh);
            }
            map.push((key, fresh));
            n
        },
    };
    let ghost s1 = map@;
    proof {
        assert forall|j: int| 0 <= j < s1.len() implies s1[j].1.wf() by {
            if j < old(map)@.len() {
                assert(s1[j] == old(map)@[j]);
            }
        }
    }
    let e = &mut map[idx].1;
    proof {
        lemma_keyed_map_update(s1, idx as int, s1[idx as int].0, *final(e));
        assert(keyed_map(s1).insert(kv, *final(e)) =~= keyed_map(old(map)@).insert(
            kv,
            *final(e),
        ));
        let s2 = s1.update(idx as int, (s1[idx as int].0, *final(e)));
        assert forall|j: int| 0 <= j < s2.len() && j != idx implies s2[j].1.wf() by {
            assert(s2[j] == s1[j]);
        }
    }
    e
}

/// The records one snapshot text decodes to: pair code and rate text per
/// record, in order; nothing when the text is not such a list.
pub uninterp spec fn records_of(text: Seq<char>) -> Option<Seq<(Seq<char>, Seq<char>)>>;

/// Relies on json::parse and JsonValue's members and as_str accessors: a
/// snapshot text decodes as a JSON array of records whose "pair" and
/// "rate" fields hold strings, and the outcome depends on the text alone.
#[verifier::external_body]
fn decode_records(text: &str) -> (r: Option<Vec<(String, String)>>)
    ensures
        match r {
            Some(v) => records_of(text@) == Some(records_views(v@)),
            None => records_of(text@) is None,
        },
{
    let parsed = match json::parse(text) {
        Ok(v) => v,
        Err(_) => return None,
    };
    let mut out: Vec<(String, String)> = Vec::new();
    for member in parsed.members() {
        match (member["pair"].as_str(), member["rate"].as_str()) {
            (Some(p), Some(r)) => out.push((p.to_owned(), r.to_owned())),
            _ => return None,
        }
    }
    Some(out)
}

/// Fold decoded records into a snapshot: one rate table per base currency,
/// every table stamped with the tick's timestamp.
pub fn snapshot_from_records(records: &Vec<(String, String)>, timestamp: u64) -> (r: Result<
    Vec<(String, RateTable)>,
    SnapshotError,
>)
    ensures
        match r {
            Ok(tables) => {
                &&& tables_wf(tables@)
                &&& snapshot_of(records_views(records@)) == Ok::<_, SnapshotError>(
                    snapshot_view(tables@),
                )
                &&& snapshot_ts_ok(tables@, timestamp)
                &&& no_self_rate(snapshot_view(tables@))
            },
            Err(e) => snapshot_of(records_views(records@)) == Result::<
                Map<Seq<char>, Map<Seq<char>, u64>>,
                SnapshotError,
            >::Err(e),
        },
{
    let ghost rv = records_views(records@);
    let n = records.len();
    let mut tables: Vec<(String, RateTable)> = Vec::new();
    proof {
        assert(rv.take(0) =~= Seq::<(Seq<char>, Seq<char>)>::empty());
        assert(snapshot_view(tables@) =~= Map::<Seq<char>, Map<Seq<char>, u64>>::empty());
    }
    let mut idx: usize = 0;
    while idx < n
        invariant
            n == records@.len(),
            idx <= n,
            rv == records_views(records@),
            tables_wf(tables@),
            snapshot_of(rv.take(idx as int)) == Ok::<_, SnapshotError>(snapshot_view(tables@)),
            snapshot_ts_ok(tables@, timestamp),
            no_self_rate(snapshot_view(tables@)),
        decreases n - idx,
    {
        let ghost m0 = snapshot_view(tables@);
        proof {
            assert(rv.take(idx as int + 1).drop_last() =~= rv.take(idx as int));
            assert(rv.take(idx as int + 1).last() == (
                records@[idx as int].0@,
                records@[idx as int].1@,
            ));
        }
        let halves = match split_pair(records[idx].0.as_str()) {
            None => {
                proof {
                    lemma_snapshot_err_persists(rv, idx as int + 1);
                    assert(rv.take(rv.len() as int) =~= rv);
                }
                return Err(SnapshotError::BadPair);
            },
            Some(h) => h,
        };
        let rate = match parse_rate(records[idx].1.as_str()) {
            None => {
                proof {
                    lemma_snapshot_err_persists(rv, idx as int + 1);
                    assert(rv.take(rv.len() as int) =~= rv);
                }
                return Err(SnapshotError::BadRate);
            },
            Some(v) => v,
        };
        let from = lowercase(halves.0.as_str());
        let to = lowercase(halves.1.as_str());
        if from.unicode_len() == 3 && to.unicode_len() == 3 && !(from == to) {
            let ghost fv = from@;
            let ghost tv = to@;
            let ghost pre = tables@;
            let entry = find_or_insert(&mut tables, from);
            entry.set(to, rate);
            entry.timestamp = timestamp;
            proof {
                let m1 = m0.insert(
                    fv,
                    (if m0.contains_key(fv) {
                        m0[fv]
                    } else {
                        Map::empty()
                    }).insert(tv, rate),
                );
                assert(snapshot_view(tables@) =~= m1);
                assert forall|c: Seq<char>| #[trigger]
                    m1.contains_key(c) implies !m1[c].contains_key(c) by {
                    if c != fv {
                        assert(m0.contains_key(c));
                    }
                }
            }
        }
        idx = idx + 1;
    }
    proof {
        assert(rv.take(n as int) =~= rv);
    }
    Ok(tables)
}

/// The snapshot one tick's text denotes: decoding followed by folding.
pub open spec fn parsed_snapshot(text: Seq<char>) -> Result<
    Map<Seq<char>, Map<Seq<char>, u64>>,
    SnapshotError,
> {
    match records_of(text) {
        Option::None => Result::Err(SnapshotError::Undecodable),
        Option::Some(rs) => snapshot_of(rs),
    }
}

/// Every table of a snapshot carries the tick's timestamp.
pub open spec fn snapshot_ts_ok(s: Seq<(String, RateTable)>, timestamp: u64) -> bool {
    forall|c: Seq<char>| #[trigger]
        snapshot_view(s).contains_key(c) ==> keyed_map(s)[c]@.timestamp == timestamp
}

/// Decode one snapshot text and fold its records into the tick's snapshot.
pub fn parse_snapshot(text: &str, timestamp: u64) -> (r: Result<
    Vec<(String, RateTable)>,
    SnapshotError,
>)
    ensures
        match r {
            Ok(tables) => {
                &&& tables_wf(tables@)
                &&& parsed_snapshot(text@) == Ok::<_, SnapshotError>(snapshot_view(tables@))
                &&& snapshot_ts_ok(tables@, timestamp)
                &&& no_self_rate(snapshot_view(tables@))
            },
            Err(e) => parsed_snapshot(text@) == Result::<
                Map<Seq<char>, Map<Seq<char>, u64>>,
                SnapshotError,
            >::Err(e),
        },
{
    match decode_records(text) {
        None => Err(SnapshotError::Undecodable),
        Some(records) => snapshot_from_records(&records, timestamp),
    }
}

} // verus!

