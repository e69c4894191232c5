//! The exchange state engine: a logical clock over loaded rate snapshots,
//! point-in-time and historical rate queries, and the ledger of
//! deposit-triggered conversion orders.
//!
//! The clock is the single time value: a query at the current tick and a
//! query at a past tick read the same stored snapshots, so there is no
//! separately cached copy to drift from it.

use vstd::prelude::*;

use rand::distr::SampleString;

verus! {

use crate::rates::RateTable;
use crate::rates::SnapshotError;
use crate::rates::distinct_keys;
use crate::rates::keyed_find;
use crate::rates::keyed_map;
use crate::rates::keyed_upsert;
use crate::rates::lemma_keyed_map_contains;
use crate::rates::lemma_keyed_map_index;
use crate::rates::no_self_rate;
use crate::rates::parse_snapshot;
use crate::rates::parsed_snapshot;
use crate::rates::snapshot_ts_ok;
use crate::rates::snapshot_view;
use crate::rates::tables_wf;

/// A conversion order: sell `amount` micro-units of `from` for `to`, the
/// proceeds going to `destination`. Immutable once created.
#[derive(Debug)]
pub struct Order {
    pub from: String,
    pub to: String,
    pub amount: u64,
    pub destination: String,
}

pub struct OrderView {
    pub from: Seq<char>,
    pub to: Seq<char>,
    pub amount: u64,
    pub destination: Seq<char>,
}

impl View for Order {
    type V = OrderView;

    open spec fn view(&self) -> OrderView {
        OrderView {
            from: self.from@,
            to: self.to@,
            amount: self.amount,
            destination: self.destination@,
        }
    }
}

/// An order together with its completion flag: pending until the payment
/// notification for its address arrives, complete from then on, and never
/// deleted.
#[derive(Debug)]
pub struct Transaction {
    pub order: Order,
    pub complete: bool,
}

pub struct TransactionView {
    pub order: OrderView,
    pub complete: bool,
}

impl View for Transaction {
    type V = TransactionView;

    open spec fn view(&self) -> TransactionView {
        TransactionView { order: self.order@, complete: self.complete }
    }
}

/// What a counterparty must pay to trigger a conversion: `amount`
/// micro-units of `currency`, sent to the generated `address`.
#[derive(Debug)]
pub struct Invoice {
    pub address: String,
    pub currency: String,
    pub amount: u64,
}

/// One currency's rates as broadcast each tick, tagged with the issuing
/// exchange instance.
#[derive(Debug)]
pub struct RateUpdate {
    pub exchange: String,
    pub currency: String,
    pub rate: RateTable,
}

/// The queried currency has no table at the queried tick.
#[derive(Debug, Clone, Copy, PartialEq, Eq, Structural)]
pub struct NotFoundError;

/// Settlement could not price the order.
#[derive(Debug, Clone, Copy, PartialEq, Eq, Structural)]
pub enum FinalizeError {
    /// The current snapshot quotes no rate from the order's source to its
    /// target currency.
    RateUnavailable,
}

/// The rates of one tick: nothing outside the loaded range.
pub open spec fn snapshot_rates_at(
    snaps: Seq<Map<Seq<char>, Map<Seq<char>, u64>>>,
    t: int,
) -> Map<Seq<char>, Map<Seq<char>, u64>> {
    if 0 <= t < snaps.len() {
        snaps[t]
    } else {
        Map::empty()
    }
}

/// The table a rate query returns: a pure function of the stored
/// snapshots, the currency and the tick alone.
pub open spec fn rates_lookup(
    snaps: Seq<Map<Seq<char>, Map<Seq<char>, u64>>>,
    c: Seq<char>,
    t: int,
) -> Option<Map<Seq<char>, u64>> {
    if snapshot_rates_at(snaps, t).contains_key(c) {
        Option::Some(snapshot_rates_at(snaps, t)[c])
    } else {
        Option::None
    }
}

/// The currency codes a string list holds.
pub open spec fn currency_set(s: Seq<String>) -> Set<Seq<char>> {
    Set::new(|c: Seq<char>| exists|i: int| 0 <= i < s.len() && s[i]@ == c)
}

#[verifier::ext_equal]
pub struct ExchangeView {
    /// The logical clock: one tick per snapshot and service window.
    pub time: int,
    /// Conversion orders by payment address.
    pub ledger: Map<Seq<char>, TransactionView>,
    /// The loaded snapshots, index = tick.
    pub snapshots: Seq<Map<Seq<char>, Map<Seq<char>, u64>>>,
    /// Every currency seen in any snapshot up to the current tick.
    pub currencies: Set<Seq<char>>,
}

/// The simulated venue: snapshots on a logical clock plus the order ledger.
pub struct Exchange {
    pub time: usize,
    pub pending_transactions: Vec<(String, Transaction)>,
    pub snapshots: Vec<Vec<(String, RateTable)>>,
    pub currencies: Vec<String>,
}

impl View for Exchange {
    type V = ExchangeView;

    open spec fn view(&self) -> ExchangeView {
        ExchangeView {
            time: self.time as int,
            ledger: keyed_map(self.pending_transactions@).map_values(|t: Transaction| t@),
            snapshots: Seq::new(
                self.snapshots@.len(),
                |i: int| snapshot_view(self.snapshots@[i]@),
            ),
            currencies: currency_set(self.currencies@),
        }
    }
}

/// One clock advance: time moves on by one and the currencies of the tick
/// now current (none outside the loaded range) join the known set; the
/// snapshots and the ledger stay as they are.
pub open spec fn spec_tick(v: ExchangeView) -> ExchangeView {
    ExchangeView {
        time: v.time + 1,
        currencies: v.currencies.union(snapshot_rates_at(v.snapshots, v.time + 1).dom()),
        ..v
    }
}

/// `k` clock advances in a row.
pub open spec fn spec_ticks(v: ExchangeView, k: nat) -> ExchangeView
    decreases k,
{
    if k == 0 {
        v
    } else {
        spec_tick(spec_ticks(v, (k - 1) as nat))
    }
}

/// A newly initiated order: stored pending under its payment address,
/// overwriting whatever held that address before.
pub open spec fn spec_initiate(v: ExchangeView, address: Seq<char>, o: OrderView) -> ExchangeView {
    ExchangeView {
        ledger: v.ledger.insert(address, TransactionView { order: o, complete: false }),
        ..v
    }
}

impl Exchange {
    pub open spec fn wf(&self) -> bool {
        &&& forall|i: int| 0 <= i < self.snapshots@.len() ==> tables_wf(#[trigger] self.snapshots@[i]@)
        &&& forall|i: int|
            0 <= i < self.snapshots@.len() ==> snapshot_ts_ok(
                #[trigger] self.snapshots@[i]@,
                (i * 1000) as u64,
            )
        &&& forall|i: int|
            0 <= i < self.snapshots@.len() ==> no_self_rate(
                snapshot_view(#[trigger] self.snapshots@[i]@),
            )
        &&& distinct_keys(self.pending_transactions@)
        &&& forall|i: int, j: int|
            0 <= i < j < self.currencies@.len() ==> self.currencies@[i]@ != self.currencies@[j]@
        &&& self.snapshots@.len() * 1000 <= u64::MAX
    }

    /// Load a venue from its snapshot texts, earliest first; the first
    /// undecodable text is the construction error. The clock starts at
    /// tick zero with that tick's currencies known.
    pub fn new(snapshot_texts: &Vec<String>) -> (r: Result<Exchange, SnapshotError>)
        requires
            snapshot_texts@.len() * 1000 <= u64::MAX,
        ensures
            match r {
                Ok(ex) => {
                    &&& ex.wf()
                    &&& ex@.time == 0
                    &&& ex@.ledger == Map::<Seq<char>, TransactionView>::empty()
                    &&& ex@.snapshots.len() == snapshot_texts@.len()
                    &&& forall|i: int|
                        0 <= i < snapshot_texts@.len() ==> #[trigger] parsed_snapshot(
                            snapshot_texts@[i]@,
                        ) == Ok::<_, SnapshotError>(ex@.snapshots[i])
                    &&& ex@.currencies == snapshot_rates_at(ex@.snapshots, 0).dom()
                },
                Err(e) => exists|i: int|
                    0 <= i < snapshot_texts@.len() && #[trigger] parsed_snapshot(
                        snapshot_texts@[i]@,
                    ) == Result::<Map<Seq<char>, Map<Seq<char>, u64>>, SnapshotError>::Err(e)
                        && (forall|j: int|
                        0 <= j < i ==> #[trigger] parsed_snapshot(snapshot_texts@[j]@) is Ok),
            },
    {
        let n = snapshot_texts.len();
        let mut snaps: Vec<Vec<(String, RateTable)>> = Vec::new();
        let mut i: usize = 0;
        while i < n
            invariant
                i <= n,
                n == snapshot_texts@.len(),
                n * 1000 <= u64::MAX,
                snaps@.len() == i,
                forall|j: int| 0 <= j < i ==> tables_wf(#[trigger] snaps@[j]@),
                forall|j: int|
                    0 <= j < i ==> #[trigger] parsed_snapshot(snapshot_texts@[j]@) == Ok::<
                        _,
                        SnapshotError,
                    >(snapshot_view(snaps@[j]@)),
                forall|j: int|
                    0 <= j < i ==> snapshot_ts_ok(#[trigger] snaps@[j]@, (j * 1000) as u64),
                forall|j: int|
                    0 <= j < i ==> no_self_rate(snapshot_view(#[trigger] snaps@[j]@)),
            decreases n - i,
        {
            let ts: u64 = (i as u64) * 1000;
            match parse_snapshot(snapshot_texts[i].as_str(), ts) {
                Ok(tables) => {
                    snaps.push(tables);
                },
                Err(e) => {
                    proof {
                        assert(parsed_snapshot(snapshot_texts@[i as int]@) == Result::<
                            Map<Seq<char>, Map<Seq<char>, u64>>,
                            SnapshotError,
                        >::Err(e));
                        assert forall|j: int|
                            0 <= j < i as int implies #[trigger] parsed_snapshot(
                            snapshot_texts@[j]@,
                        ) is Ok by {
                            assert(parsed_snapshot(snapshot_texts@[j]@) == Ok::<
                                _,
                                SnapshotError,
                            >(snapshot_view(snaps@[j]@)));
                        }
                    }
                    return Err(e);
                },
            }
            i = i + 1;
        }
        let mut currencies: Vec<String> = Vec::new();
        if snaps.len() > 0 {
            let snap0 = &snaps[0];
            let m = snap0.len();
            let mut j: usize = 0;
            while j < m
                invariant
                    j <= m,
                    m == snap0@.len(),
                    tables_wf(snap0@),
                    currencies@.len() == j,
                    forall|k: int| 0 <= k < j ==> currencies@[k]@ == snap0@[k].0@,
                decreases m - j,
            {
                currencies.push(snap0[j].0.clone());
                j = j + 1;
            }
        }
        let ex = Exchange { time: 0, pending_transactions: Vec::new(), snapshots: snaps, currencies };
        proof {
            assert(ex@.ledger =~= Map::<Seq<char>, TransactionView>::empty());
            if ex.snapshots@.len() > 0 {
                lemma_dom_is_key_views(ex.snapshots@[0]@);
                assert forall|c: Seq<char>|
                    ex@.currencies.contains(c) <==> snapshot_rates_at(
                        ex@.snapshots,
                        0,
                    ).dom().contains(c) by {
                    if ex@.currencies.contains(c) {
                        let k = choose|k: int|
                            0 <= k < ex.currencies@.len() && ex.currencies@[k]@ == c;
                        assert(ex.snapshots@[0]@[k].0@ == c);
                    }
                    if snapshot_rates_at(ex@.snapshots, 0).dom().contains(c) {
                        let k = choose|k: int|
                            0 <= k < ex.snapshots@[0]@.len() && ex.snapshots@[0]@[k].0@ == c;
                        assert(ex.currencies@[k]@ == c);
                    }
                }
            }
            assert(ex@.currencies =~= snapshot_rates_at(ex@.snapshots, 0).dom());
        }
        Ok(ex)
    }

    /// Every currency seen so far, each exactly once.
    pub fn get_currencies(&self) -> (r: Vec<String>)
        requires
            self.wf(),
        ensures
            currency_set(r@) == self@.currencies,
            forall|i: int, j: int| 0 <= i < j < r@.len() ==> r@[i]@ != r@[j]@,
    {
        let n = self.currencies.len();
        let mut r: Vec<String> = Vec::new();
        let mut i: usize = 0;
        while i < n
            invariant
                i <= n,
                n == self.currencies@.len(),
                self.wf(),
                r@.len() == i,
                forall|k: int| 0 <= k < i ==> r@[k]@ == self.currencies@[k]@,
            decreases n - i,
        {
            r.push(self.currencies[i].clone());
            i = i + 1;
        }
        proof {
            lemma_currency_set_congruent(r@, self.currencies@);
        }
        r
    }

    /// Advance the logical clock by one tick and take the now-current
    /// tick's currencies into the known set.
    pub fn tick(&mut self)
        requires
            old(self).wf(),
            old(self).time < usize::MAX,
        ensures
            final(self).wf(),
            final(self).time == old(self).time + 1,
            final(self)@ == spec_tick(old(self)@),
    {
        self.time = self.time + 1;
        let t = self.time;
        let ghost c0 = currency_set(old(self).currencies@);
        let ghost target = snapshot_rates_at(old(self)@.snapshots, old(self)@.time + 1);
        if t < self.snapshots.len() {
            let snap = &self.snapshots[t];
            proof {
                lemma_dom_is_key_views(snap@);
                assert(target.dom() == Set::new(
                    |c: Seq<char>| exists|k: int| 0 <= k < snap@.len() && snap@[k].0@ == c,
                ));
            }
            let m = snap.len();
            let mut j: usize = 0;
            while j < m
                invariant
                    j <= m,
                    m == snap@.len(),
                    self.time == t,
                    self.snapshots@ == old(self).snapshots@,
                    self.pending_transactions@ == old(self).pending_transactions@,
                    forall|a: int, b: int|
                        0 <= a < b < self.currencies@.len() ==> self.currencies@[a]@
                            != self.currencies@[b]@,
                    currency_set(self.currencies@) == c0.union(
                        Set::new(
                            |c: Seq<char>| exists|k: int| 0 <= k < j && snap@[k].0@ == c,
                        ),
                    ),
                decreases m - j,
            {
                let ghost cs_pre = self.currencies@;
                let ghost sj = Set::new(
                    |c: Seq<char>| exists|k: int| 0 <= k < j && snap@[k].0@ == c,
                );
                let ghost sj1 = Set::new(
                    |c: Seq<char>| exists|k: int| 0 <= k < j + 1 && snap@[k].0@ == c,
                );
                let key = &snap[j].0;
                proof {
                    assert forall|c: Seq<char>|
                        sj1.contains(c) <==> sj.insert(key@).contains(c) by {
                        if sj1.contains(c) {
                            let k = choose|k: int| 0 <= k < j + 1 && snap@[k].0@ == c;
                            if k < j {
                                assert(sj.contains(c));
                            }
                        }
                        if sj.insert(key@).contains(c) {
                            if sj.contains(c) {
                                let k = choose|k: int| 0 <= k < j && snap@[k].0@ == c;
                                assert(0 <= k < j + 1 && snap@[k].0@ == c);
                            } else {
                                assert(snap@[j as int].0@ == c);
                            }
                        }
                    }
                    assert(sj1 =~= sj.insert(key@));
                }
                if !contains_string(&self.currencies, key) {
                    self.currencies.push(key.clone());
                    proof {
                        let x = self.currencies@[cs_pre.len() as int];
                        assert(self.currencies@ == cs_pre.push(x));
                        lemma_currency_set_push(cs_pre, x);
                        assert forall|a: int, b: int|
                            0 <= a < b < self.currencies@.len() implies self.currencies@[a]@
                            != self.currencies@[b]@ by {
                            if b < cs_pre.len() {
                                assert(self.currencies@[a]@ == cs_pre[a]@);
                                assert(self.currencies@[b]@ == cs_pre[b]@);
                            } else {
                                assert(self.currencies@[b]@ == key@);
                                assert(self.currencies@[a]@ == cs_pre[a]@);
                            }
                        }
                        assert(currency_set(self.currencies@) =~= c0.union(sj1));
                    }
                } else {
                    proof {
                        assert(currency_set(cs_pre).contains(key@));
                        assert(currency_set(self.currencies@) =~= c0.union(sj1));
                    }
                }
                j = j + 1;
            }
            proof {
                assert(currency_set(self.currencies@) == c0.union(target.dom())) by {
                    assert(Set::new(
                        |c: Seq<char>| exists|k: int| 0 <= k < j && snap@[k].0@ == c,
                    ) =~= target.dom());
                }
            }
        } else {
            proof {
                assert(currency_set(self.currencies@) =~= c0.union(target.dom()));
            }
        }
        proof {
            assert(currency_set(self.currencies@) == c0.union(target.dom()));
            assert(self@ =~= spec_tick(old(self)@));
        }
    }
}

/// What an order settles to against one tick's rates: the target currency
/// and the settled amount in micro-units, `rate * amount` scaled back by
/// one million; nothing when the tick quotes no rate for the order's pair.
pub open spec fn settlement_of(
    rates: Map<Seq<char>, Map<Seq<char>, u64>>,
    o: OrderView,
) -> Option<(Seq<char>, int)> {
    if rates.contains_key(o.from) && rates[o.from].contains_key(o.to) {
        Option::Some((o.to, (rates[o.from][o.to] * o.amount) / 1000000))
    } else {
        Option::None
    }
}

/// Under the no-self-quote invariant a self-conversion order can never be
/// priced: settlement reports the missing rate instead of converting a
/// currency into itself.
pub proof fn lemma_self_order_unpriceable(
    rates: Map<Seq<char>, Map<Seq<char>, u64>>,
    o: OrderView,
)
    requires
        no_self_rate(rates),
        o.from == o.to,
    ensures
        settlement_of(rates, o) is None,
{
}

/// The characters a generated payment address draws from.
pub open spec fn is_address_char(c: char) -> bool {
    ||| 97 <= c as u32 <= 122
    ||| 65 <= c as u32 <= 90
    ||| 48 <= c as u32 <= 57
}

/// Relies on rand: `Alphanumeric.sample_string` over the thread rng yields
/// the requested number of random characters, each drawn from a-z, A-Z
/// and 0-9. Nothing is assumed about which characters come out.
#[verifier::external_body]
fn random_address() -> (r: String)
    ensures
        r@.len() == 16,
        forall|i: int| 0 <= i < r@.len() ==> is_address_char(#[trigger] r@[i]),
{
    rand::distr::Alphanumeric.sample_string(&mut rand::rng(), 16)
}

impl Exchange {
    /// The rate table of `currency` at tick `time`, read from the stored
    /// snapshots: a pure function of those snapshots, however far back
    /// the tick lies.
    pub fn query_at(&self, currency: &str, time: usize) -> (r: Result<RateTable, NotFoundError>)
        requires
            self.wf(),
        ensures
            match r {
                Ok(table) => {
                    &&& table.wf()
                    &&& rates_lookup(self@.snapshots, currency@, time as int) == Some(
                        table@.values,
                    )
                    &&& table@.timestamp == time * 1000
                    &&& !table@.values.contains_key(currency@)
                },
                Err(_) => rates_lookup(self@.snapshots, currency@, time as int) is None,
            },
    {
        if time < self.snapshots.len() {
            let snap = &self.snapshots[time];
            match keyed_find(snap, currency) {
                Some(i) => {
                    proof {
                        lemma_keyed_map_index(snap@, i as int);
                        assert(snapshot_ts_ok(snap@, (time as int * 1000) as u64));
                        assert(no_self_rate(snapshot_view(snap@)));
                    }
                    Ok(snap[i].1.duplicate())
                },
                None => {
                    proof {
                        lemma_keyed_map_contains(snap@, currency@);
                    }
                    Err(NotFoundError)
                },
            }
        } else {
            Err(NotFoundError)
        }
    }

    /// The rate table of `currency` at the current tick.
    pub fn query(&self, currency: &str) -> (r: Result<RateTable, NotFoundError>)
        requires
            self.wf(),
        ensures
            match r {
                Ok(table) => {
                    &&& table.wf()
                    &&& rates_lookup(self@.snapshots, currency@, self@.time) == Some(
                        table@.values,
                    )
                    &&& table@.timestamp == self@.time * 1000
                    &&& !table@.values.contains_key(currency@)
                },
                Err(_) => rates_lookup(self@.snapshots, currency@, self@.time) is None,
            },
    {
        self.query_at(currency, self.time)
    }

    /// One table per tick of the last `age` milliseconds, timestamps
    /// ascending by a thousand; a tick whose lookup fails contributes an
    /// empty table instead of an error.
    pub fn query_history(&self, currency: &str, age: u64) -> (r: Vec<RateTable>)
        requires
            self.wf(),
            age / 1000 <= self.time as u64,
            self.time * 1000 <= u64::MAX,
        ensures
            r@.len() == age / 1000,
            forall|k: int|
                0 <= k < r@.len() ==> {
                    &&& (#[trigger] r@[k]).wf()
                    &&& r@[k]@.timestamp == (self@.time - age / 1000 + k) * 1000
                    &&& r@[k]@.values == (match rates_lookup(
                        self@.snapshots,
                        currency@,
                        self@.time - age / 1000 + k,
                    ) {
                        Some(m) => m,
                        None => Map::<Seq<char>, u64>::empty(),
                    })
                    &&& !r@[k]@.values.contains_key(currency@)
                },
    {
        let ticks = (age / 1000) as usize;
        let start = self.time - ticks;
        let mut r: Vec<RateTable> = Vec::new();
        let mut i: usize = start;
        while i < self.time
            invariant
                self.wf(),
                start <= i <= self.time,
                start == self.time - ticks,
                self.time * 1000 <= u64::MAX,
                r@.len() == i - start,
                forall|k: int|
                    0 <= k < r@.len() ==> {
                        &&& (#[trigger] r@[k]).wf()
                        &&& r@[k]@.timestamp == (start + k) * 1000
                        &&& r@[k]@.values == (match rates_lookup(
                            self@.snapshots,
                            currency@,
                            start + k,
                        ) {
                            Some(m) => m,
                            None => Map::<Seq<char>, u64>::empty(),
                        })
                        &&& !r@[k]@.values.contains_key(currency@)
                    },
            decreases self.time - i,
        {
            match self.query_at(currency, i) {
                Ok(table) => {
                    r.push(table);
                },
                Err(_) => {
                    r.push(RateTable::new((i as u64) * 1000));
                },
            }
            i = i + 1;
        }
        r
    }

    /// Open a conversion order: a fresh random payment address is stored
    /// with the pending order (an address collision silently overwrites
    /// the older entry), and the returned invoice says what to pay where
    /// to trigger settlement. The currencies are taken as given: an
    /// unknown one surfaces at settlement, not here.
    pub fn initiate_transaction(
        &mut self,
        from: &str,
        to: &str,
        amount: u64,
        destination: &str,
    ) -> (r: Invoice)
        requires
            old(self).wf(),
        ensures
            final(self).wf(),
            r.currency@ == from@,
            r.amount == amount,
            r.address@.len() == 16,
            forall|i: int| 0 <= i < r.address@.len() ==> is_address_char(#[trigger] r.address@[i]),
            final(self)@ == spec_initiate(
                old(self)@,
                r.address@,
                OrderView { from: from@, to: to@, amount, destination: destination@ },
            ),
    {
        let address = random_address();
        let invoice = Invoice { address: address.clone(), currency: from.to_owned(), amount };
        let tx = Transaction {
            order: Order {
                from: from.to_owned(),
                to: to.to_owned(),
                amount,
                destination: destination.to_owned(),
            },
            complete: false,
        };
        let ghost txv = tx@;
        let ghost av = address@;
        keyed_upsert(&mut self.pending_transactions, address, tx);
        proof {
            assert(self@.ledger =~= old(self)@.ledger.insert(av, txv));
            assert(self@ =~= spec_initiate(
                old(self)@,
                av,
                OrderView { from: from@, to: to@, amount, destination: destination@ },
            ));
        }
        invoice
    }

    /// Settle the order stored under `address` at the current tick's
    /// rates and mark it complete. An unknown address yields the zero
    /// marker and changes nothing; re-settling a completed order runs the
    /// same computation again at the rates current by then. A missing
    /// rate for the order's pair is reported and changes nothing.
    pub fn finalize_transaction(&mut self, address: &str) -> (r: Result<
        (String, u128),
        FinalizeError,
    >)
        requires
            old(self).wf(),
        ensures
            final(self).wf(),
            ({
                let l = old(self)@.ledger;
                if !l.contains_key(address@) {
                    &&& final(self)@ == old(self)@
                    &&& match r {
                        Ok(p) => p.0@ == "xxx"@ && p.1 == 0,
                        Err(_) => false,
                    }
                } else {
                    let o = l[address@].order;
                    match settlement_of(
                        snapshot_rates_at(old(self)@.snapshots, old(self)@.time),
                        o,
                    ) {
                        Some(p) => {
                            &&& match r {
                                Ok(q) => q.0@ == p.0 && q.1 == p.1,
                                Err(_) => false,
                            }
                            &&& final(self)@ == ExchangeView {
                                ledger: l.insert(
                                    address@,
                                    TransactionView { order: o, complete: true },
                                ),
                                ..old(self)@
                            }
                        },
                        None => {
                            &&& r == Result::<(String, u128), FinalizeError>::Err(
                                FinalizeError::RateUnavailable,
                            )
                            &&& final(self)@ == old(self)@
                        },
                    }
                }
            }),
    {
        proof {
            lemma_keyed_map_contains(self.pending_transactions@, address@);
        }
        let i = match keyed_find(&self.pending_transactions, address) {
            None => {
                return Ok(("xxx".to_owned(), 0));
            },
            Some(i) => i,
        };
        proof {
            lemma_keyed_map_index(self.pending_transactions@, i as int);
        }
        let order_from = self.pending_transactions[i].1.order.from.clone();
        let order_to = self.pending_transactions[i].1.order.to.clone();
        let order_dest = self.pending_transactions[i].1.order.destination.clone();
        let order_amount = self.pending_transactions[i].1.order.amount;
        let table = match self.query_at(order_from.as_str(), self.time) {
            Err(_) => {
                return Err(FinalizeError::RateUnavailable);
            },
            Ok(t) => t,
        };
        let rate = match table.get(order_to.as_str()) {
            None => {
                return Err(FinalizeError::RateUnavailable);
            },
            Some(x) => x,
        };
        proof {
            vstd::arithmetic::mul::lemma_mul_upper_bound(
                rate as int,
                u64::MAX as int,
                order_amount as int,
                u64::MAX as int,
            );
        }
        let settled: u128 = (rate as u128) * (order_amount as u128) / 1000000;
        let tx = Transaction {
            order: Order {
                from: order_from,
                to: order_to.clone(),
                amount: order_amount,
                destination: order_dest,
            },
            complete: true,
        };
        let ghost txv = tx@;
        keyed_upsert(&mut self.pending_transactions, address.to_owned(), tx);
        proof {
            assert(self@.ledger =~= old(self)@.ledger.insert(address@, txv));
            assert(self@ =~= ExchangeView {
                ledger: old(self)@.ledger.insert(address@, txv),
                ..old(self)@
            });
        }
        Ok((order_to, settled))
    }

    /// One update per known currency at the current tick: the tick's
    /// table where the snapshot has one, an empty table otherwise, each
    /// tagged with the issuing exchange instance.
    pub fn rates_for_all_currencies(&self, exchange_id: &str) -> (r: Vec<RateUpdate>)
        requires
            self.wf(),
            self.time * 1000 <= u64::MAX,
        ensures
            r@.len() == self.currencies@.len(),
            forall|k: int|
                0 <= k < r@.len() ==> {
                    &&& (#[trigger] r@[k]).exchange@ == exchange_id@
                    &&& r@[k].currency@ == self.currencies@[k]@
                    &&& r@[k].rate.wf()
                    &&& r@[k].rate@.timestamp == self@.time * 1000
                    &&& r@[k].rate@.values == (match rates_lookup(
                        self@.snapshots,
                        r@[k].currency@,
                        self@.time,
                    ) {
                        Some(m) => m,
                        None => Map::<Seq<char>, u64>::empty(),
                    })
                    &&& !r@[k].rate@.values.contains_key(r@[k].currency@)
                },
    {
        let n = self.currencies.len();
        let mut r: Vec<RateUpdate> = Vec::new();
        let mut i: usize = 0;
        while i < n
            invariant
                self.wf(),
                i <= n,
                n == self.currencies@.len(),
                self.time * 1000 <= u64::MAX,
                r@.len() == i,
                forall|k: int|
                    0 <= k < r@.len() ==> {
                        &&& (#[trigger] r@[k]).exchange@ == exchange_id@
                        &&& r@[k].currency@ == self.currencies@[k]@
                        &&& r@[k].rate.wf()
                        &&& r@[k].rate@.timestamp == self@.time * 1000
                        &&& r@[k].rate@.values == (match rates_lookup(
                            self@.snapshots,
                            r@[k].currency@,
                            self@.time,
                        ) {
                            Some(m) => m,
                            None => Map::<Seq<char>, u64>::empty(),
                        })
                        &&& !r@[k].rate@.values.contains_key(r@[k].currency@)
                    },
            decreases n - i,
        {
            let currency = self.currencies[i].clone();
            let rate = match self.query_at(currency.as_str(), self.time) {
                Ok(table) => table,
                Err(_) => RateTable::new((self.time as u64) * 1000),
            };
            r.push(RateUpdate { exchange: exchange_id.to_owned(), currency, rate });
            i = i + 1;
        }
        r
    }
}

/// Ticks leave the snapshots and the ledger untouched; only the clock and
/// the known-currency set move.
pub proof fn lemma_ticks_preserve(v: ExchangeView, k: nat)
    ensures
        spec_ticks(v, k).snapshots == v.snapshots,
        spec_ticks(v, k).ledger == v.ledger,
        spec_ticks(v, k).time == v.time + k,
    decreases k,
{
    if k > 0 {
        lemma_ticks_preserve(v, (k - 1) as nat);
    }
}

/// A rate query is a pure function of the stored snapshots: for a given
/// currency and tick the answer stays the same however many clock
/// advances lie in between.
pub proof fn lemma_query_stable_under_ticks(v: ExchangeView, k: nat, c: Seq<char>, t: int)
    ensures
        rates_lookup(spec_ticks(v, k).snapshots, c, t) == rates_lookup(v.snapshots, c, t),
{
    lemma_ticks_preserve(v, k);
}

/// The known-currency set accumulates monotonically: no clock advance
/// ever removes a currency.
pub proof fn lemma_currencies_monotone(v: ExchangeView, k: nat)
    ensures
        v.currencies.subset_of(spec_ticks(v, k).currencies),
    decreases k,
{
    if k > 0 {
        lemma_currencies_monotone(v, (k - 1) as nat);
    }
}

/// Settlement prices at the tick current when the payment arrives: an
/// order initiated at one tick and still stored `k` ticks later is intact
/// and pending, and settles against the snapshot of the later tick, not
/// the snapshot at initiation time.
pub proof fn lemma_settles_at_current_tick(v: ExchangeView, a: Seq<char>, o: OrderView, k: nat)
    ensures
        ({
            let after = spec_ticks(spec_initiate(v, a, o), k);
            &&& after.ledger.contains_key(a)
            &&& after.ledger[a].order == o
            &&& !after.ledger[a].complete
            &&& settlement_of(snapshot_rates_at(after.snapshots, after.time), after.ledger[a].order)
                == settlement_of(snapshot_rates_at(v.snapshots, v.time + k), o)
        }),
{
    lemma_ticks_preserve(spec_initiate(v, a, o), k);
}

/// Lists that spell the same codes in the same places hold the same set.
pub proof fn lemma_currency_set_congruent(a: Seq<String>, b: Seq<String>)
    requires
        a.len() == b.len(),
        forall|i: int| 0 <= i < a.len() ==> a[i]@ == b[i]@,
    ensures
        currency_set(a) == currency_set(b),
{
    assert forall|c: Seq<char>|
        currency_set(a).contains(c) <==> currency_set(b).contains(c) by {
        if currency_set(a).contains(c) {
            let i = choose|i: int| 0 <= i < a.len() && a[i]@ == c;
            assert(b[i]@ == c);
        }
        if currency_set(b).contains(c) {
            let i = choose|i: int| 0 <= i < b.len() && b[i]@ == c;
            assert(a[i]@ == c);
        }
    }
    assert(currency_set(a) =~= currency_set(b));
}

/// Appending one code adds exactly that code to the set.
pub proof fn lemma_currency_set_push(s: Seq<String>, x: String)
    ensures
        currency_set(s.push(x)) == currency_set(s).insert(x@),
{
    assert forall|c: Seq<char>|
        currency_set(s.push(x)).contains(c) <==> currency_set(s).insert(x@).contains(c) by {
        if currency_set(s.push(x)).contains(c) {
            let i = choose|i: int| 0 <= i < s.push(x).len() && s.push(x)[i]@ == c;
            if i < s.len() {
                assert(s[i]@ == c);
            }
        }
        if currency_set(s).insert(x@).contains(c) {
            if currency_set(s).contains(c) {
                let i = choose|i: int| 0 <= i < s.len() && s[i]@ == c;
                assert(s.push(x)[i]@ == c);
            } else {
                assert(s.push(x)[s.len() as int]@ == c);
            }
        }
    }
    assert(currency_set(s.push(x)) =~= currency_set(s).insert(x@));
}

/// The base currencies of a snapshot are exactly its tables' keys.
pub proof fn lemma_dom_is_key_views(s: Seq<(String, RateTable)>)
    ensures
        snapshot_view(s).dom() =~= Set::new(
            |c: Seq<char>| exists|i: int| 0 <= i < s.len() && s[i].0@ == c,
        ),
{
    assert forall|c: Seq<char>|
        snapshot_view(s).dom().contains(c) <==> (exists|i: int|
            0 <= i < s.len() && s[i].0@ == c) by {
        lemma_keyed_map_contains(s, c);
    }
}

/// Whether some entry of `v` spells `s`.
pub fn contains_string(v: &Vec<String>, s: &String) -> (r: bool)
    ensures
        r <==> exists|i: int| 0 <= i < v@.len() && v@[i]@ == s@,
{
    let n = v.len();
    let mut i: usize = 0;
    while i < n
        invariant
            i <= n,
            n == v@.len(),
            forall|k: int| 0 <= k < i ==> v@[k]@ != s@,
        decreases n - i,
    {
        if v[i] == *s {
            return true;
        }
        i = i + 1;
    }
    false
}

} // verus!
