//! The store: a concurrent mapping from timestamp key to price, together
//! with the query engine over it.
//!
//! The mapping lives in a `dashmap::DashMap` behind trusted wrappers; its
//! contents are modelled as a mathematical map from key characters to
//! micro-unit prices, and everything built on the wrappers is verified
//! against that model.

use vstd::prelude::*;

use crate::price::{price_text, push_price};
use crate::query::{eval_spec, parse_query, parse_tokens, token_views, PredicateSet};
use crate::snapshot::{
    json_of, json_parse, lemma_json_roundtrip, pair_views, parse_snapshot, render_snapshot,
    CorruptSnapshot,
};
use crate::text::{chars_to_string, str_chars};
use crate::timestamp::{canonical_key, decoded, key_of, prev_hour, Timestamp};

verus! {

/// The concurrent hash map the store is built on: dashmap's `DashMap`.
#[verifier::external_type_specification]
#[verifier::external_body]
#[verifier::reject_recursive_types(K)]
#[verifier::reject_recursive_types(V)]
#[verifier::reject_recursive_types(S)]
pub struct ExDashMap<K, V, S>(dashmap::DashMap<K, V, S>);

/// The shared map type the store is built on.
pub type PriceMap = dashmap::DashMap<String, i64>;

/// What the shared map holds: a finite map from key characters to prices.
pub uninterp spec fn map_contents(m: PriceMap) -> Map<Seq<char>, i64>;

/// The contents of a store with nothing in it.
pub open spec fn empty_contents() -> Map<Seq<char>, i64> {
    Map::empty()
}

/// Relies on dashmap's `DashMap::get`: the value the key maps to, if any.
#[verifier::external_body]
fn dm_get(m: &PriceMap, key: &str) -> (r: Option<i64>)
    ensures
        match r {
            Some(v) => map_contents(*m).contains_pair(key@, v),
            None => !map_contents(*m).dom().contains(key@),
        },
{
    m.get(key).map(|e| *e)
}

/// Relies on dashmap's `DashMap::insert`: the key now maps to the value and
/// every other key is untouched.
#[verifier::external_body]
fn dm_insert(m: &mut PriceMap, key: String, value: i64)
    ensures
        map_contents(*final(m)) == map_contents(*old(m)).insert(key@, value),
{
    m.insert(key, value);
}

/// Whether an entry list enumerates exactly a map's entries, each key once,
/// in no particular order.
pub open spec fn enumerates(es: Seq<(Seq<char>, i64)>, m: Map<Seq<char>, i64>) -> bool {
    &&& forall|i: int| 0 <= i < es.len() ==> m.contains_pair((#[trigger] es[i]).0, es[i].1)
    &&& forall|k: Seq<char>|
        #[trigger] m.dom().contains(k) ==> exists|i: int|
            0 <= i < es.len() && (#[trigger] es[i]).0 == k
    &&& forall|i: int, j: int| 0 <= i < j < es.len() ==> (#[trigger] es[i]).0 != (#[trigger] es[j]).0
}

/// Relies on dashmap's `DashMap::iter`: while no caller can mutate the map
/// (every mutating path in this crate needs `&mut`), iteration visits every
/// entry exactly once.
#[verifier::external_body]
fn dm_entries(m: &PriceMap) -> (r: Vec<(String, i64)>)
    ensures
        enumerates(pair_views(r@), map_contents(*m)),
{
    m.iter().map(|e| (e.key().clone(), *e.value())).collect()
}

/// The map an entry list folds into, a later pair replacing an earlier one
/// with the same key.
pub open spec fn pairs_to_map(es: Seq<(Seq<char>, i64)>) -> Map<Seq<char>, i64>
    decreases es.len(),
{
    if es.len() == 0 {
        Map::empty()
    } else {
        pairs_to_map(es.drop_last()).insert(es.last().0, es.last().1)
    }
}

/// An entry list that enumerates a map folds back into that map.
pub proof fn lemma_enumerates_to_map(es: Seq<(Seq<char>, i64)>, m: Map<Seq<char>, i64>)
    requires
        enumerates(es, m),
    ensures
        pairs_to_map(es) == m,
    decreases es.len(),
{
    if es.len() == 0 {
        assert forall|k: Seq<char>| !(#[trigger] m.dom().contains(k)) by {
            if m.dom().contains(k) {
                let i = choose|i: int| 0 <= i < es.len() && (#[trigger] es[i]).0 == k;
            }
        }
        assert(m =~= Map::<Seq<char>, i64>::empty());
    } else {
        let last = es.last();
        let dl = es.drop_last();
        let m2 = m.remove(last.0);
        assert(enumerates(dl, m2)) by {
            assert forall|i: int| 0 <= i < dl.len() implies m2.contains_pair(
                (#[trigger] dl[i]).0,
                dl[i].1,
            ) by {
                assert(es[i] == dl[i]);
                assert(es[i].0 != last.0);
            }
            assert forall|k: Seq<char>| #[trigger] m2.dom().contains(k) implies exists|i: int|
                0 <= i < dl.len() && (#[trigger] dl[i]).0 == k by {
                assert(m.dom().contains(k));
                let i = choose|i: int| 0 <= i < es.len() && (#[trigger] es[i]).0 == k;
                assert(k != last.0);
                assert(i < es.len() - 1);
                assert(dl[i].0 == k);
            }
            assert forall|i: int, j: int| 0 <= i < j < dl.len() implies (#[trigger] dl[i]).0 != (
            #[trigger] dl[j]).0 by {
                assert(es[i] == dl[i] && es[j] == dl[j]);
            }
        }
        lemma_enumerates_to_map(dl, m2);
        assert(m.contains_pair(last.0, last.1)) by {
            assert(es[es.len() - 1] == last);
        }
        assert(m2.insert(last.0, last.1) =~= m);
    }
}

/// The response line for one entry.
pub open spec fn line_of(k: Seq<char>, v: i64) -> Seq<char> {
    k + seq![':', ' '] + price_text(v)
}

/// Whether a stored entry passes a parsed query: its key decodes, and the
/// decomposed timestamp and price satisfy every clause.
pub open spec fn entry_passes(ps: PredicateSet, k: Seq<char>, v: i64) -> bool {
    canonical_key(k) && eval_spec(ps, decoded(k), v)
}

/// Two equal lines for canonical keys come from the same key.
proof fn lemma_line_key(k1: Seq<char>, v1: i64, k2: Seq<char>, v2: i64)
    requires
        canonical_key(k1),
        canonical_key(k2),
        line_of(k1, v1) == line_of(k2, v2),
    ensures
        k1 == k2,
{
    let l = line_of(k1, v1);
    assert(l.subrange(0, 14) =~= k1);
    assert(l.subrange(0, 14) =~= k2);
}

/// Whether a line renders some passing entry of the contents.
pub open spec fn line_from(m: Map<Seq<char>, i64>, ps: PredicateSet, line: Seq<char>) -> bool {
    exists|k: Seq<char>, v: i64|
        m.contains_pair(k, v) && entry_passes(ps, k, v) && line == #[trigger] line_of(k, v)
}

/// What a query answer holds: a line for exactly the passing entries of
/// the store's contents, each passing entry once, in no particular order.
pub open spec fn lists_exactly(r: Seq<String>, m: Map<Seq<char>, i64>, ps: PredicateSet) -> bool {
    &&& forall|i: int| 0 <= i < r.len() ==> line_from(m, ps, (#[trigger] r[i])@)
    &&& forall|k: Seq<char>|
        #[trigger] m.dom().contains(k) && entry_passes(ps, k, m[k]) ==> exists|i: int|
            0 <= i < r.len() && (#[trigger] r[i])@ == line_of(k, m[k])
    &&& forall|i: int, j: int| 0 <= i < j < r.len() ==> (#[trigger] r[i])@ != (#[trigger] r[j])@
}

/// The store: timestamp keys mapped to micro-unit prices, shared by the
/// feed, the queries and the snapshot task.
pub struct Db {
    map: PriceMap,
}

impl View for Db {
    type V = Map<Seq<char>, i64>;

    closed spec fn view(&self) -> Map<Seq<char>, i64> {
        map_contents(self.map)
    }
}

impl Db {
    /// An empty store. Relies on dashmap's `DashMap::new`: the new map
    /// holds nothing.
    #[verifier::external_body]
    pub fn new() -> (db: Db)
        ensures
            db@ == empty_contents(),
    {
        Db { map: dashmap::DashMap::new() }
    }

    /// The value stored under a key.
    pub fn get(&self, key: &str) -> (r: Option<i64>)
        ensures
            match r {
                Some(v) => self@.contains_pair(key@, v),
                None => !self@.dom().contains(key@),
            },
    {
        dm_get(&self.map, key)
    }

    /// Upserts: the key now maps to the value; every other key is untouched.
    pub fn insert(&mut self, key: String, value: i64)
        ensures
            final(self)@ == old(self)@.insert(key@, value),
    {
        dm_insert(&mut self.map, key, value);
    }

    /// Records a reading under the canonical key of its timestamp.
    pub fn handle_insert(&mut self, value: i64, at: Timestamp)
        requires
            at.wf(),
        ensures
            final(self)@ == old(self)@.insert(key_of(at), value),
    {
        let key = at.encode();
        self.insert(key, value);
    }

    /// Every entry, each key once, in no particular order.
    pub fn entries(&self) -> (r: Vec<(String, i64)>)
        ensures
            enumerates(pair_views(r@), self@),
    {
        dm_entries(&self.map)
    }

    /// Renders the current contents as a snapshot document: parsing the
    /// document back yields exactly the contents.
    pub fn snapshot(&self) -> (r: String)
        ensures
            json_parse(r@) is Some,
            pairs_to_map(json_parse(r@)->Some_0) == self@,
    {
        let es = self.entries();
        let r = render_snapshot(&es);
        proof {
            lemma_json_roundtrip(pair_views(es@));
            lemma_enumerates_to_map(pair_views(es@), self@);
        }
        r
    }

    /// Replaces the contents wholesale with a parsed snapshot document; a
    /// document that does not parse leaves the store untouched.
    pub fn restore(&mut self, text: &str) -> (r: Result<(), CorruptSnapshot>)
        ensures
            match r {
                Ok(_) => json_parse(text@) is Some && final(self)@ == pairs_to_map(
                    json_parse(text@)->Some_0,
                ),
                Err(_) => json_parse(text@) is None && final(self)@ == old(self)@,
            },
    {
        let ps = match parse_snapshot(text) {
            Ok(ps) => ps,
            Err(e) => {
                return Err(e);
            },
        };
        let mut db = Db::new();
        let n = ps.len();
        let mut i: usize = 0;
        while i < n
            invariant
                n == ps@.len(),
                i <= n,
                db@ == pairs_to_map(pair_views(ps@).take(i as int)),
            decreases n - i,
        {
            let key = ps[i].0.clone();
            let value = ps[i].1;
            db.insert(key, value);
            proof {
                let pv = pair_views(ps@);
                assert(pv.take(i + 1).drop_last() =~= pv.take(i as int));
                assert(pv.take(i + 1).last() == pv[i as int]);
            }
            i = i + 1;
        }
        proof {
            assert(pair_views(ps@).take(n as int) =~= pair_views(ps@));
        }
        *self = db;
        Ok(())
    }

    /// Answers a query: one `key: value` line for every entry whose key
    /// decodes and which passes every clause of the parsed predicate set.
    /// Entries with keys that do not decode are skipped, and the order of
    /// the lines is not specified.
    #[verifier::rlimit(100)]
    pub fn list(&self, args: &[String]) -> (r: Vec<String>)
        ensures
            lists_exactly(r@, self@, parse_tokens(token_views(args@))),
    {
        let ghost qs = parse_tokens(token_views(args@));
        let ps = parse_query(args);
        let es = self.entries();
        let ghost ev = pair_views(es@);
        let n = es.len();
        let mut out: Vec<String> = Vec::new();
        let ghost mut idx: Seq<int> = Seq::empty();
        let ghost mut loc: Map<int, int> = Map::empty();
        let mut i: usize = 0;
        while i < n
            invariant
                n == es@.len(),
                ev == pair_views(es@),
                enumerates(ev, self@),
                ps == qs,
                i <= n,
                idx.len() == out@.len(),
                forall|l: int|
                    0 <= l < out@.len() ==> 0 <= #[trigger] idx[l] < i && entry_passes(
                        qs,
                        ev[idx[l]].0,
                        ev[idx[l]].1,
                    ) && out@[l]@ == line_of(ev[idx[l]].0, ev[idx[l]].1),
                forall|l1: int, l2: int| 0 <= l1 < l2 < idx.len() ==> #[trigger] idx[l1] != #[trigger] idx[l2],
                forall|j: int|
                    0 <= j < i && entry_passes(qs, (#[trigger] ev[j]).0, ev[j].1)
                        ==> loc.dom().contains(j) && 0 <= loc[j] < out@.len() && out@[loc[j]]@
                        == line_of(ev[j].0, ev[j].1),
            decreases n - i,
        {
            let key = &es[i].0;
            let value = es[i].1;
            proof {
                assert(ev[i as int] == (es@[i as int].0@, es@[i as int].1));
            }
            match Timestamp::decode(key.as_str()) {
                Err(_) => {
                    proof {
                        assert(!entry_passes(qs, ev[i as int].0, ev[i as int].1));
                    }
                },
                Ok(ts) => {
                    if ps.evaluate(ts, value) {
                        let line = make_line(key, value);
                        proof {
                            assert(entry_passes(qs, ev[i as int].0, ev[i as int].1));
                            assert(line@ == line_of(ev[i as int].0, ev[i as int].1));
                            idx = idx.push(i as int);
                            loc = loc.insert(i as int, out@.len() as int);
                        }
                        out.push(line);
                    } else {
                        proof {
                            assert(!entry_passes(qs, ev[i as int].0, ev[i as int].1));
                        }
                    }
                },
            }
            i = i + 1;
        }
        proof {
            // every line has its entry
            assert forall|l: int| 0 <= l < out@.len() implies line_from(
                self@,
                qs,
                (#[trigger] out@[l])@,
            ) by {
                let j = idx[l];
                assert(self@.contains_pair(ev[j].0, ev[j].1));
                assert(entry_passes(qs, ev[j].0, ev[j].1) && out@[l]@ == line_of(ev[j].0, ev[j].1));
            }
            // every passing entry has its line
            assert forall|k: Seq<char>|
                #[trigger] self@.dom().contains(k) && entry_passes(qs, k, self@[k]) implies exists|
                l: int,
            | 0 <= l < out@.len() && (#[trigger] out@[l])@ == line_of(k, self@[k]) by {
                let j = choose|j: int| 0 <= j < ev.len() && (#[trigger] ev[j]).0 == k;
                assert(self@.contains_pair(ev[j].0, ev[j].1));
                assert(ev[j].1 == self@[k]);
                assert(0 <= loc[j] < out@.len() && out@[loc[j]]@ == line_of(k, self@[k]));
            }
            // no line appears twice
            assert forall|l1: int, l2: int| 0 <= l1 < l2 < out@.len() implies (
            #[trigger] out@[l1])@ != (#[trigger] out@[l2])@ by {
                let j1 = idx[l1];
                let j2 = idx[l2];
                assert(ev[j1].0 != ev[j2].0);
                if out@[l1]@ == out@[l2]@ {
                    lemma_line_key(ev[j1].0, ev[j1].1, ev[j2].0, ev[j2].1);
                }
            }
            assert(lists_exactly(out@, self@, qs));
        }
        out
    }

    /// The price now: the value under the key for `now`; where that hour
    /// has no reading yet, the value one hour earlier; else nothing.
    pub fn current_price(&self, now: Timestamp) -> (r: Option<i64>)
        requires
            now.wf(),
            now != (Timestamp { year: 0, month: 1, day: 1, hour: 0 }),
        ensures
            match r {
                Some(v) => self@.contains_pair(key_of(now), v) || (!self@.dom().contains(
                    key_of(now),
                ) && self@.contains_pair(key_of(prev_hour(now)), v)),
                None => !self@.dom().contains(key_of(now)) && !self@.dom().contains(
                    key_of(prev_hour(now)),
                ),
            },
    {
        let key = now.encode();
        match self.get(key.as_str()) {
            Some(v) => Some(v),
            None => {
                let prev = now.previous_hour();
                let pkey = prev.encode();
                self.get(pkey.as_str())
            },
        }
    }
}

/// The `key: value` response line for one entry.
fn make_line(key: &String, value: i64) -> (r: String)
    ensures
        r@ == line_of(key@, value),
{
    let mut v = str_chars(key.as_str());
    v.push(':');
    v.push(' ');
    push_price(&mut v, value);
    proof {
        assert(v@ =~= line_of(key@, value));
    }
    chars_to_string(&v)
}

/// Last write wins: after an entry is recorded, its key reads back exactly
/// the recorded value, and every other key is untouched.
pub proof fn lemma_last_write_wins(m: Map<Seq<char>, i64>, k: Seq<char>, v: i64)
    ensures
        m.insert(k, v).dom().contains(k),
        m.insert(k, v)[k] == v,
        forall|k2: Seq<char>|
            k2 != k && #[trigger] m.dom().contains(k2) ==> m.insert(k, v).dom().contains(k2)
                && m.insert(k, v)[k2] == m[k2],
{
}

/// A snapshot of any contents, restored, reproduces exactly the key/value
/// set the snapshot was taken of.
pub proof fn lemma_snapshot_restore(es: Seq<(Seq<char>, i64)>, m: Map<Seq<char>, i64>)
    requires
        enumerates(es, m),
    ensures
        json_parse(json_of(es)) == Some(es),
        pairs_to_map(es) == m,
{
    lemma_json_roundtrip(es);
    lemma_enumerates_to_map(es, m);
}

} // verus!
