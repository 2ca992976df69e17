//! The cache store: a mapping from user identity to a cached calendar and
//! the moment it was fetched. Held in memory as identity/entry pairs with
//! pairwise distinct identities; the file format lives in `codec`.

use crate::models::{ContributionCalendar, DayV};
use vstd::prelude::*;

verus! {

/// Mathematical image of a `CachedEntry`.
#[verifier::ext_equal]
pub ghost struct EntryV {
    pub weeks: Seq<Seq<DayV>>,
    pub fetched_at: Seq<char>,
}

/// One cached result: the calendar, and the moment it was fetched kept as
/// the RFC 3339 text the clock produced.
#[derive(Debug, PartialEq)]
pub struct CachedEntry {
    pub calendar: ContributionCalendar,
    pub fetched_at: String,
}

impl View for CachedEntry {
    type V = EntryV;

    open spec fn view(&self) -> EntryV {
        EntryV { weeks: self.calendar@, fetched_at: self.fetched_at@ }
    }
}

impl Clone for CachedEntry {
    fn clone(&self) -> (r: Self)
        ensures
            r@ == self@,
    {
        CachedEntry { calendar: self.calendar.clone(), fetched_at: self.fetched_at.clone() }
    }
}

/// No two pairs carry the same identity.
pub open spec fn unique_keys(v: Seq<(Seq<char>, EntryV)>) -> bool {
    forall|i: int, j: int| 0 <= i < j < v.len() ==> v[i].0 != v[j].0
}

/// The entry stored under `key`: the first pair that carries it, if any.
pub open spec fn spec_find(v: Seq<(Seq<char>, EntryV)>, key: Seq<char>) -> Option<EntryV>
    decreases v.len(),
{
    if v.len() == 0 {
        None
    } else if v[0].0 == key {
        Some(v[0].1)
    } else {
        spec_find(v.skip(1), key)
    }
}

/// The store after writing `e` under `key`: the first pair carrying `key`
/// is replaced in place; absent that, the pair is appended.
pub open spec fn spec_insert(
    v: Seq<(Seq<char>, EntryV)>,
    key: Seq<char>,
    e: EntryV,
) -> Seq<(Seq<char>, EntryV)>
    decreases v.len(),
{
    if v.len() == 0 {
        seq![(key, e)]
    } else if v[0].0 == key {
        seq![(key, e)] + v.skip(1)
    } else {
        seq![v[0]] + spec_insert(v.skip(1), key, e)
    }
}

/// An identity standing at some position of the store is found.
pub proof fn lemma_index_find(v: Seq<(Seq<char>, EntryV)>, key: Seq<char>, i: int)
    requires
        0 <= i < v.len(),
        v[i].0 == key,
    ensures
        spec_find(v, key) is Some,
    decreases v.len(),
{
    if v[0].0 == key {
    } else {
        assert(v.skip(1)[i - 1] == v[i]);
        lemma_index_find(v.skip(1), key, i - 1);
    }
}

/// A found identity stands at some position of the store.
pub proof fn lemma_find_some_index(v: Seq<(Seq<char>, EntryV)>, key: Seq<char>)
    requires
        spec_find(v, key) is Some,
    ensures
        exists|i: int| 0 <= i < v.len() && v[i].0 == key && v[i].1 == spec_find(v, key)->Some_0,
    decreases v.len(),
{
    if v.len() == 0 {
    } else if v[0].0 == key {
        assert(v[0].0 == key && v[0].1 == spec_find(v, key)->Some_0);
    } else {
        lemma_find_some_index(v.skip(1), key);
        let i = choose|i: int|
            0 <= i < v.skip(1).len() && v.skip(1)[i].0 == key && v.skip(1)[i].1 == spec_find(
                v.skip(1),
                key,
            )->Some_0;
        assert(v[i + 1].0 == key && v[i + 1].1 == spec_find(v, key)->Some_0);
    }
}

/// Where the first pair carrying `key` stands at position `i`, a write
/// replaces exactly that position.
pub proof fn lemma_insert_found(v: Seq<(Seq<char>, EntryV)>, key: Seq<char>, e: EntryV, i: int)
    requires
        0 <= i < v.len(),
        v[i].0 == key,
        forall|j: int| 0 <= j < i ==> v[j].0 != key,
    ensures
        spec_insert(v, key, e) == v.update(i, (key, e)),
    decreases i,
{
    if i == 0 {
        assert(seq![(key, e)] + v.skip(1) =~= v.update(0, (key, e)));
    } else {
        assert(v[0].0 != key);
        assert(v.skip(1)[i - 1] == v[i]);
        assert forall|j: int| 0 <= j < i - 1 implies v.skip(1)[j].0 != key by {
            assert(v.skip(1)[j] == v[j + 1]);
        }
        lemma_insert_found(v.skip(1), key, e, i - 1);
        assert(seq![v[0]] + v.skip(1).update(i - 1, (key, e)) =~= v.update(i, (key, e)));
    }
}

/// Where no pair carries `key`, a write appends the pair.
pub proof fn lemma_insert_absent(v: Seq<(Seq<char>, EntryV)>, key: Seq<char>, e: EntryV)
    requires
        forall|j: int| 0 <= j < v.len() ==> v[j].0 != key,
    ensures
        spec_insert(v, key, e) == v.push((key, e)),
    decreases v.len(),
{
    if v.len() == 0 {
        assert(seq![(key, e)] =~= v.push((key, e)));
    } else {
        assert forall|j: int| 0 <= j < v.skip(1).len() implies v.skip(1)[j].0 != key by {
            assert(v.skip(1)[j] == v[j + 1]);
        }
        lemma_insert_absent(v.skip(1), key, e);
        assert(seq![v[0]] + v.skip(1).push((key, e)) =~= v.push((key, e)));
    }
}

/// Reading back what was just written yields exactly the written entry.
pub proof fn lemma_find_insert(v: Seq<(Seq<char>, EntryV)>, key: Seq<char>, e: EntryV)
    ensures
        spec_find(spec_insert(v, key, e), key) == Some(e),
    decreases v.len(),
{
    if v.len() == 0 {
    } else if v[0].0 == key {
        assert(spec_insert(v, key, e)[0] == (key, e));
    } else {
        lemma_find_insert(v.skip(1), key, e);
        assert((seq![v[0]] + spec_insert(v.skip(1), key, e)).skip(1) =~= spec_insert(
            v.skip(1),
            key,
            e,
        ));
    }
}

/// Writing under one identity leaves every other identity's entry alone.
pub proof fn lemma_find_insert_other(
    v: Seq<(Seq<char>, EntryV)>,
    key: Seq<char>,
    e: EntryV,
    other: Seq<char>,
)
    requires
        other != key,
    ensures
        spec_find(spec_insert(v, key, e), other) == spec_find(v, other),
    decreases v.len(),
{
    if v.len() == 0 {
        let r = spec_insert(v, key, e);
        assert(r == seq![(key, e)]);
        assert(r.skip(1) =~= Seq::<(Seq<char>, EntryV)>::empty());
        assert(spec_find(r.skip(1), other) is None);
        assert(spec_find(r, other) is None);
    } else if v[0].0 == key {
        assert((seq![(key, e)] + v.skip(1)).skip(1) =~= v.skip(1));
    } else {
        lemma_find_insert_other(v.skip(1), key, e, other);
        assert((seq![v[0]] + spec_insert(v.skip(1), key, e)).skip(1) =~= spec_insert(
            v.skip(1),
            key,
            e,
        ));
    }
}

/// Last write wins: two writes under one identity leave exactly the state
/// of one write of the second entry, with no duplicate pair.
pub proof fn lemma_insert_last_write_wins(
    v: Seq<(Seq<char>, EntryV)>,
    key: Seq<char>,
    e1: EntryV,
    e2: EntryV,
)
    ensures
        spec_insert(spec_insert(v, key, e1), key, e2) == spec_insert(v, key, e2),
    decreases v.len(),
{
    if v.len() == 0 {
        assert(spec_insert(v, key, e1) == seq![(key, e1)]);
        assert(spec_insert(seq![(key, e1)], key, e2) == seq![(key, e2)] + seq![
            (key, e1),
        ].skip(1));
        assert(seq![(key, e2)] + seq![(key, e1)].skip(1) =~= seq![(key, e2)]);
        assert(spec_insert(v, key, e2) == seq![(key, e2)]);
    } else if v[0].0 == key {
        let r1 = spec_insert(v, key, e1);
        assert(r1 == seq![(key, e1)] + v.skip(1));
        assert(r1[0].0 == key);
        assert(spec_insert(r1, key, e2) == seq![(key, e2)] + r1.skip(1));
        assert(r1.skip(1) =~= v.skip(1));
    } else {
        lemma_insert_last_write_wins(v.skip(1), key, e1, e2);
        let r1 = spec_insert(v, key, e1);
        assert(r1 == seq![v[0]] + spec_insert(v.skip(1), key, e1));
        assert(r1[0] == v[0]);
        assert(r1.len() > 0 && r1[0].0 != key);
        assert(spec_insert(r1, key, e2) == seq![r1[0]] + spec_insert(r1.skip(1), key, e2));
        assert(r1.skip(1) =~= spec_insert(v.skip(1), key, e1));
        assert(seq![v[0]] + spec_insert(v.skip(1), key, e2) == spec_insert(v, key, e2));
    }
}

/// Writing keeps the identities pairwise distinct, and grows the store
/// only when the identity was absent.
pub proof fn lemma_insert_unique(v: Seq<(Seq<char>, EntryV)>, key: Seq<char>, e: EntryV)
    requires
        unique_keys(v),
    ensures
        unique_keys(spec_insert(v, key, e)),
        spec_find(v, key) is Some ==> spec_insert(v, key, e).len() == v.len(),
        spec_find(v, key) is None ==> spec_insert(v, key, e).len() == v.len() + 1,
{
    if exists|i: int| 0 <= i < v.len() && v[i].0 == key {
        let i = choose|i: int| 0 <= i < v.len() && v[i].0 == key;
        assert forall|j: int| 0 <= j < i implies v[j].0 != key by {
            assert(v[j].0 != v[i].0);
        }
        lemma_index_find(v, key, i);
        lemma_insert_found(v, key, e, i);
        let r = v.update(i, (key, e));
        assert forall|a: int, b: int| 0 <= a < b < r.len() implies r[a].0 != r[b].0 by {
            assert(r[a].0 == v[a].0);
            assert(r[b].0 == v[b].0);
        }
    } else {
        lemma_insert_absent(v, key, e);
        if spec_find(v, key) is Some {
            lemma_find_some_index(v, key);
        }
        let r = v.push((key, e));
        assert forall|a: int, b: int| 0 <= a < b < r.len() implies r[a].0 != r[b].0 by {
            if b < v.len() {
                assert(r[a].0 == v[a].0 && r[b].0 == v[b].0);
            } else {
                assert(r[b].0 == key && r[a].0 == v[a].0);
            }
        }
    }
}

/// The store. Mutated only by `insert`; read by `get`; moved to and from
/// its serialized form by `save` and `load` (see `codec`).
#[derive(Debug, PartialEq)]
pub struct Cache {
    pub data: Vec<(String, CachedEntry)>,
}

impl View for Cache {
    type V = Seq<(Seq<char>, EntryV)>;

    open spec fn view(&self) -> Seq<(Seq<char>, EntryV)> {
        self.data@.map_values(|p: (String, CachedEntry)| (p.0@, p.1@))
    }
}

impl Cache {
    /// All identities in the store are pairwise distinct.
    pub open spec fn wf(&self) -> bool {
        unique_keys(self@)
    }

    /// A store with nothing in it.
    pub fn new() -> (c: Cache)
        ensures
            c@ == Seq::<(Seq<char>, EntryV)>::empty(),
            c.wf(),
    {
        let c = Cache { data: Vec::new() };
        proof {
            assert(c@ =~= Seq::<(Seq<char>, EntryV)>::empty());
        }
        c
    }

    /// Pure lookup: a copy of the calendar stored under `username`, if any.
    pub fn get(&self, username: &str) -> (r: Option<ContributionCalendar>)
        ensures
            r is Some <==> spec_find(self@, username@) is Some,
            r matches Some(c) ==> c@ == spec_find(self@, username@)->Some_0.weeks,
    {
        let key = username.to_owned();
        let mut i: usize = 0;
        proof {
            assert(self@.skip(0) =~= self@);
        }
        while i < self.data.len()
            invariant
                i <= self.data.len(),
                key@ == username@,
                spec_find(self@, username@) == spec_find(self@.skip(i as int), username@),
            decreases self.data.len() - i,
        {
            proof {
                assert(self@.skip(i as int)[0] == self@[i as int]);
                assert(self@.skip(i as int).skip(1) =~= self@.skip(i as int + 1));
            }
            if self.data[i].0 == key {
                return Some(self.data[i].1.calendar.clone());
            }
            i += 1;
        }
        proof {
            assert(self@.skip(i as int) =~= Seq::<(Seq<char>, EntryV)>::empty());
        }
        None
    }

    /// Write `calendar` under `username` with the given fetch stamp: the
    /// first pair carrying that identity, if one exists, is overwritten in
    /// place, else the pair is appended.
    pub fn insert_at(
        &mut self,
        username: String,
        calendar: ContributionCalendar,
        fetched_at: String,
    )
        ensures
            final(self)@ == spec_insert(
                old(self)@,
                username@,
                EntryV { weeks: calendar@, fetched_at: fetched_at@ },
            ),
            old(self).wf() ==> final(self).wf(),
    {
        let ghost e = EntryV { weeks: calendar@, fetched_at: fetched_at@ };
        let ghost v0 = self@;
        let ghost kv = username@;
        let entry = CachedEntry { calendar, fetched_at };
        let mut i: usize = 0;
        while i < self.data.len()
            invariant
                i <= self.data.len(),
                self@ == v0,
                v0 == old(self)@,
                self.data.len() == v0.len(),
                entry@ == e,
                e == (EntryV { weeks: calendar@, fetched_at: fetched_at@ }),
                username@ == kv,
                forall|j: int| 0 <= j < i ==> v0[j].0 != kv,
            decreases self.data.len() - i,
        {
            if self.data[i].0 == username {
                proof {
                    lemma_insert_found(v0, kv, e, i as int);
                }
                self.data.set(i, (username, entry));
                proof {
                    assert(self@ =~= v0.update(i as int, (kv, e)));
                    if old(self).wf() {
                        lemma_insert_unique(v0, kv, e);
                    }
                }
                return ;
            }
            i += 1;
        }
        proof {
            lemma_insert_absent(v0, kv, e);
        }
        self.data.push((username, entry));
        proof {
            assert(self@ =~= v0.push((kv, e)));
            if old(self).wf() {
                lemma_insert_unique(v0, kv, e);
            }
        }
    }

    /// Write `calendar` under `username`, stamped with the present moment.
    /// The stamp comes from the clock, so only its existence is promised.
    pub fn insert(&mut self, username: String, calendar: ContributionCalendar)
        ensures
            exists|ts: Seq<char>|
                final(self)@ == spec_insert(
                    old(self)@,
                    username@,
                    EntryV { weeks: calendar@, fetched_at: ts },
                ),
            old(self).wf() ==> final(self).wf(),
    {
        let stamp = now_iso();
        let ghost ts = stamp@;
        self.insert_at(username, calendar, stamp);
        proof {
            assert(final(self)@ == spec_insert(
                old(self)@,
                username@,
                EntryV { weeks: calendar@, fetched_at: ts },
            ));
        }
    }
}

/// Relies on `chrono::Utc::now` and `chrono::DateTime::to_rfc3339`: the
/// present UTC moment rendered as RFC 3339 text. The value depends on the
/// clock, so nothing is promised of it.
#[verifier::external_body]
fn now_iso() -> (r: String) {
    chrono::Utc::now().to_rfc3339()
}

} // verus!
