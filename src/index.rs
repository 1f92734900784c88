//! The search index: the installed games, each identifier with its display
//! name, built once from the catalog that the Steam library yields.

use vstd::prelude::*;
use crate::filter::{excluded_ids, is_excluded, should_filter};
use crate::text::{decimal_of, decimal_string, lemma_decimal_injective};

verus! {

/// One installed game of the index.
pub struct GameEntry {
    pub id: String,
    pub name: String,
}

impl View for GameEntry {
    type V = (Seq<char>, Seq<char>);

    open spec fn view(&self) -> (Seq<char>, Seq<char>) {
        (self.id@, self.name@)
    }
}

/// One app that the Steam library reports: its app id and, where the
/// manifest holds one, its display name.
pub struct CatalogRecord {
    pub app_id: u32,
    pub name: Option<String>,
}

impl View for CatalogRecord {
    type V = (u32, Option<Seq<char>>);

    open spec fn view(&self) -> (u32, Option<Seq<char>>) {
        (
            self.app_id,
            match self.name {
                Some(n) => Some(n@),
                None => None,
            },
        )
    }
}

/// The mapping from identifier to name that a sequence of entries holds;
/// a later entry wins over an earlier one with the same identifier.
pub open spec fn map_of(es: Seq<(Seq<char>, Seq<char>)>) -> Map<Seq<char>, Seq<char>>
    decreases es.len(),
{
    if es.len() == 0 {
        Map::empty()
    } else {
        map_of(es.drop_last()).insert(es.last().0, es.last().1)
    }
}

/// No two entries share an identifier.
pub open spec fn ids_distinct(es: Seq<(Seq<char>, Seq<char>)>) -> bool {
    forall|i: int, j: int| 0 <= i < j < es.len() ==> #[trigger] es[i].0 != #[trigger] es[j].0
}

/// The index that a catalog gives: each app that is not excluded and has a
/// name, under the decimal form of its app id; a later record wins.
pub open spec fn index_of(rs: Seq<(u32, Option<Seq<char>>)>) -> Map<Seq<char>, Seq<char>>
    decreases rs.len(),
{
    if rs.len() == 0 {
        Map::empty()
    } else {
        let prev = index_of(rs.drop_last());
        let (id, name) = rs.last();
        if !is_excluded(id) && name is Some {
            prev.insert(decimal_of(id as nat), name->0)
        } else {
            prev
        }
    }
}

/// Each entry's identifier is in the mapping, with the entry's name.
pub proof fn lemma_map_of_entry(es: Seq<(Seq<char>, Seq<char>)>, i: int)
    requires
        ids_distinct(es),
        0 <= i < es.len(),
    ensures
        map_of(es).contains_key(es[i].0),
        map_of(es)[es[i].0] == es[i].1,
    decreases es.len(),
{
    if i < es.len() - 1 {
        lemma_map_of_entry(es.drop_last(), i);
    }
}

/// The mapping holds the identifiers of the entries and no other.
pub proof fn lemma_map_of_key(es: Seq<(Seq<char>, Seq<char>)>, k: Seq<char>)
    ensures
        map_of(es).contains_key(k) <==> exists|i: int| 0 <= i < es.len() && #[trigger] es[i].0 == k,
    decreases es.len(),
{
    if es.len() > 0 {
        lemma_map_of_key(es.drop_last(), k);
        if map_of(es.drop_last()).contains_key(k) {
            let i = choose|i: int| 0 <= i < es.len() - 1 && #[trigger] es.drop_last()[i].0 == k;
            assert(es[i].0 == k);
        }
        if exists|i: int| 0 <= i < es.len() && #[trigger] es[i].0 == k {
            let i = choose|i: int| 0 <= i < es.len() && #[trigger] es[i].0 == k;
            if i < es.len() - 1 {
                assert(es.drop_last()[i].0 == k);
            }
        }
    }
}

/// Replacing the name of the entry at `p` updates the mapping there alone.
proof fn lemma_map_of_update(es: Seq<(Seq<char>, Seq<char>)>, p: int, name: Seq<char>)
    requires
        ids_distinct(es),
        0 <= p < es.len(),
    ensures
        map_of(es.update(p, (es[p].0, name))) == map_of(es).insert(es[p].0, name),
    decreases es.len(),
{
    let k = es[p].0;
    let us = es.update(p, (k, name));
    if p == es.len() - 1 {
        assert(us.drop_last() =~= es.drop_last());
        lemma_map_of_key(es.drop_last(), k);
        assert(map_of(us) =~= map_of(es).insert(k, name));
    } else {
        assert(us.drop_last() =~= es.drop_last().update(p, (k, name)));
        lemma_map_of_update(es.drop_last(), p, name);
        assert(es.last().0 != k);
        assert(map_of(us) =~= map_of(es).insert(k, name));
    }
}

/// The installed games by identifier, for the lifetime of the process.
pub struct SearchIndex {
    entries: Vec<GameEntry>,
}

impl SearchIndex {
    /// The entries in the order in which the index is walked.
    pub closed spec fn entries(&self) -> Seq<(Seq<char>, Seq<char>)> {
        self.entries@.map_values(|e: GameEntry| e@)
    }

    /// The games by identifier.
    pub open spec fn games(&self) -> Map<Seq<char>, Seq<char>> {
        map_of(self.entries())
    }

    /// Each identifier stands in one entry at most.
    pub open spec fn wf(&self) -> bool {
        ids_distinct(self.entries())
    }

    /// An index without games.
    pub fn new() -> (r: SearchIndex)
        ensures
            r.wf(),
            r.entries() == Seq::<(Seq<char>, Seq<char>)>::empty(),
            r.games() == Map::<Seq<char>, Seq<char>>::empty(),
    {
        let r = SearchIndex { entries: Vec::new() };
        assert(r.entries() =~= Seq::<(Seq<char>, Seq<char>)>::empty());
        r
    }

    /// The number of games.
    pub fn len(&self) -> (r: usize)
        requires
            self.wf(),
        ensures
            r == self.games().len(),
            r == self.entries().len(),
    {
        proof {
            self.lemma_games_len();
        }
        self.entries.len()
    }

    proof fn lemma_games_len(&self)
        requires
            self.wf(),
        ensures
            self.games().len() == self.entries().len(),
    {
        lemma_distinct_len(self.entries());
    }

    /// The number of entries.
    pub fn len_of_entries(&self) -> (r: usize)
        ensures
            r == self.entries().len(),
    {
        self.entries.len()
    }

    /// The identifier and the name of the entry at `i`.
    pub fn entry_at(&self, i: usize) -> (r: (&String, &String))
        requires
            i < self.entries().len(),
        ensures
            (r.0@, r.1@) == self.entries()[i as int],
    {
        let e = &self.entries[i];
        (&e.id, &e.name)
    }

    /// Records `name` under `id`; a name recorded earlier under `id` is replaced.
    pub fn insert(&mut self, id: String, name: String)
        requires
            old(self).wf(),
        ensures
            final(self).wf(),
            final(self).games() == old(self).games().insert(id@, name@),
    {
        let mut i: usize = 0;
        while i < self.entries.len()
            invariant
                self == old(self),
                self.wf(),
                i <= self.entries@.len(),
                forall|j: int| 0 <= j < i ==> (#[trigger] self.entries@[j]).id@ != id@,
            decreases self.entries@.len() - i,
        {
            if self.entries[i].id == id {
                let ghost es = self.entries();
                proof {
                    lemma_map_of_update(es, i as int, name@);
                }
                self.entries.set(i, GameEntry { id, name });
                assert(self.entries() =~= es.update(i as int, (es[i as int].0, name@)));
                assert forall|a: int, b: int| 0 <= a < b < self.entries().len() implies
                    #[trigger] self.entries()[a].0 != #[trigger] self.entries()[b].0 by {
                    assert(self.entries()[a].0 == es[a].0);
                    assert(self.entries()[b].0 == es[b].0);
                }
                return;
            }
            i = i + 1;
        }
        let ghost es = self.entries();
        self.entries.push(GameEntry { id, name });
        assert(self.entries().drop_last() =~= es);
        assert forall|a: int, b: int| 0 <= a < b < self.entries().len() implies
            #[trigger] self.entries()[a].0 != #[trigger] self.entries()[b].0 by {
            if b == es.len() {
                assert(self.entries@[a].id@ != id@);
            } else {
                assert(self.entries()[a] == es[a]);
                assert(self.entries()[b] == es[b]);
            }
        }
    }

    /// The name recorded under `id`, if any.
    pub fn get(&self, id: &String) -> (r: Option<&String>)
        requires
            self.wf(),
        ensures
            r is Some <==> self.games().contains_key(id@),
            r is Some ==> r->0@ == self.games()[id@],
    {
        let mut i: usize = 0;
        while i < self.entries.len()
            invariant
                self.wf(),
                i <= self.entries@.len(),
                forall|j: int| 0 <= j < i ==> (#[trigger] self.entries@[j]).id@ != id@,
            decreases self.entries@.len() - i,
        {
            if self.entries[i].id == *id {
                proof {
                    lemma_map_of_entry(self.entries(), i as int);
                }
                return Some(&self.entries[i].name);
            }
            i = i + 1;
        }
        proof {
            lemma_map_of_key(self.entries(), id@);
            if self.games().contains_key(id@) {
                let j = choose|j: int| 0 <= j < self.entries().len() && #[trigger] self.entries()[j].0 == id@;
                assert(self.entries@[j].id@ == id@);
            }
        }
        None
    }

    /// The index of a catalog: each app that `should_filter` keeps and that
    /// has a name, under its app id in decimal; where an app id comes twice,
    /// the later record wins.
    pub fn from_catalog(records: Vec<CatalogRecord>) -> (r: SearchIndex)
        ensures
            r.wf(),
            r.games() == index_of(records@.map_values(|c: CatalogRecord| c@)),
    {
        let ghost rs = records@.map_values(|c: CatalogRecord| c@);
        let mut index = SearchIndex::new();
        let mut i: usize = 0;
        let mut records = records;
        let n = records.len();
        while i < n
            invariant
                n == records@.len(),
                i <= n,
                rs == records@.map_values(|c: CatalogRecord| c@),
                index.wf(),
                index.games() == index_of(rs.take(i as int)),
            decreases n - i,
        {
            assert(rs.take(i + 1).drop_last() =~= rs.take(i as int));
            let app_id = records[i].app_id;
            let name = records[i].name.clone();
            if !should_filter(app_id) {
                match name {
                    Some(name) => {
                        index.insert(decimal_string(app_id), name);
                    },
                    None => {},
                }
            }
            i = i + 1;
        }
        assert(rs.take(n as int) =~= rs);
        index
    }
}

proof fn lemma_distinct_len(es: Seq<(Seq<char>, Seq<char>)>)
    requires
        ids_distinct(es),
    ensures
        map_of(es).len() == es.len(),
        map_of(es).dom().finite(),
    decreases es.len(),
{
    if es.len() > 0 {
        let init = es.drop_last();
        assert(ids_distinct(init));
        lemma_distinct_len(init);
        lemma_map_of_key(init, es.last().0);
        if map_of(init).contains_key(es.last().0) {
            let j = choose|j: int| 0 <= j < init.len() && #[trigger] init[j].0 == es.last().0;
            assert(es[j].0 == es[es.len() - 1].0);
        }
    }
}

/// The mapping that a catalog gives without the filter: each app that has a
/// name, under the decimal form of its app id; a later record wins.
pub open spec fn latest_of(rs: Seq<(u32, Option<Seq<char>>)>) -> Map<Seq<char>, Seq<char>>
    decreases rs.len(),
{
    if rs.len() == 0 {
        Map::empty()
    } else {
        let prev = latest_of(rs.drop_last());
        let (id, name) = rs.last();
        if name is Some {
            prev.insert(decimal_of(id as nat), name->0)
        } else {
            prev
        }
    }
}

/// The records of a catalog that the filter keeps, in their order.
pub open spec fn retain_games(rs: Seq<(u32, Option<Seq<char>>)>) -> Seq<(u32, Option<Seq<char>>)> {
    rs.filter(|r: (u32, Option<Seq<char>>)| !is_excluded(r.0))
}

/// The identifiers of the excluded components.
pub open spec fn excluded_keys() -> Set<Seq<char>> {
    excluded_ids().map(|e: u32| decimal_of(e as nat))
}

/// A mapping without the identifiers of the excluded components.
pub open spec fn without_excluded(m: Map<Seq<char>, Seq<char>>) -> Map<Seq<char>, Seq<char>> {
    m.remove_keys(excluded_keys())
}

/// The identifier of an app is that of an excluded component exactly when
/// the app is excluded.
pub proof fn lemma_excluded_key(id: u32)
    ensures
        excluded_keys().contains(decimal_of(id as nat)) <==> is_excluded(id),
{
    if is_excluded(id) {
        assert(excluded_keys().contains(decimal_of(id as nat)));
    }
    if excluded_keys().contains(decimal_of(id as nat)) {
        let e = choose|e: u32| excluded_ids().contains(e) && decimal_of(id as nat) == decimal_of(e as nat);
        lemma_decimal_injective(id as nat, e as nat);
    }
}

/// Filtering the records before the later ones overwrite the earlier ones,
/// or the identifiers after, gives the same index; both are the index that
/// `from_catalog` builds.
pub proof fn lemma_filter_before_or_after_dedup(rs: Seq<(u32, Option<Seq<char>>)>)
    ensures
        latest_of(retain_games(rs)) == index_of(rs),
        without_excluded(latest_of(rs)) == index_of(rs),
    decreases rs.len(),
{
    if rs.len() > 0 {
        let init = rs.drop_last();
        let (id, name) = rs.last();
        lemma_filter_before_or_after_dedup(init);
        reveal(Seq::filter);
        let kept = retain_games(rs);
        if !is_excluded(id) {
            assert(kept == retain_games(init).push(rs.last()));
            assert(kept.drop_last() =~= retain_games(init));
        } else {
            assert(kept == retain_games(init));
        }
        lemma_excluded_key(id);
        assert(without_excluded(latest_of(rs)) =~= index_of(rs));
    }
}

/// Filtering twice keeps what filtering once keeps, on the records as on
/// an index.
pub proof fn lemma_filter_idempotent(rs: Seq<(u32, Option<Seq<char>>)>, m: Map<Seq<char>, Seq<char>>)
    ensures
        retain_games(retain_games(rs)) == retain_games(rs),
        without_excluded(without_excluded(m)) == without_excluded(m),
    decreases rs.len(),
{
    assert(without_excluded(without_excluded(m)) =~= without_excluded(m));
    if rs.len() > 0 {
        let init = rs.drop_last();
        lemma_filter_idempotent(init, m);
        reveal(Seq::filter);
        let kept = retain_games(rs);
        if !is_excluded(rs.last().0) {
            assert(kept.drop_last() =~= retain_games(init));
            assert(retain_games(kept) =~= kept);
        } else {
            assert(retain_games(kept) =~= kept);
        }
    } else {
        reveal(Seq::filter);
    }
}

} // verus!
