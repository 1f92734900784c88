//! The three entry points that the desktop shell's search calls: the
//! identifiers that match a query, the metadata of each result, and the URI
//! that launches a chosen result.

use vstd::prelude::*;
use crate::index::{lemma_map_of_entry, SearchIndex};
use vstd::string::StringExecFns;
use crate::text::{contains_text, lower_of, occurs_in, to_lower};

verus! {

/// The views of a sequence of strings.
pub open spec fn views(ss: Seq<String>) -> Seq<Seq<char>> {
    ss.map_values(|s: String| s@)
}

/// One `id` for each of `terms` that, folded to lowercase, occurs in the
/// lowercase form of `name`; in the order of `terms`.
pub open spec fn term_hits(id: Seq<char>, name: Seq<char>, terms: Seq<Seq<char>>) -> Seq<Seq<char>>
    decreases terms.len(),
{
    if terms.len() == 0 {
        Seq::empty()
    } else {
        term_hits(id, name, terms.drop_last()) + if occurs_in(lower_of(terms.last()), lower_of(name)) {
            seq![id]
        } else {
            Seq::empty()
        }
    }
}

/// What a query matches: for each entry in turn, its identifier once for
/// every term that matches its name.
pub open spec fn match_seq(es: Seq<(Seq<char>, Seq<char>)>, terms: Seq<Seq<char>>) -> Seq<Seq<char>>
    decreases es.len(),
{
    if es.len() == 0 {
        Seq::empty()
    } else {
        match_seq(es.drop_last(), terms) + term_hits(es.last().0, es.last().1, terms)
    }
}

/// The prefix of the launch URI of a Steam game.
pub open spec fn launch_prefix() -> Seq<char> {
    "steam://rungameid/"@
}

/// The prefix of the icon name of a Steam game.
pub open spec fn icon_prefix() -> Seq<char> {
    "icon_"@
}

/// `m` is the metadata of the game `id` of `games`: its name, `id` again as
/// the description, and the icon name of the game.
pub open spec fn describes(m: ResultMeta, id: Seq<char>, games: Map<Seq<char>, Seq<char>>) -> bool {
    &&& m.id@ == id
    &&& m.name@ == games[id]
    &&& m.description@ == id
    &&& m.icon@ == icon_prefix() + id
}

/// What the shell shows of one result.
pub struct ResultMeta {
    pub id: String,
    pub name: String,
    pub description: String,
    pub icon: String,
}

/// The search provider: the index of the installed games, which no call changes.
pub struct Application {
    pub games: SearchIndex,
}

impl Application {
    /// Builds the provider over an index.
    pub fn new(games: SearchIndex) -> (r: Application)
        ensures
            r.games == games,
    {
        Application { games }
    }

    /// The identifiers of the games whose names match the query: for every
    /// game, in the order of the index, its identifier once for each term
    /// that occurs in its name, case ignored. Nothing is deduplicated.
    pub fn initial_result_set(&self, terms: &[String]) -> (r: Vec<String>)
        ensures
            views(r@) == match_seq(self.games.entries(), views(terms@)),
    {
        let ghost ts = views(terms@);
        let mut lowered: Vec<String> = Vec::new();
        let mut j: usize = 0;
        while j < terms.len()
            invariant
                j <= terms@.len(),
                lowered@.len() == j,
                forall|k: int| 0 <= k < j ==> (#[trigger] lowered@[k])@ == lower_of(terms@[k]@),
            decreases terms@.len() - j,
        {
            lowered.push(to_lower(terms[j].as_str()));
            j = j + 1;
        }
        let ghost es = self.games.entries();
        let mut results: Vec<String> = Vec::new();
        let mut i: usize = 0;
        let n = self.games.len_of_entries();
        while i < n
            invariant
                n == es.len(),
                es == self.games.entries(),
                ts == views(terms@),
                lowered@.len() == terms@.len(),
                forall|k: int| 0 <= k < terms@.len() ==> (#[trigger] lowered@[k])@ == lower_of(terms@[k]@),
                i <= n,
                views(results@) == match_seq(es.take(i as int), ts),
            decreases n - i,
        {
            let (id, name) = self.games.entry_at(i);
            let name_lower = to_lower(name.as_str());
            let ghost before = views(results@);
            let mut j: usize = 0;
            while j < lowered.len()
                invariant
                    lowered@.len() == terms@.len(),
                    ts == views(terms@),
                    forall|k: int| 0 <= k < terms@.len() ==> (#[trigger] lowered@[k])@ == lower_of(terms@[k]@),
                    i < n == es.len(),
                    name_lower@ == lower_of(es[i as int].1),
                    id@ == es[i as int].0,
                    j <= lowered@.len(),
                    views(results@) == before + term_hits(id@, es[i as int].1, ts.take(j as int)),
                decreases lowered@.len() - j,
            {
                assert(ts.take(j + 1).drop_last() =~= ts.take(j as int));
                assert(ts.take(j + 1).last() == terms@[j as int]@);
                let ghost prev = views(results@);
                if contains_text(name_lower.as_str(), lowered[j].as_str()) {
                    results.push(id.clone());
                    assert(views(results@) =~= prev.push(id@));
                } else {
                    assert(views(results@) =~= prev);
                }
                assert(views(results@) =~= before + term_hits(id@, es[i as int].1, ts.take(j + 1)));
                j = j + 1;
            }
            assert(ts.take(j as int) =~= ts);
            assert(es.take(i + 1).drop_last() =~= es.take(i as int));
            i = i + 1;
        }
        assert(es.take(n as int) =~= es);
        results
    }

    /// The metadata of each result, in the order given: the game's name, its
    /// identifier as the description, and its icon name. Every identifier
    /// must be one of the index.
    pub fn result_metas(&self, identifiers: &[String]) -> (r: Vec<ResultMeta>)
        requires
            self.games.wf(),
            forall|k: int| 0 <= k < identifiers@.len() ==> self.games.games().contains_key(
                #[trigger] identifiers@[k]@,
            ),
        ensures
            r@.len() == identifiers@.len(),
            forall|k: int| 0 <= k < r@.len() ==> #[trigger] describes(r@[k], identifiers@[k]@, self.games.games()),
    {
        let mut r: Vec<ResultMeta> = Vec::new();
        let mut k: usize = 0;
        while k < identifiers.len()
            invariant
                self.games.wf(),
                forall|k: int| 0 <= k < identifiers@.len() ==> self.games.games().contains_key(
                    #[trigger] identifiers@[k]@,
                ),
                k <= identifiers@.len(),
                r@.len() == k,
                forall|j: int| 0 <= j < k ==> #[trigger] describes(r@[j], identifiers@[j]@, self.games.games()),
            decreases identifiers@.len() - k,
        {
            let id = &identifiers[k];
            assert(self.games.games().contains_key(identifiers@[k as int]@));
            let name = match self.games.get(id) {
                Some(name) => name.clone(),
                // not reached: every identifier is one of the index
                None => String::new(),
            };
            let mut icon = String::from_str("icon_");
            icon.append(id.as_str());
            r.push(ResultMeta { id: id.clone(), name, description: id.clone(), icon });
            k = k + 1;
        }
        r
    }

    /// The URI that launches the game `identifier`, for the desktop to open
    /// with its default handler. The terms and the time of the activation
    /// are not used.
    pub fn activate_result(&self, identifier: &String, _terms: &[String], _timestamp: u32) -> (uri: String)
        ensures
            uri@ == launch_prefix() + identifier@,
    {
        let mut uri = String::from_str("steam://rungameid/");
        uri.append(identifier.as_str());
        uri
    }
}

/// Each identifier that `term_hits` gives is `id`, put there by a term that
/// occurs in the name.
proof fn lemma_term_hits_origin(id: Seq<char>, name: Seq<char>, terms: Seq<Seq<char>>, k: int)
    requires
        0 <= k < term_hits(id, name, terms).len(),
    ensures
        term_hits(id, name, terms)[k] == id,
        exists|j: int| 0 <= j < terms.len() && occurs_in(lower_of(#[trigger] terms[j]), lower_of(name)),
    decreases terms.len(),
{
    let prev = term_hits(id, name, terms.drop_last());
    if k < prev.len() {
        lemma_term_hits_origin(id, name, terms.drop_last(), k);
        let j = choose|j: int| 0 <= j < terms.len() - 1 && occurs_in(lower_of(#[trigger] terms.drop_last()[j]), lower_of(name));
        assert(terms[j] == terms.drop_last()[j]);
    } else {
        assert(terms[terms.len() - 1] == terms.last());
    }
}

/// Each identifier that `match_seq` gives is that of an entry whose name
/// a term matches.
proof fn lemma_match_seq_origin(es: Seq<(Seq<char>, Seq<char>)>, terms: Seq<Seq<char>>, k: int)
    requires
        0 <= k < match_seq(es, terms).len(),
    ensures
        exists|i: int, j: int| 0 <= i < es.len() && 0 <= j < terms.len()
            && #[trigger] es[i].0 == match_seq(es, terms)[k]
            && occurs_in(lower_of(#[trigger] terms[j]), lower_of(es[i].1)),
    decreases es.len(),
{
    let prev = match_seq(es.drop_last(), terms);
    if k < prev.len() {
        lemma_match_seq_origin(es.drop_last(), terms, k);
        let (i, j) = choose|i: int, j: int| 0 <= i < es.len() - 1 && 0 <= j < terms.len()
            && #[trigger] es.drop_last()[i].0 == prev[k]
            && occurs_in(lower_of(#[trigger] terms[j]), lower_of(es.drop_last()[i].1));
        assert(es[i] == es.drop_last()[i]);
    } else {
        let last = es.len() - 1;
        lemma_term_hits_origin(es.last().0, es.last().1, terms, k - prev.len());
        let j = choose|j: int| 0 <= j < terms.len() && occurs_in(lower_of(#[trigger] terms[j]), lower_of(es.last().1));
        assert(es[last].0 == match_seq(es, terms)[k]);
    }
}

/// Every identifier that a query returns is that of a game of the index,
/// and one of the query's terms, folded to lowercase, occurs in the
/// lowercase name of that game. No identifier outside the index is returned.
pub proof fn lemma_matches_are_games(index: &SearchIndex, terms: Seq<Seq<char>>)
    requires
        index.wf(),
    ensures
        forall|k: int| 0 <= k < match_seq(index.entries(), terms).len() ==> {
            let id = #[trigger] match_seq(index.entries(), terms)[k];
            &&& index.games().contains_key(id)
            &&& exists|j: int| 0 <= j < terms.len()
                && occurs_in(lower_of(#[trigger] terms[j]), lower_of(index.games()[id]))
        },
{
    let es = index.entries();
    assert forall|k: int| 0 <= k < match_seq(es, terms).len() implies {
        let id = #[trigger] match_seq(es, terms)[k];
        &&& index.games().contains_key(id)
        &&& exists|j: int| 0 <= j < terms.len()
            && occurs_in(lower_of(#[trigger] terms[j]), lower_of(index.games()[id]))
    } by {
        lemma_match_seq_origin(es, terms, k);
        let (i, j) = choose|i: int, j: int| 0 <= i < es.len() && 0 <= j < terms.len()
            && #[trigger] es[i].0 == match_seq(es, terms)[k]
            && occurs_in(lower_of(#[trigger] terms[j]), lower_of(es[i].1));
        lemma_map_of_entry(es, i);
    }
}

/// A query without terms matches nothing, whatever the index holds.
pub proof fn lemma_no_terms_no_matches(es: Seq<(Seq<char>, Seq<char>)>)
    ensures
        match_seq(es, Seq::empty()) == Seq::<Seq<char>>::empty(),
    decreases es.len(),
{
    if es.len() > 0 {
        lemma_no_terms_no_matches(es.drop_last());
        assert(match_seq(es, Seq::empty()) =~= Seq::<Seq<char>>::empty());
    }
}

} // verus!
