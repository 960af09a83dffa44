//! The ranking pipeline: a collection of entries, the current query, and
//! the ordered view that the two determine.

use crate::entry::{EntryObject, EntryView};
use crate::matcher::{fuzzy_match, match_outcome, match_score, score_of};
use crate::ranking::{
    collection_order, is_ordered, is_ranking, lemma_ranking_unique, lists, rank,
};
use vstd::prelude::*;

verus! {

/// The relevance of an entry called `name` under `query`: 0 under the empty
/// query, which asks nothing of the matcher; else the score of the match,
/// with 0 for no match.
pub open spec fn relevance(name: Seq<char>, query: Seq<char>) -> i64 {
    if query.len() == 0 {
        0
    } else {
        score_of(match_outcome(name, query))
    }
}

/// Whether an entry with this relevance is shown under `query`: the empty
/// query shows every entry, any other only those with a positive score.
pub open spec fn passes(query: Seq<char>, score: i64) -> bool {
    query.len() == 0 || score > 0
}

/// Scores one entry against the search term, stores the score on the entry
/// and says whether the entry is shown.
pub fn filter_fn(term: &str, entry: &mut EntryObject) -> (shown: bool)
    ensures
        final(entry).wf(),
        final(entry)@ == (EntryView { score: relevance(old(entry)@.name, term@), ..old(entry)@ }),
        shown == passes(term@, relevance(old(entry)@.name, term@)),
{
    if term.is_empty() {
        entry.set_score(0);
        return true;
    }
    let score: i64 = match_score(fuzzy_match(entry.name(), term));
    entry.set_score(score);
    score > 0
}

/// The mathematical content of a [`Pipeline`].
pub struct PipelineView {
    /// The collection, in the order in which the entries were added.
    pub entries: Seq<EntryView>,
    /// The query applied last.
    pub query: Seq<char>,
    /// The ordered view: indices into `entries`, in display order.
    pub order: Seq<usize>,
}

impl PipelineView {
    /// The scores of the entries, in collection order.
    pub open spec fn scores(self) -> Seq<i64> {
        Seq::new(self.entries.len(), |i: int| self.entries[i].score)
    }

    /// Every entry carries its relevance under the current query.
    pub open spec fn scored(self) -> bool {
        forall|i: int|
            0 <= i < self.entries.len() ==> (#[trigger] self.entries[i]).score == relevance(
                self.entries[i].name,
                self.query,
            )
    }

    /// The ordered view is the one that the scores and the query call for:
    /// under the empty query the whole collection in its own order, else the
    /// ranking of the collection.
    pub open spec fn ordered(self) -> bool {
        if self.query.len() == 0 {
            self.order == collection_order(self.entries.len())
        } else {
            is_ranking(self.order, self.scores())
        }
    }

    /// The state is consistent: the collection can be indexed, names are not
    /// empty, scores and ordered view belong to the current query.
    pub open spec fn wf(self) -> bool {
        &&& self.entries.len() <= usize::MAX
        &&& forall|i: int| 0 <= i < self.entries.len() ==> (#[trigger] self.entries[i]).name.len() > 0
        &&& self.scored()
        &&& self.ordered()
    }

    /// The entry at index `i`, scored under `query`.
    pub open spec fn rescored(self, i: int, query: Seq<char>) -> EntryView {
        EntryView { score: relevance(self.entries[i].name, query), ..self.entries[i] }
    }

    /// `after` is this state once `query` has been applied: the same
    /// collection with every score set anew, and the view for those scores.
    pub open spec fn applies(self, query: Seq<char>, after: PipelineView) -> bool {
        &&& after.wf()
        &&& after.query == query
        &&& after.entries.len() == self.entries.len()
        &&& forall|i: int|
            0 <= i < self.entries.len() ==> #[trigger] after.entries[i] == self.rescored(i, query)
    }

    /// Two states hold the same collection: the same entries in the same
    /// order, whatever their scores.
    pub open spec fn same_collection(self, other: PipelineView) -> bool {
        &&& self.entries.len() == other.entries.len()
        &&& forall|i: int|
            0 <= i < self.entries.len() ==> (#[trigger] self.entries[i]) == (EntryView {
                score: self.entries[i].score,
                ..other.entries[i]
            })
    }
}

/// The collection of entries with the query applied last and the ordered
/// view of the entries that the query lets through.
pub struct Pipeline {
    entries: Vec<EntryObject>,
    query: String,
    order: Vec<usize>,
}

impl View for Pipeline {
    type V = PipelineView;

    closed spec fn view(&self) -> PipelineView {
        PipelineView {
            entries: Seq::new(self.entries@.len(), |i: int| self.entries@[i]@),
            query: self.query@,
            order: self.order@,
        }
    }
}

/// Collects the scores of the entries into a vector of their own.
fn scores_of(entries: &Vec<EntryObject>) -> (scores: Vec<i64>)
    ensures
        scores@ == Seq::new(entries@.len(), |i: int| entries@[i]@.score),
{
    let mut scores: Vec<i64> = Vec::new();
    let mut i: usize = 0;
    while i < entries.len()
        invariant
            i <= entries.len(),
            scores.len() == i,
            forall|k: int| 0 <= k < i ==> scores[k] == (#[trigger] entries@[k])@.score,
        decreases entries.len() - i,
    {
        scores.push(entries[i].score());
        i = i + 1;
    }
    scores
}

/// The indices of a collection of `count` entries, in collection order.
fn whole_collection(count: usize) -> (order: Vec<usize>)
    ensures
        order@ == collection_order(count as nat),
{
    let mut order: Vec<usize> = Vec::new();
    let mut i: usize = 0;
    while i < count
        invariant
            i <= count,
            order.len() == i,
            forall|k: int| 0 <= k < i ==> order[k] == k,
        decreases count - i,
    {
        order.push(i);
        i = i + 1;
    }
    assert(order@ =~= collection_order(count as nat));
    order
}

impl Pipeline {
    /// A pipeline over `entries`, under the empty query: every score is 0
    /// and the ordered view is the whole collection in its own order.
    pub fn new(entries: Vec<EntryObject>) -> (made: Pipeline)
        ensures
            made@.wf(),
            made@.query.len() == 0,
            made@.entries.len() == entries@.len(),
            forall|i: int|
                0 <= i < entries@.len() ==> #[trigger] made@.entries[i] == (EntryView {
                    score: 0,
                    ..entries@[i]@
                }),
            made@.order == collection_order(entries@.len()),
    {
        let ghost given = entries@;
        let mut entries = entries;
        let mut i: usize = 0;
        while i < entries.len()
            invariant
                i <= entries.len(),
                entries.len() == given.len(),
                forall|k: int|
                    0 <= k < i ==> (#[trigger] entries@[k])@ == (EntryView { score: 0, ..given[k]@ })
                        && entries@[k]@.name.len() > 0,
                forall|k: int| i <= k < entries.len() ==> entries@[k] == given[k],
            decreases entries.len() - i,
        {
            entries[i].set_score(0);
            i = i + 1;
        }
        let order = whole_collection(entries.len());
        Pipeline { entries, query: String::new(), order }
    }

    /// The number of entries in the collection.
    pub fn len(&self) -> (count: usize)
        ensures
            count == self@.entries.len(),
    {
        self.entries.len()
    }

    /// The entry at `index` of the collection.
    pub fn entry(&self, index: usize) -> (entry: &EntryObject)
        requires
            index < self@.entries.len(),
        ensures
            entry@ == self@.entries[index as int],
    {
        &self.entries[index]
    }

    /// The query applied last.
    pub fn query(&self) -> (query: &str)
        ensures
            query@ == self@.query,
    {
        self.query.as_str()
    }

    /// The ordered view: the indices of the entries shown, in display order.
    pub fn ordered_view(&self) -> (order: &Vec<usize>)
        ensures
            order@ == self@.order,
    {
        &self.order
    }

    /// The entry shown at `position` of the ordered view.
    pub fn view_entry(&self, position: usize) -> (entry: &EntryObject)
        requires
            self@.wf(),
            position < self@.order.len(),
        ensures
            self@.order[position as int] < self@.entries.len(),
            entry@ == self@.entries[self@.order[position as int] as int],
    {
        let index: usize = self.order[position];
        &self.entries[index]
    }

    /// The names of the entries shown, in display order.
    pub fn view_names(&self) -> (names: Vec<String>)
        requires
            self@.wf(),
        ensures
            names.len() == self@.order.len(),
            forall|k: int|
                0 <= k < names.len() ==> (#[trigger] names[k])@ == self@.entries[self@.order[k] as int].name,
    {
        let mut names: Vec<String> = Vec::new();
        let mut k: usize = 0;
        while k < self.order.len()
            invariant
                self@.wf(),
                k <= self.order.len(),
                names.len() == k,
                forall|m: int|
                    0 <= m < k ==> (#[trigger] names[m])@ == self@.entries[self@.order[m] as int].name,
            decreases self.order.len() - k,
        {
            names.push(self.view_entry(k).name().to_owned());
            k = k + 1;
        }
        names
    }

    /// Activates the entry shown at `position`: gives the launch target to
    /// hand to whatever starts programs.
    pub fn activate(&self, position: usize) -> (target: &str)
        requires
            self@.wf(),
            position < self@.order.len(),
            self@.entries[self@.order[position as int] as int].desktop_entry is Some,
        ensures
            target@ == self@.entries[self@.order[position as int] as int].desktop_entry->0,
    {
        self.view_entry(position).launch()
    }

    /// Adds an entry at the end of the collection. It is scored under the
    /// current query and takes its place in the ordered view.
    pub fn push(&mut self, entry: EntryObject)
        requires
            old(self)@.wf(),
        ensures
            final(self)@.wf(),
            final(self)@.query == old(self)@.query,
            final(self)@.entries == old(self)@.entries.push(
                EntryView { score: relevance(entry@.name, old(self)@.query), ..entry@ },
            ),
    {
        let mut entry = entry;
        filter_fn(self.query.as_str(), &mut entry);
        let at: usize = self.entries.len();
        self.entries.push(entry);
        assert(self.entries.len() == self.entries@.len());
        if self.query.as_str().is_empty() {
            self.order.push(at);
            assert(self.order@ =~= collection_order(self.entries@.len()));
        } else {
            let scores = scores_of(&self.entries);
            self.order = rank(&scores);
            assert(scores@ =~= self@.scores());
        }
        assert(final(self)@.entries =~= old(self)@.entries.push(
            EntryView { score: relevance(entry@.name, old(self)@.query), ..entry@ },
        ));
    }

    /// Applies a query: scores every entry against it, keeps the entries
    /// with a positive score and orders them by descending score, entries of
    /// equal score in collection order. The empty query shows the whole
    /// collection in its own order, with every score 0.
    pub fn set_query(&mut self, new_query: &str)
        ensures
            old(self)@.applies(new_query@, final(self)@),
            new_query@.len() == 0 ==> final(self)@.order == collection_order(
                old(self)@.entries.len(),
            ),
            new_query@.len() > 0 ==> forall|i: int|
                0 <= i < old(self)@.entries.len() ==> (lists(final(self)@.order, i) <==> (
                match_outcome(#[trigger] old(self)@.entries[i].name, new_query@) matches Some(score)
                    && score > 0)),
            is_ordered(final(self)@.order, final(self)@.scores()),
    {
        let mut i: usize = 0;
        while i < self.entries.len()
            invariant
                i <= self.entries.len(),
                self.entries.len() == old(self).entries.len(),
                forall|k: int|
                    0 <= k < i ==> (#[trigger] self.entries@[k])@ == old(self)@.rescored(k, new_query@)
                        && self.entries@[k]@.name.len() > 0,
                forall|k: int| i <= k < self.entries.len() ==> self.entries@[k] == old(self).entries@[k],
            decreases self.entries.len() - i,
        {
            filter_fn(new_query, &mut self.entries[i]);
            i = i + 1;
        }
        self.query = new_query.to_owned();
        if new_query.is_empty() {
            self.order = whole_collection(self.entries.len());
        } else {
            let scores = scores_of(&self.entries);
            self.order = rank(&scores);
            assert(scores@ =~= self@.scores());
            proof {
                assert forall|i: int| 0 <= i < old(self)@.entries.len() implies (
                lists(self@.order, i) <==> (match_outcome(
                    #[trigger] old(self)@.entries[i].name,
                    new_query@,
                ) matches Some(score) && score > 0)) by {
                    assert(self@.entries[i] == old(self)@.rescored(i, new_query@));
                    lemma_filter(self@, i);
                }
            }
        }
    }
}

/// Under a query that is not empty, an entry is in the ordered view exactly
/// if the matcher finds its name with a positive score.
pub proof fn lemma_filter(state: PipelineView, i: int)
    requires
        state.wf(),
        state.query.len() > 0,
        0 <= i < state.entries.len(),
    ensures
        lists(state.order, i) <==> (match_outcome(state.entries[i].name, state.query) matches Some(score)
            && score > 0),
{
    let scores = state.scores();
    assert(scores[i] == state.entries[i].score);
    if lists(state.order, i) {
        let k = choose|k: int| 0 <= k < state.order.len() && state.order[k] == i;
        assert(scores[state.order[k] as int] > 0);
    }
}

/// In every consistent state the ordered view runs by descending score, and
/// entries of equal score stand in collection order.
pub proof fn lemma_sorted(state: PipelineView, a: int, b: int)
    requires
        state.wf(),
        0 <= a < b < state.order.len(),
    ensures
        state.order[a] < state.entries.len(),
        state.order[b] < state.entries.len(),
        state.entries[state.order[a] as int].score >= state.entries[state.order[b] as int].score,
        state.entries[state.order[a] as int].score == state.entries[state.order[b] as int].score
            ==> state.order[a] < state.order[b],
{
    let scores = state.scores();
    if state.query.len() == 0 {
        assert(state.entries[a].score == 0);
        assert(state.entries[b].score == 0);
    } else {
        assert(scores[state.order[a] as int] == state.entries[state.order[a] as int].score);
        assert(scores[state.order[b] as int] == state.entries[state.order[b] as int].score);
    }
}

/// The collection and the query determine the whole state: two consistent
/// states over the same collection and the same query carry the same scores
/// and show the same ordered view, whatever was asked of either before.
pub proof fn lemma_determined(a: PipelineView, b: PipelineView)
    requires
        a.wf(),
        b.wf(),
        a.same_collection(b),
        a.query == b.query,
    ensures
        a == b,
{
    assert(a.entries =~= b.entries);
    assert(a.scores() =~= b.scores());
    if a.query.len() > 0 {
        lemma_ranking_unique(a.order, b.order, a.scores());
    }
}

/// Applying a query gives the same state from any two states over the same
/// collection: the result does not depend on the queries applied before.
pub proof fn lemma_set_query_deterministic(
    first: PipelineView,
    second: PipelineView,
    query: Seq<char>,
    first_after: PipelineView,
    second_after: PipelineView,
)
    requires
        first.same_collection(second),
        first.applies(query, first_after),
        second.applies(query, second_after),
    ensures
        first_after == second_after,
{
    assert forall|i: int| 0 <= i < first_after.entries.len() implies (
    #[trigger] first_after.entries[i]) == (EntryView {
        score: first_after.entries[i].score,
        ..second_after.entries[i]
    }) by {
        assert(first_after.entries[i] == first.rescored(i, query));
        assert(second_after.entries[i] == second.rescored(i, query));
        assert(first.entries[i] == (EntryView { score: first.entries[i].score, ..second.entries[i] }));
    }
    lemma_determined(first_after, second_after);
}

/// Applying the same query a second time changes nothing.
pub proof fn lemma_set_query_idempotent(
    before: PipelineView,
    query: Seq<char>,
    once: PipelineView,
    twice: PipelineView,
)
    requires
        before.applies(query, once),
        once.applies(query, twice),
    ensures
        twice == once,
{
    assert forall|i: int| 0 <= i < twice.entries.len() implies (#[trigger] twice.entries[i]) == (
    EntryView { score: twice.entries[i].score, ..once.entries[i] }) by {
        assert(twice.entries[i] == once.rescored(i, query));
    }
    lemma_determined(twice, once);
}

} // verus!
