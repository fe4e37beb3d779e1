//! A store of memories: texts with the session they belong to, found again
//! by name, by session and by what they say.

use crate::clock::now_nanos;
use crate::ids::fresh_id;
use crate::metadata::{covers, extended, MetaModel, MetaValue, Metadata};
use crate::segment::{first_occurrence, lemma_first_occurrence, occurs_at};
use crate::text::{chars_of, lowercase, to_lowercase};
use vstd::prelude::*;
use vstd::string::*;

verus! {

/// A text as a mathematical value, where there is one.
pub open spec fn opt_view(text: Option<String>) -> Option<Seq<char>> {
    match text {
        Some(t) => Some(t@),
        None => None,
    }
}

/// One memory.
#[derive(Debug)]
pub struct MemoryItem {
    /// The memory's name.
    pub id: String,
    /// What it says.
    pub content: String,
    /// The user it belongs to.
    pub user_id: Option<String>,
    /// The agent it belongs to.
    pub agent_id: Option<String>,
    /// The run it belongs to.
    pub run_id: Option<String>,
    /// What else is noted about it.
    pub metadata: Metadata,
    /// When it was made, in nanoseconds since 1970.
    pub created_at: u128,
    /// When it was last changed, in nanoseconds since 1970.
    pub updated_at: u128,
}

/// [`MemoryItem`] as a mathematical value.
pub struct ItemModel {
    pub id: Seq<char>,
    pub content: Seq<char>,
    pub user_id: Option<Seq<char>>,
    pub agent_id: Option<Seq<char>>,
    pub run_id: Option<Seq<char>>,
    pub metadata: Map<Seq<char>, MetaModel>,
    pub created_at: u128,
    pub updated_at: u128,
}

impl View for MemoryItem {
    type V = ItemModel;

    open spec fn view(&self) -> ItemModel {
        ItemModel {
            id: self.id@,
            content: self.content@,
            user_id: opt_view(self.user_id),
            agent_id: opt_view(self.agent_id),
            run_id: opt_view(self.run_id),
            metadata: self.metadata@,
            created_at: self.created_at,
            updated_at: self.updated_at,
        }
    }
}

/// Which memories are asked for.
#[derive(Debug)]
pub struct MemoryFilters {
    /// Those of this user.
    pub user_id: Option<String>,
    /// Those of this agent.
    pub agent_id: Option<String>,
    /// Those of this run.
    pub run_id: Option<String>,
    /// Those about which all of this is noted.
    pub metadata: Metadata,
}

/// [`MemoryFilters`] as a mathematical value.
pub struct FilterModel {
    pub user_id: Option<Seq<char>>,
    pub agent_id: Option<Seq<char>>,
    pub run_id: Option<Seq<char>>,
    pub metadata: Map<Seq<char>, MetaModel>,
}

impl View for MemoryFilters {
    type V = FilterModel;

    open spec fn view(&self) -> FilterModel {
        FilterModel {
            user_id: opt_view(self.user_id),
            agent_id: opt_view(self.agent_id),
            run_id: opt_view(self.run_id),
            metadata: self.metadata@,
        }
    }
}

impl FilterModel {
    /// The filters that ask for every memory.
    pub open spec fn any() -> FilterModel {
        FilterModel { user_id: None, agent_id: None, run_id: None, metadata: Map::empty() }
    }

    /// Whether `item` is asked for: whether it belongs to the user, the
    /// agent and the run that are named, and has noted what is asked.
    pub open spec fn accepts(self, item: ItemModel) -> bool {
        &&& (self.user_id is Some ==> item.user_id == self.user_id)
        &&& (self.agent_id is Some ==> item.agent_id == self.agent_id)
        &&& (self.run_id is Some ==> item.run_id == self.run_id)
        &&& covers(item.metadata, self.metadata)
    }
}

impl Default for MemoryFilters {
    fn default() -> (r: Self)
        ensures
            r@ == FilterModel::any(),
    {
        MemoryFilters { user_id: None, agent_id: None, run_id: None, metadata: Metadata::new() }
    }
}

fn same_text(a: &Option<String>, b: &Option<String>) -> (r: bool)
    ensures
        r == (opt_view(*a) == opt_view(*b)),
{
    match (a, b) {
        (Some(x), Some(y)) => *x == *y,
        (None, None) => true,
        _ => false,
    }
}

/// Whether `pattern` stands somewhere in `text`.
pub open spec fn occurs(text: Seq<char>, pattern: Seq<char>) -> bool {
    first_occurrence(text, pattern) is Some
}

/// Computes [`occurs`].
pub fn contains_text(text: &str, pattern: &str) -> (r: bool)
    ensures
        r == occurs(text@, pattern@),
{
    let hay = chars_of(text);
    let needle = chars_of(pattern);
    let n = hay.len();
    let m = needle.len();
    proof {
        lemma_first_occurrence(hay@, needle@);
    }
    if m > n {
        return false;
    }
    let mut i: usize = 0;
    while i <= n - m
        invariant
            n == hay.len(),
            m == needle.len(),
            m <= n,
            i <= n - m + 1,
            hay@ == text@,
            needle@ == pattern@,
            forall|j: int| 0 <= j < i ==> !occurs_at(hay@, needle@, j),
        decreases n - m + 1 - i,
    {
        let mut k: usize = 0;
        while k < m && hay[i + k] == needle[k]
            invariant
                n == hay.len(),
                m == needle.len(),
                i + m <= n,
                k <= m,
                forall|j: int| 0 <= j < k ==> hay@[i + j] == needle@[j],
            decreases m - k,
        {
            k = k + 1;
        }
        if k == m {
            proof {
                assert(hay@.subrange(i as int, i + m) =~= needle@);
                lemma_first_occurrence(hay@, needle@);
                if first_occurrence(hay@, needle@) is None {
                    assert(!occurs_at(hay@, needle@, i as int));
                }
            }
            return true;
        }
        assert(hay@.subrange(i as int, i + m)[k as int] != needle@[k as int]);
        i = i + 1;
    }
    proof {
        lemma_first_occurrence(hay@, needle@);
        if first_occurrence(hay@, needle@) is Some {
            let at = first_occurrence(hay@, needle@)->0;
            assert(occurs_at(hay@, needle@, at));
            assert(at < i);
        }
    }
    false
}

/// Whether `item` is one that a search looks for: one that is asked for
/// and, where a query is given, says the query, small and capital letters
/// counting alike. The query is given in small letters.
pub open spec fn wanted(item: ItemModel, filters: FilterModel, query: Option<Seq<char>>) -> bool {
    filters.accepts(item) && (query matches Some(q) ==> occurs(lowercase(item.content), q))
}

/// Those of `items` that a search looks for, in their order.
pub open spec fn selected(items: Seq<ItemModel>, filters: FilterModel, query: Option<Seq<char>>) -> Seq<
    ItemModel,
>
    decreases items.len(),
{
    if items.len() == 0 {
        Seq::empty()
    } else if wanted(items.last(), filters, query) {
        selected(items.drop_last(), filters, query).push(items.last())
    } else {
        selected(items.drop_last(), filters, query)
    }
}

/// Those of `items` that are not asked for, in their order.
pub open spec fn spared(items: Seq<ItemModel>, filters: FilterModel) -> Seq<ItemModel>
    decreases items.len(),
{
    if items.len() == 0 {
        Seq::empty()
    } else if !filters.accepts(items.last()) {
        spared(items.drop_last(), filters).push(items.last())
    } else {
        spared(items.drop_last(), filters)
    }
}

/// `ranked` with `item` put in: before the first memory that is older.
pub open spec fn slotted(ranked: Seq<ItemModel>, item: ItemModel) -> Seq<ItemModel>
    decreases ranked.len(),
{
    if ranked.len() == 0 {
        seq![item]
    } else if ranked.first().created_at < item.created_at {
        seq![item] + ranked
    } else {
        seq![ranked.first()] + slotted(ranked.drop_first(), item)
    }
}

/// `items` with the newest first; memories of one age stay in their order.
pub open spec fn newest_first(items: Seq<ItemModel>) -> Seq<ItemModel>
    decreases items.len(),
{
    if items.len() == 0 {
        Seq::empty()
    } else {
        slotted(newest_first(items.drop_last()), items.last())
    }
}

/// The first `limit` of `items`, or all of them where there are fewer.
pub open spec fn at_most<T>(items: Seq<T>, limit: nat) -> Seq<T> {
    if limit < items.len() {
        items.take(limit as int)
    } else {
        items
    }
}

/// Putting a memory in before the first that is older is [`slotted`].
pub proof fn lemma_slotted(ranked: Seq<ItemModel>, item: ItemModel, at: int)
    requires
        0 <= at <= ranked.len(),
        forall|j: int| 0 <= j < at ==> ranked[j].created_at >= item.created_at,
        at < ranked.len() ==> ranked[at].created_at < item.created_at,
    ensures
        slotted(ranked, item) == ranked.insert(at, item),
    decreases at,
{
    if at == 0 {
        assert(ranked.insert(0, item) =~= seq![item] + ranked);
    } else {
        let rest = ranked.drop_first();
        assert forall|j: int| 0 <= j < at - 1 implies rest[j].created_at >= item.created_at by {
            assert(rest[j] == ranked[j + 1]);
        }
        lemma_slotted(rest, item, at - 1);
        assert(ranked.insert(at, item) =~= seq![ranked.first()] + rest.insert(at - 1, item));
    }
}

/// What is noted about a memory once its session is noted too.
pub open spec fn with_session(
    metadata: Map<Seq<char>, MetaModel>,
    user_id: Option<Seq<char>>,
    agent_id: Option<Seq<char>>,
    run_id: Option<Seq<char>>,
) -> Map<Seq<char>, MetaModel> {
    let first = match user_id {
        Some(id) => metadata.insert("user_id"@, MetaModel::Text(id)),
        None => metadata,
    };
    let second = match agent_id {
        Some(id) => first.insert("agent_id"@, MetaModel::Text(id)),
        None => first,
    };
    match run_id {
        Some(id) => second.insert("run_id"@, MetaModel::Text(id)),
        None => second,
    }
}

/// The memories in `items`, one for one.
pub open spec fn item_views(items: Seq<MemoryItem>) -> Seq<ItemModel> {
    Seq::new(items.len(), |i: int| items[i]@)
}

/// The memories that `found` points to, one for one.
pub open spec fn found_views(found: Seq<&MemoryItem>) -> Seq<ItemModel> {
    Seq::new(found.len(), |i: int| found[i]@)
}

/// The place of the memory named `id` among `items`.
pub open spec fn place_of(items: Seq<ItemModel>, id: Seq<char>) -> Option<int>
    decreases items.len(),
{
    if items.len() == 0 {
        None
    } else if items.last().id == id {
        Some(items.len() - 1)
    } else {
        place_of(items.drop_last(), id)
    }
}

/// `items` without the memory named `id`.
pub open spec fn without(items: Seq<ItemModel>, id: Seq<char>) -> Seq<ItemModel> {
    match place_of(items, id) {
        Some(at) => items.remove(at),
        None => items,
    }
}

/// The place of a name is a place that has it, and no later place has.
pub proof fn lemma_place_of(items: Seq<ItemModel>, id: Seq<char>)
    ensures
        match place_of(items, id) {
            Some(at) => 0 <= at < items.len() && items[at].id == id && forall|j: int|
                at < j < items.len() ==> items[j].id != id,
            None => forall|j: int| 0 <= j < items.len() ==> items[j].id != id,
        },
    decreases items.len(),
{
    if items.len() > 0 && items.last().id != id {
        let rest = items.drop_last();
        lemma_place_of(rest, id);
        match place_of(rest, id) {
            Some(at) => {
                assert(rest[at] == items[at]);
                assert forall|j: int| at < j < items.len() implies items[j].id != id by {
                    if j < rest.len() {
                        assert(rest[j] == items[j]);
                    }
                }
            },
            None => {
                assert forall|j: int| 0 <= j < items.len() implies items[j].id != id by {
                    if j < rest.len() {
                        assert(rest[j] == items[j]);
                    }
                }
            },
        }
    }
}

/// No two memories have one name.
pub open spec fn distinct(items: Seq<ItemModel>) -> bool {
    forall|i: int, j: int| 0 <= i < j < items.len() ==> items[i].id != items[j].id
}

/// The memories of a conversation.
#[derive(Debug)]
pub struct MemoryStore {
    memories: Vec<MemoryItem>,
}

impl View for MemoryStore {
    /// The memories, in the order in which they were added.
    type V = Seq<ItemModel>;

    closed spec fn view(&self) -> Seq<ItemModel> {
        item_views(self.memories@)
    }
}

impl MemoryStore {
    /// No two memories of the store have one name.
    pub open spec fn wf(&self) -> bool {
        distinct(self@)
    }

    /// A store without memories.
    pub fn new() -> (r: Self)
        ensures
            r.wf(),
            r@.len() == 0,
    {
        MemoryStore { memories: Vec::new() }
    }

    fn find(&self, id: &str) -> (r: Option<usize>)
        ensures
            match r {
                Some(at) => place_of(self@, id@) == Some(at as int) && at < self@.len(),
                None => place_of(self@, id@) is None,
            },
    {
        let given = id.to_owned();
        let mut i = self.memories.len();
        assert(self@.take(i as int) == self@);
        while i > 0
            invariant
                i <= self.memories.len(),
                given@ == id@,
                place_of(self@, id@) == place_of(self@.take(i as int), id@),
            decreases i,
        {
            let ghost upto = self@.take(i as int);
            assert(upto.last() == self.memories@[i - 1]@);
            assert(upto.drop_last() == self@.take(i - 1));
            i = i - 1;
            if self.memories[i].id == given {
                return Some(i);
            }
        }
        None
    }

    /// Adds a memory named `id` and made at `now`. What is noted about it is
    /// `metadata` and the session it belongs to. A memory of the same name
    /// gives way to it.
    pub fn add_as(
        &mut self,
        id: String,
        now: u128,
        content: String,
        user_id: Option<String>,
        agent_id: Option<String>,
        run_id: Option<String>,
        metadata: Metadata,
    ) -> (r: String)
        requires
            old(self).wf(),
        ensures
            final(self).wf(),
            r@ == id@,
            final(self)@ == without(old(self)@, id@).push(
                ItemModel {
                    id: id@,
                    content: content@,
                    user_id: opt_view(user_id),
                    agent_id: opt_view(agent_id),
                    run_id: opt_view(run_id),
                    metadata: with_session(
                        metadata@,
                        opt_view(user_id),
                        opt_view(agent_id),
                        opt_view(run_id),
                    ),
                    created_at: now,
                    updated_at: now,
                },
            ),
    {
        let mut metadata = metadata;
        match &user_id {
            Some(uid) => {
                metadata.insert("user_id".to_owned(), MetaValue::Text(uid.clone()));
            },
            None => {},
        }
        match &agent_id {
            Some(aid) => {
                metadata.insert("agent_id".to_owned(), MetaValue::Text(aid.clone()));
            },
            None => {},
        }
        match &run_id {
            Some(rid) => {
                metadata.insert("run_id".to_owned(), MetaValue::Text(rid.clone()));
            },
            None => {},
        }
        let name = id.clone();
        let memory = MemoryItem {
            id,
            content,
            user_id,
            agent_id,
            run_id,
            metadata,
            created_at: now,
            updated_at: now,
        };
        let ghost before = self@;
        proof {
            lemma_place_of(before, name@);
        }
        match self.find(name.as_str()) {
            Some(at) => {
                self.memories.remove(at);
                assert(self@ =~= before.remove(at as int));
            },
            None => {},
        }
        let ghost cleared = self@;
        proof {
            lemma_without(before, name@);
        }
        self.memories.push(memory);
        assert(self@ =~= cleared.push(memory@));
        name
    }

    /// Adds a memory under a new name and returns the name.
    pub fn add(
        &mut self,
        content: String,
        user_id: Option<String>,
        agent_id: Option<String>,
        run_id: Option<String>,
        metadata: Metadata,
    ) -> (r: String)
        requires
            old(self).wf(),
        ensures
            final(self).wf(),
            final(self)@.len() > 0,
            final(self)@ == without(old(self)@, r@).push(final(self)@.last()),
            final(self)@.last() == (ItemModel {
                id: r@,
                content: content@,
                user_id: opt_view(user_id),
                agent_id: opt_view(agent_id),
                run_id: opt_view(run_id),
                metadata: with_session(
                    metadata@,
                    opt_view(user_id),
                    opt_view(agent_id),
                    opt_view(run_id),
                ),
                created_at: final(self)@.last().created_at,
                updated_at: final(self)@.last().created_at,
            }),
    {
        let id = fresh_id();
        let now = now_nanos();
        self.add_as(id, now, content, user_id, agent_id, run_id, metadata)
    }

    /// The memory named `memory_id`.
    pub fn get(&self, memory_id: &str) -> (r: Option<&MemoryItem>)
        ensures
            match r {
                Some(memory) => place_of(self@, memory_id@) matches Some(at) && self@[at]
                    == memory@,
                None => place_of(self@, memory_id@) is None,
            },
    {
        match self.find(memory_id) {
            Some(at) => Some(&self.memories[at]),
            None => None,
        }
    }

    /// Computes [`FilterModel::accepts`].
    fn matches_filters(memory: &MemoryItem, filters: &MemoryFilters) -> (r: bool)
        ensures
            r == filters@.accepts(memory@),
    {
        if filters.user_id.is_some() && !same_text(&memory.user_id, &filters.user_id) {
            return false;
        }
        if filters.agent_id.is_some() && !same_text(&memory.agent_id, &filters.agent_id) {
            return false;
        }
        if filters.run_id.is_some() && !same_text(&memory.run_id, &filters.run_id) {
            return false;
        }
        memory.metadata.covers(&filters.metadata)
    }

    fn select(&self, filters: &MemoryFilters, query: Option<&str>, limit: usize) -> (found: Vec<
        &MemoryItem,
    >)
        ensures
            found_views(found@) == at_most(
                newest_first(
                    selected(
                        self@,
                        filters@,
                        match query {
                            Some(q) => Some(q@),
                            None => None,
                        },
                    ),
                ),
                limit as nat,
            ),
    {
        let ghost asked = match query {
            Some(q) => Some(q@),
            None => None,
        };
        let mut found: Vec<&MemoryItem> = Vec::new();
        let mut i: usize = 0;
        assert(found_views(found@) =~= newest_first(selected(self@.take(0), filters@, asked)));
        while i < self.memories.len()
            invariant
                i <= self.memories.len(),
                asked == match query {
                    Some(q) => Some(q@),
                    None => None,
                },
                found_views(found@) == newest_first(
                    selected(self@.take(i as int), filters@, asked),
                ),
            decreases self.memories.len() - i,
        {
            let memory = &self.memories[i];
            let ghost upto = self@.take(i + 1);
            assert(upto.drop_last() == self@.take(i as int));
            assert(upto.last() == memory@);
            let mut take = Self::matches_filters(memory, filters);
            if take {
                match query {
                    Some(q) => {
                        let content = to_lowercase(memory.content.as_str());
                        take = contains_text(content.as_str(), q);
                    },
                    None => {},
                }
            }
            assert(take == wanted(memory@, filters@, asked));
            if take {
                let ghost ranked = found_views(found@);
                let ghost chosen = selected(self@.take(i as int), filters@, asked);
                assert(selected(upto, filters@, asked) == chosen.push(memory@));
                assert(chosen.push(memory@).drop_last() == chosen);
                assert(chosen.push(memory@).last() == memory@);
                let mut at: usize = 0;
                while at < found.len() && found[at].created_at >= memory.created_at
                    invariant
                        at <= found.len(),
                        ranked == found_views(found@),
                        forall|j: int| 0 <= j < at ==> ranked[j].created_at >= memory@.created_at,
                    decreases found.len() - at,
                {
                    assert(ranked[at as int] == found@[at as int]@);
                    at = at + 1;
                }
                proof {
                    if at < found.len() {
                        assert(ranked[at as int] == found@[at as int]@);
                    }
                    lemma_slotted(ranked, memory@, at as int);
                }
                found.insert(at, memory);
                assert(found_views(found@) =~= ranked.insert(at as int, memory@));
            }
            i = i + 1;
        }
        assert(self@.take(self.memories.len() as int) == self@);
        let ghost all = found_views(found@);
        found.truncate(limit);
        assert(found_views(found@) =~= at_most(all, limit as nat));
        found
    }

    /// The memories that are asked for, the newest first, `limit` of them
    /// at most.
    pub fn get_all(&self, filters: &MemoryFilters, limit: usize) -> (found: Vec<&MemoryItem>)
        ensures
            found_views(found@) == at_most(
                newest_first(selected(self@, filters@, None)),
                limit as nat,
            ),
    {
        self.select(filters, None, limit)
    }

    /// The memories that say `query`, small and capital letters counting
    /// alike, and are asked for where filters are given: the newest first,
    /// `limit` of them at most.
    pub fn search(&self, query: &str, filters: Option<&MemoryFilters>, limit: usize) -> (found:
        Vec<&MemoryItem>)
        ensures
            found_views(found@) == at_most(
                newest_first(
                    selected(
                        self@,
                        match filters {
                            Some(f) => f@,
                            None => FilterModel::any(),
                        },
                        Some(lowercase(query@)),
                    ),
                ),
                limit as nat,
            ),
    {
        let query_lower = to_lowercase(query);
        match filters {
            Some(given) => self.select(given, Some(query_lower.as_str()), limit),
            None => {
                let any = MemoryFilters::default();
                self.select(&any, Some(query_lower.as_str()), limit)
            },
        }
    }

    /// Changes the memory named `memory_id` at `now`: its text where one is
    /// given, and what is noted about it by what is given. Says whether
    /// there is such a memory.
    pub fn update_at(
        &mut self,
        memory_id: &str,
        content: Option<String>,
        metadata: Option<Metadata>,
        now: u128,
    ) -> (r: bool)
        requires
            old(self).wf(),
        ensures
            final(self).wf(),
            r == place_of(old(self)@, memory_id@) is Some,
            !r ==> final(self)@ == old(self)@,
            r ==> {
                let at = place_of(old(self)@, memory_id@)->0;
                let was = old(self)@[at];
                final(self)@ == old(self)@.update(
                    at,
                    ItemModel {
                        content: match content {
                            Some(text) => text@,
                            None => was.content,
                        },
                        metadata: match metadata {
                            Some(more) => extended(was.metadata, more@),
                            None => was.metadata,
                        },
                        updated_at: now,
                        ..was
                    },
                )
            },
    {
        let ghost before = self@;
        proof {
            lemma_place_of(before, memory_id@);
        }
        match self.find(memory_id) {
            Some(at) => {
                let mut memory = self.memories.remove(at);
                assert(memory@ == before[at as int]);
                match content {
                    Some(text) => {
                        memory.content = text;
                    },
                    None => {},
                }
                match metadata {
                    Some(more) => {
                        memory.metadata.extend(&more);
                    },
                    None => {},
                }
                memory.updated_at = now;
                self.memories.insert(at, memory);
                assert(self@ =~= before.update(at as int, memory@));
                true
            },
            None => false,
        }
    }

    /// Changes the memory named `memory_id` now.
    pub fn update(&mut self, memory_id: &str, content: Option<String>, metadata: Option<Metadata>) -> (r:
        bool)
        requires
            old(self).wf(),
        ensures
            final(self).wf(),
            r == place_of(old(self)@, memory_id@) is Some,
            !r ==> final(self)@ == old(self)@,
            r ==> {
                let at = place_of(old(self)@, memory_id@)->0;
                let was = old(self)@[at];
                final(self)@ == old(self)@.update(
                    at,
                    ItemModel {
                        content: match content {
                            Some(text) => text@,
                            None => was.content,
                        },
                        metadata: match metadata {
                            Some(more) => extended(was.metadata, more@),
                            None => was.metadata,
                        },
                        updated_at: final(self)@[at].updated_at,
                        ..was
                    },
                )
            },
    {
        let now = now_nanos();
        let changed = self.update_at(memory_id, content, metadata, now);
        proof {
            if changed {
                lemma_place_of(old(self)@, memory_id@);
                assert(self@[place_of(old(self)@, memory_id@)->0].updated_at == now);
            }
        }
        changed
    }

    /// Removes the memory named `memory_id` and says whether there was one.
    pub fn delete(&mut self, memory_id: &str) -> (r: bool)
        requires
            old(self).wf(),
        ensures
            final(self).wf(),
            r == place_of(old(self)@, memory_id@) is Some,
            final(self)@ == without(old(self)@, memory_id@),
    {
        let ghost before = self@;
        proof {
            lemma_place_of(before, memory_id@);
            lemma_without(before, memory_id@);
        }
        match self.find(memory_id) {
            Some(at) => {
                self.memories.remove(at);
                assert(self@ =~= before.remove(at as int));
                true
            },
            None => false,
        }
    }

    /// Removes the memories that are asked for and says how many they
    /// were.
    pub fn delete_all(&mut self, filters: &MemoryFilters) -> (r: usize)
        requires
            old(self).wf(),
        ensures
            final(self).wf(),
            final(self)@ == spared(old(self)@, filters@),
            r == old(self)@.len() - final(self)@.len(),
            r == selected(old(self)@, filters@, None).len(),
    {
        let ghost before = self@;
        let mut kept: Vec<MemoryItem> = Vec::new();
        let mut reversed: Vec<MemoryItem> = Vec::new();
        let n = self.memories.len();
        while self.memories.len() > 0
            invariant
                n == before.len(),
                self.memories.len() + reversed.len() == n,
                self@ == before.take(self.memories.len() as int),
                forall|j: int|
                    0 <= j < reversed.len() ==> (#[trigger] reversed@[j])@ == before[n - 1 - j],
            decreases self.memories.len(),
        {
            let ghost held = self.memories@;
            let memory = self.memories.pop().unwrap();
            assert(item_views(held)[self.memories.len() as int] == memory@);
            assert(self@ =~= before.take(self.memories.len() as int));
            reversed.push(memory);
        }
        let mut count: usize = 0;
        assert(item_views(kept@) =~= spared(before.take(0), filters@));
        while reversed.len() > 0
            invariant
                n == before.len(),
                reversed.len() <= n,
                forall|j: int|
                    0 <= j < reversed.len() ==> (#[trigger] reversed@[j])@ == before[n - 1 - j],
                item_views(kept@) == spared(before.take(n - reversed.len()), filters@),
                count == selected(before.take(n - reversed.len()), filters@, None).len(),
                count + kept.len() == n - reversed.len(),
            decreases reversed.len(),
        {
            let ghost done = n - reversed.len();
            let memory = reversed.pop().unwrap();
            assert(memory@ == before[done]);
            assert(before.take(done + 1).drop_last() == before.take(done));
            assert(before.take(done + 1).last() == before[done]);
            if Self::matches_filters(&memory, filters) {
                count = count + 1;
            } else {
                let ghost spared_before = item_views(kept@);
                kept.push(memory);
                assert(item_views(kept@) =~= spared_before.push(memory@));
            }
        }
        assert(before.take(n as int) == before);
        self.memories = kept;
        proof {
            lemma_spared(before, filters@);
        }
        count
    }

    /// The number of memories.
    pub fn count(&self) -> (r: usize)
        ensures
            r == self@.len(),
    {
        self.memories.len()
    }

    /// The number of memories that are asked for.
    pub fn count_filtered(&self, filters: &MemoryFilters) -> (r: usize)
        ensures
            r == selected(self@, filters@, None).len(),
    {
        let mut count: usize = 0;
        let mut i: usize = 0;
        while i < self.memories.len()
            invariant
                i <= self.memories.len(),
                count == selected(self@.take(i as int), filters@, None).len(),
                count <= i,
            decreases self.memories.len() - i,
        {
            let ghost upto = self@.take(i + 1);
            assert(upto.drop_last() == self@.take(i as int));
            assert(upto.last() == self.memories@[i as int]@);
            if Self::matches_filters(&self.memories[i], filters) {
                count = count + 1;
            }
            i = i + 1;
        }
        assert(self@.take(self.memories.len() as int) == self@);
        count
    }
}

impl Default for MemoryStore {
    fn default() -> (r: Self)
        ensures
            r.wf(),
            r@.len() == 0,
    {
        MemoryStore::new()
    }
}

/// Memories that differ in their names still do when one leaves, and none
/// of them has the name that left.
pub proof fn lemma_without(items: Seq<ItemModel>, id: Seq<char>)
    requires
        distinct(items),
    ensures
        distinct(without(items, id)),
        forall|j: int| 0 <= j < without(items, id).len() ==> without(items, id)[j].id != id,
        distinct(without(items, id)) ==> forall|item: ItemModel|
            item.id == id ==> distinct(#[trigger] without(items, id).push(item)),
{
    lemma_place_of(items, id);
    let rest = without(items, id);
    match place_of(items, id) {
        Some(at) => {
            assert forall|j: int| 0 <= j < rest.len() implies rest[j].id != id by {
                if j < at {
                    assert(rest[j] == items[j]);
                    assert(items[j].id != items[at].id);
                } else {
                    assert(rest[j] == items[j + 1]);
                }
            }
            assert forall|i: int, j: int| 0 <= i < j < rest.len() implies rest[i].id
                != rest[j].id by {
                let a = if i < at {
                    i
                } else {
                    i + 1
                };
                let b = if j < at {
                    j
                } else {
                    j + 1
                };
                assert(rest[i] == items[a] && rest[j] == items[b]);
            }
        },
        None => {},
    }
}

/// What a removal spares keeps its order and its names.
pub proof fn lemma_spared(items: Seq<ItemModel>, filters: FilterModel)
    requires
        distinct(items),
    ensures
        distinct(spared(items, filters)),
        forall|j: int|
            0 <= j < spared(items, filters).len() ==> items.contains(
                #[trigger] spared(items, filters)[j],
            ),
    decreases items.len(),
{
    if items.len() > 0 {
        let rest = items.drop_last();
        assert forall|i: int, j: int| 0 <= i < j < rest.len() implies rest[i].id != rest[j].id by {
            assert(rest[i] == items[i] && rest[j] == items[j]);
        }
        lemma_spared(rest, filters);
        let kept = spared(rest, filters);
        assert forall|j: int| 0 <= j < kept.len() implies items.contains(#[trigger] kept[j])
            && kept[j].id != items.last().id by {
            assert(rest.contains(kept[j]));
            let k = choose|k: int| 0 <= k < rest.len() && rest[k] == kept[j];
            assert(items[k] == kept[j]);
            assert(items[k].id != items[items.len() - 1].id);
        }
        if !filters.accepts(items.last()) {
            let all = spared(items, filters);
            assert(items[items.len() - 1] == items.last());
            assert forall|j: int| 0 <= j < all.len() implies items.contains(#[trigger] all[j]) by {
                if j < kept.len() {
                    assert(all[j] == kept[j]);
                }
            }
        }
    }
}


/// Each memory is no older than those behind it.
pub open spec fn in_age_order(items: Seq<ItemModel>) -> bool {
    forall|i: int, j: int|
        0 <= i < j < items.len() ==> (#[trigger] items[i]).created_at >= (
        #[trigger] items[j]).created_at
}

/// The place at which [`slotted`] puts a memory.
pub open spec fn slot_for(ranked: Seq<ItemModel>, item: ItemModel) -> int
    decreases ranked.len(),
{
    if ranked.len() == 0 || ranked.first().created_at < item.created_at {
        0
    } else {
        1 + slot_for(ranked.drop_first(), item)
    }
}

proof fn lemma_slot_for(ranked: Seq<ItemModel>, item: ItemModel)
    ensures
        0 <= slot_for(ranked, item) <= ranked.len(),
        forall|j: int|
            0 <= j < slot_for(ranked, item) ==> (#[trigger] ranked[j]).created_at
                >= item.created_at,
        slot_for(ranked, item) < ranked.len() ==> ranked[slot_for(ranked, item)].created_at
            < item.created_at,
    decreases ranked.len(),
{
    if ranked.len() == 0 || ranked.first().created_at < item.created_at {
    } else {
        let rest = ranked.drop_first();
        lemma_slot_for(rest, item);
        assert forall|j: int| 0 <= j < slot_for(ranked, item) implies (
        #[trigger] ranked[j]).created_at >= item.created_at by {
            if j > 0 {
                assert(ranked[j] == rest[j - 1]);
            }
        }
        if slot_for(ranked, item) < ranked.len() {
            assert(ranked[slot_for(ranked, item)] == rest[slot_for(rest, item)]);
        }
    }
}

/// Putting the newest first puts the memories in the order of their ages
/// and neither loses nor adds a memory.
pub proof fn law_newest_first(items: Seq<ItemModel>)
    ensures
        in_age_order(newest_first(items)),
        newest_first(items).to_multiset() == items.to_multiset(),
        newest_first(items).len() == items.len(),
    decreases items.len(),
{
    if items.len() == 0 {
        assert(items =~= Seq::<ItemModel>::empty());
    } else {
        let before = items.drop_last();
        let item = items.last();
        law_newest_first(before);
        let ranked = newest_first(before);
        lemma_slot_for(ranked, item);
        let at = slot_for(ranked, item);
        lemma_slotted(ranked, item, at);
        let all = ranked.insert(at, item);
        vstd::seq_lib::to_multiset_insert(ranked, at, item);
        vstd::seq_lib::to_multiset_build(before, item);
        assert(before.push(item) == items);
        assert forall|i: int, j: int| 0 <= i < j < all.len() implies (
        #[trigger] all[i]).created_at >= (#[trigger] all[j]).created_at by {
            if j < at {
                assert(all[i] == ranked[i] && all[j] == ranked[j]);
            } else if j == at {
                assert(all[i] == ranked[i]);
            } else if i == at {
                assert(all[j] == ranked[j - 1]);
                if j - 1 > at {
                    assert(ranked[at].created_at >= ranked[j - 1].created_at);
                }
            } else if i < at {
                assert(all[i] == ranked[i] && all[j] == ranked[j - 1]);
            } else {
                assert(all[i] == ranked[i - 1] && all[j] == ranked[j - 1]);
            }
        }
    }
}

/// What a search finds are memories of the store that it looks for, and
/// what is asked for is found again by the same filters.
pub proof fn law_selected(items: Seq<ItemModel>, filters: FilterModel, query: Option<Seq<char>>)
    ensures
        selected(items, filters, query).len() <= items.len(),
        forall|i: int|
            0 <= i < selected(items, filters, query).len() ==> wanted(
                #[trigger] selected(items, filters, query)[i],
                filters,
                query,
            ) && items.contains(selected(items, filters, query)[i]),
        forall|j: int|
            0 <= j < items.len() && wanted(#[trigger] items[j], filters, query) ==> selected(
                items,
                filters,
                query,
            ).contains(items[j]),
    decreases items.len(),
{
    if items.len() > 0 {
        let rest = items.drop_last();
        law_selected(rest, filters, query);
        let found = selected(items, filters, query);
        let before = selected(rest, filters, query);
        assert forall|i: int| 0 <= i < found.len() implies wanted(
            #[trigger] found[i],
            filters,
            query,
        ) && items.contains(found[i]) by {
            if i < before.len() {
                assert(found[i] == before[i]);
                let k = choose|k: int| 0 <= k < rest.len() && rest[k] == before[i];
                assert(items[k] == found[i]);
            } else {
                assert(found[i] == items[items.len() - 1]);
            }
        }
        assert forall|j: int|
            0 <= j < items.len() && wanted(#[trigger] items[j], filters, query) implies found.contains(
            items[j],
        ) by {
            if j < rest.len() {
                assert(rest[j] == items[j]);
                let k = choose|k: int| 0 <= k < before.len() && before[k] == rest[j];
                assert(found[k] == items[j]);
            } else {
                assert(found[found.len() - 1] == items[j]);
            }
        }
    }
}

} // verus!
