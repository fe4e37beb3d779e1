//! What is noted about a memory besides its text: values under keys.

use vstd::prelude::*;
use vstd::string::*;

verus! {

/// A value noted about a memory.
#[derive(Debug, PartialEq, Eq)]
pub enum MetaValue {
    /// Nothing.
    Null,
    /// Yes or no.
    Bool(bool),
    /// A whole number that is not negative.
    Unsigned(u64),
    /// A whole number that is negative.
    Signed(i64),
    /// A text.
    Text(String),
    /// Anything else, as JSON writes it: a fraction, a list or an object.
    Other(String),
}

/// [`MetaValue`] as a mathematical value.
pub enum MetaModel {
    Null,
    Bool(bool),
    Unsigned(u64),
    Signed(i64),
    Text(Seq<char>),
    Other(Seq<char>),
}

impl View for MetaValue {
    type V = MetaModel;

    open spec fn view(&self) -> MetaModel {
        match *self {
            MetaValue::Null => MetaModel::Null,
            MetaValue::Bool(b) => MetaModel::Bool(b),
            MetaValue::Unsigned(n) => MetaModel::Unsigned(n),
            MetaValue::Signed(n) => MetaModel::Signed(n),
            MetaValue::Text(text) => MetaModel::Text(text@),
            MetaValue::Other(text) => MetaModel::Other(text@),
        }
    }
}

impl Clone for MetaValue {
    fn clone(&self) -> (r: Self)
        ensures
            r@ == self@,
    {
        match self {
            MetaValue::Null => MetaValue::Null,
            MetaValue::Bool(b) => MetaValue::Bool(*b),
            MetaValue::Unsigned(n) => MetaValue::Unsigned(*n),
            MetaValue::Signed(n) => MetaValue::Signed(*n),
            MetaValue::Text(text) => MetaValue::Text(text.clone()),
            MetaValue::Other(text) => MetaValue::Other(text.clone()),
        }
    }
}

impl MetaValue {
    /// Whether two values are the same.
    pub fn same(&self, other: &MetaValue) -> (r: bool)
        ensures
            r == (self@ == other@),
    {
        match (self, other) {
            (MetaValue::Null, MetaValue::Null) => true,
            (MetaValue::Bool(a), MetaValue::Bool(b)) => *a == *b,
            (MetaValue::Unsigned(a), MetaValue::Unsigned(b)) => *a == *b,
            (MetaValue::Signed(a), MetaValue::Signed(b)) => *a == *b,
            (MetaValue::Text(a), MetaValue::Text(b)) => *a == *b,
            (MetaValue::Other(a), MetaValue::Other(b)) => *a == *b,
            _ => false,
        }
    }
}

/// The values that a list of notes gives to its keys: a later note of a
/// key replaces an earlier one.
pub open spec fn noted(entries: Seq<(String, MetaValue)>) -> Map<Seq<char>, MetaModel>
    decreases entries.len(),
{
    if entries.len() == 0 {
        Map::empty()
    } else {
        noted(entries.drop_last()).insert(entries.last().0@, entries.last().1@)
    }
}

/// Whether `have` holds every key of `want` with the value that `want`
/// gives it.
pub open spec fn covers(have: Map<Seq<char>, MetaModel>, want: Map<Seq<char>, MetaModel>) -> bool {
    forall|key: Seq<char>| #[trigger]
        want.dom().contains(key) ==> have.dom().contains(key) && have[key] == want[key]
}

/// `have` with all of `more` noted after it.
pub open spec fn extended(have: Map<Seq<char>, MetaModel>, more: Map<Seq<char>, MetaModel>) -> Map<
    Seq<char>,
    MetaModel,
> {
    have.union_prefer_right(more)
}

/// No key is noted twice.
pub open spec fn keys_differ(entries: Seq<(String, MetaValue)>) -> bool {
    forall|i: int, j: int|
        0 <= i < j < entries.len() ==> (#[trigger] entries[i]).0@ != (#[trigger] entries[j]).0@
}

/// Values noted under keys, no key twice.
#[derive(Debug)]
pub struct Metadata {
    entries: Vec<(String, MetaValue)>,
}

impl View for Metadata {
    type V = Map<Seq<char>, MetaModel>;

    closed spec fn view(&self) -> Map<Seq<char>, MetaModel> {
        noted(self.entries@)
    }
}

/// Notes that come after a note of a key, and are of other keys, leave the
/// key's value as it is.
proof fn lemma_noted_last(entries: Seq<(String, MetaValue)>, at: int, key: Seq<char>)
    requires
        -1 <= at < entries.len(),
        forall|j: int| at < j < entries.len() ==> entries[j].0@ != key,
        at >= 0 ==> entries[at].0@ == key,
    ensures
        at >= 0 ==> noted(entries).dom().contains(key) && noted(entries)[key] == entries[at].1@,
        at < 0 ==> !noted(entries).dom().contains(key),
    decreases entries.len(),
{
    if entries.len() > 0 && at < entries.len() - 1 {
        let rest = entries.drop_last();
        assert forall|j: int| at < j < rest.len() implies rest[j].0@ != key by {
            assert(rest[j] == entries[j]);
        }
        if at >= 0 {
            assert(rest[at] == entries[at]);
        }
        lemma_noted_last(rest, at, key);
    }
}

impl Metadata {
    #[verifier::type_invariant]
    spec fn no_key_twice(self) -> bool {
        keys_differ(self.entries@)
    }

    /// Nothing noted.
    pub fn new() -> (r: Self)
        ensures
            r@ == Map::<Seq<char>, MetaModel>::empty(),
    {
        Metadata { entries: Vec::new() }
    }

    /// Notes `value` under `key`, in place of what was noted there.
    pub fn insert(&mut self, key: String, value: MetaValue)
        ensures
            final(self)@ == old(self)@.insert(key@, value@),
    {
        proof {
            use_type_invariant(&*self);
        }
        let ghost before = self.entries@;
        let mut found: Option<usize> = None;
        let mut i = self.entries.len();
        while i > 0 && found.is_none()
            invariant
                i <= self.entries.len(),
                self.entries@ == before,
                forall|j: int| i <= j < before.len() && found is None ==> before[j].0@ != key@,
                found matches Some(at) ==> at < self.entries.len() && self.entries@[at as int].0@
                    == key@,
            decreases i,
        {
            i = i - 1;
            if self.entries[i].0 == key {
                found = Some(i);
            }
        }
        let mut entries: Vec<(String, MetaValue)> = Vec::new();
        std::mem::swap(&mut entries, &mut self.entries);
        match found {
            Some(at) => {
                proof {
                    lemma_noted_remove(before, at as int, value@);
                }
                entries.remove(at);
                proof {
                    let cleared = before.remove(at as int);
                    assert forall|j: int| 0 <= j < cleared.len() implies (#[trigger] cleared[j]).0@
                        != key@ by {
                        if j < at {
                            assert(cleared[j] == before[j]);
                        } else {
                            assert(cleared[j] == before[j + 1]);
                        }
                    }
                    assert(keys_differ(cleared)) by {
                        assert forall|a: int, b: int| 0 <= a < b < cleared.len() implies (
                        #[trigger] cleared[a]).0@ != (#[trigger] cleared[b]).0@ by {
                            let x = if a < at {
                                a
                            } else {
                                a + 1
                            };
                            let y = if b < at {
                                b
                            } else {
                                b + 1
                            };
                            assert(cleared[a] == before[x] && cleared[b] == before[y]);
                        }
                    }
                }
            },
            None => {},
        }
        let ghost cleared = entries@;
        entries.push((key, value));
        proof {
            assert(entries@.drop_last() == cleared);
            assert(keys_differ(entries@)) by {
                assert forall|a: int, b: int| 0 <= a < b < entries@.len() implies (
                #[trigger] entries@[a]).0@ != (#[trigger] entries@[b]).0@ by {
                    assert(entries@[a] == cleared[a]);
                    if b < cleared.len() {
                        assert(entries@[b] == cleared[b]);
                    }
                }
            }
        }
        self.entries = entries;
    }

    /// What is noted under `key`.
    pub fn get(&self, key: &str) -> (r: Option<&MetaValue>)
        ensures
            match r {
                Some(value) => self@.dom().contains(key@) && self@[key@] == value@,
                None => !self@.dom().contains(key@),
            },
    {
        let given = key.to_owned();
        let mut i = self.entries.len();
        while i > 0
            invariant
                i <= self.entries.len(),
                given@ == key@,
                forall|j: int| i <= j < self.entries.len() ==> self.entries@[j].0@ != key@,
            decreases i,
        {
            i = i - 1;
            if self.entries[i].0 == given {
                proof {
                    lemma_noted_last(self.entries@, i as int, key@);
                }
                return Some(&self.entries[i].1);
            }
        }
        proof {
            lemma_noted_last(self.entries@, -1, key@);
        }
        None
    }

    /// Notes all of `more` after what is noted.
    pub fn extend(&mut self, more: &Metadata)
        ensures
            final(self)@ == extended(old(self)@, more@),
    {
        let mut i: usize = 0;
        assert(more.entries@.take(0) =~= Seq::<(String, MetaValue)>::empty());
        assert(self@ =~= extended(old(self)@, noted(more.entries@.take(0))));
        while i < more.entries.len()
            invariant
                i <= more.entries.len(),
                self@ == extended(old(self)@, noted(more.entries@.take(i as int))),
            decreases more.entries.len() - i,
        {
            let ghost done = more.entries@.take(i as int);
            let ghost next = more.entries@.take(i + 1);
            assert(next.drop_last() == done);
            assert(next.last() == more.entries@[i as int]);
            let key = more.entries[i].0.clone();
            let value = more.entries[i].1.clone();
            self.insert(key, value);
            assert(self@ =~= extended(old(self)@, noted(next)));
            i = i + 1;
        }
        assert(more.entries@.take(more.entries.len() as int) == more.entries@);
    }

    /// Whether everything that `want` notes is noted here with the same
    /// value.
    pub fn covers(&self, want: &Metadata) -> (r: bool)
        ensures
            r == covers(self@, want@),
    {
        let mut i: usize = 0;
        while i < want.entries.len()
            invariant
                i <= want.entries.len(),
                forall|j: int|
                    0 <= j < i ==> self@.dom().contains(#[trigger] want.entries@[j].0@)
                        && self@[want.entries@[j].0@] == want@[want.entries@[j].0@],
            decreases want.entries.len() - i,
        {
            let key = want.entries[i].0.as_str();
            proof {
                lemma_noted_key(want.entries@, i as int);
            }
            let wanted = want.get(key);
            let held = self.get(key);
            let agree = match (held, wanted) {
                (Some(a), Some(b)) => a.same(b),
                _ => false,
            };
            if !agree {
                return false;
            }
            i = i + 1;
        }
        proof {
            assert forall|key: Seq<char>| #[trigger] want@.dom().contains(key) implies self@.dom().contains(
                key,
            ) && self@[key] == want@[key] by {
                lemma_noted_dom(want.entries@, key);
                let j = choose|j: int| 0 <= j < want.entries@.len() && want.entries@[j].0@ == key;
                assert(self@.dom().contains(want.entries@[j].0@));
            }
        }
        true
    }

    /// The keys under which something is noted, each once.
    pub fn keys(&self) -> (r: Vec<String>)
        ensures
            forall|key: Seq<char>|
                self@.dom().contains(key) <==> exists|i: int|
                    0 <= i < r@.len() && (#[trigger] r@[i])@ == key,
            forall|i: int, j: int|
                0 <= i < j < r@.len() ==> (#[trigger] r@[i])@ != (#[trigger] r@[j])@,
            r@.len() == self@.dom().len(),
    {
        proof {
            use_type_invariant(self);
            lemma_noted_len(self.entries@);
        }
        let mut keys: Vec<String> = Vec::new();
        let mut i: usize = 0;
        while i < self.entries.len()
            invariant
                i <= self.entries.len(),
                keys.len() == i,
                forall|j: int| 0 <= j < i ==> (#[trigger] keys@[j])@ == self.entries@[j].0@,
            decreases self.entries.len() - i,
        {
            keys.push(self.entries[i].0.clone());
            i = i + 1;
        }
        proof {
            assert forall|key: Seq<char>|
                self@.dom().contains(key) <==> exists|i: int|
                    0 <= i < keys@.len() && (#[trigger] keys@[i])@ == key by {
                if self@.dom().contains(key) {
                    lemma_noted_dom(self.entries@, key);
                    let j = choose|j: int| 0 <= j < self.entries@.len() && self.entries@[j].0@ == key;
                    assert(keys@[j]@ == key);
                }
                if exists|i: int| 0 <= i < keys@.len() && (#[trigger] keys@[i])@ == key {
                    let j = choose|i: int| 0 <= i < keys@.len() && (#[trigger] keys@[i])@ == key;
                    lemma_noted_key(self.entries@, j);
                }
            }
        }
        keys
    }

    /// A copy.
    pub fn duplicate(&self) -> (r: Self)
        ensures
            r@ == self@,
    {
        let mut copy = Metadata::new();
        copy.extend(self);
        assert(copy@ =~= self@);
        copy
    }
}

/// A note that leaves is not missed once its key is noted anew.
proof fn lemma_noted_remove(entries: Seq<(String, MetaValue)>, at: int, value: MetaModel)
    requires
        0 <= at < entries.len(),
    ensures
        noted(entries.remove(at)).insert(entries[at].0@, value) == noted(entries).insert(
            entries[at].0@,
            value,
        ),
    decreases entries.len(),
{
    let key = entries[at].0@;
    if at == entries.len() - 1 {
        assert(entries.remove(at) == entries.drop_last());
        assert(noted(entries.drop_last()).insert(key, value) =~= noted(entries).insert(key, value));
    } else {
        let rest = entries.drop_last();
        assert(rest[at] == entries[at]);
        lemma_noted_remove(rest, at, value);
        assert(entries.remove(at).drop_last() == rest.remove(at));
        assert(entries.remove(at).last() == entries.last());
        let last = entries.last();
        assert(noted(entries.remove(at)).insert(key, value) =~= noted(rest.remove(at)).insert(
            key,
            value,
        ).insert(last.0@, last.1@).insert(key, value));
        assert(noted(entries).insert(key, value) =~= noted(rest).insert(key, value).insert(
            last.0@,
            last.1@,
        ).insert(key, value));
    }
}

/// Notes of keys that all differ note as many keys as there are notes.
proof fn lemma_noted_len(entries: Seq<(String, MetaValue)>)
    requires
        keys_differ(entries),
    ensures
        noted(entries).dom().finite(),
        noted(entries).dom().len() == entries.len(),
    decreases entries.len(),
{
    if entries.len() > 0 {
        let rest = entries.drop_last();
        assert(keys_differ(rest)) by {
            assert forall|i: int, j: int| 0 <= i < j < rest.len() implies (
            #[trigger] rest[i]).0@ != (#[trigger] rest[j]).0@ by {
                assert(rest[i] == entries[i] && rest[j] == entries[j]);
            }
        }
        lemma_noted_len(rest);
        let key = entries.last().0@;
        assert(!noted(rest).dom().contains(key)) by {
            if noted(rest).dom().contains(key) {
                lemma_noted_dom(rest, key);
                let j = choose|j: int| 0 <= j < rest.len() && rest[j].0@ == key;
                assert(rest[j] == entries[j]);
                assert(entries[j].0@ != entries[entries.len() - 1].0@);
            }
        }
    }
}

/// The key of every note is a key of what is noted.
proof fn lemma_noted_key(entries: Seq<(String, MetaValue)>, at: int)
    requires
        0 <= at < entries.len(),
    ensures
        noted(entries).dom().contains(entries[at].0@),
    decreases entries.len(),
{
    if at < entries.len() - 1 {
        let rest = entries.drop_last();
        assert(rest[at] == entries[at]);
        lemma_noted_key(rest, at);
    }
}

/// Every key of what is noted is the key of a note.
proof fn lemma_noted_dom(entries: Seq<(String, MetaValue)>, key: Seq<char>)
    requires
        noted(entries).dom().contains(key),
    ensures
        exists|j: int| 0 <= j < entries.len() && entries[j].0@ == key,
    decreases entries.len(),
{
    if entries.len() > 0 {
        if entries.last().0@ == key {
            assert(entries[entries.len() - 1].0@ == key);
        } else {
            let rest = entries.drop_last();
            lemma_noted_dom(rest, key);
            let j = choose|j: int| 0 <= j < rest.len() && rest[j].0@ == key;
            assert(entries[j].0@ == key);
        }
    }
}

impl Default for Metadata {
    fn default() -> (r: Self)
        ensures
            r@ == Map::<Seq<char>, MetaModel>::empty(),
    {
        Metadata::new()
    }
}

} // verus!
