//! The message store: message rows keyed by a surrogate id and a unique
//! tree path, a trigram-style search index that mirrors the text of every
//! message, thread titles, and providers with the models that refer to them.
//!
//! Every mutation of a message updates the index in the same call: an
//! insert adds an entry, a delete issues a delete marker for the old values,
//! and an update is a delete marker followed by an insert.
//!
//! This is an in-memory model of the store's rules, held to the same
//! invariants as the database: unique paths, a foreign key from model to
//! provider, and an index that never drifts from its rows. The running
//! application keeps its data in SQLite, whose schema and triggers come
//! from `schema::INITIAL_SCHEMA`; this type is not what it runs.

use vstd::prelude::*;

verus! {

/// The key under which a message's searchable text is kept in its payload.
pub open spec fn message_key() -> Seq<char> {
    seq!['m', 'e', 's', 's', 'a', 'g', 'e']
}

/// The value of the first field named `key`, if any.
pub open spec fn field_value(fields: Seq<(Seq<char>, Seq<char>)>, key: Seq<char>) -> Option<
    Seq<char>,
>
    decreases fields.len(),
{
    if fields.len() == 0 {
        None
    } else if fields[0].0 == key {
        Some(fields[0].1)
    } else {
        field_value(fields.drop_first(), key)
    }
}

pub open spec fn opt_view(o: Option<String>) -> Option<Seq<char>> {
    match o {
        Some(s) => Some(s@),
        None => None,
    }
}

/// A message's structured payload: named text fields, in order.
pub struct Payload {
    pub fields: Vec<(String, String)>,
}

impl View for Payload {
    type V = Seq<(Seq<char>, Seq<char>)>;

    open spec fn view(&self) -> Seq<(Seq<char>, Seq<char>)> {
        self.fields@.map_values(|f: (String, String)| (f.0@, f.1@))
    }
}

impl Payload {
    /// A payload whose only field is the message text.
    pub fn with_message(text: String) -> (r: Payload)
        ensures
            r@ == seq![(message_key(), text@)],
            field_value(r@, message_key()) == Some(text@),
    {
        proof {
            reveal_strlit("message");
            assert("message"@ =~= message_key());
        }
        let mut fields: Vec<(String, String)> = Vec::new();
        fields.push((String::from_str("message"), text));
        let r = Payload { fields };
        assert(r@ =~= seq![(message_key(), text@)]);
        assert(r@.drop_first() =~= Seq::<(Seq<char>, Seq<char>)>::empty());
        r
    }

    /// The message text that the payload holds: its first field named
    /// `message`.
    pub fn message(&self) -> (r: Option<String>)
        ensures
            opt_view(r) == field_value(self@, message_key()),
    {
        proof {
            reveal_strlit("message");
            assert("message"@ =~= message_key());
        }
        let key = String::from_str("message");
        let n = self.fields.len();
        let mut i: usize = 0;
        assert(self@.subrange(0, n as int) =~= self@);
        while i < n
            invariant
                n == self@.len(),
                i <= n,
                key@ == message_key(),
                field_value(self@.subrange(i as int, n as int), message_key()) == field_value(
                    self@,
                    message_key(),
                ),
            decreases n - i,
        {
            let ghost rest = self@.subrange(i as int, n as int);
            assert(rest.drop_first() =~= self@.subrange(i + 1, n as int));
            if self.fields[i].0 == key {
                return Some(self.fields[i].1.clone());
            }
            i = i + 1;
        }
        assert(self@.subrange(n as int, n as int) =~= Seq::<(Seq<char>, Seq<char>)>::empty());
        None
    }
}

/// A stored message as a value: id, path and payload.
pub struct MessageRecord {
    pub id: u64,
    pub path: Seq<char>,
    pub data: Seq<(Seq<char>, Seq<char>)>,
}

impl MessageRecord {
    /// The searchable text of the message, as the message view projects it.
    pub open spec fn text(self) -> Option<Seq<char>> {
        field_value(self.data, message_key())
    }
}

/// A stored message.
pub struct Message {
    pub id: u64,
    pub path: String,
    pub data: Payload,
}

impl View for Message {
    type V = MessageRecord;

    open spec fn view(&self) -> MessageRecord {
        MessageRecord { id: self.id, path: self.path@, data: self.data@ }
    }
}

/// One entry of the search index: the row it stands for, that row's path
/// (kept, not searched) and its text.
pub struct IndexEntry {
    pub rowid: u64,
    pub path: String,
    pub message: Option<String>,
}

/// An index entry as a value.
pub struct IndexRecord {
    pub rowid: u64,
    pub path: Seq<char>,
    pub message: Option<Seq<char>>,
}

impl View for IndexEntry {
    type V = IndexRecord;

    open spec fn view(&self) -> IndexRecord {
        IndexRecord { rowid: self.rowid, path: self.path@, message: opt_view(self.message) }
    }
}

/// The (id, text) pairs of the message view.
pub open spec fn view_pairs(ms: Seq<MessageRecord>) -> Set<(u64, Option<Seq<char>>)> {
    Set::new(
        |p: (u64, Option<Seq<char>>)|
            exists|i: int| 0 <= i < ms.len() && #[trigger] ms[i].id == p.0 && ms[i].text() == p.1,
    )
}

/// The (id, text) pairs that the search index holds.
pub open spec fn index_pairs(es: Seq<IndexRecord>) -> Set<(u64, Option<Seq<char>>)> {
    Set::new(
        |p: (u64, Option<Seq<char>>)|
            exists|i: int| 0 <= i < es.len() && #[trigger] es[i].rowid == p.0 && es[i].message == p.1,
    )
}

/// Whether `q` occurs in `t` as a run of consecutive characters.
pub open spec fn occurs_in(q: Seq<char>, t: Seq<char>) -> bool {
    exists|k: int| 0 <= k && k + q.len() <= t.len() && #[trigger] t.subrange(k, k + q.len()) == q
}

/// The characters that `c` lower-cases to, as `char::to_lowercase` gives
/// them.
pub uninterp spec fn lower_char_of(c: char) -> Seq<char>;

/// Relies on `char::to_lowercase`: the characters it yields depend on `c`
/// alone.
#[verifier::external_body]
fn lower_char(c: char) -> (r: String)
    ensures
        r@ == lower_char_of(c),
{
    c.to_lowercase().collect()
}

/// `s` with each character replaced by its lower-case form, one character
/// at a time.
pub open spec fn fold_case(s: Seq<char>) -> Seq<char>
    decreases s.len(),
{
    if s.len() == 0 {
        Seq::empty()
    } else {
        fold_case(s.drop_last()) + lower_char_of(s.last())
    }
}

/// Folds the case of `s`, one character at a time.
fn fold_chars(s: &Vec<char>) -> (r: Vec<char>)
    ensures
        r@ == fold_case(s@),
{
    let n = s.len();
    let mut r: Vec<char> = Vec::new();
    let mut i: usize = 0;
    while i < n
        invariant
            n == s@.len(),
            i <= n,
            r@ == fold_case(s@.subrange(0, i as int)),
        decreases n - i,
    {
        let lower = lower_char(s[i]);
        let mut part = chars_of(lower.as_str());
        assert(s@.subrange(0, i + 1).drop_last() =~= s@.subrange(0, i as int));
        r.append(&mut part);
        i = i + 1;
    }
    assert(s@.subrange(0, n as int) =~= s@);
    r
}

/// Whether a search for `q` finds a message with text `text`: the query has
/// at least one trigram and occurs in the text, case aside.
pub open spec fn search_hit(q: Seq<char>, text: Option<Seq<char>>) -> bool {
    q.len() >= 3 && match text {
        Some(t) => occurs_in(fold_case(q), fold_case(t)),
        None => false,
    }
}

/// The characters of `s`, one by one.
fn chars_of(s: &str) -> (r: Vec<char>)
    ensures
        r@ == s@,
{
    let n = s.unicode_len();
    let mut r: Vec<char> = Vec::new();
    let mut i: usize = 0;
    while i < n
        invariant
            n == s@.len(),
            i <= n,
            r@ == s@.subrange(0, i as int),
        decreases n - i,
    {
        r.push(s.get_char(i));
        i = i + 1;
        assert(r@ =~= s@.subrange(0, i as int));
    }
    assert(s@.subrange(0, n as int) =~= s@);
    r
}

/// Whether `q` occurs in `t` starting at position `k`.
fn occurs_at(q: &Vec<char>, t: &Vec<char>, k: usize) -> (r: bool)
    requires
        k + q@.len() <= t@.len(),
    ensures
        r == (t@.subrange(k as int, k + q@.len()) == q@),
{
    let m = q.len();
    let tl = t.len();
    let mut j: usize = 0;
    while j < m
        invariant
            m == q@.len(),
            tl == t@.len(),
            k + m <= t@.len(),
            j <= m,
            t@.subrange(k as int, k + j) == q@.subrange(0, j as int),
        decreases m - j,
    {
        if t[k + j] != q[j] {
            assert(t@.subrange(k as int, k + m)[j as int] != q@[j as int]);
            return false;
        }
        j = j + 1;
        assert(t@.subrange(k as int, k + j) =~= q@.subrange(0, j as int));
    }
    assert(q@.subrange(0, m as int) =~= q@);
    true
}

/// Whether `q` occurs in `t` as a run of consecutive characters.
pub fn occurs(q: &Vec<char>, t: &Vec<char>) -> (r: bool)
    ensures
        r == occurs_in(q@, t@),
{
    if q.len() > t.len() {
        return false;
    }
    let last = t.len() - q.len();
    let mut k: usize = 0;
    while k < last
        invariant
            last + q@.len() == t@.len(),
            k <= last,
            forall|k2: int| 0 <= k2 < k ==> #[trigger] t@.subrange(k2, k2 + q@.len()) != q@,
        decreases last - k,
    {
        if occurs_at(q, t, k) {
            return true;
        }
        k = k + 1;
    }
    occurs_at(q, t, last)
}

/// Whether two optional texts are equal.
fn same_text(a: &Option<String>, b: &Option<String>) -> (r: bool)
    ensures
        r == (opt_view(*a) == opt_view(*b)),
{
    match a {
        Some(x) => match b {
            Some(y) => *x == *y,
            None => false,
        },
        None => b.is_none(),
    }
}

/// Issues a delete marker for `(rowid, path, message)`: removes the index
/// entry that holds exactly those values.
fn index_delete_marker(
    index: &mut Vec<IndexEntry>,
    rowid: u64,
    path: &String,
    message: &Option<String>,
) -> (r: usize)
    requires
        exists|j: int|
            0 <= j < old(index)@.len() && (#[trigger] old(index)@[j])@ == (IndexRecord {
                rowid,
                path: path@,
                message: opt_view(*message),
            }),
    ensures
        r < old(index)@.len(),
        old(index)@[r as int]@ == (IndexRecord { rowid, path: path@, message: opt_view(*message) }),
        final(index)@ == old(index)@.remove(r as int),
{
    let n = index.len();
    let mut j: usize = 0;
    while j < n
        invariant
            n == index@.len(),
            index@ == old(index)@,
            j <= n,
            forall|k: int|
                0 <= k < j ==> (#[trigger] index@[k])@ != (IndexRecord {
                    rowid,
                    path: path@,
                    message: opt_view(*message),
                }),
            exists|k: int|
                0 <= k < index@.len() && (#[trigger] index@[k])@ == (IndexRecord {
                    rowid,
                    path: path@,
                    message: opt_view(*message),
                }),
        decreases n - j,
    {
        if index[j].rowid == rowid && index[j].path == *path && same_text(&index[j].message, message) {
            index.remove(j);
            return j;
        }
        j = j + 1;
    }
    proof {
        let k = choose|k: int|
            0 <= k < index@.len() && (#[trigger] index@[k])@ == (IndexRecord {
                rowid,
                path: path@,
                message: opt_view(*message),
            });
        assert(false);
    }
    0
}

/// Removing an element keeps the keys of the rest pairwise distinct.
proof fn lemma_distinct_after_remove<T, K>(s: Seq<T>, i: int, key: spec_fn(T) -> K)
    requires
        0 <= i < s.len(),
        forall|a: int, b: int| 0 <= a < s.len() && 0 <= b < s.len() && a != b ==> key(s[a]) != key(s[b]),
    ensures
        forall|a: int, b: int|
            0 <= a < s.len() - 1 && 0 <= b < s.len() - 1 && a != b ==> key(s.remove(i)[a]) != key(
                s.remove(i)[b],
            ),
{
    assert forall|a: int, b: int|
        0 <= a < s.len() - 1 && 0 <= b < s.len() - 1 && a != b implies key(s.remove(i)[a]) != key(
            s.remove(i)[b],
        ) by {
        let a2 = if a < i { a } else { a + 1 };
        let b2 = if b < i { b } else { b + 1 };
        assert(s.remove(i)[a] == s[a2]);
        assert(s.remove(i)[b] == s[b2]);
    }
}

/// Replacing an element by one with the same key keeps the keys pairwise
/// distinct.
proof fn lemma_distinct_after_update<T, K>(s: Seq<T>, i: int, x: T, key: spec_fn(T) -> K)
    requires
        0 <= i < s.len(),
        key(x) == key(s[i]),
        forall|a: int, b: int| 0 <= a < s.len() && 0 <= b < s.len() && a != b ==> key(s[a]) != key(s[b]),
    ensures
        forall|a: int, b: int|
            0 <= a < s.len() && 0 <= b < s.len() && a != b ==> key(s.update(i, x)[a]) != key(
                s.update(i, x)[b],
            ),
{
    assert forall|a: int, b: int| 0 <= a < s.len() && 0 <= b < s.len() && a != b implies key(
        s.update(i, x)[a],
    ) != key(s.update(i, x)[b]) by {
        assert(key(s[a]) != key(s[b]));
    }
}

/// Why a store operation was refused.
#[derive(Clone, Copy, Debug, PartialEq, Eq, Structural)]
pub enum StoreError {
    /// Another message already has this path.
    DuplicatePath,
    /// No message has this id.
    UnknownMessage,
    /// A thread title with this id already exists.
    DuplicateTitle,
    /// No thread has a title under this id.
    UnknownTitle,
    /// No provider has this id.
    UnknownProvider,
    /// No model has this id.
    UnknownModel,
    /// A model still refers to this provider.
    ProviderInUse,
    /// The table has used up its ids.
    IdsExhausted,
}

/// A thread's title, keyed by the thread's id.
pub struct ThreadTitle {
    pub id: String,
    pub title: String,
}

/// A model provider: where it is reached and with which key.
pub struct Provider {
    pub id: u64,
    pub name: String,
    pub endpoint: String,
    pub api_key: String,
}

/// A provider as a value.
pub struct ProviderRecord {
    pub id: u64,
    pub name: Seq<char>,
    pub endpoint: Seq<char>,
    pub api_key: Seq<char>,
}

impl View for Provider {
    type V = ProviderRecord;

    open spec fn view(&self) -> ProviderRecord {
        ProviderRecord {
            id: self.id,
            name: self.name@,
            endpoint: self.endpoint@,
            api_key: self.api_key@,
        }
    }
}

/// A model offered by a provider.
pub struct Model {
    pub id: u64,
    pub name: String,
    pub model: String,
    pub provider_id: u64,
}

/// A model as a value.
pub struct ModelRecord {
    pub id: u64,
    pub name: Seq<char>,
    pub model: Seq<char>,
    pub provider_id: u64,
}

impl View for Model {
    type V = ModelRecord;

    open spec fn view(&self) -> ModelRecord {
        ModelRecord { id: self.id, name: self.name@, model: self.model@, provider_id: self.provider_id }
    }
}

/// Whether some provider of `ps` has id `id`.
pub open spec fn has_provider(ps: Seq<ProviderRecord>, id: u64) -> bool {
    exists|i: int| 0 <= i < ps.len() && #[trigger] ps[i].id == id
}

/// The store.
pub struct Store {
    messages: Vec<Message>,
    index: Vec<IndexEntry>,
    next_message_id: u64,
    titles: Vec<ThreadTitle>,
    providers: Vec<Provider>,
    next_provider_id: u64,
    models: Vec<Model>,
    next_model_id: u64,
}

impl Store {
    /// The messages, in the order of their rows.
    pub closed spec fn messages(&self) -> Seq<MessageRecord> {
        self.messages@.map_values(|m: Message| m@)
    }

    /// The entries of the search index.
    pub closed spec fn index(&self) -> Seq<IndexRecord> {
        self.index@.map_values(|e: IndexEntry| e@)
    }

    /// The id the next inserted message gets.
    pub closed spec fn next_message_id(&self) -> u64 {
        self.next_message_id
    }

    /// The thread titles, as (id, title) pairs.
    pub closed spec fn titles(&self) -> Seq<(Seq<char>, Seq<char>)> {
        self.titles@.map_values(|t: ThreadTitle| (t.id@, t.title@))
    }

    /// The providers.
    pub closed spec fn providers(&self) -> Seq<ProviderRecord> {
        self.providers@.map_values(|p: Provider| p@)
    }

    /// The models.
    pub closed spec fn models(&self) -> Seq<ModelRecord> {
        self.models@.map_values(|m: Model| m@)
    }

    /// The store's invariant.
    pub closed spec fn wf(&self) -> bool {
        self.messages_wf() && self.catalog_wf()
    }

    /// Titles are unique per thread; provider and model ids are unique and
    /// below the next id; every model names an existing provider.
    closed spec fn catalog_wf(&self) -> bool {
        &&& forall|i: int, j: int|
            0 <= i < self.titles@.len() && 0 <= j < self.titles@.len() && i != j ==> self.titles@[i].id@
                != self.titles@[j].id@
        &&& forall|i: int|
            0 <= i < self.providers@.len() ==> #[trigger] self.providers@[i].id < self.next_provider_id
        &&& forall|i: int, j: int|
            0 <= i < self.providers@.len() && 0 <= j < self.providers@.len() && i != j ==> self.providers@[i].id
                != self.providers@[j].id
        &&& forall|i: int|
            0 <= i < self.models@.len() ==> #[trigger] self.models@[i].id < self.next_model_id
        &&& forall|i: int, j: int|
            0 <= i < self.models@.len() && 0 <= j < self.models@.len() && i != j ==> self.models@[i].id
                != self.models@[j].id
        &&& forall|i: int|
            0 <= i < self.models@.len() ==> has_provider(self.providers(), #[trigger] self.models@[i].provider_id)
    }

    /// Message ids and paths are unique, ids are below the next id, and the
    /// index holds, entry for entry, the id, path and text of each message.
    closed spec fn messages_wf(&self) -> bool {
        &&& self.messages@.len() == self.index@.len()
        &&& forall|i: int|
            0 <= i < self.messages@.len() ==> {
                &&& (#[trigger] self.index@[i])@.rowid == self.messages@[i].id
                &&& self.index@[i]@.path == self.messages@[i].path@
                &&& self.index@[i]@.message == self.messages@[i]@.text()
                &&& self.messages@[i].id < self.next_message_id
            }
        &&& forall|i: int, j: int|
            0 <= i < self.messages@.len() && 0 <= j < self.messages@.len() && i != j ==> {
                &&& self.messages@[i].id != self.messages@[j].id
                &&& self.messages@[i].path@ != self.messages@[j].path@
            }
    }

    /// An empty store.
    pub fn new() -> (r: Store)
        ensures
            r.wf(),
            r.messages().len() == 0,
            r.index().len() == 0,
            r.titles().len() == 0,
            r.providers().len() == 0,
            r.models().len() == 0,
            r.next_message_id() == 1,
            r.next_provider_id() == 1,
            r.next_model_id() == 1,
    {
        Store {
            messages: Vec::new(),
            index: Vec::new(),
            next_message_id: 1,
            titles: Vec::new(),
            providers: Vec::new(),
            next_provider_id: 1,
            models: Vec::new(),
            next_model_id: 1,
        }
    }
    /// Whether `self` and `o` hold the same titles, providers and models.
    pub open spec fn same_catalog(&self, o: &Store) -> bool {
        self.titles() == o.titles() && self.providers() == o.providers() && self.models() == o.models()
    }

    /// Whether `self` and `o` hold the same messages and index.
    pub open spec fn same_messages(&self, o: &Store) -> bool {
        self.messages() == o.messages() && self.index() == o.index() && self.next_message_id()
            == o.next_message_id()
    }

    /// The id the next added provider gets.
    pub closed spec fn next_provider_id(&self) -> u64 {
        self.next_provider_id
    }

    /// The id the next added model gets.
    pub closed spec fn next_model_id(&self) -> u64 {
        self.next_model_id
    }

    /// Adds a provider. Fails, changing nothing, when the ids are used up.
    pub fn add_provider(&mut self, name: String, endpoint: String, api_key: String) -> (r: Result<
        u64,
        StoreError,
    >)
        requires
            old(self).wf(),
        ensures
            final(self).wf(),
            final(self).same_messages(old(self)),
            final(self).titles() == old(self).titles(),
            final(self).models() == old(self).models(),
            final(self).next_model_id() == old(self).next_model_id(),
            (r is Err) <==> old(self).next_provider_id() == u64::MAX,
            r is Err ==> r == Err::<u64, StoreError>(StoreError::IdsExhausted) && final(self).providers()
                == old(self).providers() && final(self).next_provider_id() == old(self).next_provider_id(),
            r is Ok ==> {
                &&& r->Ok_0 == old(self).next_provider_id()
                &&& !has_provider(old(self).providers(), r->Ok_0)
                &&& final(self).next_provider_id() == old(self).next_provider_id() + 1
                &&& final(self).providers() == old(self).providers().push(
                    ProviderRecord { id: r->Ok_0, name: name@, endpoint: endpoint@, api_key: api_key@ },
                )
            },
    {
        if self.next_provider_id == u64::MAX {
            return Err(StoreError::IdsExhausted);
        }
        let id = self.next_provider_id;
        proof {
            assert forall|i: int| 0 <= i < old(self).providers().len() implies #[trigger] old(self).providers()[i].id != id by {
                assert(old(self).providers()[i] == old(self).providers@[i]@);
            }
        }
        self.providers.push(Provider { id, name, endpoint, api_key });
        self.next_provider_id = id + 1;
        proof {
            let n = old(self).providers@.len();
            assert(self.providers() =~= old(self).providers().push(self.providers@[n as int]@));
            assert forall|i: int| 0 <= i < self.models@.len() implies has_provider(self.providers(), #[trigger] self.models@[i].provider_id) by {
                let k = choose|k: int| 0 <= k < old(self).providers().len() && #[trigger] old(self).providers()[k].id == self.models@[i].provider_id;
                assert(self.providers()[k] == old(self).providers()[k]);
            }
        }
        Ok(id)
    }

    /// Adds a model of the provider with id `provider_id`. Fails, changing
    /// nothing, when no provider has that id, or when the ids are used up.
    pub fn add_model(&mut self, name: String, model: String, provider_id: u64) -> (r: Result<
        u64,
        StoreError,
    >)
        requires
            old(self).wf(),
        ensures
            final(self).wf(),
            final(self).same_messages(old(self)),
            final(self).titles() == old(self).titles(),
            final(self).providers() == old(self).providers(),
            (r is Ok) <==> has_provider(old(self).providers(), provider_id) && old(self).next_model_id()
                != u64::MAX,
            (r == Err::<u64, StoreError>(StoreError::UnknownProvider)) <==> !has_provider(
                old(self).providers(),
                provider_id,
            ),
            (r == Err::<u64, StoreError>(StoreError::IdsExhausted)) <==> has_provider(
                old(self).providers(),
                provider_id,
            ) && old(self).next_model_id() == u64::MAX,
            r is Err ==> final(self).models() == old(self).models() && final(self).next_model_id()
                == old(self).next_model_id(),
            r is Ok ==> {
                &&& r->Ok_0 == old(self).next_model_id()
                &&& final(self).next_model_id() == old(self).next_model_id() + 1
                &&& final(self).models() == old(self).models().push(
                    ModelRecord { id: r->Ok_0, name: name@, model: model@, provider_id },
                )
            },
    {
        let found = self.provider_exists(provider_id);
        if !found {
            return Err(StoreError::UnknownProvider);
        }
        if self.next_model_id == u64::MAX {
            return Err(StoreError::IdsExhausted);
        }
        let id = self.next_model_id;
        self.models.push(Model { id, name, model, provider_id });
        self.next_model_id = id + 1;
        proof {
            let m = old(self).models@.len();
            assert(self.models() =~= old(self).models().push(self.models@[m as int]@));
            assert forall|a: int, b: int|
                0 <= a < self.models@.len() && 0 <= b < self.models@.len() && a != b implies self.models@[a].id
                    != self.models@[b].id by {
                if a < m {
                    assert(old(self).models@[a].id < old(self).next_model_id);
                }
                if b < m {
                    assert(old(self).models@[b].id < old(self).next_model_id);
                }
            }
        }
        Ok(id)
    }

    /// Removes the model with id `id`. Fails, changing nothing, when no
    /// model has that id.
    pub fn delete_model(&mut self, id: u64) -> (r: Result<(), StoreError>)
        requires
            old(self).wf(),
        ensures
            final(self).wf(),
            final(self).same_messages(old(self)),
            final(self).titles() == old(self).titles(),
            final(self).providers() == old(self).providers(),
            final(self).next_model_id() == old(self).next_model_id(),
            (r is Err) <==> forall|i: int|
                0 <= i < old(self).models().len() ==> #[trigger] old(self).models()[i].id != id,
            r is Err ==> r == Err::<(), StoreError>(StoreError::UnknownModel) && final(self).models()
                == old(self).models(),
            r is Ok ==> exists|i: int|
                0 <= i < old(self).models().len() && #[trigger] old(self).models()[i].id == id
                    && final(self).models() == old(self).models().remove(i),
    {
        let n = self.models.len();
        let mut i: usize = 0;
        while i < n
            invariant
                n == self.models@.len(),
                *self == *old(self),
                old(self).wf(),
                i <= n,
                forall|k: int| 0 <= k < i ==> #[trigger] self.models@[k].id != id,
            decreases n - i,
        {
            if self.models[i].id == id {
                self.models.remove(i);
                proof {
                    assert(self.models() =~= old(self).models().remove(i as int));
                    assert(old(self).models()[i as int].id == id);
                    assert forall|a: int| 0 <= a < self.models@.len() implies has_provider(self.providers(), #[trigger] self.models@[a].provider_id) by {
                        let a2 = if a < i { a } else { a + 1 };
                        assert(self.models@[a] == old(self).models@[a2]);
                        assert(has_provider(old(self).providers(), old(self).models@[a2].provider_id));
                    }
                    lemma_distinct_after_remove(old(self).models@, i as int, |m: Model| m.id);
                    assert forall|a: int| 0 <= a < self.models@.len() implies #[trigger] self.models@[a].id < self.next_model_id by {
                        let a2 = if a < i { a } else { a + 1 };
                        assert(self.models@[a] == old(self).models@[a2]);
                    }
                }
                return Ok(());
            }
            i = i + 1;
        }
        proof {
            assert forall|k: int| 0 <= k < self.models().len() implies #[trigger] self.models()[k].id != id by {
                assert(self.models()[k] == self.models@[k]@);
            }
        }
        Err(StoreError::UnknownModel)
    }

    /// Removes the provider with id `id`. Fails, changing nothing, when no
    /// provider has that id, or when a model still refers to it.
    pub fn delete_provider(&mut self, id: u64) -> (r: Result<(), StoreError>)
        requires
            old(self).wf(),
        ensures
            final(self).wf(),
            final(self).same_messages(old(self)),
            final(self).titles() == old(self).titles(),
            final(self).models() == old(self).models(),
            final(self).next_provider_id() == old(self).next_provider_id(),
            (r is Ok) <==> has_provider(old(self).providers(), id) && !exists|k: int|
                0 <= k < old(self).models().len() && #[trigger] old(self).models()[k].provider_id == id,
            (r == Err::<(), StoreError>(StoreError::UnknownProvider)) <==> !has_provider(
                old(self).providers(),
                id,
            ),
            (r == Err::<(), StoreError>(StoreError::ProviderInUse)) <==> has_provider(
                old(self).providers(),
                id,
            ) && exists|k: int|
                0 <= k < old(self).models().len() && #[trigger] old(self).models()[k].provider_id == id,
            r is Err ==> final(self).providers() == old(self).providers(),
            r is Ok ==> exists|i: int|
                0 <= i < old(self).providers().len() && #[trigger] old(self).providers()[i].id == id
                    && final(self).providers() == old(self).providers().remove(i),
    {
        let i = match self.provider_position(id) {
            Some(i) => i,
            None => {
                return Err(StoreError::UnknownProvider);
            },
        };
        assert(self.providers()[i as int].id == id);
        if self.provider_in_use(id) {
            return Err(StoreError::ProviderInUse);
        }
        self.providers.remove(i);
        proof {
            assert(self.providers() =~= old(self).providers().remove(i as int));
            assert forall|a: int| 0 <= a < self.models@.len() implies has_provider(self.providers(), #[trigger] self.models@[a].provider_id) by {
                let p = self.models@[a].provider_id;
                let b = choose|b: int| 0 <= b < old(self).providers().len() && #[trigger] old(self).providers()[b].id == p;
                assert(old(self).models()[a].provider_id == p);
                assert(b != i);
                if b < i {
                    assert(self.providers()[b] == old(self).providers()[b]);
                } else {
                    assert(self.providers()[b - 1] == old(self).providers()[b]);
                }
            }
            lemma_distinct_after_remove(old(self).providers@, i as int, |p: Provider| p.id);
            assert forall|a: int| 0 <= a < self.providers@.len() implies #[trigger] self.providers@[a].id < self.next_provider_id by {
                let a2 = if a < i { a } else { a + 1 };
                assert(self.providers@[a] == old(self).providers@[a2]);
            }
        }
        Ok(())
    }

    /// The provider with id `id`.
    pub fn provider(&self, id: u64) -> (r: Option<&Provider>)
        ensures
            match r {
                Some(p) => p@.id == id && exists|i: int| 0 <= i < self.providers().len() && #[trigger] self.providers()[i] == p@,
                None => !has_provider(self.providers(), id),
            },
    {
        match self.provider_position(id) {
            Some(i) => {
                assert(self.providers()[i as int] == self.providers@[i as int]@);
                Some(&self.providers[i])
            },
            None => None,
        }
    }

    /// The model with id `id`.
    pub fn model(&self, id: u64) -> (r: Option<&Model>)
        ensures
            match r {
                Some(m) => m@.id == id && exists|i: int| 0 <= i < self.models().len() && #[trigger] self.models()[i] == m@,
                None => forall|i: int| 0 <= i < self.models().len() ==> #[trigger] self.models()[i].id != id,
            },
    {
        let n = self.models.len();
        let mut i: usize = 0;
        while i < n
            invariant
                n == self.models@.len(),
                i <= n,
                forall|k: int| 0 <= k < i ==> #[trigger] self.models@[k].id != id,
            decreases n - i,
        {
            if self.models[i].id == id {
                assert(self.models()[i as int] == self.models@[i as int]@);
                return Some(&self.models[i]);
            }
            i = i + 1;
        }
        assert forall|k: int| 0 <= k < self.models().len() implies #[trigger] self.models()[k].id != id by {
            assert(self.models()[k] == self.models@[k]@);
        }
        None
    }

    /// Sets the title of thread `id`. Fails, changing nothing, when that
    /// thread already has a title.
    pub fn add_thread_title(&mut self, id: String, title: String) -> (r: Result<(), StoreError>)
        requires
            old(self).wf(),
        ensures
            final(self).wf(),
            final(self).same_messages(old(self)),
            final(self).providers() == old(self).providers(),
            final(self).models() == old(self).models(),
            (r is Err) <==> exists|i: int|
                0 <= i < old(self).titles().len() && #[trigger] old(self).titles()[i].0 == id@,
            r is Err ==> r == Err::<(), StoreError>(StoreError::DuplicateTitle) && final(self).titles()
                == old(self).titles(),
            r is Ok ==> final(self).titles() == old(self).titles().push((id@, title@)),
    {
        if let Some(i) = self.title_position(&id) {
            assert(self.titles()[i as int].0 == id@);
            return Err(StoreError::DuplicateTitle);
        }
        self.titles.push(ThreadTitle { id, title });
        proof {
            let m = old(self).titles@.len();
            assert(self.titles() =~= old(self).titles().push((self.titles@[m as int].id@, self.titles@[m as int].title@)));
            assert forall|a: int, b: int|
                0 <= a < self.titles@.len() && 0 <= b < self.titles@.len() && a != b implies self.titles@[a].id@
                    != self.titles@[b].id@ by {
                if a < m && b < m {
                    assert(old(self).titles@[a] == self.titles@[a]);
                    assert(old(self).titles@[b] == self.titles@[b]);
                } else if a < m {
                    assert(old(self).titles()[a].0 == self.titles@[a].id@);
                } else {
                    assert(old(self).titles()[b].0 == self.titles@[b].id@);
                }
            }
        }
        Ok(())
    }

    /// Position of the model with id `id`.
    fn model_position(&self, id: u64) -> (r: Option<usize>)
        ensures
            match r {
                Some(i) => i < self.models@.len() && self.models@[i as int].id == id,
                None => forall|k: int| 0 <= k < self.models().len() ==> #[trigger] self.models()[k].id != id,
            },
    {
        let n = self.models.len();
        let mut i: usize = 0;
        while i < n
            invariant
                n == self.models@.len(),
                i <= n,
                forall|k: int| 0 <= k < i ==> #[trigger] self.models@[k].id != id,
            decreases n - i,
        {
            if self.models[i].id == id {
                return Some(i);
            }
            i = i + 1;
        }
        assert forall|k: int| 0 <= k < self.models().len() implies #[trigger] self.models()[k].id != id by {
            assert(self.models()[k] == self.models@[k]@);
        }
        None
    }

    /// Replaces the name, endpoint and key of the provider with id `id`.
    /// Fails, changing nothing, when no provider has that id.
    pub fn update_provider(&mut self, id: u64, name: String, endpoint: String, api_key: String) -> (r:
        Result<(), StoreError>)
        requires
            old(self).wf(),
        ensures
            final(self).wf(),
            final(self).same_messages(old(self)),
            final(self).titles() == old(self).titles(),
            final(self).models() == old(self).models(),
            final(self).next_provider_id() == old(self).next_provider_id(),
            (r is Ok) <==> has_provider(old(self).providers(), id),
            r is Err ==> r == Err::<(), StoreError>(StoreError::UnknownProvider) && final(self).providers()
                == old(self).providers(),
            r is Ok ==> exists|i: int|
                0 <= i < old(self).providers().len() && #[trigger] old(self).providers()[i].id == id
                    && final(self).providers() == old(self).providers().update(
                    i,
                    ProviderRecord { id, name: name@, endpoint: endpoint@, api_key: api_key@ },
                ),
    {
        let i = match self.provider_position(id) {
            Some(i) => i,
            None => {
                return Err(StoreError::UnknownProvider);
            },
        };
        assert(old(self).providers()[i as int].id == id);
        self.providers.set(i, Provider { id, name, endpoint, api_key });
        proof {
            assert(self.providers() =~= old(self).providers().update(i as int, self.providers@[i as int]@));
            assert forall|a: int| 0 <= a < self.models@.len() implies has_provider(self.providers(), #[trigger] self.models@[a].provider_id) by {
                let p = self.models@[a].provider_id;
                assert(has_provider(old(self).providers(), old(self).models@[a].provider_id));
                let b = choose|b: int| 0 <= b < old(self).providers().len() && #[trigger] old(self).providers()[b].id == p;
                assert(self.providers()[b].id == p);
            }
            lemma_distinct_after_update(old(self).providers@, i as int, self.providers@[i as int], |p: Provider| p.id);
            assert forall|a: int| 0 <= a < self.providers@.len() implies #[trigger] self.providers@[a].id < self.next_provider_id by {
                assert(old(self).providers@[a].id < old(self).next_provider_id);
            }
        }
        Ok(())
    }

    /// Replaces the name, model identifier and provider of the model with id
    /// `id`. Fails, changing nothing, when no model has that id, or when no
    /// provider has id `provider_id`.
    pub fn update_model(&mut self, id: u64, name: String, model: String, provider_id: u64) -> (r:
        Result<(), StoreError>)
        requires
            old(self).wf(),
        ensures
            final(self).wf(),
            final(self).same_messages(old(self)),
            final(self).titles() == old(self).titles(),
            final(self).providers() == old(self).providers(),
            final(self).next_model_id() == old(self).next_model_id(),
            (r == Err::<(), StoreError>(StoreError::UnknownModel)) <==> forall|i: int|
                0 <= i < old(self).models().len() ==> #[trigger] old(self).models()[i].id != id,
            (r == Err::<(), StoreError>(StoreError::UnknownProvider)) <==> (exists|i: int|
                0 <= i < old(self).models().len() && #[trigger] old(self).models()[i].id == id)
                && !has_provider(old(self).providers(), provider_id),
            (r is Ok) <==> (exists|i: int|
                0 <= i < old(self).models().len() && #[trigger] old(self).models()[i].id == id)
                && has_provider(old(self).providers(), provider_id),
            r is Err ==> final(self).models() == old(self).models(),
            r is Ok ==> exists|i: int|
                0 <= i < old(self).models().len() && #[trigger] old(self).models()[i].id == id
                    && final(self).models() == old(self).models().update(
                    i,
                    ModelRecord { id, name: name@, model: model@, provider_id },
                ),
    {
        let i = match self.model_position(id) {
            Some(i) => i,
            None => {
                return Err(StoreError::UnknownModel);
            },
        };
        assert(old(self).models()[i as int].id == id);
        if !self.provider_exists(provider_id) {
            return Err(StoreError::UnknownProvider);
        }
        self.models.set(i, Model { id, name, model, provider_id });
        proof {
            assert(self.models() =~= old(self).models().update(i as int, self.models@[i as int]@));
            assert forall|a: int| 0 <= a < self.models@.len() implies has_provider(self.providers(), #[trigger] self.models@[a].provider_id) by {
                if a != i {
                    assert(has_provider(old(self).providers(), old(self).models@[a].provider_id));
                }
            }
            lemma_distinct_after_update(old(self).models@, i as int, self.models@[i as int], |m: Model| m.id);
            assert forall|a: int| 0 <= a < self.models@.len() implies #[trigger] self.models@[a].id < self.next_model_id by {
                assert(old(self).models@[a].id < old(self).next_model_id);
            }
        }
        Ok(())
    }

    /// Replaces the title of thread `id`. Fails, changing nothing, when that
    /// thread has no title.
    pub fn update_thread_title(&mut self, id: &String, title: String) -> (r: Result<(), StoreError>)
        requires
            old(self).wf(),
        ensures
            final(self).wf(),
            final(self).same_messages(old(self)),
            final(self).providers() == old(self).providers(),
            final(self).models() == old(self).models(),
            (r is Ok) <==> exists|i: int|
                0 <= i < old(self).titles().len() && #[trigger] old(self).titles()[i].0 == id@,
            r is Err ==> r == Err::<(), StoreError>(StoreError::UnknownTitle) && final(self).titles()
                == old(self).titles(),
            r is Ok ==> exists|i: int|
                0 <= i < old(self).titles().len() && #[trigger] old(self).titles()[i].0 == id@
                    && final(self).titles() == old(self).titles().update(i, (id@, title@)),
    {
        let i = match self.title_position(id) {
            Some(i) => i,
            None => {
                return Err(StoreError::UnknownTitle);
            },
        };
        assert(old(self).titles()[i as int].0 == id@);
        let key = self.titles[i].id.clone();
        self.titles.set(i, ThreadTitle { id: key, title });
        proof {
            assert(self.titles() =~= old(self).titles().update(i as int, (id@, title@)));
            lemma_distinct_after_update(old(self).titles@, i as int, self.titles@[i as int], |t: ThreadTitle| t.id@);
        }
        Ok(())
    }

    /// Removes the title of thread `id`. Fails, changing nothing, when that
    /// thread has no title.
    pub fn delete_thread_title(&mut self, id: &String) -> (r: Result<(), StoreError>)
        requires
            old(self).wf(),
        ensures
            final(self).wf(),
            final(self).same_messages(old(self)),
            final(self).providers() == old(self).providers(),
            final(self).models() == old(self).models(),
            (r is Ok) <==> exists|i: int|
                0 <= i < old(self).titles().len() && #[trigger] old(self).titles()[i].0 == id@,
            r is Err ==> r == Err::<(), StoreError>(StoreError::UnknownTitle) && final(self).titles()
                == old(self).titles(),
            r is Ok ==> exists|i: int|
                0 <= i < old(self).titles().len() && #[trigger] old(self).titles()[i].0 == id@
                    && final(self).titles() == old(self).titles().remove(i),
    {
        let i = match self.title_position(id) {
            Some(i) => i,
            None => {
                return Err(StoreError::UnknownTitle);
            },
        };
        assert(old(self).titles()[i as int].0 == id@);
        self.titles.remove(i);
        proof {
            assert(self.titles() =~= old(self).titles().remove(i as int));
            lemma_distinct_after_remove(old(self).titles@, i as int, |t: ThreadTitle| t.id@);
        }
        Ok(())
    }

    /// The title of thread `id`.
    pub fn thread_title(&self, id: &String) -> (r: Option<&String>)
        requires
            self.wf(),
        ensures
            match r {
                Some(t) => exists|i: int| 0 <= i < self.titles().len() && #[trigger] self.titles()[i] == (id@, t@),
                None => forall|i: int| 0 <= i < self.titles().len() ==> #[trigger] self.titles()[i].0 != id@,
            },
    {
        match self.title_position(id) {
            Some(i) => {
                assert(self.titles()[i as int] == (id@, self.titles@[i as int].title@));
                Some(&self.titles[i].title)
            },
            None => None,
        }
    }

    /// The message rows, for a full scan.
    pub fn message_rows(&self) -> (r: &Vec<Message>)
        ensures
            r@.map_values(|m: Message| m@) == self.messages(),
    {
        &self.messages
    }

    /// The entries of the search index, for a full scan.
    pub fn index_rows(&self) -> (r: &Vec<IndexEntry>)
        ensures
            r@.map_values(|e: IndexEntry| e@) == self.index(),
    {
        &self.index
    }

    /// Whether some provider has id `id`.
    fn provider_exists(&self, id: u64) -> (r: bool)
        ensures
            r == has_provider(self.providers(), id),
    {
        let n = self.providers.len();
        let mut i: usize = 0;
        while i < n
            invariant
                n == self.providers@.len(),
                i <= n,
                forall|k: int| 0 <= k < i ==> #[trigger] self.providers@[k].id != id,
            decreases n - i,
        {
            if self.providers[i].id == id {
                assert(self.providers()[i as int].id == id);
                return true;
            }
            i = i + 1;
        }
        assert forall|k: int| 0 <= k < self.providers().len() implies #[trigger] self.providers()[k].id != id by {
            assert(self.providers()[k] == self.providers@[k]@);
        }
        false
    }

    /// Position of the provider with id `id`.
    fn provider_position(&self, id: u64) -> (r: Option<usize>)
        ensures
            match r {
                Some(i) => i < self.providers@.len() && self.providers@[i as int].id == id,
                None => !has_provider(self.providers(), id),
            },
    {
        let n = self.providers.len();
        let mut i: usize = 0;
        while i < n
            invariant
                n == self.providers@.len(),
                i <= n,
                forall|k: int| 0 <= k < i ==> #[trigger] self.providers@[k].id != id,
            decreases n - i,
        {
            if self.providers[i].id == id {
                return Some(i);
            }
            i = i + 1;
        }
        assert forall|k: int| 0 <= k < self.providers().len() implies #[trigger] self.providers()[k].id != id by {
            assert(self.providers()[k] == self.providers@[k]@);
        }
        None
    }

    /// Whether some model refers to the provider with id `id`.
    fn provider_in_use(&self, id: u64) -> (r: bool)
        ensures
            r == exists|k: int| 0 <= k < self.models().len() && #[trigger] self.models()[k].provider_id == id,
    {
        let m = self.models.len();
        let mut k: usize = 0;
        while k < m
            invariant
                m == self.models@.len(),
                k <= m,
                forall|j: int| 0 <= j < k ==> #[trigger] self.models@[j].provider_id != id,
            decreases m - k,
        {
            if self.models[k].provider_id == id {
                assert(self.models()[k as int].provider_id == id);
                return true;
            }
            k = k + 1;
        }
        assert forall|j: int| 0 <= j < self.models().len() implies #[trigger] self.models()[j].provider_id != id by {
            assert(self.models()[j] == self.models@[j]@);
        }
        false
    }

    /// Position of the title of thread `id`.
    fn title_position(&self, id: &String) -> (r: Option<usize>)
        ensures
            match r {
                Some(i) => i < self.titles@.len() && self.titles@[i as int].id@ == id@,
                None => forall|k: int| 0 <= k < self.titles().len() ==> #[trigger] self.titles()[k].0 != id@,
            },
    {
        let n = self.titles.len();
        let mut i: usize = 0;
        while i < n
            invariant
                n == self.titles@.len(),
                i <= n,
                forall|k: int| 0 <= k < i ==> #[trigger] self.titles@[k].id@ != id@,
            decreases n - i,
        {
            if self.titles[i].id == *id {
                return Some(i);
            }
            i = i + 1;
        }
        assert forall|k: int| 0 <= k < self.titles().len() implies #[trigger] self.titles()[k].0 != id@ by {
            assert(self.titles()[k].0 == self.titles@[k].id@);
        }
        None
    }

    /// Position of the message with id `id`.
    fn position_of(&self, id: u64) -> (r: Option<usize>)
        ensures
            match r {
                Some(i) => i < self.messages@.len() && self.messages@[i as int].id == id,
                None => forall|i: int| 0 <= i < self.messages@.len() ==> #[trigger] self.messages@[i].id != id,
            },
    {
        let n = self.messages.len();
        let mut i: usize = 0;
        while i < n
            invariant
                n == self.messages@.len(),
                i <= n,
                forall|k: int| 0 <= k < i ==> #[trigger] self.messages@[k].id != id,
            decreases n - i,
        {
            if self.messages[i].id == id {
                return Some(i);
            }
            i = i + 1;
        }
        None
    }

    /// Position of the message with path `path`.
    fn position_of_path(&self, path: &String) -> (r: Option<usize>)
        ensures
            match r {
                Some(i) => i < self.messages@.len() && self.messages@[i as int].path@ == path@,
                None => forall|i: int| 0 <= i < self.messages@.len() ==> #[trigger] self.messages@[i].path@ != path@,
            },
    {
        let n = self.messages.len();
        let mut i: usize = 0;
        while i < n
            invariant
                n == self.messages@.len(),
                i <= n,
                forall|k: int| 0 <= k < i ==> #[trigger] self.messages@[k].path@ != path@,
            decreases n - i,
        {
            if self.messages[i].path == *path {
                return Some(i);
            }
            i = i + 1;
        }
        None
    }

    /// Adds a message at `path` with payload `data` and indexes its text.
    /// Fails when another message has the same path, or when the ids are
    /// used up; then nothing changes.
    pub fn insert_message(&mut self, path: String, data: Payload) -> (r: Result<u64, StoreError>)
        requires
            old(self).wf(),
        ensures
            final(self).wf(),
            final(self).same_catalog(old(self)),
            (r is Ok) <==> (forall|i: int|
                0 <= i < old(self).messages().len() ==> #[trigger] old(self).messages()[i].path != path@)
                && old(self).next_message_id() != u64::MAX,
            index_pairs(final(self).index()) == view_pairs(final(self).messages()),
            (r == Err::<u64, StoreError>(StoreError::DuplicatePath)) <==> exists|i: int|
                0 <= i < old(self).messages().len() && #[trigger] old(self).messages()[i].path == path@,
            (r == Err::<u64, StoreError>(StoreError::IdsExhausted)) <==> (forall|i: int|
                0 <= i < old(self).messages().len() ==> #[trigger] old(self).messages()[i].path != path@)
                && old(self).next_message_id() == u64::MAX,
            r is Err ==> final(self).messages() == old(self).messages() && final(self).index()
                == old(self).index() && final(self).next_message_id() == old(self).next_message_id(),
            r is Ok ==> {
                &&& r->Ok_0 == old(self).next_message_id()
                &&& final(self).next_message_id() == old(self).next_message_id() + 1
                &&& final(self).messages() == old(self).messages().push(
                    MessageRecord { id: r->Ok_0, path: path@, data: data@ },
                )
                &&& final(self).index() == old(self).index().push(
                    IndexRecord { rowid: r->Ok_0, path: path@, message: field_value(data@, message_key()) },
                )
            },
    {
        proof {
            self.lemma_views();
            self.lemma_mirror();
        }
        match self.position_of_path(&path) {
            Some(i) => {
                assert(self.messages()[i as int].path == path@);
                return Err(StoreError::DuplicatePath);
            },
            None => {},
        }
        if self.next_message_id == u64::MAX {
            return Err(StoreError::IdsExhausted);
        }
        let id = self.next_message_id;
        let entry = IndexEntry { rowid: id, path: path.clone(), message: data.message() };
        self.messages.push(Message { id, path, data });
        self.index.push(entry);
        self.next_message_id = id + 1;
        proof {
            let n = self.messages@.len() - 1;
            assert forall|i: int| 0 <= i < self.messages@.len() implies {
                &&& (#[trigger] self.index@[i])@.rowid == self.messages@[i].id
                &&& self.index@[i]@.path == self.messages@[i].path@
                &&& self.index@[i]@.message == self.messages@[i]@.text()
                &&& self.messages@[i].id < self.next_message_id
            } by {
                if i < n {
                    assert(old(self).index@[i] == self.index@[i]);
                    assert(old(self).messages@[i] == self.messages@[i]);
                }
            }
            assert forall|i: int, j: int|
                0 <= i < self.messages@.len() && 0 <= j < self.messages@.len() && i != j implies {
                &&& self.messages@[i].id != self.messages@[j].id
                &&& self.messages@[i].path@ != self.messages@[j].path@
            } by {
                if i < n {
                    assert(old(self).messages@[i] == self.messages@[i]);
                    assert(old(self).index@[i]@.rowid == old(self).messages@[i].id);
                }
                if j < n {
                    assert(old(self).messages@[j] == self.messages@[j]);
                    assert(old(self).index@[j]@.rowid == old(self).messages@[j].id);
                }
            }
            self.lemma_views();
            assert(self.messages() =~= old(self).messages().push(self.messages@.last()@));
            assert(self.index() =~= old(self).index().push(self.index@.last()@));
            self.lemma_mirror();
        }
        Ok(id)
    }

    /// Replaces the path and payload of the message with id `id` and
    /// re-indexes it: a delete marker for the old values, then an entry for
    /// the new ones. Fails when no message has that id, or when another
    /// message has the new path; then nothing changes.
    pub fn update_message(&mut self, id: u64, path: String, data: Payload) -> (r: Result<(), StoreError>)
        requires
            old(self).wf(),
        ensures
            final(self).wf(),
            final(self).same_catalog(old(self)),
            (r is Ok) <==> (exists|i: int|
                0 <= i < old(self).messages().len() && #[trigger] old(self).messages()[i].id == id)
                && forall|j: int|
                0 <= j < old(self).messages().len() && #[trigger] old(self).messages()[j].path == path@
                    ==> old(self).messages()[j].id == id,
            index_pairs(final(self).index()) == view_pairs(final(self).messages()),
            final(self).next_message_id() == old(self).next_message_id(),
            (r == Err::<(), StoreError>(StoreError::UnknownMessage)) <==> forall|i: int|
                0 <= i < old(self).messages().len() ==> #[trigger] old(self).messages()[i].id != id,
            (r == Err::<(), StoreError>(StoreError::DuplicatePath)) <==> (exists|i: int|
                0 <= i < old(self).messages().len() && #[trigger] old(self).messages()[i].id == id)
                && exists|j: int|
                0 <= j < old(self).messages().len() && #[trigger] old(self).messages()[j].path == path@
                    && old(self).messages()[j].id != id,
            r is Err ==> final(self).messages() == old(self).messages() && final(self).index()
                == old(self).index(),
            r is Ok ==> exists|i: int|
                0 <= i < old(self).messages().len() && #[trigger] old(self).messages()[i].id == id
                    && final(self).messages() == old(self).messages().update(
                    i,
                    MessageRecord { id, path: path@, data: data@ },
                ) && final(self).index() == old(self).index().update(
                    i,
                    IndexRecord { rowid: id, path: path@, message: field_value(data@, message_key()) },
                ),
    {
        proof {
            self.lemma_views();
            self.lemma_mirror();
        }
        let i = match self.position_of(id) {
            Some(i) => i,
            None => {
                return Err(StoreError::UnknownMessage);
            },
        };
        match self.position_of_path(&path) {
            Some(j) => {
                if j != i {
                    assert(self.messages()[j as int].path == path@);
                    assert(self.messages()[i as int].id == id);
                    assert(self.messages@[j as int].id != self.messages@[i as int].id);
                    assert(self.messages()[j as int].id != id);
                    return Err(StoreError::DuplicatePath);
                }
            },
            None => {},
        }
        assert forall|j: int|
            0 <= j < self.messages().len() && #[trigger] self.messages()[j].path == path@ implies self.messages()[j].id == id by {
            if j != i {
                assert(self.messages@[j].path@ == path@);
            }
        }
        let old_message = self.messages[i].data.message();
        assert(self.index@[i as int]@ == (IndexRecord {
            rowid: id,
            path: self.messages@[i as int].path@,
            message: opt_view(old_message),
        }));
        let k = index_delete_marker(&mut self.index, id, &self.messages[i].path, &old_message);
        assert(k == i);
        let entry = IndexEntry { rowid: id, path: path.clone(), message: data.message() };
        self.index.insert(k, entry);
        self.messages.set(i, Message { id, path, data });
        proof {
            assert(self.index@ =~= old(self).index@.update(i as int, self.index@[i as int]));
            self.lemma_views();
            assert(self.index() =~= old(self).index().update(i as int, self.index@[i as int]@));
            assert(self.messages() =~= old(self).messages().update(i as int, self.messages@[i as int]@));
            assert(old(self).messages()[i as int].id == id);
            self.lemma_mirror();
        }
        Ok(())
    }

    /// Removes the message with id `id` and issues a delete marker for its
    /// old values. Fails, changing nothing, when no message has that id.
    pub fn delete_message(&mut self, id: u64) -> (r: Result<(), StoreError>)
        requires
            old(self).wf(),
        ensures
            final(self).wf(),
            final(self).same_catalog(old(self)),
            index_pairs(final(self).index()) == view_pairs(final(self).messages()),
            final(self).next_message_id() == old(self).next_message_id(),
            (r is Err) <==> forall|i: int|
                0 <= i < old(self).messages().len() ==> #[trigger] old(self).messages()[i].id != id,
            r is Err ==> r == Err::<(), StoreError>(StoreError::UnknownMessage) && final(self).messages()
                == old(self).messages() && final(self).index() == old(self).index(),
            r is Ok ==> exists|i: int|
                0 <= i < old(self).messages().len() && #[trigger] old(self).messages()[i].id == id
                    && final(self).messages() == old(self).messages().remove(i) && final(self).index()
                    == old(self).index().remove(i),
    {
        proof {
            self.lemma_views();
            self.lemma_mirror();
        }
        let i = match self.position_of(id) {
            Some(i) => i,
            None => {
                return Err(StoreError::UnknownMessage);
            },
        };
        let old_message = self.messages[i].data.message();
        assert(self.index@[i as int]@ == (IndexRecord {
            rowid: id,
            path: self.messages@[i as int].path@,
            message: opt_view(old_message),
        }));
        let k = index_delete_marker(&mut self.index, id, &self.messages[i].path, &old_message);
        assert(k == i);
        self.messages.remove(i);
        proof {
            self.lemma_views();
            assert(self.messages() =~= old(self).messages().remove(i as int));
            assert(self.index() =~= old(self).index().remove(i as int));
            assert(old(self).messages()[i as int].id == id);
            self.lemma_mirror();
        }
        Ok(())
    }

    /// The message with id `id`.
    pub fn message(&self, id: u64) -> (r: Option<&Message>)
        requires
            self.wf(),
        ensures
            match r {
                Some(m) => m@.id == id && exists|i: int| 0 <= i < self.messages().len() && #[trigger] self.messages()[i] == m@,
                None => forall|i: int| 0 <= i < self.messages().len() ==> #[trigger] self.messages()[i].id != id,
            },
    {
        proof {
            self.lemma_views();
        }
        match self.position_of(id) {
            Some(i) => {
                assert(self.messages()[i as int] == self.messages@[i as int]@);
                Some(&self.messages[i])
            },
            None => None,
        }
    }

    /// Searches the index for `query`: the ids of the messages whose text,
    /// with each character folded to lower case, holds the query, folded
    /// the same way, as one run of characters. The query must be at least
    /// three characters long. It is not parsed as a full-text query: spaces
    /// are ordinary characters, not separators between terms, and case is
    /// folded with `char::to_lowercase`, not the database's own tables.
    pub fn search(&self, query: &str) -> (r: Vec<u64>)
        requires
            self.wf(),
        ensures
            forall|id: u64| #[trigger] r@.contains(id) <==> exists|i: int|
                0 <= i < self.messages().len() && #[trigger] self.messages()[i].id == id && search_hit(query@, self.messages()[i].text()),
            r@.no_duplicates(),
    {
        proof {
            self.lemma_views();
        }
        let n_query = query.unicode_len();
        let q = fold_chars(&chars_of(query));
        let n = self.index.len();
        let mut r: Vec<u64> = Vec::new();
        let mut i: usize = 0;
        while i < n
            invariant
                self.wf(),
                n == self.index@.len(),
                q@ == fold_case(query@),
                n_query == query@.len(),
                i <= n,
                r@.no_duplicates(),
                forall|k: int| #![trigger r@[k]] 0 <= k < r@.len() ==> exists|j: int| 0 <= j < i && #[trigger] self.messages@[j].id == r@[k],
                forall|id: u64| #[trigger] r@.contains(id) <==> exists|k: int|
                    0 <= k < i && #[trigger] self.messages()[k].id == id && search_hit(query@, self.messages()[k].text()),
            decreases n - i,
        {
            proof {
                self.lemma_views();
            }
            let hit = if n_query >= 3 {
                match &self.index[i].message {
                    Some(t) => occurs(&q, &fold_chars(&chars_of(t.as_str()))),
                    None => false,
                }
            } else {
                false
            };
            assert(hit == search_hit(query@, self.messages()[i as int].text()));
            let ghost before = r@;
            if hit {
                assert forall|k: int| 0 <= k < before.len() implies before[k] != self.index@[i as int].rowid by {
                    let j = choose|j: int| 0 <= j < i && #[trigger] self.messages@[j].id == before[k];
                    assert(self.messages@[j].id != self.messages@[i as int].id);
                }
                r.push(self.index[i].rowid);
                assert forall|k: int| #![trigger r@[k]] 0 <= k < r@.len() implies exists|j: int| 0 <= j < i + 1 && #[trigger] self.messages@[j].id == r@[k] by {
                    if k < before.len() {
                        let j = choose|j: int| 0 <= j < i && #[trigger] self.messages@[j].id == before[k];
                        assert(self.messages@[j].id == r@[k]);
                    } else {
                        assert(self.messages@[i as int].id == r@[k]);
                    }
                }
            }
            assert forall|id: u64| #[trigger] r@.contains(id) implies exists|k: int|
                0 <= k < i + 1 && #[trigger] self.messages()[k].id == id && search_hit(query@, self.messages()[k].text()) by {
                if before.contains(id) {
                } else {
                    let j = choose|j: int| 0 <= j < r@.len() && r@[j] == id;
                    assert(j == r@.len() - 1);
                    assert(self.messages()[i as int].id == id);
                }
            }
            assert forall|id: u64| (exists|k: int|
                0 <= k < i + 1 && #[trigger] self.messages()[k].id == id && search_hit(query@, self.messages()[k].text())) implies #[trigger] r@.contains(id) by {
                let k = choose|k: int| 0 <= k < i + 1 && #[trigger] self.messages()[k].id == id && search_hit(query@, self.messages()[k].text());
                if k == i {
                    assert(r@[r@.len() - 1] == id);
                } else {
                    assert(before.contains(id));
                    let j = choose|j: int| 0 <= j < before.len() && before[j] == id;
                    assert(r@[j] == id);
                }
            }
            i = i + 1;
        }
        r
    }

    proof fn lemma_views(&self)
        ensures
            self.messages().len() == self.messages@.len(),
            self.index().len() == self.index@.len(),
            forall|i: int| 0 <= i < self.messages@.len() ==> #[trigger] self.messages()[i] == self.messages@[i]@,
            forall|i: int| 0 <= i < self.index@.len() ==> #[trigger] self.index()[i] == self.index@[i]@,
    {
    }

    proof fn lemma_mirror(&self)
        requires
            self.wf(),
        ensures
            index_pairs(self.index()) == view_pairs(self.messages()),
    {
        self.lemma_views();
        assert(index_pairs(self.index()) =~= view_pairs(self.messages())) by {
            assert forall|p: (u64, Option<Seq<char>>)| index_pairs(self.index()).contains(p) implies view_pairs(self.messages()).contains(p) by {
                let i = choose|i: int| 0 <= i < self.index().len() && #[trigger] self.index()[i].rowid == p.0 && self.index()[i].message == p.1;
                assert(self.index@[i]@.rowid == self.messages@[i].id);
                assert(self.messages()[i].id == p.0);
            }
            assert forall|p: (u64, Option<Seq<char>>)| view_pairs(self.messages()).contains(p) implies index_pairs(self.index()).contains(p) by {
                let i = choose|i: int| 0 <= i < self.messages().len() && #[trigger] self.messages()[i].id == p.0 && self.messages()[i].text() == p.1;
                assert(self.index@[i]@.rowid == self.messages@[i].id);
                assert(self.index()[i].rowid == p.0);
            }
        }
    }
}

/// Every model refers to an existing provider, in every store that the
/// operations above can reach.
pub proof fn lemma_models_reference_providers(s: &Store)
    requires
        s.wf(),
    ensures
        forall|i: int| 0 <= i < s.models().len() ==> has_provider(s.providers(), #[trigger] s.models()[i].provider_id),
{
    assert forall|i: int| 0 <= i < s.models().len() implies has_provider(s.providers(), #[trigger] s.models()[i].provider_id) by {
        assert(s.models()[i] == s.models@[i]@);
    }
}

/// The search index always mirrors the message view: in every store that
/// the operations above can reach, message ids and paths are unique, the
/// index holds one entry per message with that message's id, path and text,
/// and its (id, text) pairs are exactly those of the messages.
pub proof fn lemma_index_mirrors_messages(s: &Store)
    requires
        s.wf(),
    ensures
        s.index().len() == s.messages().len(),
        index_pairs(s.index()) == view_pairs(s.messages()),
        forall|i: int, j: int|
            0 <= i < s.messages().len() && 0 <= j < s.messages().len() && i != j ==> {
                &&& s.messages()[i].id != s.messages()[j].id
                &&& s.messages()[i].path != s.messages()[j].path
            },
        forall|i: int| 0 <= i < s.index().len() ==> {
            &&& (#[trigger] s.index()[i]).rowid == s.messages()[i].id
            &&& s.index()[i].path == s.messages()[i].path
            &&& s.index()[i].message == s.messages()[i].text()
        },
{
    s.lemma_views();
    assert forall|i: int, j: int|
        0 <= i < s.messages().len() && 0 <= j < s.messages().len() && i != j implies {
            &&& s.messages()[i].id != s.messages()[j].id
            &&& s.messages()[i].path != s.messages()[j].path
        } by {
        assert(s.messages()[i] == s.messages@[i]@);
        assert(s.messages()[j] == s.messages@[j]@);
    }
    assert forall|i: int| 0 <= i < s.index().len() implies {
        &&& (#[trigger] s.index()[i]).rowid == s.messages()[i].id
        &&& s.index()[i].path == s.messages()[i].path
        &&& s.index()[i].message == s.messages()[i].text()
    } by {
        assert(s.index@[i]@.rowid == s.messages@[i].id);
    }
    s.lemma_mirror();
}

} // verus!
