//! The store's schema, as an ordered list of versioned migrations, and the
//! record of which of them a store has applied.

use vstd::prelude::*;

verus! {

/// The statements that create the initial schema: the message table, the
/// projection of each message's text, the trigram search index over that
/// projection, the triggers that keep the index in step with the table, and
/// the thread-title, provider and model tables.
pub const INITIAL_SCHEMA: &'static str = "
                CREATE TABLE messages (
                    id INTEGER PRIMARY KEY AUTOINCREMENT, 
                    path TEXT UNIQUE, 
                    data JSON -- TODO: depth INTEGER GENERATED ALWAYS AS (LENGTH(path) - LENGTH(REPLACE(path, '.', '')) + 1) STORED
                );
                CREATE INDEX idx_messages_path ON messages(path);
                -- TODO: CREATE INDEX idx_nodes_depth ON nodes(depth);

                CREATE VIEW message_view AS SELECT 
                    id, 
                    path, 
                    json_extract(data, '$.message') AS message 
                FROM
                    messages;

                CREATE VIRTUAL TABLE messages_fts USING fts5(
                    path UNINDEXED,
                    message, 
                    tokenize = 'trigram',
                    content = 'message_view', 
                    content_rowid = 'id'
                );

                -- Trigger for INSERT
                CREATE TRIGGER message_insert AFTER INSERT ON messages
                BEGIN
                    INSERT INTO messages_fts (rowid, path, message) SELECT NEW.id, NEW.path, json_extract(NEW.data, '$.message');
                END;

                -- Trigger for DELETE
                CREATE TRIGGER messages_delete AFTER DELETE ON messages
                BEGIN
                    INSERT INTO messages_fts(messages_fts, rowid, path, message) VALUES('delete', OLD.id, OLD.path, json_extract(OLD.data, '$.message'));
                END;
                    
                    -- Trigger for UPDATE
                CREATE TRIGGER messages_update AFTER UPDATE ON messages
                BEGIN
                    INSERT INTO messages_fts(messages_fts, rowid, path, message) VALUES('delete', OLD.id, OLD.path, json_extract(OLD.data, '$.message'));
                    INSERT INTO messages_fts (rowid, path, message) SELECT NEW.id, NEW.path, json_extract(NEW.data, '$.message');
                END;

                CREATE TABLE thread_titles (
                    id TEXT PRIMARY KEY,
                    title TEXT NOT NULL
                );

                CREATE TABLE providers (
                    id INTEGER PRIMARY KEY AUTOINCREMENT, 
                    name TEXT NOT NULL, endpoint TEXT NOT NULL, 
                    apiKey TEXT NOT NULL
                );

                CREATE TABLE models (
                    id INTEGER PRIMARY KEY AUTOINCREMENT, 
                    name TEXT NOT NULL, 
                    model TEXT NOT NULL, 
                    providerId INTEGER NOT NULL, 
                    FOREIGN KEY (providerId) REFERENCES providers(id)
                );
            ";

/// The database file that holds the store.
pub const STORE_URL: &'static str = "sqlite:mammal.db";

/// Whether a migration moves the schema forward or back.
#[derive(Clone, Copy, Debug, PartialEq, Eq, Structural)]
pub enum MigrationKind {
    Up,
    Down,
}

/// One versioned schema change.
pub struct Migration {
    pub version: i64,
    pub description: String,
    pub sql: String,
    pub kind: MigrationKind,
}

/// The name of the first migration.
pub open spec fn initial_description() -> Seq<char> {
    seq![
        'c', 'r', 'e', 'a', 't', 'e', '_', 'i', 'n', 'i', 't', 'i', 'a', 'l', '_', 't', 'a', 'b',
        'l', 'e', 's',
    ]
}

/// The store's migrations, in order.
pub fn migrations() -> (r: Vec<Migration>)
    ensures
        r@.len() == 1,
        r@[0].version == 1,
        r@[0].description@ == initial_description(),
        r@[0].sql@ == INITIAL_SCHEMA@,
        r@[0].kind == MigrationKind::Up,
        versions_increasing(r@),
{
    proof {
        reveal_strlit("create_initial_tables");
    }
    let mut r: Vec<Migration> = Vec::new();
    r.push(
        Migration {
            version: 1,
            description: String::from_str("create_initial_tables"),
            sql: String::from_str(INITIAL_SCHEMA),
            kind: MigrationKind::Up,
        },
    );
    r
}

/// Each migration has a higher version than the one before it.
pub open spec fn versions_increasing(ms: Seq<Migration>) -> bool {
    forall|i: int| 0 <= i < ms.len() - 1 ==> #[trigger] ms[i].version < ms[i + 1].version
}

/// Whether the migration at `i` is still to be applied to a store at
/// version `applied`.
pub open spec fn is_pending(applied: i64, ms: Seq<Migration>, i: int) -> bool {
    0 <= i < ms.len() && ms[i].kind == MigrationKind::Up && ms[i].version > applied
}

/// `steps` lists, in increasing order, exactly the indices of the
/// migrations of `ms` still to be applied to a store at version `applied`.
pub open spec fn lists_pending(applied: i64, ms: Seq<Migration>, steps: Seq<usize>) -> bool {
    &&& forall|k: int| 0 <= k < steps.len() ==> is_pending(applied, ms, #[trigger] steps[k] as int)
    &&& forall|k: int, l: int| 0 <= k < l < steps.len() ==> steps[k] < steps[l]
    &&& forall|i: int| #[trigger] is_pending(applied, ms, i) ==> exists|k: int|
        0 <= k < steps.len() && #[trigger] steps[k] == i
}

/// The version of a store at version `applied` once `ms` has been applied:
/// the highest of `applied` and the versions of the `Up` steps.
pub open spec fn migrated_version(applied: i64, ms: Seq<Migration>) -> i64
    decreases ms.len(),
{
    if ms.len() == 0 {
        applied
    } else {
        let before = migrated_version(applied, ms.drop_last());
        if ms.last().kind == MigrationKind::Up && ms.last().version > before {
            ms.last().version
        } else {
            before
        }
    }
}

/// Why a list of migrations was not applied.
#[derive(Clone, Copy, Debug, PartialEq, Eq, Structural)]
pub enum MigrationError {
    /// The versions do not increase along the list.
    OutOfOrder,
}

/// Whether the versions of `ms` increase along the list.
pub fn check_order(ms: &Vec<Migration>) -> (r: bool)
    ensures
        r == versions_increasing(ms@),
{
    let n = ms.len();
    if n == 0 {
        return true;
    }
    let mut i: usize = 0;
    while i + 1 < n
        invariant
            n == ms@.len(),
            n > 0,
            i < n,
            forall|k: int| 0 <= k < i ==> #[trigger] ms@[k].version < ms@[k + 1].version,
        decreases n - i,
    {
        if ms[i].version >= ms[i + 1].version {
            return false;
        }
        i = i + 1;
    }
    true
}

/// Indices of the migrations of `ms` still to be applied to a store at
/// version `applied`, in list order.
pub fn pending(applied: i64, ms: &Vec<Migration>) -> (r: Vec<usize>)
    ensures
        lists_pending(applied, ms@, r@),
{
    let mut r: Vec<usize> = Vec::new();
    let mut i: usize = 0;
    while i < ms.len()
        invariant
            i <= ms@.len(),
            forall|k: int| 0 <= k < r@.len() ==> is_pending(applied, ms@, #[trigger] r@[k] as int),
            forall|k: int| 0 <= k < r@.len() ==> #[trigger] r@[k] < i,
            forall|k: int, l: int| 0 <= k < l < r@.len() ==> r@[k] < r@[l],
            forall|j: int| 0 <= j < i && is_pending(applied, ms@, j) ==> exists|k: int|
                0 <= k < r@.len() && #[trigger] r@[k] == j,
        decreases ms@.len() - i,
    {
        if matches!(ms[i].kind, MigrationKind::Up) && ms[i].version > applied {
            let ghost old_r = r@;
            r.push(i);
            assert forall|j: int| 0 <= j < i + 1 && is_pending(applied, ms@, j) implies exists|k: int|
                0 <= k < r@.len() && #[trigger] r@[k] == j by {
                if j < i {
                    let k = choose|k: int| 0 <= k < old_r.len() && #[trigger] old_r[k] == j;
                    assert(r@[k] == j);
                } else {
                    assert(r@[r@.len() - 1] == j);
                }
            }
        }
        i = i + 1;
    }
    r
}

/// The record of how far a store's schema has been migrated.
pub struct SchemaLog {
    pub version: i64,
}

impl SchemaLog {
    /// A store to which nothing has been applied.
    pub fn new() -> (r: SchemaLog)
        ensures
            r.version == 0,
    {
        SchemaLog { version: 0 }
    }

    /// Applies `ms` to the store: returns the indices of the migrations to
    /// run, in order, and records the version reached. An out-of-order list
    /// is refused and changes nothing.
    pub fn migrate(&mut self, ms: &Vec<Migration>) -> (r: Result<Vec<usize>, MigrationError>)
        ensures
            r is Err <==> !versions_increasing(ms@),
            r is Err ==> *final(self) == *old(self),
            r is Ok ==> final(self).version == migrated_version(old(self).version, ms@),
            r is Ok ==> lists_pending(old(self).version, ms@, r->Ok_0@),
    {
        if !check_order(ms) {
            return Err(MigrationError::OutOfOrder);
        }
        let steps = pending(self.version, ms);
        let n = ms.len();
        let mut reached = self.version;
        let mut i: usize = 0;
        while i < n
            invariant
                n == ms@.len(),
                i <= n,
                reached == migrated_version(old(self).version, ms@.subrange(0, i as int)),
            decreases n - i,
        {
            assert(ms@.subrange(0, i + 1).drop_last() =~= ms@.subrange(0, i as int));
            if matches!(ms[i].kind, MigrationKind::Up) && ms[i].version > reached {
                reached = ms[i].version;
            }
            i = i + 1;
        }
        assert(ms@.subrange(0, n as int) =~= ms@);
        self.version = reached;
        Ok(steps)
    }
}

proof fn lemma_up_versions_reached(applied: i64, ms: Seq<Migration>)
    ensures
        migrated_version(applied, ms) >= applied,
        forall|i: int|
            0 <= i < ms.len() && #[trigger] ms[i].kind == MigrationKind::Up ==> ms[i].version
                <= migrated_version(applied, ms),
    decreases ms.len(),
{
    if ms.len() > 0 {
        lemma_up_versions_reached(applied, ms.drop_last());
        assert forall|i: int|
            0 <= i < ms.len() && #[trigger] ms[i].kind == MigrationKind::Up implies ms[i].version
                <= migrated_version(applied, ms) by {
            if i < ms.len() - 1 {
                assert(ms.drop_last()[i] == ms[i]);
            }
        }
    }
}

proof fn lemma_nothing_above(applied: i64, ms: Seq<Migration>)
    requires
        forall|i: int|
            0 <= i < ms.len() && #[trigger] ms[i].kind == MigrationKind::Up ==> ms[i].version <= applied,
    ensures
        migrated_version(applied, ms) == applied,
    decreases ms.len(),
{
    if ms.len() > 0 {
        let rest = ms.drop_last();
        assert forall|i: int|
            0 <= i < rest.len() && #[trigger] rest[i].kind == MigrationKind::Up implies rest[i].version
                <= applied by {
            assert(rest[i] == ms[i]);
        }
        lemma_nothing_above(applied, rest);
        assert(ms[ms.len() - 1].kind == MigrationKind::Up ==> ms[ms.len() - 1].version <= applied);
    }
}

/// Migrating twice is harmless: once a well-ordered list has been applied,
/// applying it again runs no step and leaves the version where it was.
pub proof fn lemma_migrate_idempotent(applied: i64, ms: Seq<Migration>)
    requires
        versions_increasing(ms),
    ensures
        forall|i: int| !is_pending(migrated_version(applied, ms), ms, i),
        forall|steps: Seq<usize>|
            lists_pending(migrated_version(applied, ms), ms, steps) ==> steps.len() == 0,
        migrated_version(migrated_version(applied, ms), ms) == migrated_version(applied, ms),
{
    let reached = migrated_version(applied, ms);
    lemma_up_versions_reached(applied, ms);
    assert forall|i: int| !is_pending(reached, ms, i) by {
        if 0 <= i < ms.len() && ms[i].kind == MigrationKind::Up {
            assert(ms[i].version <= reached);
        }
    }
    lemma_nothing_above(reached, ms);
    assert forall|steps: Seq<usize>|
        lists_pending(migrated_version(applied, ms), ms, steps) implies steps.len() == 0 by {
        if steps.len() > 0 {
            assert(is_pending(migrated_version(applied, ms), ms, steps[0] as int));
        }
    }
}

} // verus!
