//! Object stores and their indexes.

use vstd::prelude::*;
use vstd::string::*;
use crate::error::FlowError;
use crate::jsondb::encoding;
use crate::jsondb::encoding::{prefix_range, schema_key, schema_prefix, validate_name, SCH_PREFIX};
use crate::record;
use crate::record::{InternalRecord, InternalRecordView, Op, Record, RecordView, ScanRange};
use crate::text::join;

verus! {

/// An index of a store: the fields whose values it holds.
#[derive(Debug, Clone, PartialEq, Eq)]
pub struct IndexDef {
    pub name: String,
    pub key_paths: Vec<String>,
    pub unique: bool,
    pub multi_entry: bool,
}

/// An object store.
#[derive(Debug, Clone, PartialEq, Eq)]
pub struct StoreDef {
    pub name: String,
    pub key_path: String,
    pub auto_increment: bool,
    pub indexes: Vec<IndexDef>,
    pub next_auto_id: u64,
}

/// The paths as text.
pub open spec fn path_texts(paths: Seq<String>) -> Seq<Seq<char>> {
    Seq::new(paths.len(), |i: int| paths[i]@)
}

fn copy_paths(paths: &[&str]) -> (r: Vec<String>)
    ensures
        path_texts(r@) == Seq::new(paths@.len(), |i: int| paths@[i]@),
{
    let mut out: Vec<String> = Vec::new();
    let mut i: usize = 0;
    while i < paths.len()
        invariant
            i <= paths@.len(),
            out@.len() == i,
            forall|k: int| 0 <= k < i ==> (#[trigger] out@[k])@ == paths@[k]@,
        decreases paths@.len() - i,
    {
        out.push(paths[i].to_owned());
        i += 1;
    }
    assert(path_texts(out@) =~= Seq::new(paths@.len(), |i: int| paths@[i]@));
    out
}

impl StoreDef {
    /// A store without indexes, whose primary keys are given.
    pub fn new(name: &str, key_path: &str) -> (r: Self)
        ensures
            r.name@ == name@,
            r.key_path@ == key_path@,
            !r.auto_increment,
            r.indexes@.len() == 0,
            r.next_auto_id == 0,
    {
        Self {
            name: name.to_owned(),
            key_path: key_path.to_owned(),
            auto_increment: false,
            indexes: Vec::new(),
            next_auto_id: 0,
        }
    }

    /// The store with one more index.
    pub fn with_index(self, name: &str, key_paths: &[&str], unique: bool) -> (r: Self)
        ensures
            r.name == self.name,
            r.key_path == self.key_path,
            r.auto_increment == self.auto_increment,
            r.next_auto_id == self.next_auto_id,
            r.indexes@.len() == self.indexes@.len() + 1,
            r.indexes@.drop_last() == self.indexes@,
            r.indexes@.last().name@ == name@,
            path_texts(r.indexes@.last().key_paths@) == Seq::new(
                key_paths@.len(),
                |i: int| key_paths@[i]@,
            ),
            r.indexes@.last().unique == unique,
            !r.indexes@.last().multi_entry,
    {
        let mut out = self;
        out.indexes.push(
            IndexDef {
                name: name.to_owned(),
                key_paths: copy_paths(key_paths),
                unique,
                multi_entry: false,
            },
        );
        assert(out.indexes@.drop_last() =~= self.indexes@);
        out
    }

    /// The store with primary keys that count up.
    pub fn with_auto_increment(self) -> (r: Self)
        ensures
            r == (StoreDef { auto_increment: true, ..self }),
    {
        let mut out = self;
        out.auto_increment = true;
        out
    }
}

/// Where the store with the name stands in the list.
pub open spec fn store_at(stores: Seq<StoreDef>, name: Seq<char>) -> Option<int>
    decreases stores.len(),
{
    if stores.len() == 0 {
        None
    } else {
        match store_at(stores.drop_last(), name) {
            Some(i) => Some(i),
            None => if stores.last().name@ == name {
                Some(stores.len() - 1)
            } else {
                None
            },
        }
    }
}

/// The stores that there are, by name.
#[derive(Debug)]
pub struct Schema {
    stores: Vec<StoreDef>,
}

impl Default for Schema {
    fn default() -> (r: Self)
        ensures
            r.stores() == Seq::<StoreDef>::empty(),
    {
        Self::new()
    }
}

impl Schema {
    /// The stores.
    pub closed spec fn stores(self) -> Seq<StoreDef> {
        self.stores@
    }

    /// No two stores have the same name.
    pub open spec fn wf(self) -> bool {
        forall|i: int, j: int|
            0 <= i < j < self.stores().len() ==> (#[trigger] self.stores()[i]).name@ != (
            #[trigger] self.stores()[j]).name@
    }

    pub fn new() -> (r: Self)
        ensures
            r.wf(),
            r.stores() == Seq::<StoreDef>::empty(),
    {
        Self { stores: Vec::new() }
    }

    fn find(&self, name: &str) -> (r: Option<usize>)
        ensures
            match r {
                Some(i) => store_at(self.stores(), name@) == Some(i as int) && i
                    < self.stores().len() && self.stores()[i as int].name@ == name@,
                None => store_at(self.stores(), name@) is None,
            },
    {
        let wanted = name.to_owned();
        let mut i: usize = 0;
        while i < self.stores.len()
            invariant
                i <= self.stores@.len(),
                wanted@ == name@,
                store_at(self.stores@.take(i as int), name@) is None,
            decreases self.stores@.len() - i,
        {
            assert(self.stores@.take(i + 1).drop_last() =~= self.stores@.take(i as int));
            if self.stores[i].name == wanted {
                proof {
                    lemma_store_found(self.stores@, i + 1, name@);
                }
                return Some(i);
            }
            i += 1;
        }
        assert(self.stores@.take(i as int) =~= self.stores@);
        None
    }

    /// The store with the name.
    pub fn get(&self, name: &str) -> (r: Option<&StoreDef>)
        ensures
            match store_at(self.stores(), name@) {
                Some(i) => r matches Some(def) && *def == self.stores()[i],
                None => r is None,
            },
    {
        match self.find(name) {
            Some(i) => Some(&self.stores[i]),
            None => None,
        }
    }

    /// Enters a store, in place of any with the same name.
    pub fn insert(&mut self, def: StoreDef)
        requires
            old(self).wf(),
        ensures
            final(self).wf(),
            final(self).stores() == match store_at(old(self).stores(), def.name@) {
                Some(i) => old(self).stores().update(i, def),
                None => old(self).stores().push(def),
            },
    {
        match self.find(def.name.as_str()) {
            Some(i) => {
                self.stores.set(i, def);
            },
            None => {
                proof {
                    assert forall|k: int| 0 <= k < self.stores().len() implies (
                    #[trigger] self.stores()[k]).name@ != def.name@ by {
                        lemma_store_absent(self.stores(), def.name@, k);
                    }
                }
                self.stores.push(def);
            },
        }
    }

    /// Takes out the store with the name.
    pub fn remove(&mut self, name: &str) -> (r: Option<StoreDef>)
        requires
            old(self).wf(),
        ensures
            final(self).wf(),
            match store_at(old(self).stores(), name@) {
                Some(i) => {
                    &&& r == Some(old(self).stores()[i])
                    &&& final(self).stores() == old(self).stores().remove(i)
                },
                None => r is None && final(self).stores() == old(self).stores(),
            },
    {
        match self.find(name) {
            Some(i) => Some(self.stores.remove(i)),
            None => None,
        }
    }

    /// The stores, in the order in which they were entered.
    pub fn list(&self) -> (r: &Vec<StoreDef>)
        ensures
            r@ == self.stores(),
    {
        &self.stores
    }
}

/// A store that is found in the front of a list is the one that is found.
proof fn lemma_store_found(stores: Seq<StoreDef>, n: int, name: Seq<char>)
    requires
        0 <= n <= stores.len(),
        store_at(stores.take(n), name) is Some,
    ensures
        store_at(stores, name) == store_at(stores.take(n), name),
    decreases stores.len() - n,
{
    if n < stores.len() {
        assert(stores.take(n + 1).drop_last() =~= stores.take(n));
        lemma_store_found(stores, n + 1, name);
    } else {
        assert(stores.take(n) =~= stores);
    }
}

/// Where no store is found, none has the name.
proof fn lemma_store_absent(stores: Seq<StoreDef>, name: Seq<char>, k: int)
    requires
        store_at(stores, name) is None,
        0 <= k < stores.len(),
    ensures
        stores[k].name@ != name,
    decreases stores.len(),
{
    if k < stores.len() - 1 {
        lemma_store_absent(stores.drop_last(), name, k);
    }
}

/// A store that was entered is found.
pub proof fn law_insert_found(before: Schema, after: Schema, def: StoreDef)
    requires
        before.wf(),
        after.wf(),
        after.stores() == match store_at(before.stores(), def.name@) {
            Some(i) => before.stores().update(i, def),
            None => before.stores().push(def),
        },
    ensures
        store_at(after.stores(), def.name@) matches Some(i) && 0 <= i < after.stores().len()
            && after.stores()[i] == def,
{
    let stores = after.stores();
    match store_at(before.stores(), def.name@) {
        Some(i) => {
            lemma_store_place(before.stores(), def.name@);
            lemma_store_unique(stores, def.name@, i);
        },
        None => {
            lemma_store_unique(stores, def.name@, stores.len() - 1);
        },
    }
}

/// Where a store is found.
proof fn lemma_store_place(stores: Seq<StoreDef>, name: Seq<char>)
    ensures
        store_at(stores, name) matches Some(i) ==> 0 <= i < stores.len() && stores[i].name@ == name,
    decreases stores.len(),
{
    if stores.len() > 0 {
        lemma_store_place(stores.drop_last(), name);
    }
}

/// Where names are unique, the store with the name is the one that is found.
proof fn lemma_store_unique(stores: Seq<StoreDef>, name: Seq<char>, k: int)
    requires
        forall|i: int, j: int|
            0 <= i < j < stores.len() ==> (#[trigger] stores[i]).name@ != (#[trigger] stores[j]).name@,
        0 <= k < stores.len(),
        stores[k].name@ == name,
    ensures
        store_at(stores, name) == Some(k),
{
    lemma_store_place(stores, name);
    if store_at(stores, name) is None {
        lemma_store_absent(stores, name, k);
    }
}

/// The stores that were found, entered one after another.
pub open spec fn entered(defs: Seq<StoreDef>) -> Seq<StoreDef>
    decreases defs.len(),
{
    if defs.len() == 0 {
        Seq::empty()
    } else {
        let front = entered(defs.drop_last());
        match store_at(front, defs.last().name@) {
            Some(i) => front.update(i, defs.last()),
            None => front.push(defs.last()),
        }
    }
}

/// The range in which the schemas stand.
pub fn schema_range() -> (r: ScanRange)
    ensures
        r.key_filter() == record::KeyFilterView::Prefix(seq![SCH_PREFIX]),
        r.times() is None,
{
    let prefix = schema_prefix();
    prefix_range(&prefix)
}

/// The stores of the schemas that were found.
pub fn load_schemas(defs: Vec<StoreDef>) -> (r: Schema)
    ensures
        r.wf(),
        r.stores() == entered(defs@),
{
    let mut schema = Schema::new();
    let mut rest = defs;
    let mut stack: Vec<StoreDef> = Vec::new();
    let ghost all = defs@;
    let ghost n = all.len();
    while rest.len() > 0
        invariant
            rest@.len() + stack@.len() == all.len(),
            rest@ == all.take(rest@.len() as int),
            forall|k: int| 0 <= k < stack@.len() ==> #[trigger] stack@[k] == all[all.len() - 1 - k],
        decreases rest@.len(),
    {
        let ghost before = rest@;
        if let Some(def) = rest.pop() {
            stack.push(def);
            assert(rest@ =~= all.take(rest@.len() as int));
        }
    }
    assert(all.take(0) =~= Seq::<StoreDef>::empty());
    while stack.len() > 0
        invariant
            stack@.len() <= all.len(),
            forall|k: int| 0 <= k < stack@.len() ==> #[trigger] stack@[k] == all[all.len() - 1 - k],
            schema.wf(),
            schema.stores() == entered(all.take(all.len() - stack@.len())),
        decreases stack@.len(),
    {
        let ghost i = all.len() - stack@.len();
        assert(all.take(i + 1).drop_last() =~= all.take(i));
        if let Some(def) = stack.pop() {
            schema.insert(def);
        }
    }
    assert(all.take(all.len() as int) =~= all);
    schema
}

/// Checks the name and the key path of a store.
pub fn validate_store_def(name: &str, key_path: &str) -> (r: Result<(), FlowError>)
    ensures
        r is Ok <==> encoding::valid_name(name.spec_bytes()) && key_path.spec_bytes().len() > 0,
        r matches Err(e) ==> (e matches FlowError::JsonDb(msg) && msg@ == (if encoding::valid_name(
            name.spec_bytes(),
        ) {
            "key_path cannot be empty"@
        } else {
            encoding::name_error(name@)
        })),
{
    match validate_name(name) {
        Err(e) => Err(e),
        Ok(()) => {
            if key_path.as_bytes().len() == 0 {
                return Err(FlowError::JsonDb("key_path cannot be empty".to_owned()));
            }
            Ok(())
        },
    }
}

/// Whether the store has an index with the name.
pub open spec fn has_index(store: StoreDef, name: Seq<char>) -> bool {
    exists|i: int| 0 <= i < store.indexes@.len() && (#[trigger] store.indexes@[i]).name@ == name
}

/// Checks the name and the key path of a new index.
pub fn validate_index_def(store: &StoreDef, name: &str, key_path: &str) -> (r: Result<(), FlowError>)
    ensures
        r is Ok <==> encoding::valid_name(name.spec_bytes()) && key_path.spec_bytes().len() > 0
            && !has_index(*store, name@),
        r matches Err(e) ==> (e matches FlowError::JsonDb(msg) && msg@ == (if !encoding::valid_name(
            name.spec_bytes(),
        ) {
            encoding::name_error(name@)
        } else if key_path.spec_bytes().len() == 0 {
            "index key_path cannot be empty"@
        } else {
            "index '"@ + name@ + "' already exists in store '"@ + store.name@ + "'"@
        })),
{
    match validate_name(name) {
        Err(e) => {
            return Err(e);
        },
        Ok(()) => {},
    }
    if key_path.as_bytes().len() == 0 {
        return Err(FlowError::JsonDb("index key_path cannot be empty".to_owned()));
    }
    let wanted = name.to_owned();
    let mut i: usize = 0;
    while i < store.indexes.len()
        invariant
            i <= store.indexes@.len(),
            wanted@ == name@,
            encoding::valid_name(name.spec_bytes()),
            key_path.spec_bytes().len() > 0,
            forall|k: int| 0 <= k < i ==> (#[trigger] store.indexes@[k]).name@ != name@,
        decreases store.indexes@.len() - i,
    {
        if store.indexes[i].name == wanted {
            let a = join("index '", name);
            let b = join(a.as_str(), "' already exists in store '");
            let c = join(b.as_str(), store.name.as_str());
            return Err(FlowError::JsonDb(join(c.as_str(), "'")));
        }
        i += 1;
    }
    Ok(())
}

/// The record that holds a store's schema, which `json` is.
pub fn schema_record(store: &str, json: Vec<u8>) -> (r: Record)
    ensures
        r@ == (RecordView {
            key: seq![SCH_PREFIX] + store.spec_bytes(),
            ts: 0,
            expire_at: i64::MAX,
            value: json@,
        }),
{
    Record::new(schema_key(store), 0, json)
}

/// The record that deletes a store's schema.
pub fn schema_delete_record(store: &str) -> (r: InternalRecord)
    ensures
        r@ == (InternalRecordView {
            seq: 0,
            op: Op::Delete,
            key: seq![SCH_PREFIX] + store.spec_bytes(),
            ts: 0,
            expire_at: i64::MAX,
            value: Seq::empty(),
            range_end: None,
        }),
{
    InternalRecord::delete(schema_key(store), 0, 0)
}

/// Where a name is defined several times, the last definition counts, and each definition
/// that counts was given.
pub proof fn law_last_definition_counts(defs: Seq<StoreDef>, k: int)
    requires
        0 <= k < defs.len(),
        forall|j: int| k < j < defs.len() ==> (#[trigger] defs[j]).name@ != defs[k].name@,
    ensures
        store_at(entered(defs), defs[k].name@) matches Some(i) && 0 <= i < entered(defs).len()
            && entered(defs)[i] == defs[k],
    decreases defs.len(),
{
    let front = defs.drop_last();
    let last = defs.last();
    let before = entered(front);
    lemma_entered_unique(front);
    lemma_entered_unique(defs);
    lemma_store_place(before, last.name@);
    if k < front.len() {
        assert forall|j: int| k < j < front.len() implies (#[trigger] front[j]).name@
            != front[k].name@ by {
            assert(front[j] == defs[j]);
        }
        law_last_definition_counts(front, k);
        let i = store_at(before, defs[k].name@)->0;
        assert(defs[defs.len() - 1].name@ != defs[k].name@);
        match store_at(before, last.name@) {
            Some(m) => {
                assert(before[m].name@ == last.name@);
                assert(before[i].name@ == defs[k].name@);
                assert(m != i);
                assert(entered(defs)[i] == before[i]);
            },
            None => {
                assert(entered(defs)[i] == before[i]);
            },
        }
        lemma_store_unique(entered(defs), defs[k].name@, i);
    } else {
        match store_at(before, last.name@) {
            Some(m) => {
                lemma_store_unique(entered(defs), last.name@, m);
            },
            None => {
                lemma_store_unique(entered(defs), last.name@, before.len() as int);
            },
        }
    }
}

/// No two definitions that count have one name.
proof fn lemma_entered_unique(defs: Seq<StoreDef>)
    ensures
        forall|i: int, j: int|
            0 <= i < j < entered(defs).len() ==> (#[trigger] entered(defs)[i]).name@ != (
            #[trigger] entered(defs)[j]).name@,
    decreases defs.len(),
{
    if defs.len() > 0 {
        let before = entered(defs.drop_last());
        let last = defs.last();
        lemma_entered_unique(defs.drop_last());
        lemma_store_place(before, last.name@);
        assert forall|i: int, j: int| 0 <= i < j < entered(defs).len() implies (#[trigger] entered(
            defs,
        )[i]).name@ != (#[trigger] entered(defs)[j]).name@ by {
            match store_at(before, last.name@) {
                Some(m) => {
                    assert(before[m].name@ == last.name@);
                    assert(entered(defs)[i].name@ == before[i].name@);
                    assert(entered(defs)[j].name@ == before[j].name@);
                },
                None => {
                    assert(entered(defs)[i] == before[i]);
                    if j < before.len() {
                        assert(entered(defs)[j] == before[j]);
                    } else {
                        lemma_store_absent(before, last.name@, i);
                    }
                },
            }
        }
    }
}

} // verus!
