//! The object store that a struct's attributes describe.

use vstd::prelude::*;
use vstd::string::*;
use crate::jsondb::schema::{IndexDef, StoreDef};

verus! {

/// An item of an attribute's list: a bare word, or a word with a value.
#[derive(Debug, Clone, PartialEq, Eq)]
pub enum MetaItem {
    /// A word alone.
    Word(String),
    /// A word and the text that it is set to.
    Text(String, String),
    /// A word that is set to something that is not text.
    Other(String),
}

/// A field, and the items of each of its `index` attributes.
#[derive(Debug, Clone, PartialEq, Eq)]
pub struct FieldAttrs {
    pub name: String,
    pub indexes: Vec<Vec<MetaItem>>,
}

/// The word that an item begins with.
pub open spec fn word(item: MetaItem) -> Seq<char> {
    match item {
        MetaItem::Word(w) => w@,
        MetaItem::Text(w, _) => w@,
        MetaItem::Other(w) => w@,
    }
}

/// The text that the last item with the word sets, if one does.
pub open spec fn last_text(items: Seq<MetaItem>, name: Seq<char>) -> Option<Seq<char>>
    decreases items.len(),
{
    if items.len() == 0 {
        None
    } else {
        match items.last() {
            MetaItem::Text(w, text) if w@ == name => Some(text@),
            _ => last_text(items.drop_last(), name),
        }
    }
}

/// Whether an item begins with the word.
pub open spec fn has_word(items: Seq<MetaItem>, name: Seq<char>) -> bool {
    exists|i: int| 0 <= i < items.len() && word(#[trigger] items[i]) == name
}

fn find_text(items: &Vec<MetaItem>, name: &str) -> (r: Option<String>)
    ensures
        match r {
            Some(s) => last_text(items@, name@) == Some(s@),
            None => last_text(items@, name@) is None,
        },
{
    let wanted = name.to_owned();
    let mut n: usize = items.len();
    assert(items@.take(n as int) =~= items@);
    while n > 0
        invariant
            n <= items@.len(),
            wanted@ == name@,
            last_text(items@, name@) == last_text(items@.take(n as int), name@),
        decreases n,
    {
        assert(items@.take(n as int).drop_last() =~= items@.take(n - 1));
        if let MetaItem::Text(w, text) = &items[n - 1] {
            if *w == wanted {
                return Some(text.clone());
            }
        }
        n -= 1;
    }
    None
}

fn find_word(items: &Vec<MetaItem>, name: &str) -> (r: bool)
    ensures
        r == has_word(items@, name@),
{
    let wanted = name.to_owned();
    let mut i: usize = 0;
    while i < items.len()
        invariant
            i <= items@.len(),
            wanted@ == name@,
            forall|k: int| 0 <= k < i ==> word(#[trigger] items@[k]) != name@,
        decreases items@.len() - i,
    {
        let same: bool = match &items[i] {
            MetaItem::Word(w) => *w == wanted,
            MetaItem::Text(w, _) => *w == wanted,
            MetaItem::Other(w) => *w == wanted,
        };
        if same {
            assert(word(items@[i as int]) == name@);
            return true;
        }
        i += 1;
    }
    false
}

/// Whether the index is the one that an attribute of the field describes: with
/// the field's name or the one that is given, unique where that is asked for.
pub open spec fn describes(field: Seq<char>, items: Seq<MetaItem>, idx: IndexDef) -> bool {
    &&& idx.name@ == (match last_text(items, "name"@) {
        Some(name) => name,
        None => field,
    })
    &&& idx.key_paths@.len() == 1
    &&& idx.key_paths@[0]@ == field
    &&& idx.unique == has_word(items, "unique"@)
    &&& !idx.multi_entry
}

/// Whether the indexes are those that the fields describe, field by field and
/// attribute by attribute.
pub open spec fn all_described(fields: Seq<FieldAttrs>, indexes: Seq<IndexDef>) -> bool
    decreases fields.len(),
{
    if fields.len() == 0 {
        indexes.len() == 0
    } else {
        let n = fields.last().indexes@.len() as int;
        let m = indexes.len() - n;
        &&& m >= 0
        &&& all_described(fields.drop_last(), indexes.take(m))
        &&& forall|i: int|
            0 <= i < n ==> describes(
                fields.last().name@,
                (#[trigger] fields.last().indexes@[i])@,
                indexes[m + i],
            )
    }
}

/// The store that the attributes of the struct `ident` describe: `store_items`
/// are those of its `store` attributes. Without a key path there is none.
pub fn derive_object_store(
    ident: &str,
    store_items: &Vec<MetaItem>,
    fields: &Vec<FieldAttrs>,
) -> (r: Option<StoreDef>)
    ensures
        r is Some <==> last_text(store_items@, "key_path"@) is Some,
        r matches Some(def) ==> {
            &&& def.name@ == (match last_text(store_items@, "name"@) {
                Some(name) => name,
                None => ident@,
            })
            &&& Some(def.key_path@) == last_text(store_items@, "key_path"@)
            &&& def.auto_increment == has_word(store_items@, "auto_increment"@)
            &&& all_described(fields@, def.indexes@)
            &&& def.next_auto_id == 0
        },
{
    let key_path = match find_text(store_items, "key_path") {
        Some(path) => path,
        None => {
            return None;
        },
    };
    let name = match find_text(store_items, "name") {
        Some(name) => name,
        None => ident.to_owned(),
    };
    let mut indexes: Vec<IndexDef> = Vec::new();
    let mut i: usize = 0;
    while i < fields.len()
        invariant
            i <= fields@.len(),
            all_described(fields@.take(i as int), indexes@),
        decreases fields@.len() - i,
    {
        let field = &fields[i];
        let ghost before = indexes@;
        let ghost m = before.len() as int;
        let mut k: usize = 0;
        while k < field.indexes.len()
            invariant
                k <= field.indexes@.len(),
                m == before.len(),
                indexes@.len() == m + k,
                indexes@.take(m) == before,
                forall|j: int|
                    0 <= j < k ==> describes(
                        field.name@,
                        (#[trigger] field.indexes@[j])@,
                        indexes@[m + j],
                    ),
            decreases field.indexes@.len() - k,
        {
            let items = &field.indexes[k];
            let index_name = match find_text(items, "name") {
                Some(name) => name,
                None => field.name.clone(),
            };
            let mut key_paths: Vec<String> = Vec::new();
            key_paths.push(field.name.clone());
            let unique: bool = find_word(items, "unique");
            let idx = IndexDef { name: index_name, key_paths, unique, multi_entry: false };
            assert(describes(field.name@, items@, idx));
            let ghost so_far = indexes@;
            indexes.push(idx);
            proof {
                assert(indexes@.take(m) =~= before);
                assert forall|j: int| 0 <= j < k + 1 implies describes(
                    field.name@,
                    (#[trigger] field.indexes@[j])@,
                    indexes@[m + j],
                ) by {
                    if j < k {
                        assert(indexes@[m + j] == so_far[m + j]);
                    }
                }
            }
            k += 1;
        }
        assert(fields@.take(i + 1).drop_last() =~= fields@.take(i as int));
        assert(all_described(fields@.take(i + 1), indexes@));
        i += 1;
    }
    assert(fields@.take(i as int) =~= fields@);
    let auto_increment: bool = find_word(store_items, "auto_increment");
    Some(StoreDef { name, key_path, auto_increment, indexes, next_auto_id: 0 })
}

/// What an attribute of a field describes: an index over the field alone, under the name
/// that the last `name` gives it, or under the field's name where none does, which is
/// unique where, and only where, an item says so.
pub proof fn law_index_described(
    field: Seq<char>,
    items: Seq<MetaItem>,
    idx: IndexDef,
    k: int,
)
    requires
        describes(field, items, idx),
    ensures
        idx.key_paths@.len() == 1 && idx.key_paths@[0]@ == field,
        !idx.multi_entry,
        (forall|i: int|
            0 <= i < items.len() ==> !(#[trigger] items[i] matches MetaItem::Text(w, _) && w@
                == "name"@)) ==> idx.name@ == field,
        0 <= k < items.len() && (forall|i: int|
            k < i < items.len() ==> !(#[trigger] items[i] matches MetaItem::Text(w, _) && w@
                == "name"@)) ==> (items[k] matches MetaItem::Text(w, name) ==> w@ == "name"@
            ==> idx.name@ == name@),
        idx.unique <==> exists|i: int|
            0 <= i < items.len() && word(#[trigger] items[i]) == "unique"@,
{
    law_last_text(items, "name"@, k);
}

/// The text that a word is set to is that of the last item that sets it.
pub proof fn law_last_text(items: Seq<MetaItem>, name: Seq<char>, k: int)
    ensures
        (forall|i: int|
            0 <= i < items.len() ==> !(#[trigger] items[i] matches MetaItem::Text(w, _) && w@
                == name)) ==> last_text(items, name) is None,
        0 <= k < items.len() && (forall|i: int|
            k < i < items.len() ==> !(#[trigger] items[i] matches MetaItem::Text(w, _) && w@
                == name)) ==> (items[k] matches MetaItem::Text(w, t) ==> w@ == name ==> last_text(
            items,
            name,
        ) == Some(t@)),
    decreases items.len(),
{
    if items.len() > 0 {
        let front = items.drop_last();
        law_last_text(front, name, k);
        assert(items[items.len() - 1] == items.last());
        assert forall|i: int| 0 <= i < front.len() implies #[trigger] front[i] == items[i] by {}
    }
}

/// Every attribute of every field has its index: the index of an attribute stands behind
/// those of the fields and the attributes before it.
pub proof fn law_all_described(fields: Seq<FieldAttrs>, indexes: Seq<IndexDef>, f: int, a: int)
    requires
        all_described(fields, indexes),
        0 <= f < fields.len(),
        0 <= a < fields[f].indexes@.len(),
    ensures
        indexes.len() == attribute_count(fields),
        0 <= attribute_count(fields.take(f)) + a < indexes.len(),
        describes(
            fields[f].name@,
            fields[f].indexes@[a]@,
            indexes[attribute_count(fields.take(f)) + a],
        ),
    decreases fields.len(),
{
    let front = fields.drop_last();
    let n = fields.last().indexes@.len() as int;
    let m = indexes.len() - n;
    lemma_described_count(fields, indexes);
    lemma_described_count(front, indexes.take(m));
    if f < front.len() {
        assert(front[f] == fields[f]);
        assert(front.take(f) =~= fields.take(f));
        law_all_described(front, indexes.take(m), f, a);
        let at = attribute_count(fields.take(f)) + a;
        assert(indexes.take(m)[at] == indexes[at]);
    } else {
        assert(fields.take(f) =~= front);
        assert(fields[f] == fields.last());
    }
}

/// How many index attributes the fields have.
pub open spec fn attribute_count(fields: Seq<FieldAttrs>) -> int
    decreases fields.len(),
{
    if fields.len() == 0 {
        0
    } else {
        attribute_count(fields.drop_last()) + fields.last().indexes@.len()
    }
}

pub proof fn lemma_described_count(fields: Seq<FieldAttrs>, indexes: Seq<IndexDef>)
    requires
        all_described(fields, indexes),
    ensures
        indexes.len() == attribute_count(fields),
    decreases fields.len(),
{
    if fields.len() > 0 {
        let m = indexes.len() - fields.last().indexes@.len();
        lemma_described_count(fields.drop_last(), indexes.take(m));
    }
}

} // verus!
