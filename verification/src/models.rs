//! The data model of stored task records, independent of any storage
//! engine: a persisted record, the shape of a record about to be inserted,
//! and a tag-frequency row.
use vstd::prelude::*;

use crate::tags::{
    normalize_spec, split_commas_spec, storage_tags_spec, split_commas, normalize_strings,
    tags_to_storage,
};

verus! {

/// One tag together with how often it occurs over all records.
#[derive(Debug)]
pub struct TagsFrequency {
    pub n: i32,
    pub tag: String,
}

/// The mathematical content of a stored record, as contracts speak of it.
pub ghost struct TodoModel {
    pub id: int,
    pub parent_id: Option<int>,
    pub todo: Seq<char>,
    pub metadata: Seq<char>,
    pub tags: Seq<char>,
    pub desc: Seq<char>,
    pub path: Seq<char>,
    pub flags: int,
    pub last_update_ts: int,
    pub created_at: int,
}

/// An optional id, widened for the model.
pub open spec fn opt_int(o: Option<i32>) -> Option<int> {
    match o {
        Some(x) => Some(x as int),
        None => None,
    }
}

/// A persisted task record. `id` is dense: the store keeps ids contiguous
/// from 1, so a record's id is its position plus one and changes when a
/// lower-id record is deleted. Timestamps are plain seconds and are not
/// interpreted by the core.
#[derive(Debug)]
pub struct Todo {
    pub id: i32,
    pub parent_id: Option<i32>,
    pub todo: String,
    pub metadata: String,
    pub tags: String,
    pub desc: String,
    pub path: String,
    pub flags: i32,
    pub last_update_ts: i64,
    pub created_at: i64,
}

impl View for Todo {
    type V = TodoModel;

    open spec fn view(&self) -> TodoModel {
        TodoModel {
            id: self.id as int,
            parent_id: opt_int(self.parent_id),
            todo: self.todo@,
            metadata: self.metadata@,
            tags: self.tags@,
            desc: self.desc@,
            path: self.path@,
            flags: self.flags as int,
            last_update_ts: self.last_update_ts as int,
            created_at: self.created_at as int,
        }
    }
}

impl Clone for Todo {
    fn clone(&self) -> (r: Self)
        ensures
            r@ == self@,
    {
        Todo {
            id: self.id,
            parent_id: self.parent_id,
            todo: self.todo.clone(),
            metadata: self.metadata.clone(),
            tags: self.tags.clone(),
            desc: self.desc.clone(),
            path: self.path.clone(),
            flags: self.flags,
            last_update_ts: self.last_update_ts,
            created_at: self.created_at,
        }
    }
}

/// A record to be inserted; the store assigns the id and timestamps.
#[derive(Debug)]
pub struct NewTodo {
    pub parent_id: Option<i32>,
    pub todo: String,
    pub metadata: String,
    pub tags: String,
    pub desc: String,
    pub path: String,
    pub flags: i32,
}

impl Todo {
    /// The record's tags as a canonical list: split out of the storage
    /// blob, trimmed, freed of empties and sorted.
    pub fn get_tags(&self) -> (r: Vec<String>)
        ensures
            r.deep_view() == normalize_spec(split_commas_spec(self.tags@)),
    {
        let parts = split_commas(self.tags.as_str());
        normalize_strings(parts)
    }

    /// Replaces the record's tags with the storage form of the cleaned,
    /// sorted list.
    pub fn set_tags(&mut self, tags: Vec<String>)
        ensures
            final(self).tags@ == storage_tags_spec(normalize_spec(tags.deep_view())),
            final(self).id == old(self).id,
            final(self).parent_id == old(self).parent_id,
            final(self).todo == old(self).todo,
            final(self).metadata == old(self).metadata,
            final(self).desc == old(self).desc,
            final(self).path == old(self).path,
            final(self).flags == old(self).flags,
            final(self).last_update_ts == old(self).last_update_ts,
            final(self).created_at == old(self).created_at,
    {
        let cleaned = normalize_strings(tags);
        self.tags = tags_to_storage(&cleaned);
    }
}

} // verus!
