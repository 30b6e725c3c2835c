//! The store: records held under dense ids, contiguous from 1.
//!
//! Deleting a record removes its row and shifts every higher id down by
//! one, so ids are positions, not stable identities; a caller holding an id
//! across deletions must tolerate lookups that miss or hit a different
//! record. The reconciler's drop-on-miss policy is built for exactly that.
use vstd::prelude::*;

use crate::models::{NewTodo, TagsFrequency, Todo, TodoModel, opt_int};
use crate::tags::{
    nonempty_pred, split_commas_spec, split_commas, lemma_filter_elems, tag_order, sort_strings,
    lemma_tag_order_total,
};
use vstd::relations::sorted_by;

verus! {

/// The in-memory store behind the reconciler. Its rows are the store's
/// whole state; `url` names where the owner keeps it and is not
/// interpreted here.
#[derive(Debug)]
pub struct Dal {
    pub url: String,
    pub rows: Vec<Todo>,
}

/// A record's model, for mapping a row vector to its view.
pub open spec fn todo_view_map() -> spec_fn(Todo) -> TodoModel {
    |t: Todo| t@
}

/// Indexing through the row view: position by position, the store's view
/// is the view of its rows.
pub proof fn lemma_rows_view(rows: Seq<Todo>)
    ensures
        rows.map_values(todo_view_map()).len() == rows.len(),
        forall|i: int|
            0 <= i < rows.len() ==> rows.map_values(todo_view_map())[i] == rows[i]@,
{
    assert forall|i: int|
        0 <= i < rows.len() implies rows.map_values(todo_view_map())[i] == rows[i]@ by {
        assert((todo_view_map())(rows[i]) == rows[i]@);
    }
}

impl View for Dal {
    type V = Seq<TodoModel>;

    open spec fn view(&self) -> Seq<TodoModel> {
        self.rows@.map_values(todo_view_map())
    }
}

impl Dal {
    /// The store's standing invariant: ids are the positions shifted by
    /// one, and every record's `flags` value has a status token.
    pub open spec fn inv(self) -> bool {
        &&& self@.len() < 0x7fff_ffff
        &&& forall|i: int| 0 <= i < self@.len() ==> (#[trigger] self@[i]).id == i + 1
        &&& forall|i: int|
            0 <= i < self@.len() ==> ((#[trigger] self@[i]).flags == 1 || self@[i].flags == 2
                || self@[i].flags == 4)
    }

    /// An empty store.
    pub fn new(url: String) -> (r: Dal)
        ensures
            r.inv(),
            r@ == Seq::<TodoModel>::empty(),
            r.url == url,
    {
        let r = Dal { url, rows: Vec::new() };
        proof {
            assert(r@ =~= Seq::<TodoModel>::empty());
        }
        r
    }

    /// Appends a record under the next free id and returns it. Exactly one
    /// record is added.
    pub fn insert_todo(&mut self, bm: NewTodo) -> (r: Todo)
        requires
            old(self).inv(),
            old(self)@.len() + 1 < 0x7fff_ffff,
            bm.flags == 1 || bm.flags == 2 || bm.flags == 4,
        ensures
            final(self).inv(),
            final(self)@ == old(self)@.push(r@),
            r@ == (TodoModel {
                id: old(self)@.len() as int + 1,
                parent_id: opt_int(bm.parent_id),
                todo: bm.todo@,
                metadata: bm.metadata@,
                tags: bm.tags@,
                desc: bm.desc@,
                path: bm.path@,
                flags: bm.flags as int,
                last_update_ts: 0,
                created_at: 0,
            }),
            final(self).url == old(self).url,
    {
        let id: i32 = (self.rows.len() as i32) + 1;
        let rec = Todo {
            id,
            parent_id: bm.parent_id,
            todo: bm.todo,
            metadata: bm.metadata,
            tags: bm.tags,
            desc: bm.desc,
            path: bm.path,
            flags: bm.flags,
            last_update_ts: 0,
            created_at: 0,
        };
        let out = rec.clone();
        self.rows.push(rec);
        proof {
            lemma_rows_view(self.rows@);
            lemma_rows_view(old(self).rows@);
            assert(self@ =~= old(self)@.push(out@));
        }
        out
    }

    /// The record under an id, or nothing: an id resolves exactly when it
    /// lies in `1..=len`, and then names the record at position `id - 1`.
    pub fn get_todo_by_id(&self, id_: i32) -> (r: Option<Todo>)
        requires
            self.inv(),
        ensures
            1 <= id_ <= self@.len() ==> (r matches Some(t) && t@ == self@[id_ - 1]),
            !(1 <= id_ <= self@.len()) ==> r is None,
    {
        proof {
            lemma_rows_view(self.rows@);
        }
        if 1 <= id_ && (id_ as usize) <= self.rows.len() {
            Some(self.rows[(id_ as usize) - 1].clone())
        } else {
            None
        }
    }

    /// Overwrites the record under `bm.id` with `bm`'s content, keeping the
    /// stored id and timestamps; reports whether the id resolved.
    pub fn update_todo(&mut self, bm: Todo) -> (r: bool)
        requires
            old(self).inv(),
            bm.flags == 1 || bm.flags == 2 || bm.flags == 4,
        ensures
            final(self).inv(),
            r == (1 <= bm@.id <= old(self)@.len()),
            r ==> final(self)@ == old(self)@.update(
                bm@.id - 1,
                (TodoModel {
                    id: bm@.id,
                    parent_id: bm@.parent_id,
                    todo: bm@.todo,
                    metadata: bm@.metadata,
                    tags: bm@.tags,
                    desc: bm@.desc,
                    path: bm@.path,
                    flags: bm@.flags,
                    last_update_ts: old(self)@[bm@.id - 1].last_update_ts,
                    created_at: old(self)@[bm@.id - 1].created_at,
                }),
            ),
            !r ==> final(self)@ == old(self)@,
            final(self).url == old(self).url,
    {
        if 1 <= bm.id && (bm.id as usize) <= self.rows.len() {
            let i = (bm.id as usize) - 1;
            let ts = self.rows[i].last_update_ts;
            let ca = self.rows[i].created_at;
            let rec = Todo {
                id: bm.id,
                parent_id: bm.parent_id,
                todo: bm.todo,
                metadata: bm.metadata,
                tags: bm.tags,
                desc: bm.desc,
                path: bm.path,
                flags: bm.flags,
                last_update_ts: ts,
                created_at: ca,
            };
            self.rows.set(i, rec);
            proof {
                lemma_rows_view(self.rows@);
                lemma_rows_view(old(self).rows@);
                assert(self@ =~= old(self)@.update(
                    bm@.id - 1,
                    (TodoModel {
                        id: bm@.id,
                        parent_id: bm@.parent_id,
                        todo: bm@.todo,
                        metadata: bm@.metadata,
                        tags: bm@.tags,
                        desc: bm@.desc,
                        path: bm@.path,
                        flags: bm@.flags,
                        last_update_ts: old(self)@[bm@.id - 1].last_update_ts,
                        created_at: old(self)@[bm@.id - 1].created_at,
                    }),
                ));
            }
            true
        } else {
            proof {
                assert(self@ =~= old(self)@);
            }
            false
        }
    }

    /// Deletes the record under an id and compacts: every remaining record
    /// with a higher id moves down by one, keeping ids contiguous from 1.
    /// Returns how many rows were removed (one or zero).
    pub fn delete_todo2(&mut self, id_: i32) -> (r: usize)
        requires
            old(self).inv(),
        ensures
            final(self).inv(),
            1 <= id_ <= old(self)@.len() ==> r == 1 && final(self)@.len() == old(self)@.len() - 1
                && (forall|i: int| 0 <= i < id_ - 1 ==> final(self)@[i] == old(self)@[i]) && (forall|
                i: int,
            |
                id_ - 1 <= i < final(self)@.len() ==> final(self)@[i] == (TodoModel {
                    id: i + 1,
                    ..old(self)@[i + 1]
                })),
            !(1 <= id_ <= old(self)@.len()) ==> r == 0 && final(self)@ == old(self)@,
            final(self).url == old(self).url,
    {
        if !(1 <= id_ && (id_ as usize) <= self.rows.len()) {
            proof {
                assert(self@ =~= old(self)@);
            }
            return 0;
        }
        let pos = (id_ as usize) - 1;
        let n = self.rows.len();
        let mut out: Vec<Todo> = Vec::new();
        let mut i: usize = 0;
        proof {
            lemma_rows_view(old(self).rows@);
        }
        while i < n
            invariant
                i <= n,
                pos < n,
                n == old(self)@.len(),
                old(self).inv(),
                old(self).rows@.len() == n,
                forall|k: int|
                    0 <= k < n ==> old(self).rows@[k]@ == old(self)@[k],
                out@.len() == if i <= pos {
                    i as int
                } else {
                    i - 1
                },
                forall|k: int|
                    0 <= k < out@.len() && k < pos ==> (#[trigger] out@[k])@ == old(self)@[k],
                forall|k: int|
                    pos <= k < out@.len() ==> (#[trigger] out@[k])@ == (TodoModel {
                        id: k + 1,
                        ..old(self)@[k + 1]
                    }),
                self.rows == old(self).rows,
                self.url == old(self).url,
            decreases n - i,
        {
            if i != pos {
                let mut rec = self.rows[i].clone();
                if i > pos {
                    proof {
                        assert(rec@ == old(self)@[i as int]);
                        assert(old(self)@[i as int].id == i + 1);
                    }
                    rec.id = i as i32;
                }
                out.push(rec);
            }
            i = i + 1;
        }
        self.rows = out;
        proof {
            lemma_rows_view(self.rows@);
            assert(self@.len() == old(self)@.len() - 1);
        }
        1
    }

    /// Keeps only the first record, if any.
    pub fn clean_table(&mut self)
        requires
            old(self).inv(),
        ensures
            final(self).inv(),
            old(self)@.len() == 0 ==> final(self)@ == old(self)@,
            old(self)@.len() > 0 ==> final(self)@ == old(self)@.take(1),
            final(self).url == old(self).url,
    {
        self.rows.truncate(1);
        proof {
            lemma_rows_view(self.rows@);
            lemma_rows_view(old(self).rows@);
            if old(self)@.len() > 0 {
                assert(self@ =~= old(self)@.take(1));
            } else {
                assert(self@ =~= old(self)@);
            }
        }
    }

    /// Records whose text equals the query exactly, in store order.
    pub fn get_todos_by_todo(&self, todo_: &String) -> (r: Vec<Todo>)
        requires
            self.inv(),
        ensures
            r@.map_values(todo_view_map()) == self@.filter(text_eq_pred(todo_@)),
    {
        broadcast use vstd::prelude::Seq::lemma_filter_push;

        let mut out: Vec<Todo> = Vec::new();
        let mut i: usize = 0;
        proof {
            reveal(Seq::filter);
            assert(self@.take(0) =~= Seq::<TodoModel>::empty());
            assert(out@.map_values(todo_view_map()) =~= self@.take(0).filter(
                text_eq_pred(todo_@),
            ));
        }
        while i < self.rows.len()
            invariant
                self.inv(),
                i <= self@.len(),
                self.rows@.len() == self@.len(),
                out@.map_values(todo_view_map()) == self@.take(i as int).filter(
                    text_eq_pred(todo_@),
                ),
            decreases self@.len() - i,
        {
            proof {
                lemma_rows_view(self.rows@);
                assert(self@.take(i + 1) =~= self@.take(i as int).push(self@[i as int]));
                assert(self@.take(i + 1).filter(text_eq_pred(todo_@)) == self@.take(
                    i as int,
                ).push(self@[i as int]).filter(text_eq_pred(todo_@)));
                self@.take(i as int).lemma_filter_push(self@[i as int], text_eq_pred(todo_@));
            }
            if self.rows[i].todo.eq(todo_) {
                let ghost pre = out@;
                out.push(self.rows[i].clone());
                proof {
                    lemma_rows_view(out@);
                    lemma_rows_view(pre);
                    assert((text_eq_pred(todo_@))(self@[i as int]));
                    assert(out@.map_values(todo_view_map()) =~= self@.take(i as int).filter(
                        text_eq_pred(todo_@),
                    ).push(self@[i as int]));
                    assert(out@.map_values(todo_view_map()) == self@.take(i + 1).filter(
                        text_eq_pred(todo_@),
                    ));
                }
            } else {
                proof {
                    assert(!(text_eq_pred(todo_@))(self@[i as int]));
                    assert(out@.map_values(todo_view_map()) == self@.take(i + 1).filter(
                        text_eq_pred(todo_@),
                    ));
                }
            }
            i = i + 1;
        }
        proof {
            assert(self@.take(self@.len() as int) =~= self@);
        }
        out
    }

    /// Whether any record carries exactly this text.
    pub fn todo_exists(&self, text: &String) -> (r: bool)
        requires
            self.inv(),
        ensures
            r == exists|i: int| 0 <= i < self@.len() && (#[trigger] self@[i]).todo == text@,
    {
        let mut i: usize = 0;
        while i < self.rows.len()
            invariant
                self.inv(),
                i <= self@.len(),
                self.rows@.len() == self@.len(),
                forall|k: int| 0 <= k < i ==> !((#[trigger] self@[k]).todo == text@),
            decreases self@.len() - i,
        {
            proof {
                lemma_rows_view(self.rows@);
            }
            if self.rows[i].todo.eq(text) {
                proof {
                    assert(self@[i as int].todo == text@);
                }
                return true;
            }
            i = i + 1;
        }
        false
    }

    /// Every record, in store order.
    pub fn get_todos(&self) -> (r: Vec<Todo>)
        requires
            self.inv(),
        ensures
            r@.map_values(todo_view_map()) == self@,
    {
        let mut out: Vec<Todo> = Vec::new();
        let mut i: usize = 0;
        proof {
            assert(out@.map_values(todo_view_map()) =~= self@.take(0));
        }
        while i < self.rows.len()
            invariant
                self.inv(),
                i <= self@.len(),
                self.rows@.len() == self@.len(),
                out@.map_values(todo_view_map()) == self@.take(i as int),
            decreases self@.len() - i,
        {
            let ghost pre = out@;
            out.push(self.rows[i].clone());
            proof {
                lemma_rows_view(self.rows@);
                lemma_rows_view(out@);
                lemma_rows_view(pre);
                assert(out@.map_values(todo_view_map()) =~= self@.take(i + 1));
            }
            i = i + 1;
        }
        proof {
            assert(self@.take(self@.len() as int) =~= self@);
        }
        out
    }
}

impl Dal {
    /// The frequency table of all tags: every tag that occurs anywhere,
    /// exactly once, with how often it occurs over all records (counting
    /// repetitions inside one blob), ordered by count descending.
    pub fn get_all_tags(&self) -> (r: Vec<TagsFrequency>)
        requires
            self.inv(),
        ensures
            forall|k: int| 0 <= k < r@.len() ==> freq_entry_ok(self@, #[trigger] r@[k]),
            forall|k1: int, k2: int| 0 <= k1 < k2 < r@.len() ==> r@[k1].tag@ != r@[k2].tag@,
            forall|k1: int, k2: int| 0 <= k1 < k2 < r@.len() ==> r@[k1].n >= r@[k2].n,
            forall|t: Seq<char>|
                tag_count(self@, t) > 0 ==> exists|k: int|
                    0 <= k < r@.len() && (#[trigger] r@[k]).tag@ == t,
    {
        frequencies_of(&self.rows)
    }

    /// Every occurring tag once, sorted ascending.
    pub fn get_all_tags_as_vec(&self) -> (r: Vec<String>)
        requires
            self.inv(),
        ensures
            sorted_by(r.deep_view(), tag_order()),
            forall|t: Seq<char>|
                #[trigger] r.deep_view().contains(t) <==> tag_count(self@, t) > 0,
    {
        broadcast use vstd::seq_lib::group_to_multiset_ensures;

        let freqs = self.get_all_tags();
        let mut names: Vec<String> = Vec::new();
        let mut i: usize = 0;
        while i < freqs.len()
            invariant
                self.inv(),
                i <= freqs@.len(),
                names.deep_view().len() == i,
                forall|k: int|
                    0 <= k < i ==> (#[trigger] names.deep_view()[k]) == freqs@[k].tag@,
                forall|k: int| 0 <= k < freqs@.len() ==> freq_entry_ok(self@, #[trigger] freqs@[k]),
                forall|t: Seq<char>|
                    tag_count(self@, t) > 0 ==> exists|k: int|
                        0 <= k < freqs@.len() && (#[trigger] freqs@[k]).tag@ == t,
            decreases freqs@.len() - i,
        {
            let ghost pre = names.deep_view();
            names.push(freqs[i].tag.clone());
            proof {
                assert(names.deep_view() =~= pre.push(freqs@[i as int].tag@));
            }
            i = i + 1;
        }
        let r = sort_strings(names);
        proof {
            lemma_tag_order_total();
            assert forall|t: Seq<char>| #[trigger] r.deep_view().contains(t) <==> tag_count(
                self@,
                t,
            ) > 0 by {
                let nd = names.deep_view();
                assert(r.deep_view().to_multiset() == nd.to_multiset());
                if r.deep_view().contains(t) {
                    assert(r.deep_view().to_multiset().count(t) > 0);
                    assert(nd.contains(t));
                    let k = choose|k: int| 0 <= k < nd.len() && nd[k] == t;
                    assert(freqs@[k].tag@ == t);
                    assert(freq_entry_ok(self@, freqs@[k]));
                }
                if tag_count(self@, t) > 0 {
                    let k = choose|k: int|
                        0 <= k < freqs@.len() && (#[trigger] freqs@[k]).tag@ == t;
                    assert(nd[k] == t);
                    assert(nd.contains(t));
                    assert(nd.to_multiset().count(t) > 0);
                    assert(r.deep_view().contains(t));
                }
            }
        }
        r
    }

    /// The frequency table restricted to records whose blob contains the
    /// given tag as a comma-delimited token, same ordering and counting as
    /// the full table.
    pub fn get_related_tags(&self, tag: &str) -> (r: Vec<TagsFrequency>)
        requires
            self.inv(),
        ensures
            ({
                let rel = self@.filter(related_pred(tag@));
                &&& forall|k: int| 0 <= k < r@.len() ==> freq_entry_ok(rel, #[trigger] r@[k])
                &&& forall|k1: int, k2: int|
                    0 <= k1 < k2 < r@.len() ==> r@[k1].tag@ != r@[k2].tag@
                &&& forall|k1: int, k2: int| 0 <= k1 < k2 < r@.len() ==> r@[k1].n >= r@[k2].n
                &&& forall|t: Seq<char>|
                    tag_count(rel, t) > 0 ==> exists|k: int|
                        0 <= k < r@.len() && (#[trigger] r@[k]).tag@ == t
            }),
    {
        let mut needle_s = String::new();
        needle_s.append(",");
        needle_s.append(tag);
        needle_s.append(",");
        proof {
            reveal_strlit(",");
            assert(needle_s@ =~= seq![','] + tag@ + seq![',']);
        }
        let needle = crate::chars::str_to_chars(needle_s.as_str());
        let mut picked: Vec<Todo> = Vec::new();
        let mut i: usize = 0;
        proof {
            reveal(Seq::filter);
            assert(self@.take(0) =~= Seq::<TodoModel>::empty());
            assert(picked@.map_values(todo_view_map()) =~= self@.take(0).filter(
                related_pred(tag@),
            ));
        }
        while i < self.rows.len()
            invariant
                self.inv(),
                i <= self@.len(),
                self.rows@.len() == self@.len(),
                needle@ == seq![','] + tag@ + seq![','],
                picked@.map_values(todo_view_map()) == self@.take(i as int).filter(
                    related_pred(tag@),
                ),
            decreases self@.len() - i,
        {
            proof {
                lemma_rows_view(self.rows@);
                assert(self@.take(i + 1) =~= self@.take(i as int).push(self@[i as int]));
                self@.take(i as int).lemma_filter_push(self@[i as int], related_pred(tag@));
            }
            let blob = crate::chars::str_to_chars(self.rows[i].tags.as_str());
            proof {
                assert(blob@ == self@[i as int].tags);
            }
            if contains_needle(&blob, &needle) {
                let ghost pre = picked@;
                picked.push(self.rows[i].clone());
                proof {
                    lemma_rows_view(picked@);
                    lemma_rows_view(pre);
                    let wi = choose|wi: int|
                        0 <= wi && wi + needle@.len() <= blob@.len() && #[trigger] blob@.subrange(
                            wi,
                            wi + needle@.len(),
                        ) == needle@;
                    assert(self@[i as int].tags.subrange(wi, wi + tag@.len() + 2) == seq![',']
                        + tag@ + seq![',']);
                    assert(has_delimited(self@[i as int].tags, tag@));
                    assert((related_pred(tag@))(self@[i as int]));
                    assert(picked@.map_values(todo_view_map()) =~= self@.take(i as int).filter(
                        related_pred(tag@),
                    ).push(self@[i as int]));
                }
            } else {
                proof {
                    if has_delimited(self@[i as int].tags, tag@) {
                        let wj = choose|wj: int|
                            0 <= wj && wj + tag@.len() + 2 <= self@[i as int].tags.len()
                                && #[trigger] self@[i as int].tags.subrange(
                                wj,
                                wj + tag@.len() + 2,
                            ) == seq![','] + tag@ + seq![','];
                        assert(blob@.subrange(wj, wj + needle@.len()) == needle@);
                        assert(false);
                    }
                    assert(!(related_pred(tag@))(self@[i as int]));
                }
            }
            i = i + 1;
        }
        proof {
            assert(self@.take(self@.len() as int) =~= self@);
        }
        frequencies_of(&picked)
    }
}

/// A blob that contains the tag as a comma-delimited token.
pub open spec fn has_delimited(blob: Seq<char>, tag: Seq<char>) -> bool {
    exists|i: int|
        0 <= i && i + tag.len() + 2 <= blob.len() && #[trigger] blob.subrange(
            i,
            i + tag.len() + 2,
        ) == seq![','] + tag + seq![',']
}

/// Records whose blob contains the tag as a comma-delimited token.
pub open spec fn related_pred(tag: Seq<char>) -> spec_fn(TodoModel) -> bool {
    |t: TodoModel| has_delimited(t.tags, tag)
}

/// Substring search: whether the needle occurs anywhere in the haystack.
fn contains_needle(hay: &Vec<char>, nd: &Vec<char>) -> (r: bool)
    requires
        nd@.len() > 0,
    ensures
        r == exists|i: int|
            0 <= i && i + nd@.len() <= hay@.len() && #[trigger] hay@.subrange(i, i + nd@.len())
                == nd@,
{
    let m = nd.len();
    let n = hay.len();
    if m > n {
        proof {
            assert forall|i: int| !(0 <= i && i + nd@.len() <= hay@.len() && #[trigger] hay@.subrange(
                i,
                i + nd@.len(),
            ) == nd@) by {}
        }
        return false;
    }
    let mut i: usize = 0;
    while i <= n - m
        invariant
            m == nd@.len(),
            n == hay@.len(),
            m <= n,
            i <= n - m + 1,
            forall|ii: int|
                0 <= ii < i ==> #[trigger] hay@.subrange(ii, ii + nd@.len()) != nd@,
        decreases n - m - i + 1,
    {
        let mut j: usize = 0;
        while j < m && hay[i + j] == nd[j]
            invariant
                m == nd@.len(),
                n == hay@.len(),
                i + m <= n,
                j <= m,
                forall|jj: int| 0 <= jj < j ==> hay@[i + jj] == nd@[jj],
            decreases m - j,
        {
            j = j + 1;
        }
        if j == m {
            proof {
                assert(hay@.subrange(i as int, i + nd@.len()) =~= nd@);
            }
            return true;
        }
        proof {
            assert(hay@[i + j] != nd@[j as int]);
            assert(hay@.subrange(i as int, i + nd@.len())[j as int] == hay@[i + j]);
            assert(hay@.subrange(i as int, i + nd@.len()) != nd@);
        }
        i = i + 1;
    }
    false
}

/// Records carrying exactly the given text.
pub open spec fn text_eq_pred(text: Seq<char>) -> spec_fn(TodoModel) -> bool {
    |t: TodoModel| t.todo == text
}

/// Tag tokens equal to one given tag.
pub open spec fn piece_eq_pred(tag: Seq<char>) -> spec_fn(Seq<char>) -> bool {
    |p: Seq<char>| p == tag
}

/// Every non-empty tag token of every record's blob, in store order, with
/// repetitions: the base of the frequency analysis.
pub open spec fn tokens_of(rows: Seq<TodoModel>) -> Seq<Seq<char>>
    decreases rows.len(),
{
    if rows.len() == 0 {
        Seq::<Seq<char>>::empty()
    } else {
        tokens_of(rows.drop_last()) + split_commas_spec(rows.last().tags).filter(nonempty_pred())
    }
}

/// How often a tag occurs over all records, counting repeated occurrences
/// inside one blob separately.
pub open spec fn tag_count(rows: Seq<TodoModel>, tag: Seq<char>) -> nat {
    tokens_of(rows).filter(piece_eq_pred(tag)).len()
}

/// A count clamped into the row type's range.
pub open spec fn clip_count(n: nat) -> int {
    if n > 0x7fff_ffff {
        0x7fff_ffff
    } else {
        n as int
    }
}

proof fn lemma_tokens_push(rows: Seq<TodoModel>, r: TodoModel)
    ensures
        tokens_of(rows.push(r)) == tokens_of(rows) + split_commas_spec(r.tags).filter(
            nonempty_pred(),
        ),
{
    assert(rows.push(r).drop_last() =~= rows);
}

/// All the non-empty tag tokens of the given rows, in order.
fn collect_tokens(rows: &Vec<Todo>) -> (r: Vec<String>)
    ensures
        r.deep_view() == tokens_of(rows@.map_values(todo_view_map())),
        forall|j: int| 0 <= j < r.deep_view().len() ==> (#[trigger] r.deep_view()[j]).len() > 0,
{
    broadcast use vstd::seq_lib::group_filter_ensures;

    let ghost model = rows@.map_values(todo_view_map());
    let mut toks: Vec<String> = Vec::new();
    let mut i: usize = 0;
    proof {
        lemma_rows_view(rows@);
        assert(model.take(0) =~= Seq::<TodoModel>::empty());
        assert(toks.deep_view() =~= tokens_of(model.take(0)));
    }
    while i < rows.len()
        invariant
            i <= rows@.len(),
            model == rows@.map_values(todo_view_map()),
            model.len() == rows@.len(),
            forall|k: int| 0 <= k < model.len() ==> (#[trigger] model[k]) == rows@[k]@,
            toks.deep_view() == tokens_of(model.take(i as int)),
        decreases rows@.len() - i,
    {
        let pieces = split_commas(rows[i].tags.as_str());
        let ghost blob_toks = split_commas_spec(model[i as int].tags).filter(nonempty_pred());
        let ghost base = toks.deep_view();
        let mut j: usize = 0;
        proof {
            reveal(Seq::filter);
            assert(pieces.deep_view().take(0) =~= Seq::<Seq<char>>::empty());
            assert(toks.deep_view() =~= base + pieces.deep_view().take(0).filter(
                nonempty_pred(),
            ));
        }
        while j < pieces.len()
            invariant
                j <= pieces@.len(),
                pieces.deep_view().len() == pieces@.len(),
                pieces.deep_view() == split_commas_spec(model[i as int].tags),
                i < model.len(),
                toks.deep_view() == base + pieces.deep_view().take(j as int).filter(
                    nonempty_pred(),
                ),
            decreases pieces@.len() - j,
        {
            let ghost pv = pieces.deep_view();
            proof {
                assert(pv.take(j + 1) =~= pv.take(j as int).push(pv[j as int]));
                pv.take(j as int).lemma_filter_push(pv[j as int], nonempty_pred());
            }
            if !pieces[j].as_str().is_empty() {
                let ghost pre = toks.deep_view();
                toks.push(pieces[j].clone());
                proof {
                    assert((nonempty_pred())(pv[j as int]));
                    assert(toks.deep_view() =~= pre.push(pv[j as int]));
                    assert(toks.deep_view() =~= base + pv.take(j + 1).filter(nonempty_pred()));
                }
            } else {
                proof {
                    assert(!(nonempty_pred())(pv[j as int]));
                }
            }
            j = j + 1;
        }
        proof {
            let pv = pieces.deep_view();
            assert(pv.take(pv.len() as int) =~= pv);
            lemma_tokens_push(model.take(i as int), model[i as int]);
            assert(model.take(i + 1) =~= model.take(i as int).push(model[i as int]));
            assert(toks.deep_view() =~= tokens_of(model.take(i + 1)));
        }
        i = i + 1;
    }
    proof {
        assert(model.take(model.len() as int) =~= model);
        assert forall|j: int|
            0 <= j < toks.deep_view().len() implies (#[trigger] toks.deep_view()[j]).len()
            > 0 by {
            lemma_tokens_nonempty(model, j);
        }
    }
    toks
}

/// Counts each distinct token of `toks`: parallel vectors of names and
/// occurrence counts, names distinct, every token covered.
fn count_tokens(toks: &Vec<String>) -> (r: (Vec<String>, Vec<usize>))
    ensures
        r.0.deep_view().len() == r.1@.len(),
        forall|k1: int, k2: int|
            0 <= k1 < k2 < r.0.deep_view().len() ==> r.0.deep_view()[k1] != r.0.deep_view()[k2],
        forall|k: int|
            0 <= k < r.0.deep_view().len() ==> (#[trigger] r.1@[k]) as nat == toks.deep_view().filter(
                piece_eq_pred(r.0.deep_view()[k]),
            ).len(),
        forall|j: int|
            0 <= j < toks.deep_view().len() ==> exists|k: int|
                0 <= k < r.0.deep_view().len() && r.0.deep_view()[k] == #[trigger] toks.deep_view()[j],
        forall|k: int|
            0 <= k < r.0.deep_view().len() ==> toks.deep_view().contains(
                #[trigger] r.0.deep_view()[k],
            ),
{
    broadcast use vstd::seq_lib::group_filter_ensures;

    let ghost tv = toks.deep_view();
    let mut names: Vec<String> = Vec::new();
    let mut counts: Vec<usize> = Vec::new();
    let mut i: usize = 0;
    proof {
        reveal(Seq::filter);
        assert(tv.take(0) =~= Seq::<Seq<char>>::empty());
    }
    while i < toks.len()
        invariant
            i <= toks@.len(),
            tv == toks.deep_view(),
            tv.len() == toks@.len(),
            names.deep_view().len() == counts@.len(),
            forall|k1: int, k2: int|
                0 <= k1 < k2 < names.deep_view().len() ==> names.deep_view()[k1]
                    != names.deep_view()[k2],
            forall|k: int|
                0 <= k < names.deep_view().len() ==> (#[trigger] counts@[k]) as nat == tv.take(
                    i as int,
                ).filter(piece_eq_pred(names.deep_view()[k])).len(),
            forall|k: int| 0 <= k < counts@.len() ==> (#[trigger] counts@[k]) as nat <= i,
            forall|j: int|
                0 <= j < i ==> exists|k: int|
                    0 <= k < names.deep_view().len() && names.deep_view()[k] == #[trigger] tv[j],
            forall|k: int|
                0 <= k < names.deep_view().len() ==> tv.contains(#[trigger] names.deep_view()[k]),
        decreases toks@.len() - i,
    {
        let ghost nv = names.deep_view();
        let tok = &toks[i];
        proof {
            assert(tv.take(i + 1) =~= tv.take(i as int).push(tv[i as int]));
        }
        let mut found: bool = false;
        let mut at: usize = 0;
        let mut k: usize = 0;
        while k < names.len() && !found
            invariant
                k <= names@.len(),
                nv == names.deep_view(),
                nv.len() == names@.len(),
                tv == toks.deep_view(),
                i < tv.len(),
                tok@ == tv[i as int],
                !found ==> forall|k2: int| 0 <= k2 < k ==> nv[k2] != tv[i as int],
                found ==> at < nv.len() && nv[at as int] == tv[i as int],
            decreases names@.len() - k + if found {
                0int
            } else {
                1int
            },
        {
            if names[k].eq(tok) {
                found = true;
                at = k;
            } else {
                k = k + 1;
            }
        }
        if found {
            let c = counts[at];
            counts.set(at, c + 1);
            proof {
                assert forall|k2: int|
                    0 <= k2 < nv.len() implies (#[trigger] counts@[k2]) as nat == tv.take(
                    i + 1,
                ).filter(piece_eq_pred(nv[k2])).len() by {
                    tv.take(i as int).lemma_filter_push(tv[i as int], piece_eq_pred(nv[k2]));
                    if k2 == at {
                        assert((piece_eq_pred(nv[k2]))(tv[i as int]));
                    } else {
                        assert(nv[k2] != nv[at as int]);
                        assert(!(piece_eq_pred(nv[k2]))(tv[i as int]));
                    }
                }
                assert forall|j: int| 0 <= j < i + 1 implies exists|k2: int|
                    0 <= k2 < names.deep_view().len() && names.deep_view()[k2]
                        == #[trigger] tv[j] by {
                    if j == i {
                        assert(names.deep_view()[at as int] == tv[j]);
                    }
                }
            }
        } else {
            names.push(tok.clone());
            counts.push(1);
            proof {
                assert(names.deep_view() =~= nv.push(tv[i as int]));
                assert forall|j2: int| 0 <= j2 < i implies tv[j2] != tv[i as int] by {
                    if tv[j2] == tv[i as int] {
                        let kw = choose|kw: int| 0 <= kw < nv.len() && nv[kw] == tv[j2];
                        assert(nv[kw] != tv[i as int]);
                    }
                }
                assert forall|e: Seq<char>| tv.take(i as int).contains(e) implies !(piece_eq_pred(
                    tv[i as int],
                ))(e) by {
                    let jw = choose|jw: int|
                        0 <= jw < tv.take(i as int).len() && tv.take(i as int)[jw] == e;
                    assert(tv[jw] != tv[i as int]);
                }
                tv.take(i as int).lemma_all_neg_filter_empty(piece_eq_pred(tv[i as int]));
                assert forall|k2: int|
                    0 <= k2 < names.deep_view().len() implies (#[trigger] counts@[k2]) as nat
                    == tv.take(i + 1).filter(piece_eq_pred(names.deep_view()[k2])).len() by {
                    tv.take(i as int).lemma_filter_push(
                        tv[i as int],
                        piece_eq_pred(names.deep_view()[k2]),
                    );
                    if k2 < nv.len() {
                        assert(nv[k2] != tv[i as int]);
                        assert(!(piece_eq_pred(nv[k2]))(tv[i as int]));
                    } else {
                        assert(names.deep_view()[k2] == tv[i as int]);
                        assert((piece_eq_pred(tv[i as int]))(tv[i as int]));
                        assert(tv.take(i + 1).filter(piece_eq_pred(tv[i as int])).len() == 1);
                    }
                }
                assert forall|j: int| 0 <= j < i + 1 implies exists|k2: int|
                    0 <= k2 < names.deep_view().len() && names.deep_view()[k2]
                        == #[trigger] tv[j] by {
                    if j == i {
                        assert(names.deep_view()[nv.len() as int] == tv[j]);
                    } else {
                        let kw = choose|kw: int| 0 <= kw < nv.len() && nv[kw] == tv[j];
                        assert(names.deep_view()[kw] == tv[j]);
                    }
                }
                assert(tv.contains(tv[i as int]));
            }
        }
        i = i + 1;
    }
    proof {
        assert(tv.take(tv.len() as int) =~= tv);
    }
    (names, counts)
}

/// One well-formed frequency row: a non-empty tag that does occur, with
/// its clamped occurrence count.
pub open spec fn freq_entry_ok(rows: Seq<TodoModel>, e: TagsFrequency) -> bool {
    &&& e.tag@.len() > 0
    &&& tag_count(rows, e.tag@) > 0
    &&& e.n as int == clip_count(tag_count(rows, e.tag@))
}

#[verifier::spinoff_prover]
proof fn lemma_freq_insert_order(
    ok: spec_fn(TagsFrequency) -> bool,
    pre: Seq<TagsFrequency>,
    entry: TagsFrequency,
    pos: int,
    out: Seq<TagsFrequency>,
)
    requires
        out == pre.insert(pos, entry),
        0 <= pos <= pre.len(),
        ok(entry),
        forall|k: int| 0 <= k < pre.len() ==> ok(#[trigger] pre[k]),
        forall|k1: int, k2: int| 0 <= k1 < k2 < pre.len() ==> pre[k1].n >= pre[k2].n,
        forall|k: int| 0 <= k < pos ==> (#[trigger] pre[k]).n >= entry.n,
        pos < pre.len() ==> pre[pos].n < entry.n,
    ensures
        forall|k: int| 0 <= k < out.len() ==> ok(#[trigger] out[k]),
        forall|k1: int, k2: int| 0 <= k1 < k2 < out.len() ==> out[k1].n >= out[k2].n,
{
    pre.insert_ensures(pos, entry);
    assert forall|k: int| 0 <= k < out.len() implies ok(#[trigger] out[k]) by {
        if k < pos {
            assert(out[k] == pre[k]);
        } else if k > pos {
            assert(out[k] == pre[k - 1]);
        }
    }
    assert forall|k1: int, k2: int| 0 <= k1 < k2 < out.len() implies out[k1].n >= out[k2].n by {
        if k1 < pos {
            assert(out[k1] == pre[k1]);
        }
        if k2 > pos {
            assert(out[k2] == pre[k2 - 1]);
        }
    }
}

#[verifier::spinoff_prover]
proof fn lemma_freq_insert_backward(
    nv: Seq<Seq<char>>,
    idx: int,
    pre: Seq<TagsFrequency>,
    entry: TagsFrequency,
    pos: int,
    out: Seq<TagsFrequency>,
)
    requires
        out == pre.insert(pos, entry),
        0 <= pos <= pre.len(),
        0 <= idx < nv.len(),
        entry.tag@ == nv[idx],
        forall|k: int|
            0 <= k < pre.len() ==> exists|j: int|
                0 <= j < idx && nv[j] == (#[trigger] pre[k]).tag@,
    ensures
        forall|k: int|
            0 <= k < out.len() ==> exists|j: int|
                0 <= j < idx + 1 && nv[j] == (#[trigger] out[k]).tag@,
{
    pre.insert_ensures(pos, entry);
    assert forall|k: int| 0 <= k < out.len() implies exists|j: int|
        0 <= j < idx + 1 && nv[j] == (#[trigger] out[k]).tag@ by {
        if k == pos {
            assert(nv[idx] == out[k].tag@);
        } else {
            let kk = if k < pos {
                k
            } else {
                k - 1
            };
            assert(out[k] == pre[kk]);
            let jo = choose|jo: int| 0 <= jo < idx && nv[jo] == pre[kk].tag@;
            assert(nv[jo] == out[k].tag@);
        }
    }
}

#[verifier::spinoff_prover]
proof fn lemma_freq_insert_forward(
    nv: Seq<Seq<char>>,
    idx: int,
    pre: Seq<TagsFrequency>,
    entry: TagsFrequency,
    pos: int,
    out: Seq<TagsFrequency>,
)
    requires
        out == pre.insert(pos, entry),
        0 <= pos <= pre.len(),
        0 <= idx < nv.len(),
        entry.tag@ == nv[idx],
        forall|j: int|
            0 <= j < idx ==> exists|k: int|
                0 <= k < pre.len() && (#[trigger] pre[k]).tag@ == #[trigger] nv[j],
    ensures
        forall|j: int|
            0 <= j < idx + 1 ==> exists|k: int|
                0 <= k < out.len() && (#[trigger] out[k]).tag@ == #[trigger] nv[j],
{
    pre.insert_ensures(pos, entry);
    assert forall|j: int| 0 <= j < idx + 1 implies exists|k: int|
        0 <= k < out.len() && (#[trigger] out[k]).tag@ == #[trigger] nv[j] by {
        if j == idx {
            assert(out[pos].tag@ == nv[j]);
        } else {
            let ko = choose|ko: int| 0 <= ko < pre.len() && pre[ko].tag@ == nv[j];
            let kn = if ko < pos {
                ko
            } else {
                ko + 1
            };
            assert(out[kn].tag@ == nv[j]);
        }
    }
}

#[verifier::spinoff_prover]
proof fn lemma_freq_insert_distinct(
    nv: Seq<Seq<char>>,
    idx: int,
    pre: Seq<TagsFrequency>,
    entry: TagsFrequency,
    pos: int,
    out: Seq<TagsFrequency>,
)
    requires
        out == pre.insert(pos, entry),
        0 <= pos <= pre.len(),
        0 <= idx < nv.len(),
        entry.tag@ == nv[idx],
        forall|k1: int, k2: int| 0 <= k1 < k2 < nv.len() ==> nv[k1] != nv[k2],
        forall|k1: int, k2: int| 0 <= k1 < k2 < pre.len() ==> pre[k1].tag@ != pre[k2].tag@,
        forall|k: int|
            0 <= k < pre.len() ==> exists|j: int|
                0 <= j < idx && nv[j] == (#[trigger] pre[k]).tag@,
    ensures
        forall|k1: int, k2: int| 0 <= k1 < k2 < out.len() ==> out[k1].tag@ != out[k2].tag@,
{
    pre.insert_ensures(pos, entry);
    assert forall|k1: int, k2: int| 0 <= k1 < k2 < out.len() implies out[k1].tag@
        != out[k2].tag@ by {
        if k1 == pos || k2 == pos {
            let oi = if k1 == pos {
                k2 - 1
            } else {
                k1
            };
            if k1 == pos {
                assert(out[k2] == pre[k2 - 1]);
            } else {
                assert(out[k1] == pre[k1]);
            }
            let jo = choose|jo: int| 0 <= jo < idx && nv[jo] == pre[oi].tag@;
            assert(nv[jo] != nv[idx]);
        } else {
            let a = if k1 < pos {
                k1
            } else {
                k1 - 1
            };
            let b = if k2 < pos {
                k2
            } else {
                k2 - 1
            };
            assert(out[k1] == pre[a]);
            assert(out[k2] == pre[b]);
        }
    }
}

/// A well-formed frequency row, as a predicate value.
pub open spec fn freq_ok_pred(rows: Seq<TodoModel>) -> spec_fn(TagsFrequency) -> bool {
    |e: TagsFrequency| freq_entry_ok(rows, e)
}

/// The frequency table of a row list: every occurring tag exactly once,
/// with its count, ordered by count descending.
#[verifier::rlimit(100)]
fn frequencies_of(rows: &Vec<Todo>) -> (r: Vec<TagsFrequency>)
    ensures
        ({
            let model = rows@.map_values(todo_view_map());
            &&& forall|k: int| 0 <= k < r@.len() ==> freq_entry_ok(model, #[trigger] r@[k])
            &&& forall|k1: int, k2: int| 0 <= k1 < k2 < r@.len() ==> r@[k1].tag@ != r@[k2].tag@
            &&& forall|k1: int, k2: int| 0 <= k1 < k2 < r@.len() ==> r@[k1].n >= r@[k2].n
            &&& forall|t: Seq<char>|
                tag_count(model, t) > 0 ==> exists|k: int|
                    0 <= k < r@.len() && (#[trigger] r@[k]).tag@ == t
        }),
{
    broadcast use vstd::seq_lib::group_filter_ensures;

    let ghost model = rows@.map_values(todo_view_map());
    let toks = collect_tokens(rows);
    let (names, counts) = count_tokens(&toks);
    let ghost nv = names.deep_view();
    let ghost tv = toks.deep_view();
    let mut out: Vec<TagsFrequency> = Vec::new();
    let mut idx: usize = 0;
    while idx < names.len()
        invariant
            idx <= names@.len(),
            nv == names.deep_view(),
            tv == toks.deep_view(),
            tv == tokens_of(model),
            nv.len() == names@.len(),
            nv.len() == counts@.len(),
            forall|j: int| 0 <= j < tv.len() ==> (#[trigger] tv[j]).len() > 0,
            forall|k1: int, k2: int| 0 <= k1 < k2 < nv.len() ==> nv[k1] != nv[k2],
            forall|k: int|
                0 <= k < nv.len() ==> (#[trigger] counts@[k]) as nat == tv.filter(
                    piece_eq_pred(nv[k]),
                ).len(),
            forall|k: int| 0 <= k < nv.len() ==> tv.contains(#[trigger] nv[k]),
            forall|k: int| 0 <= k < out@.len() ==> freq_entry_ok(model, #[trigger] out@[k]),
            forall|k1: int, k2: int| 0 <= k1 < k2 < out@.len() ==> out@[k1].n >= out@[k2].n,
            forall|k1: int, k2: int|
                0 <= k1 < k2 < out@.len() ==> out@[k1].tag@ != out@[k2].tag@,
            forall|k: int|
                0 <= k < out@.len() ==> exists|j: int|
                    0 <= j < idx && nv[j] == (#[trigger] out@[k]).tag@,
            forall|j: int|
                0 <= j < idx ==> exists|k: int|
                    0 <= k < out@.len() && (#[trigger] out@[k]).tag@ == #[trigger] nv[j],
        decreases names@.len() - idx,
    {
        let c = counts[idx];
        let n: i32 = if c >= 0x7fff_ffff {
            0x7fff_ffff
        } else {
            c as i32
        };
        let entry = TagsFrequency { n, tag: names[idx].clone() };
        proof {
            let j = choose|j: int| 0 <= j < tv.len() && tv[j] == nv[idx as int];
            tv.lemma_filter_contains(piece_eq_pred(nv[idx as int]), j);
            let fl = tv.filter(piece_eq_pred(nv[idx as int]));
            assert(fl.contains(tv[j]));
            assert(fl.len() > 0);
            assert(freq_entry_ok(model, entry));
        }
        let ghost pre = out@;
        let mut pos: usize = 0;
        while pos < out.len() && out[pos].n >= n
            invariant
                pos <= out@.len(),
                pre == out@,
                forall|k: int| 0 <= k < pos ==> (#[trigger] out@[k]).n >= n,
            decreases out@.len() - pos + 1,
        {
            pos = pos + 1;
        }
        out.insert(pos, entry);
        proof {
            assert(out@ =~= pre.insert(pos as int, entry));
            assert forall|k: int| 0 <= k < pre.len() implies (freq_ok_pred(model))(
                #[trigger] pre[k],
            ) by {
                assert(freq_entry_ok(model, pre[k]));
            }
            assert((freq_ok_pred(model))(entry));
            lemma_freq_insert_order(freq_ok_pred(model), pre, entry, pos as int, out@);
            lemma_freq_insert_backward(nv, idx as int, pre, entry, pos as int, out@);
            lemma_freq_insert_forward(nv, idx as int, pre, entry, pos as int, out@);
            lemma_freq_insert_distinct(nv, idx as int, pre, entry, pos as int, out@);
            assert forall|k: int| 0 <= k < out@.len() implies freq_entry_ok(
                model,
                #[trigger] out@[k],
            ) by {
                assert((freq_ok_pred(model))(out@[k]));
            }
        }
        idx = idx + 1;
    }
    proof {
        assert forall|t: Seq<char>| tag_count(model, t) > 0 implies exists|k: int|
            0 <= k < out@.len() && (#[trigger] out@[k]).tag@ == t by {
            let fl = tv.filter(piece_eq_pred(t));
            assert(fl.len() > 0);
            tv.lemma_filter_pred(piece_eq_pred(t), 0);
            lemma_filter_elems(tv, piece_eq_pred(t));
            assert(tv.contains(fl[0]));
            assert(fl[0] == t);
            let j = choose|j: int| 0 <= j < tv.len() && tv[j] == t;
            assert(exists|k: int| 0 <= k < nv.len() && nv[k] == tv[j]);
            let k = choose|k: int| 0 <= k < nv.len() && nv[k] == tv[j];
            let ko = choose|ko: int| 0 <= ko < out@.len() && out@[ko].tag@ == nv[k];
            assert(out@[ko].tag@ == t);
        }
    }
    out
}

proof fn lemma_tokens_nonempty(rows: Seq<TodoModel>, j: int)
    requires
        0 <= j < tokens_of(rows).len(),
    ensures
        tokens_of(rows)[j].len() > 0,
    decreases rows.len(),
{
    broadcast use vstd::seq_lib::group_filter_ensures;

    if rows.len() > 0 {
        let pre = tokens_of(rows.drop_last());
        let blob = split_commas_spec(rows.last().tags).filter(nonempty_pred());
        if j < pre.len() {
            lemma_tokens_nonempty(rows.drop_last(), j);
        } else {
            assert(tokens_of(rows)[j] == blob[j - pre.len()]);
            assert((nonempty_pred())(blob[j - pre.len()]));
        }
    }
}

} // verus!
