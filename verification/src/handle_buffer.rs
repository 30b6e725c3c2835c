//! The buffer reconciler: walks the lines of a buffer in order and, for
//! each one, decides whether to pass it through, create a record, update or
//! reload one, or drop the line, against the store's dense-id contract.
//!
//! Lines inside fenced code blocks (delimited by lines whose trimmed text
//! starts with three backticks) pass through untouched. Outside a fence a
//! task line with no id is created (unless an active record with the same
//! text already exists, which aborts the batch); one with an id that
//! resolves is updated from the buffer (write mode) or rebuilt from the
//! store (read mode); one with an id that does not resolve is dropped
//! silently, compensating for id compaction after deletions.
use vstd::prelude::*;

use crate::TodoError;
use crate::chars::{dec_str, dec_val, trim_spec, is_digit_char, str_to_chars, parse_dec};
use crate::dal::Dal;
use crate::models::{NewTodo, TodoModel};
use crate::tags::{normalize_spec, split_commas_spec, storage_tags_spec, tags_block_spec};
use crate::vim_todo::{
    decode_spec, status_of_char, status_token_of_flag, Groups, TodoStatus, VimTodo,
};

verus! {

/// A record whose text matches and which is not yet done: grounds for
/// rejecting a second create of the same task.
pub open spec fn active_dup(rows: Seq<TodoModel>, text: Seq<char>) -> bool {
    exists|i: int| 0 <= i < rows.len() && (#[trigger] rows[i]).todo == text && rows[i].flags < 4
}

/// The canonical tag list carried by a decoded tag-block group.
pub open spec fn tags_list_of(tags: Seq<char>) -> Seq<Seq<char>> {
    if tags.len() == 0 {
        Seq::<Seq<char>>::empty()
    } else {
        normalize_spec(split_commas_spec(tags.subrange(3, tags.len() - 1)))
    }
}

/// The record a create inserts for a decoded task line.
pub open spec fn created_record(g: Groups, path: Seq<char>, id: int) -> TodoModel {
    TodoModel {
        id: id,
        parent_id: None,
        todo: trim_spec(g.todo),
        metadata: Seq::<char>::empty(),
        tags: storage_tags_spec(tags_list_of(g.tags)),
        desc: Seq::<char>::empty(),
        path: path,
        flags: status_of_char(g.status[1]).flag_spec() as int,
        last_update_ts: 0,
        created_at: 0,
    }
}

/// The line emitted after a create: the decoded groups with the fresh id
/// token `%id%` spliced in and the bullet canonicalized.
pub open spec fn created_line(g: Groups, id: int) -> Seq<char> {
    g.level + seq!['-', '%'] + dec_str(id as nat) + seq!['%', ' '] + g.status + g.fill2 + g.todo
        + g.tags
}

/// The record written over a resolved id in write mode: text, tags, path
/// and status come from the buffer, the rest stays.
pub open spec fn updated_record(old_rec: TodoModel, g: Groups, path: Seq<char>) -> TodoModel {
    TodoModel {
        id: old_rec.id,
        parent_id: None,
        todo: trim_spec(g.todo),
        metadata: old_rec.metadata,
        tags: storage_tags_spec(tags_list_of(g.tags)),
        desc: old_rec.desc,
        path: path,
        flags: status_of_char(g.status[1]).flag_spec() as int,
        last_update_ts: old_rec.last_update_ts,
        created_at: old_rec.created_at,
    }
}

/// The line a stored record renders to in read mode:
/// `-%id% [c] text{t:...}`.
pub open spec fn rendered_record(rec: TodoModel) -> Seq<char> {
    seq!['-', '%'] + dec_str(rec.id as nat) + seq!['%', ' '] + status_token_of_flag(rec.flags)
        + seq![' '] + rec.todo + tags_block_spec(normalize_spec(split_commas_spec(rec.tags)))
}

/// The id digits of a decoded id-token group.
pub open spec fn code_val(code: Seq<char>) -> nat {
    dec_val(code.subrange(1, code.len() - 1))
}

/// What one line does to the store and to the output, given the store's
/// rows, the line, the buffer's path, and the mode (`read` reloads from
/// the store, otherwise the buffer is authoritative). Returns the per-line
/// outcome - an output line, nothing, or a batch-aborting error - together
/// with the rows afterwards.
pub open spec fn line_step(rows: Seq<TodoModel>, l: Seq<char>, path: Seq<char>, read: bool) -> (
    Result<Option<Seq<char>>, TodoError>,
    Seq<TodoModel>,
) {
    match decode_spec(l) {
        None => (Ok(Some(l)), rows),
        Some(g) => {
            let st = status_of_char(g.status[1]);
            if st == TodoStatus::ToDelete {
                if read {
                    (Err(TodoError::ToDeleteInRead), rows)
                } else {
                    (Ok(None), rows)
                }
            } else if g.code.len() == 0 {
                if active_dup(rows, trim_spec(g.todo)) {
                    (Err(TodoError::DuplicateActiveTask), rows)
                } else {
                    let id = rows.len() as int + 1;
                    (Ok(Some(created_line(g, id))), rows.push(created_record(g, path, id)))
                }
            } else {
                let idv = code_val(g.code);
                if 1 <= idv <= rows.len() {
                    if read {
                        (Ok(Some(rendered_record(rows[idv as int - 1]))), rows)
                    } else {
                        (Ok(Some(l)), rows.update(
                            idv as int - 1,
                            updated_record(rows[idv as int - 1], g, path),
                        ))
                    }
                } else {
                    (Ok(None), rows)
                }
            }
        },
    }
}

/// One buffer line on its way through the reconciler.
#[derive(Debug)]
pub struct Line {
    pub line: String,
    pub parent_id: Option<i32>,
    pub path: String,
    pub todo: VimTodo,
}

impl Line {
    /// The decoded task mirrors the raw line, and no parent is ever
    /// assigned.
    pub open spec fn inv(self) -> bool {
        &&& self.todo.wf()
        &&& self.todo.line_@ == self.line@
        &&& self.todo.is_todo <==> decode_spec(self.line@) is Some
        &&& self.todo.is_todo ==> decode_spec(self.line@) == Some(self.todo.groups())
        &&& self.parent_id is None
    }

    /// Wraps and decodes one buffer line.
    pub fn new(line: String, path: String) -> (r: Line)
        ensures
            r.inv(),
            r.line@ == line@,
            r.path@ == path@,
    {
        let todo = VimTodo::new(line.clone());
        Line { line, parent_id: None, path, todo }
    }

    /// Whether the store holds a record with exactly this line's text
    /// that is not yet done.
    pub fn has_active_dup(&self, dal: &Dal) -> (r: bool)
        requires
            self.inv(),
            self.todo.is_todo,
            dal.inv(),
        ensures
            r == active_dup(dal@, self.todo.text_spec()),
    {
        let text = self.todo.todo();
        let mut i: usize = 0;
        while i < dal.rows.len()
            invariant
                self.inv(),
                dal.inv(),
                text@ == self.todo.text_spec(),
                dal.rows@.len() == dal@.len(),
                i <= dal@.len(),
                forall|k: int| 0 <= k < dal@.len() ==> (#[trigger] dal@[k]) == dal.rows@[k]@,
                forall|k: int|
                    0 <= k < i ==> !((#[trigger] dal@[k]).todo == self.todo.text_spec()
                        && dal@[k].flags < 4),
            decreases dal@.len() - i,
        {
            proof {
                crate::dal::lemma_rows_view(dal.rows@);
            }
            if dal.rows[i].todo.eq(&text) && dal.rows[i].flags < 4 {
                proof {
                    assert(dal@[i as int].todo == self.todo.text_spec());
                    assert(dal@[i as int].flags < 4);
                }
                return true;
            }
            i = i + 1;
        }
        false
    }

    /// Creates a store record for a task line that carries no id, unless
    /// an active record with the same text already exists - then the
    /// batch-aborting duplicate error comes back and the store is
    /// untouched. On success the fresh id (the old length plus one) is
    /// returned and exactly one record has been appended.
    pub fn create_todo(&self, dal: &mut Dal) -> (r: Result<i32, TodoError>)
        requires
            self.inv(),
            self.todo.is_todo,
            old(dal).inv(),
            old(dal)@.len() + 1 < 0x7fff_ffff,
            self.todo.status_spec() != TodoStatus::ToDelete,
        ensures
            final(dal).inv(),
            ({
                let g = decode_spec(self.line@)->Some_0;
                if active_dup(old(dal)@, trim_spec(g.todo)) {
                    r == Result::<i32, TodoError>::Err(TodoError::DuplicateActiveTask)
                        && final(dal)@ == old(dal)@
                } else {
                    r == Result::<i32, TodoError>::Ok((old(dal)@.len() + 1) as i32)
                        && final(dal)@ == old(dal)@.push(
                        created_record(g, self.path@, old(dal)@.len() as int + 1),
                    )
                }
            }),
    {
        let ghost g = decode_spec(self.line@)->Some_0;
        proof {
            assert(self.todo.text_spec() == trim_spec(g.todo));
        }
        if self.has_active_dup(dal) {
            return Err(TodoError::DuplicateActiveTask);
        }
        let text = self.todo.todo();
        let st = self.todo.status();
        let new_todo = NewTodo {
            parent_id: self.parent_id,
            todo: text,
            metadata: String::new(),
            tags: self.todo.tags_db_formatted(),
            desc: String::new(),
            path: self.path.clone(),
            flags: st.as_flag(),
        };
        let inserted = dal.insert_todo(new_todo);
        proof {
            assert(self.todo.tags_@ == g.tags);
            assert(self.todo.tags_list() =~= tags_list_of(g.tags));
            assert(inserted@ == created_record(g, self.path@, old(dal)@.len() as int + 1));
            assert(dal@ =~= old(dal)@.push(
                created_record(g, self.path@, old(dal)@.len() as int + 1),
            ));
        }
        Ok(inserted.id)
    }

    /// Writes the buffer's text, tags, path and status over the record the
    /// id token resolves to; reports false, with the store untouched, when
    /// the id does not resolve (stale after compaction).
    pub fn update_todo_in_db(&self, dal: &mut Dal) -> (found: bool)
        requires
            self.inv(),
            self.todo.is_todo,
            self.todo.has_code(),
            old(dal).inv(),
            self.todo.status_spec() != TodoStatus::ToDelete,
        ensures
            final(dal).inv(),
            ({
                let g = decode_spec(self.line@)->Some_0;
                let idv = code_val(g.code);
                &&& found == (1 <= idv <= old(dal)@.len())
                &&& (found ==> final(dal)@ == old(dal)@.update(
                    idv as int - 1,
                    updated_record(old(dal)@[idv as int - 1], g, self.path@),
                ))
                &&& (!found ==> final(dal)@ == old(dal)@)
            }),
    {
        let ghost g = decode_spec(self.line@)->Some_0;
        let code = self.todo.code();
        let cv = str_to_chars(code.as_str());
        proof {
            assert(cv@ =~= g.code.subrange(1, g.code.len() - 1));
            assert(cv@.subrange(0, cv@.len() as int) =~= cv@);
            assert forall|k: int| 0 <= k < cv@.len() implies is_digit_char(cv@[k]) by {
                assert(cv@[k] == g.code[k + 1]);
            }
        }
        let idv_opt = parse_dec(&cv, 0, cv.len());
        let id32: i32 = match idv_opt {
            Some(x) => {
                if x < 1 || x > (dal.rows.len() as u64) {
                    proof {
                        crate::dal::lemma_rows_view(dal.rows@);
                    }
                    return false;
                }
                x as i32
            },
            None => {
                proof {
                    crate::dal::lemma_rows_view(dal.rows@);
                }
                return false;
            },
        };
        proof {
            crate::dal::lemma_rows_view(dal.rows@);
        }
        let mut rec = match dal.get_todo_by_id(id32) {
            Some(t) => t,
            None => {
                return false;
            },
        };
        rec.todo = self.todo.todo();
        rec.tags = self.todo.tags_db_formatted();
        rec.parent_id = self.parent_id;
        rec.path = self.path.clone();
        let st = self.todo.status();
        rec.flags = st.as_flag();
        let ok = dal.update_todo(rec);
        proof {
            let idv = code_val(g.code);
            assert(self.todo.tags_list() =~= tags_list_of(g.tags));
            assert(dal@ == old(dal)@.update(
                idv as int - 1,
                updated_record(old(dal)@[idv as int - 1], g, self.path@),
            ));
        }
        true
    }

    /// Rebuilds this line from the record its id resolves to, the store
    /// being authoritative; reports nothing when the id is stale.
    pub fn read_from_db(&self, dal: &Dal) -> (r: Option<String>)
        requires
            self.inv(),
            self.todo.is_todo,
            self.todo.has_code(),
            dal.inv(),
        ensures
            ({
                let g = decode_spec(self.line@)->Some_0;
                let idv = code_val(g.code);
                if 1 <= idv <= dal@.len() {
                    r matches Some(sl) && sl@ == rendered_record(dal@[idv as int - 1])
                } else {
                    r is None
                }
            }),
    {
        let ghost g = decode_spec(self.line@)->Some_0;
        let code = self.todo.code();
        let cv = str_to_chars(code.as_str());
        proof {
            assert(cv@ =~= g.code.subrange(1, g.code.len() - 1));
            assert(cv@.subrange(0, cv@.len() as int) =~= cv@);
            assert forall|k: int| 0 <= k < cv@.len() implies is_digit_char(cv@[k]) by {
                assert(cv@[k] == g.code[k + 1]);
            }
        }
        let idv_opt = parse_dec(&cv, 0, cv.len());
        let id32: i32 = match idv_opt {
            Some(x) => {
                if x < 1 || x > (dal.rows.len() as u64) {
                    proof {
                        crate::dal::lemma_rows_view(dal.rows@);
                    }
                    return None;
                }
                x as i32
            },
            None => {
                proof {
                    crate::dal::lemma_rows_view(dal.rows@);
                }
                return None;
            },
        };
        proof {
            crate::dal::lemma_rows_view(dal.rows@);
        }
        let rec = match dal.get_todo_by_id(id32) {
            Some(t) => t,
            None => {
                return None;
            },
        };
        let ghost idv = code_val(g.code);
        let ghost model = dal@[idv as int - 1];
        let vt = VimTodo::from(rec);
        let out = vt.line();
        proof {
            assert(out@ =~= rendered_record(model));
        }
        Some(out)
    }

    /// Handles one line in write mode, the buffer being authoritative: a
    /// plain line passes through, a to-delete line is dropped, a line with
    /// no id creates a record and comes back carrying the fresh id token,
    /// a line whose id resolves updates the record and comes back
    /// unchanged, and a line whose id is stale is dropped.
    pub fn handle(&mut self, dal: &mut Dal) -> (r: Result<Option<String>, TodoError>)
        requires
            old(self).inv(),
            old(dal).inv(),
            old(dal)@.len() + 1 < 0x7fff_ffff,
        ensures
            final(dal).inv(),
            ({
                let step = line_step(old(dal)@, old(self).line@, old(self).path@, false);
                &&& final(dal)@ == step.1
                &&& (match (r, step.0) {
                    (Ok(Some(sl)), Ok(Some(el))) => sl@ == el,
                    (Ok(None), Ok(None)) => true,
                    (Err(e), Err(e2)) => e == e2,
                    _ => false,
                })
            }),
    {
        if !self.todo.is_todo {
            return Ok(Some(self.line.clone()));
        }
        let ghost g = decode_spec(self.line@)->Some_0;
        let st = self.todo.status();
        if st == TodoStatus::ToDelete {
            return Ok(None);
        }
        let code = self.todo.code();
        if code.as_str().is_empty() {
            let id = match self.create_todo(dal) {
                Ok(i) => i,
                Err(e) => {
                    return Err(e);
                },
            };
            self.todo.set_code(id);
            let out = self.todo.line();
            proof {
                assert(out@ =~= created_line(g, id as int));
            }
            return Ok(Some(out));
        }
        if self.update_todo_in_db(dal) {
            Ok(Some(self.line.clone()))
        } else {
            Ok(None)
        }
    }

    /// Handles one line in read mode, the store being authoritative: a
    /// plain line passes through, a to-delete line aborts the batch, a
    /// line with no id still creates a record, and a line with an id is
    /// rebuilt from the store, or dropped when the id is stale.
    pub fn handle_read(&mut self, dal: &mut Dal) -> (r: Result<Option<String>, TodoError>)
        requires
            old(self).inv(),
            old(dal).inv(),
            old(dal)@.len() + 1 < 0x7fff_ffff,
        ensures
            final(dal).inv(),
            ({
                let step = line_step(old(dal)@, old(self).line@, old(self).path@, true);
                &&& final(dal)@ == step.1
                &&& (match (r, step.0) {
                    (Ok(Some(sl)), Ok(Some(el))) => sl@ == el,
                    (Ok(None), Ok(None)) => true,
                    (Err(e), Err(e2)) => e == e2,
                    _ => false,
                })
            }),
    {
        if !self.todo.is_todo {
            return Ok(Some(self.line.clone()));
        }
        let ghost g = decode_spec(self.line@)->Some_0;
        let st = self.todo.status();
        if st == TodoStatus::ToDelete {
            return Err(TodoError::ToDeleteInRead);
        }
        let code = self.todo.code();
        if code.as_str().is_empty() {
            let id = match self.create_todo(dal) {
                Ok(i) => i,
                Err(e) => {
                    return Err(e);
                },
            };
            self.todo.set_code(id);
            let out = self.todo.line();
            proof {
                assert(out@ =~= created_line(g, id as int));
            }
            return Ok(Some(out));
        }
        match self.read_from_db(dal) {
            Some(out) => Ok(Some(out)),
            None => Ok(None),
        }
    }

    /// Deletes the record this line's id resolves to, compacting the
    /// store's ids; a line without an id, a plain line, or a stale id
    /// leaves the store untouched.
    pub fn delete_todo(&self, dal: &mut Dal)
        requires
            self.inv(),
            old(dal).inv(),
        ensures
            final(dal).inv(),
            final(dal)@ == delete_step(old(dal)@, self.line@),
    {
        if !self.todo.is_todo {
            return;
        }
        let ghost g = decode_spec(self.line@)->Some_0;
        let code = self.todo.code();
        if code.as_str().is_empty() {
            return;
        }
        let cv = str_to_chars(code.as_str());
        proof {
            assert(cv@ =~= g.code.subrange(1, g.code.len() - 1));
            assert(cv@.subrange(0, cv@.len() as int) =~= cv@);
            assert forall|k: int| 0 <= k < cv@.len() implies is_digit_char(cv@[k]) by {
                assert(cv@[k] == g.code[k + 1]);
            }
        }
        let idv_opt = parse_dec(&cv, 0, cv.len());
        let id32: i32 = match idv_opt {
            Some(x) => {
                if x < 1 || x > (dal.rows.len() as u64) {
                    proof {
                        crate::dal::lemma_rows_view(dal.rows@);
                    }
                    return;
                }
                x as i32
            },
            None => {
                proof {
                    crate::dal::lemma_rows_view(dal.rows@);
                }
                return;
            },
        };
        proof {
            crate::dal::lemma_rows_view(dal.rows@);
        }
        let n = dal.delete_todo2(id32);
        proof {
            let idv = code_val(g.code);
            assert(dal@ =~= compact_remove(old(dal)@, idv as int - 1));
        }
    }
}

/// The rows after deleting position `pos` and shifting every later id
/// down by one.
pub open spec fn compact_remove(rows: Seq<TodoModel>, pos: int) -> Seq<TodoModel> {
    Seq::new(
        (rows.len() - 1) as nat,
        |i: int|
            if i < pos {
                rows[i]
            } else {
                TodoModel { id: i + 1, ..rows[i + 1] }
            },
    )
}

/// What deleting one buffer line does to the store: nothing for plain
/// text, a missing id token or a stale id; otherwise the record under the
/// id is removed and higher ids are compacted down by one.
pub open spec fn delete_step(rows: Seq<TodoModel>, l: Seq<char>) -> Seq<TodoModel> {
    match decode_spec(l) {
        None => rows,
        Some(g) => {
            if g.code.len() == 0 {
                rows
            } else {
                let idv = code_val(g.code);
                if 1 <= idv <= rows.len() {
                    compact_remove(rows, idv as int - 1)
                } else {
                    rows
                }
            }
        },
    }
}

/// Decodes one line and, when it is a task line carrying an id, deletes
/// that record from the store, compacting the remaining ids.
pub fn delete_todo(dal: &mut Dal, text: String, path: String)
    requires
        old(dal).inv(),
    ensures
        final(dal).inv(),
        final(dal)@ == delete_step(old(dal)@, text@),
{
    let line = Line::new(text, path);
    line.delete_todo(dal);
}

/// A line that toggles fencing: its trimmed text starts with three
/// backticks.
pub open spec fn fence_marker(l: Seq<char>) -> bool {
    let t = trim_spec(l);
    t.len() >= 3 && t[0] == '`' && t[1] == '`' && t[2] == '`'
}

/// Fence-marker test on one line.
pub fn is_fence_marker(l: &str) -> (r: bool)
    ensures
        r == fence_marker(l@),
{
    let t = crate::tags::trim_string(l);
    if t.as_str().unicode_len() >= 3 {
        t.as_str().get_char(0) == '`' && t.as_str().get_char(1) == '`' && t.as_str().get_char(2)
            == '`'
    } else {
        false
    }
}

/// Puts already-produced output lines in front of a run's outcome.
pub open spec fn prepend_lines(
    out: Seq<Seq<char>>,
    r: (Result<Seq<Seq<char>>, TodoError>, Seq<TodoModel>),
) -> (Result<Seq<Seq<char>>, TodoError>, Seq<TodoModel>) {
    match r.0 {
        Ok(v) => (Ok(out + v), r.1),
        Err(e) => (Err(e), r.1),
    }
}

/// The whole reconciliation pass over a sequence of buffer lines: fence
/// markers toggle pass-through, every other line goes through `line_step`
/// in order, dropped lines are omitted from the output, and the first
/// error aborts the batch with the store as the already-processed lines
/// left it.
pub open spec fn run_lines(
    rows: Seq<TodoModel>,
    lines: Seq<Seq<char>>,
    path: Seq<char>,
    read: bool,
    fence: bool,
) -> (Result<Seq<Seq<char>>, TodoError>, Seq<TodoModel>)
    decreases lines.len(),
{
    if lines.len() == 0 {
        (Ok(Seq::<Seq<char>>::empty()), rows)
    } else {
        let l = lines[0];
        let fence2 = if fence_marker(l) {
            !fence
        } else {
            fence
        };
        if fence2 {
            prepend_lines(seq![l], run_lines(rows, lines.drop_first(), path, read, fence2))
        } else {
            let step = line_step(rows, l, path, read);
            match step.0 {
                Err(e) => (Err(e), step.1),
                Ok(None) => run_lines(step.1, lines.drop_first(), path, read, fence2),
                Ok(Some(ol)) => prepend_lines(
                    seq![ol],
                    run_lines(step.1, lines.drop_first(), path, read, fence2),
                ),
            }
        }
    }
}

proof fn lemma_prepend_chain(
    out: Seq<Seq<char>>,
    x: Seq<char>,
    r: (Result<Seq<Seq<char>>, TodoError>, Seq<TodoModel>),
)
    ensures
        prepend_lines(out, prepend_lines(seq![x], r)) == prepend_lines(out.push(x), r),
{
    match r.0 {
        Ok(v) => {
            assert(out + (seq![x] + v) =~= out.push(x) + v);
        },
        Err(_) => {},
    }
}

/// Reconciles a buffer: every line in order, fenced regions passed
/// through, with the store updated line by line; mode `read` rebuilds
/// lines from the store, otherwise the buffer is authoritative. The
/// output keeps the surviving lines in their input order; the first
/// error aborts the batch, keeping whatever the store already committed.
pub fn handle_it(dal: &mut Dal, lines: Vec<String>, path: String, read: bool) -> (r: Result<
    Vec<String>,
    TodoError,
>)
    requires
        old(dal).inv(),
        old(dal)@.len() + lines@.len() < 0x7fff_ffff,
    ensures
        final(dal).inv(),
        ({
            let run = run_lines(old(dal)@, lines.deep_view(), path@, read, false);
            &&& final(dal)@ == run.1
            &&& (match (r, run.0) {
                (Ok(v), Ok(sv)) => v.deep_view() == sv,
                (Err(e), Err(se)) => e == se,
                _ => false,
            })
        }),
{
    let ghost all = lines.deep_view();
    let ghost total = run_lines(old(dal)@, all, path@, read, false);
    let mut new_lines: Vec<String> = Vec::new();
    let mut in_fence = false;
    let mut i: usize = 0;
    proof {
        assert(all.skip(0) =~= all);
        assert(prepend_lines(new_lines.deep_view(), run_lines(dal@, all, path@, read, false))
            == total) by {
            match run_lines(dal@, all, path@, read, false).0 {
                Ok(v) => {
                    assert(new_lines.deep_view() + v =~= v);
                },
                Err(_) => {},
            }
        }
    }
    while i < lines.len()
        invariant
            dal.inv(),
            i <= lines@.len(),
            all == lines.deep_view(),
            all.len() == lines@.len(),
            dal@.len() <= old(dal)@.len() + i,
            old(dal)@.len() + lines@.len() < 0x7fff_ffff,
            total == run_lines(old(dal)@, all, path@, read, false),
            prepend_lines(
                new_lines.deep_view(),
                run_lines(dal@, all.skip(i as int), path@, read, in_fence),
            ) == total,
        decreases lines@.len() - i,
    {
        let ghost rest = all.skip(i as int);
        let ghost pre_out = new_lines.deep_view();
        let ghost pre_rows = dal@;
        proof {
            assert(rest[0] == all[i as int]);
            assert(rest.drop_first() =~= all.skip(i + 1));
        }
        let l = lines[i].clone();
        let ghost fence0 = in_fence;
        if is_fence_marker(l.as_str()) {
            in_fence = !in_fence;
        }
        if in_fence {
            proof {
                assert(run_lines(pre_rows, rest, path@, read, fence0) == prepend_lines(
                    seq![l@],
                    run_lines(pre_rows, rest.drop_first(), path@, read, in_fence),
                ));
                lemma_prepend_chain(
                    pre_out,
                    l@,
                    run_lines(pre_rows, rest.drop_first(), path@, read, in_fence),
                );
            }
            new_lines.push(l);
            proof {
                assert(new_lines.deep_view() =~= pre_out.push(l@));
            }
            i = i + 1;
            continue ;
        }
        let mut line_h = Line::new(l, path.clone());
        let res = if read {
            line_h.handle_read(dal)
        } else {
            line_h.handle(dal)
        };
        let ghost step = line_step(pre_rows, rest[0], path@, read);
        proof {
            assert(run_lines(pre_rows, rest, path@, read, fence0) == (match step.0 {
                Err(e) => (Err::<Seq<Seq<char>>, TodoError>(e), step.1),
                Ok(None) => run_lines(step.1, rest.drop_first(), path@, read, in_fence),
                Ok(Some(ol)) => prepend_lines(
                    seq![ol],
                    run_lines(step.1, rest.drop_first(), path@, read, in_fence),
                ),
            }));
        }
        match res {
            Err(e) => {
                proof {
                    assert(prepend_lines(pre_out, (Err::<Seq<Seq<char>>, TodoError>(e), step.1))
                        == total);
                }
                return Err(e);
            },
            Ok(None) => {},
            Ok(Some(nl)) => {
                proof {
                    lemma_prepend_chain(
                        pre_out,
                        nl@,
                        run_lines(step.1, rest.drop_first(), path@, read, in_fence),
                    );
                }
                new_lines.push(nl);
                proof {
                    assert(new_lines.deep_view() =~= pre_out.push(nl@));
                }
            },
        }
        i = i + 1;
    }
    proof {
        assert(all.skip(all.len() as int) =~= Seq::<Seq<char>>::empty());
        match run_lines(dal@, all.skip(i as int), path@, read, in_fence).0 {
            Ok(v) => {
                assert(new_lines.deep_view() + v =~= new_lines.deep_view());
            },
            Err(_) => {},
        }
    }
    Ok(new_lines)
}

/// Creating a task with no id allocates exactly one new store record -
/// the next dense id - and the emitted line carries that id wrapped in
/// `%...%`, in either mode.
pub proof fn lemma_create_allocates(
    rows: Seq<TodoModel>,
    l: Seq<char>,
    path: Seq<char>,
    read: bool,
)
    requires
        decode_spec(l) matches Some(g) && g.code.len() == 0 && status_of_char(g.status[1])
            != TodoStatus::ToDelete && !active_dup(rows, trim_spec(g.todo)),
    ensures
        ({
            let g = decode_spec(l)->Some_0;
            let id = rows.len() as int + 1;
            let step = line_step(rows, l, path, read);
            &&& step.1 == rows.push(created_record(g, path, id))
            &&& step.1.len() == rows.len() + 1
            &&& step.0 == Ok::<Option<Seq<char>>, TodoError>(Some(created_line(g, id)))
            &&& created_line(g, id).subrange(
                g.level.len() as int + 1,
                g.level.len() as int + 3 + dec_str(id as nat).len(),
            ) == seq!['%'] + dec_str(id as nat) + seq!['%']
        }),
{
    let g = decode_spec(l)->Some_0;
    let id = rows.len() as int + 1;
    assert(created_line(g, id).subrange(
        g.level.len() as int + 1,
        g.level.len() as int + 3 + dec_str(id as nat).len(),
    ) =~= seq!['%'] + dec_str(id as nat) + seq!['%']);
}

/// A line marked to-delete never reaches the output: in write mode it is
/// dropped with the store untouched, in read mode it aborts the batch -
/// whether or not it carries an id.
pub proof fn lemma_to_delete_never_output(rows: Seq<TodoModel>, l: Seq<char>, path: Seq<char>)
    requires
        decode_spec(l) matches Some(g) && status_of_char(g.status[1]) == TodoStatus::ToDelete,
    ensures
        line_step(rows, l, path, false) == (
            Ok::<Option<Seq<char>>, TodoError>(None),
            rows,
        ),
        line_step(rows, l, path, true) == (
            Err::<Option<Seq<char>>, TodoError>(TodoError::ToDeleteInRead),
            rows,
        ),
{
}

/// A task line whose id does not resolve in the store is dropped without
/// raising and without touching the store, in both modes.
pub proof fn lemma_stale_id_dropped(
    rows: Seq<TodoModel>,
    l: Seq<char>,
    path: Seq<char>,
    read: bool,
)
    requires
        decode_spec(l) matches Some(g) && status_of_char(g.status[1]) != TodoStatus::ToDelete
            && g.code.len() > 0 && !(1 <= code_val(g.code) <= rows.len()),
    ensures
        line_step(rows, l, path, read) == (Ok::<Option<Seq<char>>, TodoError>(None), rows),
{
}

/// Reconciling an id-less task line whose text already matches an active
/// record aborts the batch with the duplicate error, the store untouched.
pub proof fn lemma_duplicate_rejected(
    rows: Seq<TodoModel>,
    l: Seq<char>,
    path: Seq<char>,
    read: bool,
)
    requires
        decode_spec(l) matches Some(g) && status_of_char(g.status[1]) != TodoStatus::ToDelete
            && g.code.len() == 0 && active_dup(rows, trim_spec(g.todo)),
    ensures
        line_step(rows, l, path, read) == (
            Err::<Option<Seq<char>>, TodoError>(TodoError::DuplicateActiveTask),
            rows,
        ),
{
}

/// After an id-less task line with an open or in-progress status has been
/// created, a second id-less line with the same text is rejected as a
/// duplicate by the very next step.
pub proof fn lemma_create_then_duplicate(
    rows: Seq<TodoModel>,
    l: Seq<char>,
    path: Seq<char>,
    read: bool,
    l2: Seq<char>,
    path2: Seq<char>,
    read2: bool,
)
    requires
        decode_spec(l) matches Some(g) && g.code.len() == 0 && !active_dup(
            rows,
            trim_spec(g.todo),
        ) && (status_of_char(g.status[1]) == TodoStatus::Open || status_of_char(g.status[1])
            == TodoStatus::InProgress),
        decode_spec(l2) matches Some(g2) && g2.code.len() == 0 && status_of_char(g2.status[1])
            != TodoStatus::ToDelete && trim_spec(g2.todo) == trim_spec(
            decode_spec(l)->Some_0.todo,
        ),
    ensures
        ({
            let rows2 = line_step(rows, l, path, read).1;
            line_step(rows2, l2, path2, read2) == (
                Err::<Option<Seq<char>>, TodoError>(TodoError::DuplicateActiveTask),
                rows2,
            )
        }),
{
    let g = decode_spec(l)->Some_0;
    let rows2 = line_step(rows, l, path, read).1;
    let id = rows.len() as int;
    assert(rows2[id] == created_record(g, path, id + 1));
    assert(rows2[id].todo == trim_spec(g.todo));
    assert(rows2[id].flags < 4);
    assert(active_dup(rows2, trim_spec(g.todo)));
}

/// Fenced-block pass-through: an opening marker flips the fence on and
/// passes through unchanged, and every line met while the fence is on
/// passes through unchanged, the store untouched either way.
pub proof fn lemma_fence_passthrough(
    rows: Seq<TodoModel>,
    l: Seq<char>,
    rest: Seq<Seq<char>>,
    path: Seq<char>,
    read: bool,
)
    ensures
        fence_marker(l) ==> run_lines(rows, seq![l] + rest, path, read, false) == prepend_lines(
            seq![l],
            run_lines(rows, rest, path, read, true),
        ),
        !fence_marker(l) ==> run_lines(rows, seq![l] + rest, path, read, true) == prepend_lines(
            seq![l],
            run_lines(rows, rest, path, read, true),
        ),
{
    let lines = seq![l] + rest;
    assert(lines[0] == l);
    assert(lines.drop_first() =~= rest);
}

} // verus!
