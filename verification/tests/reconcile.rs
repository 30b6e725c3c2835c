use vimania_todos::TodoError;
use vimania_todos::dal::Dal;
use vimania_todos::handle_buffer::{delete_todo, handle_it, Line};
use vimania_todos::models::NewTodo;

fn lines(v: &[&str]) -> Vec<String> {
    v.iter().map(|s| s.to_string()).collect()
}

fn empty_store() -> Dal {
    Dal::new("memory".to_string())
}

fn seeded(texts: &[(&str, i32)]) -> Dal {
    let mut dal = empty_store();
    for (text, flags) in texts {
        dal.insert_todo(NewTodo {
            parent_id: None,
            todo: text.to_string(),
            metadata: String::new(),
            tags: ",,".to_string(),
            desc: String::new(),
            path: "testpath".to_string(),
            flags: *flags,
        });
    }
    dal
}

#[test]
fn create_assigns_first_id() {
    let mut dal = empty_store();
    let out = handle_it(&mut dal, lines(&["- [ ] buy milk"]), "p".to_string(), false).unwrap();
    assert_eq!(out, lines(&["-%1% [ ] buy milk"]));
    assert_eq!(dal.rows.len(), 1);
    assert_eq!(dal.rows[0].todo, "buy milk");
    assert_eq!(dal.rows[0].flags, 1);
    assert_eq!(dal.rows[0].tags, ",,");
    assert_eq!(dal.rows[0].path, "p");
}

#[test]
fn rerun_on_output_is_identity() {
    let mut dal = empty_store();
    let out = handle_it(&mut dal, lines(&["- [ ] buy milk"]), "p".to_string(), false).unwrap();
    let out2 = handle_it(&mut dal, out.clone(), "p".to_string(), false).unwrap();
    assert_eq!(out, out2);
    assert_eq!(dal.rows.len(), 1);
    assert_eq!(dal.rows[0].todo, "buy milk");
}

#[test]
fn duplicate_active_task_rejected() {
    let mut dal = empty_store();
    handle_it(&mut dal, lines(&["- [ ] buy milk"]), "p".to_string(), false).unwrap();
    let second = handle_it(&mut dal, lines(&["- [ ] buy milk"]), "p".to_string(), false);
    assert_eq!(second, Err(TodoError::DuplicateActiveTask));
    assert_eq!(dal.rows.len(), 1);
}

#[test]
fn done_record_is_no_duplicate() {
    let mut dal = seeded(&[("buy milk", 4)]);
    let out = handle_it(&mut dal, lines(&["- [ ] buy milk"]), "p".to_string(), false).unwrap();
    assert_eq!(out, lines(&["-%2% [ ] buy milk"]));
    assert_eq!(dal.rows.len(), 2);
}

#[test]
fn to_delete_line_is_dropped_in_write_mode() {
    let mut dal = seeded(&[("keep me", 1)]);
    let out = handle_it(
        &mut dal,
        lines(&["-%123% [d] should be deleted", "- [D] should be deleted"]),
        "p".to_string(),
        false,
    )
    .unwrap();
    assert_eq!(out, Vec::<String>::new());
    assert_eq!(dal.rows.len(), 1);
    assert_eq!(dal.rows[0].todo, "keep me");
}

#[test]
fn to_delete_line_raises_in_read_mode() {
    let mut dal = seeded(&[("task", 1)]);
    let r = handle_it(&mut dal, lines(&["-%1% [d] task"]), "p".to_string(), true);
    assert_eq!(r, Err(TodoError::ToDeleteInRead));
    assert_eq!(dal.rows.len(), 1);
}

#[test]
fn stale_id_dropped_in_both_modes() {
    let mut dal = seeded(&[("task", 1)]);
    let out = handle_it(
        &mut dal,
        lines(&["-%999% [ ] this is a text for deletion"]),
        "p".to_string(),
        false,
    )
    .unwrap();
    assert_eq!(out, Vec::<String>::new());
    let out_read = handle_it(&mut dal, lines(&["-%999% [ ] gone"]), "p".to_string(), true)
        .unwrap();
    assert_eq!(out_read, Vec::<String>::new());
    assert_eq!(dal.rows.len(), 1);
}

#[test]
fn fenced_block_passes_through_untouched() {
    let mut dal = empty_store();
    let input = lines(&["```", "- [ ] not a task", "```"]);
    let out = handle_it(&mut dal, input.clone(), "p".to_string(), false).unwrap();
    assert_eq!(out, input);
    assert_eq!(dal.rows.len(), 0);
}

#[test]
fn fence_state_spans_only_the_block() {
    let mut dal = empty_store();
    let out = handle_it(
        &mut dal,
        lines(&["```", "- [ ] inside", "```", "- [ ] outside"]),
        "p".to_string(),
        false,
    )
    .unwrap();
    assert_eq!(
        out,
        lines(&["```", "- [ ] inside", "```", "-%1% [ ] outside"])
    );
    assert_eq!(dal.rows.len(), 1);
    assert_eq!(dal.rows[0].todo, "outside");
}

#[test]
fn plain_text_passes_through() {
    let mut dal = empty_store();
    let input = lines(&["just some prose", "'- [ ] invalid single quote'", "- [b] xxxx: invalid"]);
    let out = handle_it(&mut dal, input.clone(), "p".to_string(), false).unwrap();
    assert_eq!(out, input);
    assert_eq!(dal.rows.len(), 0);
}

#[test]
fn write_mode_update_emits_line_unchanged() {
    let mut dal = seeded(&[("old text", 1)]);
    let out = handle_it(
        &mut dal,
        lines(&["-%1% [x] new text {t:b,a}"]),
        "newpath".to_string(),
        false,
    )
    .unwrap();
    assert_eq!(out, lines(&["-%1% [x] new text {t:b,a}"]));
    assert_eq!(dal.rows[0].todo, "new text");
    assert_eq!(dal.rows[0].flags, 4);
    assert_eq!(dal.rows[0].tags, ",a,b,");
    assert_eq!(dal.rows[0].path, "newpath");
}

#[test]
fn read_mode_rebuilds_from_store() {
    let mut dal = empty_store();
    dal.insert_todo(NewTodo {
        parent_id: None,
        todo: "todo 1".to_string(),
        metadata: String::new(),
        tags: ",yyy,ccc,vimania,".to_string(),
        desc: String::new(),
        path: "testpath".to_string(),
        flags: 1,
    });
    let out = handle_it(
        &mut dal,
        lines(&["-%1% [x] this is a text describing a task {t:py,todo}"]),
        "testpath".to_string(),
        true,
    )
    .unwrap();
    assert_eq!(out, lines(&["-%1% [ ] todo 1{t:ccc,vimania,yyy}"]));
    assert_eq!(dal.rows[0].todo, "todo 1");
}

#[test]
fn read_mode_creates_missing_id() {
    let mut dal = empty_store();
    let out = handle_it(&mut dal, lines(&["- [ ] fresh"]), "p".to_string(), true).unwrap();
    assert_eq!(out, lines(&["-%1% [ ] fresh"]));
    assert_eq!(dal.rows.len(), 1);
}

#[test]
fn error_aborts_remaining_lines() {
    let mut dal = seeded(&[("dup", 1)]);
    let r = handle_it(
        &mut dal,
        lines(&["- [ ] before", "- [ ] dup", "- [ ] after"]),
        "p".to_string(),
        false,
    );
    assert_eq!(r, Err(TodoError::DuplicateActiveTask));
    // the line before the failing one was already committed
    assert_eq!(dal.rows.len(), 2);
    assert_eq!(dal.rows[1].todo, "before");
}

#[test]
fn delete_todo_compacts_store() {
    let mut dal = seeded(&[("one", 1), ("two", 1), ("three", 1)]);
    delete_todo(&mut dal, "-%2% [ ] two".to_string(), "p".to_string());
    assert_eq!(dal.rows.len(), 2);
    assert_eq!(dal.rows[0].todo, "one");
    assert_eq!(dal.rows[1].todo, "three");
    assert_eq!(dal.rows[1].id, 2);
}

#[test]
fn delete_todo_without_id_is_a_no_op() {
    let mut dal = seeded(&[("one", 1)]);
    delete_todo(&mut dal, "- [ ] one".to_string(), "p".to_string());
    delete_todo(&mut dal, "plain text".to_string(), "p".to_string());
    delete_todo(&mut dal, "-%9% [ ] stale".to_string(), "p".to_string());
    assert_eq!(dal.rows.len(), 1);
}

#[test]
fn line_handle_matches_buffer_pass() {
    let mut dal = empty_store();
    let mut l = Line::new("- [ ] via line".to_string(), "p".to_string());
    let out = l.handle(&mut dal).unwrap();
    assert_eq!(out, Some("-%1% [ ] via line".to_string()));
    let mut gone = Line::new("-%44% [ ] nothing".to_string(), "p".to_string());
    assert_eq!(gone.handle(&mut dal).unwrap(), None);
}
