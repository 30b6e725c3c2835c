use vimania_todos::models::Todo;
use vimania_todos::vim_todo::{TodoStatus, VimTodo};

fn todo_record(id: i32, text: &str, tags: &str, flags: i32) -> Todo {
    Todo {
        id,
        parent_id: None,
        todo: text.to_string(),
        metadata: String::new(),
        tags: tags.to_string(),
        desc: String::new(),
        path: String::new(),
        flags,
        last_update_ts: 0,
        created_at: 0,
    }
}

#[test]
fn decode_open_task() {
    let t = VimTodo::new("- [ ] bla blub ()".to_string());
    assert!(t.is_todo);
    assert_eq!(t.todo(), "bla blub ()");
    assert_eq!(t.tags(), Vec::<String>::new());
    assert_eq!(t.status(), TodoStatus::Open);
    assert_eq!(t.line(), "- [ ] bla blub ()");
}

#[test]
fn decode_task_with_tags() {
    let t = VimTodo::new("- [ ] bla blub ()   {t:bla,blub}".to_string());
    assert!(t.is_todo);
    assert_eq!(t.todo(), "bla blub ()");
    assert_eq!(t.tags(), vec!["bla".to_string(), "blub".to_string()]);
    assert_eq!(t.status(), TodoStatus::Open);
    assert_eq!(t.line(), "- [ ] bla blub ()   {t:bla,blub}");
}

#[test]
fn decode_done_task() {
    let t = VimTodo::new("- [x] bla blub ()".to_string());
    assert_eq!(t.status(), TodoStatus::Done);
    assert_eq!(t.line(), "- [x] bla blub ()");
}

#[test]
fn decode_done_task_upper() {
    let t = VimTodo::new("- [X] bla".to_string());
    assert_eq!(t.status(), TodoStatus::Done);
}

#[test]
fn decode_to_delete_task() {
    let t = VimTodo::new("- [D] bla blub ()".to_string());
    assert_eq!(t.status(), TodoStatus::ToDelete);
    let t2 = VimTodo::new("- [d] bla blub ()".to_string());
    assert_eq!(t2.status(), TodoStatus::ToDelete);
}

#[test]
fn decode_in_progress_task() {
    let t = VimTodo::new("- [-] bla blub ()".to_string());
    assert_eq!(t.status(), TodoStatus::InProgress);
}

#[test]
fn invalid_status_token_is_plain_text() {
    let t = VimTodo::new("- [b] xxxx: invalid".to_string());
    assert!(!t.is_todo);
    assert_eq!(t.todo(), "");
    assert_eq!(t.tags(), Vec::<String>::new());
    assert_eq!(t.status(), TodoStatus::Invalid);
    assert_eq!(t.line(), "- [b] xxxx: invalid");
}

#[test]
fn missing_bullet_is_plain_text() {
    let t = VimTodo::new("[ ] xxxx: invalid".to_string());
    assert!(!t.is_todo);
    assert_eq!(t.status(), TodoStatus::Invalid);
    assert_eq!(t.line(), "[ ] xxxx: invalid");
}

#[test]
fn unclosed_bracket_is_plain_text() {
    let t = VimTodo::new("[  xxxx: invalid".to_string());
    assert!(!t.is_todo);
    assert_eq!(t.status(), TodoStatus::Invalid);
    assert_eq!(t.line(), "[  xxxx: invalid".to_string());
}

#[test]
fn round_trip_is_byte_exact() {
    let lines = [
        "- [ ] bla blub ()",
        "- [ ] bla blub ()   {t:bla,blub}",
        "-%123% [x] done thing",
        "\t- [ ] indented task",
        "   - [ ] space indented",
        "* [ ] star bullet",
        "-%7% [d] marked for deletion",
        "- [ ] trailing spaces   {t:a}",
    ];
    for line in lines {
        let t = VimTodo::new(line.to_string());
        assert!(t.is_todo, "expected task line: {}", line);
        assert_eq!(t.line(), line, "round trip failed for: {}", line);
    }
}

#[test]
fn code_strips_percent_delimiters() {
    let t = VimTodo::new("-%123% [ ] bla".to_string());
    assert_eq!(t.code(), "123");
    let t2 = VimTodo::new("- [ ] bla".to_string());
    assert_eq!(t2.code(), "");
}

#[test]
fn set_code_writes_id_token() {
    let mut t = VimTodo::new("- [ ] buy milk".to_string());
    t.set_code(13);
    assert_eq!(t.code(), "13");
    assert_eq!(t.line(), "-%13% [ ] buy milk");
}

#[test]
fn set_status_writes_token() {
    let mut t = VimTodo::new("- [ ] bla".to_string());
    t.set_status(4);
    assert_eq!(t.status(), TodoStatus::Done);
    assert_eq!(t.line(), "- [x] bla");
    t.set_status(2);
    assert_eq!(t.status(), TodoStatus::InProgress);
    t.set_status(1);
    assert_eq!(t.status(), TodoStatus::Open);
}

#[test]
fn set_tags_sorts_and_wraps() {
    let mut t = VimTodo::new("- [ ] bla".to_string());
    t.set_tags("zzz,xxx".to_string());
    assert_eq!(t.tags_, "{t:xxx,zzz}");
    assert_eq!(t.tags(), vec!["xxx".to_string(), "zzz".to_string()]);
}

#[test]
fn set_tags_drops_empty_elements() {
    let mut t = VimTodo::new("- [ ] bla".to_string());
    t.set_tags(",xxx,".to_string());
    assert_eq!(t.tags_, "{t:xxx}");
}

#[test]
fn empty_tag_set_renders_no_block() {
    let mut t = VimTodo::new("- [ ] bla blub ()   {t:bla,blub}".to_string());
    t.set_tags(",,".to_string());
    assert_eq!(t.tags_, "");
    assert_eq!(t.tags(), Vec::<String>::new());
    assert_eq!(t.line(), "- [ ] bla blub ()   ");
}

#[test]
fn set_tags_replaces_existing() {
    let mut t = VimTodo::new("- [ ] bla blub ()   {t:bla,blub}".to_string());
    t.set_tags("zzz,xxx".to_string());
    assert_eq!(t.tags(), vec!["xxx".to_string(), "zzz".to_string()]);
}

#[test]
fn tags_db_formatted_wraps_in_commas() {
    let t = VimTodo::new("- [ ] bla {t:b,a}".to_string());
    assert_eq!(t.tags_db_formatted(), ",a,b,");
    let t2 = VimTodo::new("- [ ] bla".to_string());
    assert_eq!(t2.tags_db_formatted(), ",,");
}

#[test]
fn from_record_builds_canonical_line() {
    let rec = todo_record(1, "bla blub", "", 1);
    let vt = VimTodo::from(rec);
    assert_eq!(vt.todo(), "bla blub");
    assert_eq!(vt.status(), TodoStatus::Open);
    assert_eq!(vt.line(), "-%1% [ ] bla blub");
}

#[test]
fn from_record_with_tags() {
    let rec = todo_record(5, "todo 1", ",yyy,ccc,", 4);
    let vt = VimTodo::from(rec);
    assert_eq!(vt.line(), "-%5% [x] todo 1{t:ccc,yyy}");
}

#[test]
fn set_todo_replaces_text() {
    let mut t = VimTodo::new("- [ ] old text".to_string());
    t.set_todo("new text".to_string());
    assert_eq!(t.todo(), "new text");
    assert_eq!(t.line(), "- [ ] new text");
}

#[test]
fn status_flags_round() {
    assert_eq!(TodoStatus::Open.as_flag(), 1);
    assert_eq!(TodoStatus::InProgress.as_flag(), 2);
    assert_eq!(TodoStatus::Done.as_flag(), 4);
    assert_eq!(TodoStatus::ToDelete.as_flag(), 8);
    assert_eq!(TodoStatus::Invalid.as_flag(), 16);
}

#[test]
fn filler_between_code_and_status_is_kept() {
    let t = VimTodo::new("-%4%x[ ] odd filler".to_string());
    assert!(t.is_todo);
    assert_eq!(t.code(), "4");
    assert_eq!(t.line(), "-%4%x[ ] odd filler");
}

#[test]
fn text_may_not_contain_braces() {
    let t = VimTodo::new("- [ ] bad } brace".to_string());
    assert!(!t.is_todo);
    assert_eq!(t.line(), "- [ ] bad } brace");
}
