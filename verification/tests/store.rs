use vimania_todos::dal::Dal;
use vimania_todos::models::NewTodo;

fn new_todo(text: &str, tags: &str, flags: i32) -> NewTodo {
    NewTodo {
        parent_id: None,
        todo: text.to_string(),
        metadata: String::new(),
        tags: tags.to_string(),
        desc: String::new(),
        path: "testpath".to_string(),
        flags,
    }
}

fn filled_store(n: i32) -> Dal {
    let mut dal = Dal::new("memory".to_string());
    for i in 1..=n {
        let inserted = dal.insert_todo(new_todo(&format!("todo {}", i), ",,", 1));
        assert_eq!(inserted.id, i);
    }
    dal
}

#[test]
fn insert_assigns_dense_ids() {
    let dal = filled_store(3);
    assert_eq!(dal.rows.len(), 3);
    for (i, row) in dal.rows.iter().enumerate() {
        assert_eq!(row.id, (i as i32) + 1);
    }
}

#[test]
fn get_todo_by_id_resolves_in_range() {
    let dal = filled_store(5);
    let t = dal.get_todo_by_id(3).unwrap();
    assert_eq!(t.id, 3);
    assert_eq!(t.todo, "todo 3");
    assert!(dal.get_todo_by_id(0).is_none());
    assert!(dal.get_todo_by_id(6).is_none());
    assert!(dal.get_todo_by_id(-1).is_none());
}

#[test]
fn deletion_compaction_shifts_ids_down() {
    let mut dal = filled_store(12);
    let removed = dal.delete_todo2(4);
    assert_eq!(removed, 1);
    assert_eq!(dal.rows.len(), 11);
    for (i, row) in dal.rows.iter().enumerate() {
        assert_eq!(row.id, (i as i32) + 1);
    }
    // ids below the deleted one are untouched
    assert_eq!(dal.get_todo_by_id(3).unwrap().todo, "todo 3");
    // every id above shifted down by one
    assert_eq!(dal.get_todo_by_id(4).unwrap().todo, "todo 5");
    // the old last id no longer resolves; its content sits under 11 now
    assert!(dal.get_todo_by_id(12).is_none());
    assert_eq!(dal.get_todo_by_id(11).unwrap().todo, "todo 12");
}

#[test]
fn delete_out_of_range_removes_nothing() {
    let mut dal = filled_store(3);
    assert_eq!(dal.delete_todo2(99), 0);
    assert_eq!(dal.delete_todo2(0), 0);
    assert_eq!(dal.rows.len(), 3);
}

#[test]
fn update_overwrites_content_and_keeps_id() {
    let mut dal = filled_store(2);
    let mut rec = dal.get_todo_by_id(2).unwrap();
    rec.todo = "changed".to_string();
    rec.flags = 4;
    assert!(dal.update_todo(rec));
    let back = dal.get_todo_by_id(2).unwrap();
    assert_eq!(back.todo, "changed");
    assert_eq!(back.flags, 4);
    assert_eq!(back.id, 2);
}

#[test]
fn update_missing_id_reports_false() {
    let mut dal = filled_store(1);
    let mut rec = dal.get_todo_by_id(1).unwrap();
    rec.id = 99;
    assert!(!dal.update_todo(rec));
    assert_eq!(dal.rows.len(), 1);
}

#[test]
fn get_todos_by_todo_matches_exactly() {
    let mut dal = filled_store(2);
    dal.insert_todo(new_todo("todo 1", ",,", 4));
    let hits = dal.get_todos_by_todo(&"todo 1".to_string());
    assert_eq!(hits.len(), 2);
    assert_eq!(hits[0].id, 1);
    assert_eq!(hits[1].id, 3);
    let none = dal.get_todos_by_todo(&"todo".to_string());
    assert_eq!(none.len(), 0);
}

#[test]
fn todo_exists_exact_match() {
    let dal = filled_store(2);
    assert!(dal.todo_exists(&"todo 2".to_string()));
    assert!(!dal.todo_exists(&"todo".to_string()));
}

#[test]
fn get_todos_returns_all() {
    let dal = filled_store(4);
    assert_eq!(dal.get_todos().len(), 4);
}

#[test]
fn clean_table_keeps_first_record() {
    let mut dal = filled_store(5);
    dal.clean_table();
    assert_eq!(dal.rows.len(), 1);
    assert_eq!(dal.rows[0].todo, "todo 1");
}

#[test]
fn record_tag_accessors() {
    let mut dal = filled_store(1);
    let mut rec = dal.get_todo_by_id(1).unwrap();
    rec.set_tags(vec!["zzz".to_string(), "aaa".to_string()]);
    assert_eq!(rec.tags, ",aaa,zzz,");
    assert_eq!(rec.get_tags(), vec!["aaa".to_string(), "zzz".to_string()]);
    dal.update_todo(rec);
    assert_eq!(dal.get_todo_by_id(1).unwrap().tags, ",aaa,zzz,");
}

#[test]
fn tag_frequencies_count_and_order() {
    let mut dal = Dal::new("memory".to_string());
    dal.insert_todo(new_todo("a", ",py,todo,", 1));
    dal.insert_todo(new_todo("b", ",py,", 1));
    dal.insert_todo(new_todo("c", ",py,vim,", 4));
    let freqs = dal.get_all_tags();
    assert_eq!(freqs.len(), 3);
    assert_eq!(freqs[0].tag, "py");
    assert_eq!(freqs[0].n, 3);
    for w in freqs.windows(2) {
        assert!(w[0].n >= w[1].n);
    }
    let mut rest: Vec<(String, i32)> = freqs[1..]
        .iter()
        .map(|f| (f.tag.clone(), f.n))
        .collect();
    rest.sort();
    assert_eq!(rest, vec![("todo".to_string(), 1), ("vim".to_string(), 1)]);
}

#[test]
fn tag_frequency_counts_repetitions_in_one_blob() {
    let mut dal = Dal::new("memory".to_string());
    dal.insert_todo(new_todo("a", ",x,x,y,", 1));
    let freqs = dal.get_all_tags();
    assert_eq!(freqs[0].tag, "x");
    assert_eq!(freqs[0].n, 2);
    assert_eq!(freqs[1].tag, "y");
    assert_eq!(freqs[1].n, 1);
}

#[test]
fn all_tags_as_vec_is_sorted_ascending() {
    let mut dal = Dal::new("memory".to_string());
    dal.insert_todo(new_todo("a", ",zz,aa,", 1));
    dal.insert_todo(new_todo("b", ",mm,", 1));
    assert_eq!(
        dal.get_all_tags_as_vec(),
        vec!["aa".to_string(), "mm".to_string(), "zz".to_string()]
    );
}

#[test]
fn related_tags_restrict_to_delimited_match() {
    let mut dal = Dal::new("memory".to_string());
    dal.insert_todo(new_todo("a", ",py,vim,", 1));
    dal.insert_todo(new_todo("b", ",py,todo,", 1));
    dal.insert_todo(new_todo("c", ",pyx,other,", 1));
    let rel = dal.get_related_tags("py");
    // only the first two records contain ",py," as a delimited token
    assert_eq!(rel[0].tag, "py");
    assert_eq!(rel[0].n, 2);
    let names: Vec<String> = rel.iter().map(|f| f.tag.clone()).collect();
    assert!(names.contains(&"vim".to_string()));
    assert!(names.contains(&"todo".to_string()));
    assert!(!names.contains(&"pyx".to_string()));
    assert!(!names.contains(&"other".to_string()));
}

#[test]
fn sum_as_string_adds_hundred() {
    assert_eq!(vimania_todos::sum_as_string2(1, 2), "103");
}
