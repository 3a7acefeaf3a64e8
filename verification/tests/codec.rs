use todo_list::commands;
use todo_list::todo::TodoList;
use todo_list::TodoError;

#[test]
fn round_trip_preserves_every_field() {
    let mut list = TodoList::new();
    list.add("Buy milk".to_string(), "2L, whole".to_string());
    list.add("Write \"report\"".to_string(), "tabs\tand\nlines".to_string());
    list.add("émojis 🎉".to_string(), "back\\slash and ctl \u{1}".to_string());
    list.mark_done(1);
    let text = list.to_json();
    let loaded = TodoList::from_json(&text).unwrap();
    let a = list.get_all();
    let b = loaded.get_all();
    assert_eq!(a.len(), b.len());
    for k in 0..a.len() {
        assert_eq!(a[k].id, b[k].id);
        assert_eq!(a[k].title, b[k].title);
        assert_eq!(a[k].description, b[k].description);
        assert_eq!(a[k].done, b[k].done);
    }
}

#[test]
fn to_json_exact_text() {
    let mut list = TodoList::new();
    list.add("Buy milk".to_string(), "2L".to_string());
    list.add("b".to_string(), String::new());
    list.mark_done(1);
    assert_eq!(
        list.to_json(),
        "[{\"id\":0,\"title\":\"Buy milk\",\"description\":\"2L\",\"done\":false},{\"id\":1,\"title\":\"b\",\"description\":\"\",\"done\":true}]"
    );
}

#[test]
fn to_json_escapes_like_serde() {
    let mut list = TodoList::new();
    list.add("a\"b\\c".to_string(), "x\ny\tz\r\u{8}\u{c}\u{1f}".to_string());
    assert_eq!(
        list.to_json(),
        "[{\"id\":0,\"title\":\"a\\\"b\\\\c\",\"description\":\"x\\ny\\tz\\r\\b\\f\\u001f\",\"done\":false}]"
    );
}

#[test]
fn empty_store_round_trip() {
    let list = TodoList::new();
    assert_eq!(list.to_json(), "[]");
    let loaded = TodoList::from_json("[]").unwrap();
    assert_eq!(loaded.get_all().len(), 0);
}

#[test]
fn load_tolerates_whitespace() {
    let text = "\n[\n  { \"id\": 3, \"title\": \"a\", \"description\": \"b\", \"done\": true },\n  { \"id\": 1, \"title\": \"c\", \"description\": \"d\", \"done\": false }\n]\n";
    let list = TodoList::from_json(text).unwrap();
    assert_eq!(list.get_all().len(), 2);
    assert_eq!(list.get_all()[0].id, 3);
    assert_eq!(list.get_all()[0].done, true);
    assert_eq!(list.get_all()[1].id, 1);
    assert_eq!(list.get_all()[1].title, "c");
}

#[test]
fn load_decodes_escapes() {
    let text = "[{\"id\":0,\"title\":\"a\\\"b\\\\c\\/d\",\"description\":\"x\\ny\\tz\\b\\f\\r\\u0001\",\"done\":false}]";
    let list = TodoList::from_json(text).unwrap();
    assert_eq!(list.get_all()[0].title, "a\"b\\c/d");
    assert_eq!(list.get_all()[0].description, "x\ny\tz\u{8}\u{c}\r\u{1}");
}

#[test]
fn load_accepts_largest_id() {
    let text = "[{\"id\":4294967295,\"title\":\"t\",\"description\":\"d\",\"done\":false}]";
    let list = TodoList::from_json(text).unwrap();
    assert_eq!(list.get_all()[0].id, u32::MAX);
}

#[test]
fn malformed_json_is_a_parse_error() {
    assert_eq!(TodoList::from_json("").unwrap_err(), TodoError::ParseError);
    assert_eq!(TodoList::from_json("{").unwrap_err(), TodoError::ParseError);
    assert_eq!(TodoList::from_json("[{]").unwrap_err(), TodoError::ParseError);
    assert_eq!(TodoList::from_json("[,]").unwrap_err(), TodoError::ParseError);
    assert_eq!(TodoList::from_json("not json").unwrap_err(), TodoError::ParseError);
    assert_eq!(TodoList::from_json("[] trailing").unwrap_err(), TodoError::ParseError);
    // a record must hold all four fields
    assert_eq!(
        TodoList::from_json("[{\"id\":0,\"title\":\"a\",\"done\":false}]").unwrap_err(),
        TodoError::ParseError
    );
    // an id must be a non-negative integer that fits in 32 bits
    assert_eq!(
        TodoList::from_json("[{\"id\":4294967296,\"title\":\"a\",\"description\":\"b\",\"done\":false}]")
            .unwrap_err(),
        TodoError::ParseError
    );
    assert_eq!(
        TodoList::from_json("[{\"id\":01,\"title\":\"a\",\"description\":\"b\",\"done\":false}]")
            .unwrap_err(),
        TodoError::ParseError
    );
    assert_eq!(
        TodoList::from_json("[{\"id\":-1,\"title\":\"a\",\"description\":\"b\",\"done\":false}]")
            .unwrap_err(),
        TodoError::ParseError
    );
    // strings may not hold raw control characters or dangling escapes
    assert_eq!(
        TodoList::from_json("[{\"id\":0,\"title\":\"a\nb\",\"description\":\"b\",\"done\":false}]")
            .unwrap_err(),
        TodoError::ParseError
    );
    assert_eq!(
        TodoList::from_json("[{\"id\":0,\"title\":\"a\\x\",\"description\":\"b\",\"done\":false}]")
            .unwrap_err(),
        TodoError::ParseError
    );
}

#[test]
fn serde_json_reads_what_we_write() {
    let mut list = TodoList::new();
    list.add("Buy \"milk\"".to_string(), "2L\nand a pen \u{3}".to_string());
    list.mark_done(0);
    let text = list.to_json();
    let v: serde_json::Value = serde_json::from_str(&text).unwrap();
    let arr = v.as_array().unwrap();
    assert_eq!(arr.len(), 1);
    assert_eq!(arr[0].get("id").unwrap().as_u64().unwrap(), 0);
    assert_eq!(arr[0].get("title").unwrap().as_str().unwrap(), "Buy \"milk\"");
    assert_eq!(
        arr[0].get("description").unwrap().as_str().unwrap(),
        "2L\nand a pen \u{3}"
    );
    assert_eq!(arr[0].get("done").unwrap().as_bool().unwrap(), true);
}

#[test]
fn we_read_what_serde_json_escapes() {
    let title = "tea \u{1f} time \"quoted\" back\\slash tab\t";
    let encoded = serde_json::to_string(&serde_json::Value::from(title)).unwrap();
    let text = format!(
        "[{{\"id\":2,\"title\":{},\"description\":\"d\",\"done\":false}}]",
        encoded
    );
    let list = TodoList::from_json(&text).unwrap();
    assert_eq!(list.get_all().len(), 1);
    assert_eq!(list.get_all()[0].id, 2);
    assert_eq!(list.get_all()[0].title, title);
}

#[test]
fn load_accepts_any_field_order() {
    let text = "[{\"title\":\"a\",\"description\":\"b\",\"id\":0,\"done\":false}]";
    let list = TodoList::from_json(text).unwrap();
    assert_eq!(list.get_all().len(), 1);
    assert_eq!(list.get_all()[0].id, 0);
    assert_eq!(list.get_all()[0].title, "a");
    assert_eq!(list.get_all()[0].description, "b");
    assert_eq!(list.get_all()[0].done, false);
    let text2 = "[{\"done\":true,\"id\":7,\"description\":\"d\",\"title\":\"t\"}]";
    let list2 = TodoList::from_json(text2).unwrap();
    assert_eq!(list2.get_all()[0].id, 7);
    assert_eq!(list2.get_all()[0].done, true);
}

#[test]
fn load_ignores_unknown_fields() {
    let text = "[{\"note\": null, \"id\": 3, \"extra\": {\"a\": [1, -2.5e3, \"x\", {}], \"b\": true}, \"title\": \"t\", \"tags\": [], \"description\": \"d\", \"done\": false, \"rank\": 0.5}]";
    let list = TodoList::from_json(text).unwrap();
    assert_eq!(list.get_all().len(), 1);
    assert_eq!(list.get_all()[0].id, 3);
    assert_eq!(list.get_all()[0].title, "t");
    assert_eq!(list.get_all()[0].description, "d");
    assert_eq!(list.get_all()[0].done, false);
}

#[test]
fn duplicate_known_field_is_a_parse_error() {
    let text = "[{\"id\":0,\"id\":1,\"title\":\"a\",\"description\":\"b\",\"done\":false}]";
    assert_eq!(TodoList::from_json(text).unwrap_err(), TodoError::ParseError);
    let text2 = "[{\"id\":0,\"title\":\"a\",\"title\":\"c\",\"description\":\"b\",\"done\":false}]";
    assert_eq!(TodoList::from_json(text2).unwrap_err(), TodoError::ParseError);
}

#[test]
fn load_decodes_unicode_escapes() {
    let text = "[{\"id\":0,\"title\":\"\\u0041\\u00e9\\u2764\",\"description\":\"\\uD83D\\uDE00\",\"done\":false}]";
    let list = TodoList::from_json(text).unwrap();
    assert_eq!(list.get_all()[0].title, "Aé\u{2764}");
    assert_eq!(list.get_all()[0].description, "\u{1F600}");
}

#[test]
fn lone_surrogate_is_a_parse_error() {
    let high = "[{\"id\":0,\"title\":\"\\uD83D\",\"description\":\"d\",\"done\":false}]";
    assert_eq!(TodoList::from_json(high).unwrap_err(), TodoError::ParseError);
    let low = "[{\"id\":0,\"title\":\"\\uDE00\",\"description\":\"d\",\"done\":false}]";
    assert_eq!(TodoList::from_json(low).unwrap_err(), TodoError::ParseError);
    let unpaired = "[{\"id\":0,\"title\":\"\\uD83Dx\",\"description\":\"d\",\"done\":false}]";
    assert_eq!(TodoList::from_json(unpaired).unwrap_err(), TodoError::ParseError);
}

#[test]
fn command_remove_reports_and_rewrites() {
    let text = commands::add(None, "a".to_string(), "1".to_string()).unwrap();
    let text = commands::add(Some(&text), "b".to_string(), "2".to_string()).unwrap();
    let (removed, out) = commands::remove(&text, 0).unwrap().unwrap();
    assert_eq!(removed.id, 0);
    assert_eq!(removed.title, "a");
    let list = TodoList::from_json(&out).unwrap();
    assert_eq!(list.get_all().len(), 1);
    assert_eq!(list.get_all()[0].id, 1);
    assert!(commands::remove(&text, 9).unwrap().is_none());
    assert_eq!(commands::remove("bad", 0).unwrap_err(), TodoError::ParseError);
}

#[test]
fn command_done_and_undone_toggle() {
    let text = commands::add(None, "a".to_string(), "1".to_string()).unwrap();
    let (t, out) = commands::done(&text, 0).unwrap().unwrap();
    assert_eq!(t.done, true);
    assert_eq!(t.title, "a");
    let list = TodoList::from_json(&out).unwrap();
    assert_eq!(list.get_all()[0].done, true);
    let (t2, out2) = commands::undone(&out, 0).unwrap().unwrap();
    assert_eq!(t2.done, false);
    let list2 = TodoList::from_json(&out2).unwrap();
    assert_eq!(list2.get_all()[0].done, false);
    assert!(commands::done(&text, 5).unwrap().is_none());
    assert!(commands::undone(&text, 5).unwrap().is_none());
    assert_eq!(commands::done("{", 0).unwrap_err(), TodoError::ParseError);
}

#[test]
fn command_add_creates_the_file_text() {
    let out = commands::add(None, "Buy milk".to_string(), "2L".to_string()).unwrap();
    assert_eq!(out, "[{\"id\":0,\"title\":\"Buy milk\",\"description\":\"2L\",\"done\":false}]");
}

#[test]
fn command_add_appends_to_existing_text() {
    let first = commands::add(None, "a".to_string(), "1".to_string()).unwrap();
    let second = commands::add(Some(&first), "b".to_string(), "2".to_string()).unwrap();
    let list = TodoList::from_json(&second).unwrap();
    assert_eq!(list.get_all().len(), 2);
    assert_eq!(list.get_all()[1].id, 1);
    assert_eq!(list.get_all()[1].title, "b");
}

#[test]
fn command_add_rejects_malformed_contents() {
    let r = commands::add(Some("nonsense"), "a".to_string(), "1".to_string());
    assert_eq!(r.unwrap_err(), TodoError::ParseError);
}
