use mammal::store::{occurs, Payload, Store, StoreError};

fn text(s: &str) -> Payload {
    Payload::with_message(s.to_string())
}

fn chars(s: &str) -> Vec<char> {
    s.chars().collect()
}

#[test]
fn payload_message_field() {
    let p = Payload {
        fields: vec![
            ("role".to_string(), "user".to_string()),
            ("message".to_string(), "first".to_string()),
            ("message".to_string(), "second".to_string()),
        ],
    };
    assert_eq!(p.message(), Some("first".to_string()));
    let none = Payload { fields: vec![("role".to_string(), "user".to_string())] };
    assert_eq!(none.message(), None);
}

#[test]
fn substring_occurrence() {
    assert!(occurs(&chars("hello"), &chars("hello world")));
    assert!(occurs(&chars("world"), &chars("hello world")));
    assert!(occurs(&chars(""), &chars("")));
    assert!(!occurs(&chars("worlds"), &chars("hello world")));
    assert!(!occurs(&chars("hello world!"), &chars("hello world")));
}

#[test]
fn inserted_message_is_found_by_search() {
    let mut s = Store::new();
    let id = s.insert_message("1".to_string(), text("hello world")).unwrap();
    assert_eq!(s.search("hello"), vec![id]);
    assert_eq!(s.search("lo w"), vec![id]);
    assert_eq!(s.search("goodbye"), Vec::<u64>::new());
}

#[test]
fn short_queries_find_nothing() {
    let mut s = Store::new();
    s.insert_message("1".to_string(), text("hello world")).unwrap();
    assert_eq!(s.search("he"), Vec::<u64>::new());
    assert_eq!(s.search(""), Vec::<u64>::new());
}

#[test]
fn ids_increase_and_paths_are_unique() {
    let mut s = Store::new();
    assert_eq!(s.insert_message("1".to_string(), text("a")), Ok(1));
    assert_eq!(s.insert_message("1.1".to_string(), text("b")), Ok(2));
    assert_eq!(s.insert_message("1".to_string(), text("c")), Err(StoreError::DuplicatePath));
    assert_eq!(s.insert_message("1.2".to_string(), text("d")), Ok(3));
    assert_eq!(s.message(2).unwrap().path, "1.1");
    assert!(s.message(4).is_none());
}

#[test]
fn update_reindexes_the_message() {
    let mut s = Store::new();
    let a = s.insert_message("1".to_string(), text("hello world")).unwrap();
    let b = s.insert_message("1.1".to_string(), text("second hello")).unwrap();
    assert_eq!(s.update_message(a, "1".to_string(), text("goodbye world")), Ok(()));
    assert_eq!(s.search("hello"), vec![b]);
    assert_eq!(s.search("goodbye"), vec![a]);
    assert_eq!(s.update_message(a, "1.1".to_string(), text("x")), Err(StoreError::DuplicatePath));
    assert_eq!(s.update_message(99, "9".to_string(), text("x")), Err(StoreError::UnknownMessage));
    assert_eq!(s.update_message(b, "1.5".to_string(), text("moved hello")), Ok(()));
    assert_eq!(s.message(b).unwrap().path, "1.5");
    assert_eq!(s.search("moved"), vec![b]);
}

#[test]
fn delete_removes_from_index() {
    let mut s = Store::new();
    let a = s.insert_message("1".to_string(), text("hello world")).unwrap();
    let b = s.insert_message("2".to_string(), text("hello again")).unwrap();
    assert_eq!(s.delete_message(a), Ok(()));
    assert_eq!(s.search("hello"), vec![b]);
    assert_eq!(s.delete_message(a), Err(StoreError::UnknownMessage));
    let c = s.insert_message("1".to_string(), text("hello there")).unwrap();
    assert_eq!(c, 3);
    let mut found = s.search("hello");
    found.sort();
    assert_eq!(found, vec![b, c]);
}

#[test]
fn message_without_text_is_not_found() {
    let mut s = Store::new();
    let p = Payload { fields: vec![("role".to_string(), "system".to_string())] };
    let id = s.insert_message("1".to_string(), p).unwrap();
    assert!(s.message(id).unwrap().data.message().is_none());
    assert_eq!(s.search("system"), Vec::<u64>::new());
}

#[test]
fn model_needs_existing_provider() {
    let mut s = Store::new();
    assert_eq!(
        s.add_model("gpt".to_string(), "gpt-4".to_string(), 1),
        Err(StoreError::UnknownProvider)
    );
    let p = s
        .add_provider("openai".to_string(), "https://api.example.com".to_string(), "SECRET-REDACTED".to_string())
        .unwrap();
    assert_eq!(p, 1);
    assert_eq!(s.add_model("gpt".to_string(), "gpt-4".to_string(), p), Ok(1));
    assert_eq!(
        s.add_model("other".to_string(), "x".to_string(), p + 1),
        Err(StoreError::UnknownProvider)
    );
}

#[test]
fn thread_titles_are_unique() {
    let mut s = Store::new();
    assert_eq!(s.add_thread_title("t1".to_string(), "Plans".to_string()), Ok(()));
    assert_eq!(
        s.add_thread_title("t1".to_string(), "Other".to_string()),
        Err(StoreError::DuplicateTitle)
    );
    assert_eq!(s.thread_title(&"t1".to_string()), Some(&"Plans".to_string()));
    assert_eq!(s.thread_title(&"t2".to_string()), None);
}

fn view_pairs(s: &Store) -> Vec<(u64, Option<String>)> {
    let mut v: Vec<(u64, Option<String>)> =
        s.message_rows().iter().map(|m| (m.id, m.data.message())).collect();
    v.sort();
    v
}

fn index_pairs(s: &Store) -> Vec<(u64, Option<String>)> {
    let mut v: Vec<(u64, Option<String>)> =
        s.index_rows().iter().map(|e| (e.rowid, e.message.clone())).collect();
    v.sort();
    v
}

#[test]
fn index_mirrors_view_after_every_mutation() {
    let mut s = Store::new();
    assert_eq!(index_pairs(&s), view_pairs(&s));
    let a = s.insert_message("1".to_string(), text("alpha")).unwrap();
    assert_eq!(index_pairs(&s), view_pairs(&s));
    let b = s.insert_message("1.1".to_string(), text("beta")).unwrap();
    assert_eq!(index_pairs(&s), view_pairs(&s));
    let c = s
        .insert_message("1.2".to_string(), Payload { fields: vec![] })
        .unwrap();
    assert_eq!(index_pairs(&s), view_pairs(&s));
    s.update_message(a, "1".to_string(), text("alpha two")).unwrap();
    assert_eq!(index_pairs(&s), view_pairs(&s));
    assert!(s.insert_message("1.1".to_string(), text("dup")).is_err());
    assert_eq!(index_pairs(&s), view_pairs(&s));
    s.delete_message(b).unwrap();
    assert_eq!(index_pairs(&s), view_pairs(&s));
    s.update_message(c, "1.3".to_string(), text("gamma")).unwrap();
    assert_eq!(index_pairs(&s), view_pairs(&s));
    assert_eq!(
        view_pairs(&s),
        vec![(a, Some("alpha two".to_string())), (c, Some("gamma".to_string()))]
    );
}

#[test]
fn search_ignores_case() {
    let mut s = Store::new();
    let id = s.insert_message("1".to_string(), text("Hello World")).unwrap();
    assert_eq!(s.search("hello"), vec![id]);
    assert_eq!(s.search("WORLD"), vec![id]);
    assert_eq!(s.search("o wO"), vec![id]);
}

#[test]
fn provider_in_use_cannot_be_deleted() {
    let mut s = Store::new();
    let p = s
        .add_provider("local".to_string(), "http://localhost:8080".to_string(), "SECRET-REDACTED".to_string())
        .unwrap();
    let q = s
        .add_provider("other".to_string(), "http://example.org".to_string(), "SECRET-REDACTED".to_string())
        .unwrap();
    assert_eq!(q, 2);
    let m = s.add_model("small".to_string(), "small-1".to_string(), p).unwrap();
    assert_eq!(s.model(m).unwrap().provider_id, p);
    assert_eq!(s.provider(p).unwrap().endpoint, "http://localhost:8080");
    assert_eq!(s.delete_provider(p), Err(StoreError::ProviderInUse));
    assert_eq!(s.delete_provider(7), Err(StoreError::UnknownProvider));
    assert_eq!(s.delete_provider(q), Ok(()));
    assert!(s.provider(q).is_none());
    assert_eq!(s.delete_model(m), Ok(()));
    assert_eq!(s.delete_model(m), Err(StoreError::UnknownModel));
    assert!(s.model(m).is_none());
    assert_eq!(s.delete_provider(p), Ok(()));
    assert_eq!(s.add_model("late".to_string(), "late-1".to_string(), p), Err(StoreError::UnknownProvider));
    let r = s
        .add_provider("again".to_string(), "http://example.net".to_string(), "SECRET-REDACTED".to_string())
        .unwrap();
    assert_eq!(r, 3);
}

#[test]
fn search_folds_each_character_alone() {
    let mut s = Store::new();
    let id = s.insert_message("1".to_string(), text("ΑΟΣΑ")).unwrap();
    assert_eq!(s.search("ΑΟΣ"), vec![id]);
    assert_eq!(s.search("αοσα"), vec![id]);
}

#[test]
fn thread_titles_update_and_delete() {
    let mut s = Store::new();
    let t1 = "t1".to_string();
    assert_eq!(s.update_thread_title(&t1, "x".to_string()), Err(StoreError::UnknownTitle));
    assert_eq!(s.add_thread_title(t1.clone(), "Plans".to_string()), Ok(()));
    assert_eq!(s.update_thread_title(&t1, "Travel plans".to_string()), Ok(()));
    assert_eq!(s.thread_title(&t1), Some(&"Travel plans".to_string()));
    assert_eq!(s.delete_thread_title(&t1), Ok(()));
    assert_eq!(s.thread_title(&t1), None);
    assert_eq!(s.delete_thread_title(&t1), Err(StoreError::UnknownTitle));
    assert_eq!(s.add_thread_title(t1.clone(), "Again".to_string()), Ok(()));
}

#[test]
fn providers_and_models_update() {
    let mut s = Store::new();
    assert_eq!(
        s.update_provider(1, "a".to_string(), "b".to_string(), "c".to_string()),
        Err(StoreError::UnknownProvider)
    );
    let p = s
        .add_provider("local".to_string(), "http://localhost:8080".to_string(), "SECRET-REDACTED".to_string())
        .unwrap();
    let q = s
        .add_provider("remote".to_string(), "http://example.org".to_string(), "SECRET-REDACTED".to_string())
        .unwrap();
    assert_eq!(
        s.update_provider(p, "local".to_string(), "http://localhost:9090".to_string(), "SECRET-REDACTED".to_string()),
        Ok(())
    );
    assert_eq!(s.provider(p).unwrap().endpoint, "http://localhost:9090");
    let m = s.add_model("small".to_string(), "small-1".to_string(), p).unwrap();
    assert_eq!(
        s.update_model(m + 1, "x".to_string(), "y".to_string(), p),
        Err(StoreError::UnknownModel)
    );
    assert_eq!(
        s.update_model(m, "x".to_string(), "y".to_string(), 42),
        Err(StoreError::UnknownProvider)
    );
    assert_eq!(s.model(m).unwrap().provider_id, p);
    assert_eq!(s.update_model(m, "small".to_string(), "small-2".to_string(), q), Ok(()));
    assert_eq!(s.model(m).unwrap().model, "small-2");
    assert_eq!(s.model(m).unwrap().provider_id, q);
    assert_eq!(s.delete_provider(p), Ok(()));
    assert_eq!(s.delete_provider(q), Err(StoreError::ProviderInUse));
}

#[test]
fn fresh_store_accepts_first_message() {
    let mut s = Store::new();
    assert_eq!(s.insert_message("1".to_string(), text("hello world")), Ok(1));
    assert_eq!(s.search("hello"), vec![1]);
}
