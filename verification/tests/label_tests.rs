use misato::label::{default_labels_path, LabelStore, Verdict};

fn store() -> LabelStore {
    LabelStore::default()
}

#[test]
fn page_key_joins_book_and_file() {
    assert_eq!(LabelStore::page_key("Die Sterne", "p020_i049.jpg"), "Die Sterne/p020_i049.jpg");
    assert_eq!(LabelStore::page_key("", ""), "/");
}

#[test]
fn empty_store() {
    let s = store();
    assert_eq!(s.get("b/p.jpg", "misato"), None);
    assert_eq!(s.labeled_page_count(), 0);
    assert!(s.counts().is_empty());
}

#[test]
fn get_after_set() {
    let mut s = store();
    s.set("b/p.jpg", "misato", Verdict::Yes);
    assert_eq!(s.get("b/p.jpg", "misato"), Some(Verdict::Yes));
    assert_eq!(s.get("b/p.jpg", "rei"), None);
    assert_eq!(s.get("b/q.jpg", "misato"), None);
    assert_eq!(s.labeled_page_count(), 1);
}

#[test]
fn set_overwrites_earlier_verdict() {
    let mut s = store();
    s.set("b/p.jpg", "rei", Verdict::No);
    s.set("b/p.jpg", "rei", Verdict::Unsure);
    assert_eq!(s.get("b/p.jpg", "rei"), Some(Verdict::Unsure));
    assert_eq!(s.labeled_page_count(), 1);
    assert_eq!(s.counts(), vec![("rei".to_string(), (0, 0, 1))]);
}

#[test]
fn set_keeps_other_entries() {
    let mut s = store();
    s.set("b/p.jpg", "misato", Verdict::Yes);
    s.set("b/p.jpg", "asuka", Verdict::No);
    s.set("a/z.jpg", "misato", Verdict::No);
    assert_eq!(s.get("b/p.jpg", "misato"), Some(Verdict::Yes));
    assert_eq!(s.get("b/p.jpg", "asuka"), Some(Verdict::No));
    assert_eq!(s.get("a/z.jpg", "misato"), Some(Verdict::No));
    assert_eq!(s.labeled_page_count(), 2);
    // Both levels are kept in key order.
    assert_eq!(s.entries[0].0, "a/z.jpg");
    assert_eq!(s.entries[1].0, "b/p.jpg");
    assert_eq!(s.entries[1].1[0].0, "asuka");
    assert_eq!(s.entries[1].1[1].0, "misato");
}

#[test]
fn clear_removes_verdict_and_empty_page() {
    let mut s = store();
    s.set("b/p.jpg", "misato", Verdict::Yes);
    s.set("b/p.jpg", "rei", Verdict::No);
    s.clear_page_character("b/p.jpg", "misato");
    assert_eq!(s.get("b/p.jpg", "misato"), None);
    assert_eq!(s.get("b/p.jpg", "rei"), Some(Verdict::No));
    assert_eq!(s.labeled_page_count(), 1);
    s.clear_page_character("b/p.jpg", "rei");
    assert_eq!(s.get("b/p.jpg", "rei"), None);
    assert_eq!(s.labeled_page_count(), 0);
    assert!(s.entries.is_empty());
}

#[test]
fn clear_of_absent_entry_changes_nothing() {
    let mut s = store();
    s.set("b/p.jpg", "misato", Verdict::Yes);
    s.clear_page_character("b/p.jpg", "asuka");
    s.clear_page_character("x/y.jpg", "misato");
    assert_eq!(s.get("b/p.jpg", "misato"), Some(Verdict::Yes));
    assert_eq!(s.labeled_page_count(), 1);
}

#[test]
fn clear_undoes_set() {
    let mut s = store();
    s.set("b/p.jpg", "misato", Verdict::Yes);
    let before = s.clone();
    s.set("b/p.jpg", "rei", Verdict::No);
    s.set("c/q.jpg", "rei", Verdict::Yes);
    s.clear_page_character("c/q.jpg", "rei");
    s.clear_page_character("b/p.jpg", "rei");
    assert_eq!(s.entries, before.entries);
}

#[test]
fn counts_per_character() {
    let mut s = store();
    s.set("b/1.jpg", "misato", Verdict::Yes);
    s.set("b/2.jpg", "misato", Verdict::Yes);
    s.set("b/3.jpg", "misato", Verdict::No);
    s.set("b/1.jpg", "rei", Verdict::Unsure);
    s.set("b/2.jpg", "asuka", Verdict::No);
    assert_eq!(
        s.counts(),
        vec![
            ("asuka".to_string(), (0, 1, 0)),
            ("misato".to_string(), (2, 1, 0)),
            ("rei".to_string(), (0, 0, 1)),
        ]
    );
    assert_eq!(s.labeled_page_count(), 3);
}

#[test]
fn labels_path() {
    assert_eq!(default_labels_path("output"), "output/labels.json");
    assert_eq!(default_labels_path("output/"), "output/labels.json");
    assert_eq!(default_labels_path(""), "labels.json");
}

#[test]
fn page_count_grows_only_for_new_pages() {
    let mut s = store();
    s.set("b/p.jpg", "misato", Verdict::Yes);
    assert_eq!(s.labeled_page_count(), 1);
    s.set("b/p.jpg", "rei", Verdict::No);
    assert_eq!(s.labeled_page_count(), 1);
    s.set("b/q.jpg", "rei", Verdict::No);
    assert_eq!(s.labeled_page_count(), 2);
}

#[test]
fn page_count_drops_only_with_last_verdict() {
    let mut s = store();
    s.set("b/p.jpg", "misato", Verdict::Yes);
    s.set("b/p.jpg", "rei", Verdict::No);
    s.clear_page_character("b/p.jpg", "misato");
    assert_eq!(s.labeled_page_count(), 1);
    s.clear_page_character("b/p.jpg", "rei");
    assert_eq!(s.labeled_page_count(), 0);
}

#[test]
fn verdicts_of_one_page() {
    let mut s = store();
    s.set("b/p.jpg", "rei", Verdict::No);
    s.set("b/p.jpg", "asuka", Verdict::Yes);
    s.set("b/q.jpg", "misato", Verdict::Unsure);
    assert_eq!(
        s.page_verdicts("b/p.jpg"),
        vec![("asuka".to_string(), Verdict::Yes), ("rei".to_string(), Verdict::No)]
    );
    assert!(s.page_verdicts("b/none.jpg").is_empty());
}
