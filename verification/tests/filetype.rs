use find_empty_folders::counts::CountTable;
use find_empty_folders::filetype::{Category, FileTypes};
use find_empty_folders::jsontypes::Jsontypes;

fn table(pairs: &[(&str, u64)]) -> CountTable {
    CountTable::from_pairs(pairs.iter().map(|(k, v)| (k.to_string(), *v)).collect())
}

fn stats_with_categories() -> FileTypes {
    let jt = Jsontypes {
        ft: table(&[("exe", 0), ("mp3", 0), ("txt", 0)]),
        known_types: vec![
            Category { name: "exec_files".to_string(), exts: vec!["exe".to_string(), "bat".to_string()], count: 0 },
            Category { name: "audio_files".to_string(), exts: vec!["mp3".to_string()], count: 0 },
            Category { name: "more_exec".to_string(), exts: vec!["exe".to_string()], count: 0 },
        ],
        known_cat: table(&[("exec_files", 0), ("audio_files", 0), ("more_exec", 0)]),
    };
    FileTypes::new(jt)
}

#[test]
fn count_table_set_get_increment() {
    let mut t = CountTable::new();
    assert_eq!(t.get(&"a".to_string()), None);
    t.set("a".to_string(), 3);
    t.set("b".to_string(), 1);
    t.set("a".to_string(), 5);
    assert_eq!(t.len(), 2);
    assert_eq!(t.get(&"a".to_string()), Some(5));
    t.increment(&"b".to_string());
    assert_eq!(t.get(&"b".to_string()), Some(2));
    assert_eq!(t.position(&"b".to_string()), Some(1));
    assert_eq!(t.position(&"c".to_string()), None);
}

#[test]
fn inc_known_extension_counts_it_and_its_first_category() {
    let mut s = stats_with_categories();
    s.inc("exe".to_string());
    s.inc("exe".to_string());
    s.inc("mp3".to_string());
    assert_eq!(s.ft.get(&"exe".to_string()), Some(2));
    assert_eq!(s.ft.get(&"mp3".to_string()), Some(1));
    assert_eq!(s.known_types[0].count, 2);
    assert_eq!(s.known_types[1].count, 1);
    assert_eq!(s.known_types[2].count, 0);
    assert_eq!(s.known_cat.get(&"exec_files".to_string()), Some(2));
    assert_eq!(s.known_cat.get(&"audio_files".to_string()), Some(1));
    assert_eq!(s.known_cat.get(&"more_exec".to_string()), Some(0));
    assert_eq!(s.others, 0);
    assert_eq!(s.uft.len(), 0);
}

#[test]
fn inc_known_extension_without_category_counts_only_it() {
    let mut s = stats_with_categories();
    s.inc("txt".to_string());
    assert_eq!(s.ft.get(&"txt".to_string()), Some(1));
    assert!(s.known_types.iter().all(|c| c.count == 0));
}

#[test]
fn inc_unknown_extension_sets_it_to_one_and_counts_others() {
    let mut s = stats_with_categories();
    s.inc("zip".to_string());
    s.inc("zip".to_string());
    s.inc("noext".to_string());
    assert_eq!(s.uft.get(&"zip".to_string()), Some(1));
    assert_eq!(s.uft.get(&"noext".to_string()), Some(1));
    assert_eq!(s.others, 3);
    assert_eq!(s.ft.get(&"zip".to_string()), None);
}

#[test]
fn can_inc_refuses_an_overflow() {
    let mut s = stats_with_categories();
    s.ft.set("exe".to_string(), u64::MAX);
    assert!(!s.can_inc(&"exe".to_string()));
    assert!(s.can_inc(&"mp3".to_string()));
    s.others = u64::MAX;
    assert!(!s.can_inc(&"zip".to_string()));
}

#[test]
fn inc_category_without_match_changes_nothing() {
    let mut s = stats_with_categories();
    s.inc_category("doc".to_string());
    assert!(s.known_types.iter().all(|c| c.count == 0));
    assert_eq!(s.known_cat.get(&"exec_files".to_string()), Some(0));
}

#[test]
fn read_exts_parses_an_object_of_counts() {
    let t = Jsontypes::read_exts("{\"exe\": 0, \"mp3\": 7}").unwrap();
    assert_eq!(t.len(), 2);
    assert_eq!(t.get(&"exe".to_string()), Some(0));
    assert_eq!(t.get(&"mp3".to_string()), Some(7));
}

#[test]
fn read_exts_reports_bad_json() {
    assert!(Jsontypes::read_exts("{\"exe\": -1}").is_err());
    assert!(Jsontypes::read_exts("not json").is_err());
    assert!(Jsontypes::read_exts("[1, 2]").is_err());
}

#[test]
fn jsontypes_new_without_table_is_empty() {
    let jt = Jsontypes::new(None);
    assert_eq!(jt.ft.len(), 0);
    assert_eq!(jt.known_types.len(), 0);
    assert_eq!(jt.known_cat.len(), 0);
    let jt = Jsontypes::new(Some(table(&[("a", 2)])));
    assert_eq!(jt.ft.get(&"a".to_string()), Some(2));
    let s = FileTypes::new(jt);
    assert_eq!(s.others, 0);
    assert_eq!(s.uft.len(), 0);
    assert_eq!(s.ft.get(&"a".to_string()), Some(2));
}

#[test]
fn distribution_shows_nonzero_counts() {
    let mut s = stats_with_categories();
    assert_eq!(s.distribution(), (vec![], None));
    s.inc("mp3".to_string());
    s.inc("zip".to_string());
    s.inc("mp3".to_string());
    assert_eq!(s.distribution(), (vec![("audio_files".to_string(), 2)], Some(1)));
    s.inc("exe".to_string());
    assert_eq!(
        s.distribution(),
        (vec![("exec_files".to_string(), 1), ("audio_files".to_string(), 2)], Some(1))
    );
}

#[test]
fn inc_counts_every_extension_exactly_once() {
    let mut s = stats_with_categories();
    let total = |s: &FileTypes| s.ft.entries().iter().map(|(_, v)| *v).sum::<u64>() + s.others;
    let cats = |s: &FileTypes| s.known_cat.entries().iter().map(|(_, v)| *v).sum::<u64>();
    let mut before = total(&s);
    for (e, cat_step) in [("exe", 1), ("zip", 0), ("txt", 0), ("mp3", 1), ("zip", 0)] {
        let c = cats(&s);
        s.inc(e.to_string());
        assert_eq!(total(&s), before + 1);
        assert_eq!(cats(&s), c + cat_step);
        before = total(&s);
    }
    assert_eq!(s.ft.len(), 3);
    assert_eq!(s.known_cat.len(), 3);
    assert_eq!(s.known_types.len(), 3);
}
