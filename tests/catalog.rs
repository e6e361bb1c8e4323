use zsem_plan::catalog::{class_entry, contains_str, link_id_of, remove_all_str};

#[test]
fn entry_on_practice() {
    let c = class_entry("https://zsem.edu.pl/plany", "plany/o29.html", " 3TI prakt. ", "prakt.");
    assert_eq!(c.id, "o29");
    assert_eq!(c.name, "3TI");
    assert_eq!(c.url, "https://zsem.edu.pl/plany/plany/o29.html");
    assert!(c.is_on_practice);
}

#[test]
fn entry_not_on_practice() {
    let c = class_entry("https://zsem.edu.pl/plany", "plany/o6.html", "1A  ", "prakt.");
    assert_eq!(c.id, "o6");
    assert_eq!(c.name, "1A");
    assert_eq!(c.url, "https://zsem.edu.pl/plany/plany/o6.html");
    assert!(!c.is_on_practice);
}

#[test]
fn link_ids() {
    assert_eq!(link_id_of("/plany/o29.php"), "o29");
    assert_eq!(link_id_of("o7"), "o7");
    assert_eq!(link_id_of("a/b/"), "");
    assert_eq!(link_id_of("x.y.z"), "x");
}

#[test]
fn marker_search_and_removal() {
    assert!(contains_str("2Bprakt.", "prakt."));
    assert!(!contains_str("prakt", "prakt."));
    assert!(contains_str("abc", ""));
    assert_eq!(remove_all_str("aprakt.bprakt.", "prakt."), "ab");
    assert_eq!(remove_all_str("aaa", "aa"), "a");
    assert_eq!(remove_all_str("abc", ""), "abc");
}
