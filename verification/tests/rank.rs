use dirsize::rank::rank;
use dirsize::table::Table;

fn table(records: &[(&str, u64)]) -> Table {
    let mut table = Table::new();
    for (path, size) in records {
        table.insert(path.to_string(), *size);
    }
    table
}

fn pair(size: u64, path: &str) -> (u64, String) {
    (size, path.to_string())
}

#[test]
fn empty_table_has_no_records() {
    let table = Table::new();
    assert_eq!(table.len(), 0);
    assert_eq!(table.get("/a"), None);
    assert_eq!(rank(&table, 20), Vec::new());
}

#[test]
fn insert_overwrites_the_same_path_in_place() {
    let mut table = table(&[("/a", 1), ("/b", 2)]);
    table.insert("/a".to_string(), 7);
    assert_eq!(table.len(), 2);
    assert_eq!(table.get("/a"), Some(7));
    assert_eq!(table.get("/b"), Some(2));
    assert_eq!(table.path_at(0), "/a");
    assert_eq!(table.size_at(0), 7);
    assert_eq!(table.path_at(1), "/b");
    assert_eq!(table.size_at(1), 2);
}

#[test]
fn rank_sorts_from_largest_to_smallest() {
    let table = table(&[("/a", 5), ("/b", 50), ("/c", 0), ("/d", 20)]);
    assert_eq!(
        rank(&table, 20),
        vec![pair(50, "/b"), pair(20, "/d"), pair(5, "/a"), pair(0, "/c")]
    );
}

#[test]
fn rank_keeps_only_the_largest() {
    let table = table(&[("/a", 5), ("/b", 50), ("/c", 0), ("/d", 20), ("/e", 30)]);
    assert_eq!(rank(&table, 2), vec![pair(50, "/b"), pair(30, "/e")]);
    assert_eq!(rank(&table, 1), vec![pair(50, "/b")]);
    assert_eq!(rank(&table, 0), Vec::new());
}

#[test]
fn rank_with_a_limit_of_the_table_size_returns_all() {
    let table = table(&[("/a", 1), ("/b", 3), ("/c", 2)]);
    let all = vec![pair(3, "/b"), pair(2, "/c"), pair(1, "/a")];
    assert_eq!(rank(&table, 3), all);
    assert_eq!(rank(&table, 4), all);
    assert_eq!(rank(&table, usize::MAX), all);
}

#[test]
fn rank_keeps_equal_sizes_in_table_order() {
    let table = table(&[("/x", 4), ("/a", 9), ("/y", 4), ("/z", 4)]);
    assert_eq!(
        rank(&table, 10),
        vec![pair(9, "/a"), pair(4, "/x"), pair(4, "/y"), pair(4, "/z")]
    );
    assert_eq!(rank(&table, 3), vec![pair(9, "/a"), pair(4, "/x"), pair(4, "/y")]);
}

#[test]
fn rank_is_the_same_when_asked_twice() {
    let table = table(&[("/a", 5), ("/b", 5), ("/c", 8)]);
    assert_eq!(rank(&table, 2), rank(&table, 2));
}
