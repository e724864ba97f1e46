use std::collections::HashMap;

use dirsize::entry::{Entry, Probe};
use dirsize::exclude::default_exclusions;
use dirsize::rank::rank;
use dirsize::table::Table;
use dirsize::walker::{WalkError, Walker};

fn file(name: &str, len: u64) -> Entry {
    Entry { name: name.to_string(), probe: Probe::File(len) }
}

fn dir(name: &str) -> Entry {
    Entry { name: name.to_string(), probe: Probe::Directory }
}

fn broken(name: &str) -> Entry {
    Entry { name: name.to_string(), probe: Probe::Unavailable }
}

/// Drives a walker over a filesystem given as a map from the path of each
/// directory that can be listed to its entries.
fn walk(
    root: &str,
    tree: &HashMap<String, Vec<Entry>>,
    excluded: Vec<String>,
) -> Result<Table, WalkError> {
    let mut walker = Walker::new(root, excluded);
    while !walker.is_done() {
        for path in walker.pending() {
            let listing = tree.get(&path).cloned();
            assert!(walker.has_room(&listing));
            walker.supply(listing);
        }
    }
    walker.finish()
}

fn data_tree() -> HashMap<String, Vec<Entry>> {
    let mut tree = HashMap::new();
    tree.insert("/data".to_string(), vec![dir("a"), dir("b"), file("loose", 10)]);
    tree.insert("/data/a".to_string(), vec![file("big", 1_048_576)]);
    tree.insert("/data/b".to_string(), vec![]);
    tree
}

#[test]
fn data_tree_is_ranked_by_size() {
    let table = walk("/data", &data_tree(), default_exclusions()).unwrap();
    let ranked = rank(&table, 3);
    assert_eq!(
        ranked,
        vec![
            (1_048_586, "/data".to_string()),
            (1_048_576, "/data/a".to_string()),
            (0, "/data/b".to_string()),
        ]
    );
    assert_eq!(table.get("/data"), Some(1_048_586));
    assert_eq!(table.get("/data/a"), Some(1_048_576));
    assert_eq!(rank(&table, 20), ranked);
}

#[test]
fn missing_root_fails_without_a_table() {
    let tree = HashMap::new();
    let result = walk("/nowhere", &tree, default_exclusions());
    assert!(matches!(result, Err(WalkError::RootUnreadable)));
}

#[test]
fn unreadable_subdirectory_is_left_out() {
    let mut tree = data_tree();
    tree.insert("/data".to_string(), vec![dir("a"), dir("b"), dir("locked"), file("loose", 10)]);
    let table = walk("/data", &tree, default_exclusions()).unwrap();
    assert_eq!(table.get("/data/locked"), None);
    assert_eq!(table.get("/data"), Some(1_048_586));
    assert_eq!(table.len(), 3);
}

#[test]
fn entry_without_metadata_counts_for_nothing() {
    let mut tree = HashMap::new();
    tree.insert("/d".to_string(), vec![broken("x"), file("y", 7)]);
    let table = walk("/d", &tree, vec![]).unwrap();
    assert_eq!(rank(&table, 5), vec![(7, "/d".to_string())]);
}

fn deep_tree() -> HashMap<String, Vec<Entry>> {
    let mut tree = HashMap::new();
    tree.insert("/".to_string(), vec![dir("home"), dir("proc"), dir("tmp"), file("swap", 4096)]);
    tree.insert("/home".to_string(), vec![dir("u"), dir("v"), file("readme", 100)]);
    tree.insert("/home/u".to_string(), vec![file("a", 1), file("b", 2), dir("deep")]);
    tree.insert("/home/u/deep".to_string(), vec![file("c", 30)]);
    tree.insert("/home/v".to_string(), vec![broken("gone"), file("d", 500)]);
    tree.insert("/proc".to_string(), vec![file("kcore", 1 << 40)]);
    tree.insert("/tmp".to_string(), vec![file("junk", 9999)]);
    tree
}

#[test]
fn excluded_directories_are_neither_entered_nor_recorded() {
    let table = walk("/", &deep_tree(), default_exclusions()).unwrap();
    assert_eq!(table.get("/proc"), None);
    assert_eq!(table.get("/tmp"), None);
    assert_eq!(table.get("/"), Some(4096 + 100 + 33 + 500));
    assert_eq!(table.len(), 5);
}

#[test]
fn excluded_directories_are_never_asked_for() {
    let tree = deep_tree();
    let mut walker = Walker::new("/", default_exclusions());
    let mut asked = Vec::new();
    while !walker.is_done() {
        for path in walker.pending() {
            asked.push(path.clone());
            walker.supply(tree.get(&path).cloned());
        }
    }
    assert_eq!(asked, vec!["/", "/home", "/home/u", "/home/v", "/home/u/deep"]);
}

#[test]
fn without_exclusions_everything_is_walked() {
    let table = walk("/", &deep_tree(), vec![]).unwrap();
    assert_eq!(table.get("/proc"), Some(1 << 40));
    assert_eq!(table.get("/tmp"), Some(9999));
    assert_eq!(table.get("/"), Some(4096 + 100 + 33 + 500 + (1 << 40) + 9999));
}

#[test]
fn every_total_is_the_sum_of_its_entries() {
    let table = walk("/", &deep_tree(), default_exclusions()).unwrap();
    let deep = table.get("/home/u/deep").unwrap();
    let u = table.get("/home/u").unwrap();
    let v = table.get("/home/v").unwrap();
    let home = table.get("/home").unwrap();
    let root = table.get("/").unwrap();
    assert_eq!(deep, 30);
    assert_eq!(u, 1 + 2 + deep);
    assert_eq!(v, 500);
    assert_eq!(home, u + v + 100);
    assert_eq!(root, home + 4096);
}

#[test]
fn ranking_of_a_deep_tree() {
    let table = walk("/", &deep_tree(), default_exclusions()).unwrap();
    assert_eq!(
        rank(&table, 3),
        vec![(4729, "/".to_string()), (633, "/home".to_string()), (500, "/home/v".to_string())]
    );
}

#[test]
fn walking_twice_gives_the_same_ranking() {
    let tree = deep_tree();
    let first = walk("/", &tree, default_exclusions()).unwrap();
    let second = walk("/", &tree, default_exclusions()).unwrap();
    assert_eq!(rank(&first, 20), rank(&second, 20));
}

#[test]
fn excluded_root_gives_an_empty_table() {
    let mut walker = Walker::new("/proc/1", default_exclusions());
    assert!(walker.is_done());
    assert_eq!(walker.pending(), Vec::<String>::new());
    walker.supply(Some(vec![file("x", 1)]));
    assert!(walker.is_done());
    let table = walker.finish().unwrap();
    assert_eq!(table.len(), 0);
    assert_eq!(rank(&table, 20), Vec::new());
}

#[test]
fn empty_root_is_recorded_with_zero() {
    let mut tree = HashMap::new();
    tree.insert("/empty".to_string(), vec![]);
    let table = walk("/empty", &tree, default_exclusions()).unwrap();
    assert_eq!(rank(&table, 20), vec![(0, "/empty".to_string())]);
}

#[test]
fn directory_of_excluded_directories_records_its_files() {
    let mut tree = HashMap::new();
    tree.insert("/".to_string(), vec![dir("proc"), dir("sys"), dir("dev"), file("vmlinuz", 77)]);
    tree.insert("/proc".to_string(), vec![file("a", 1000)]);
    let table = walk("/", &tree, default_exclusions()).unwrap();
    assert_eq!(rank(&table, 20), vec![(77, "/".to_string())]);
}

#[test]
fn pending_directories_come_in_the_order_they_were_found() {
    let mut walker = Walker::new("/data", default_exclusions());
    assert!(!walker.is_done());
    assert_eq!(walker.pending(), vec!["/data"]);
    walker.supply(Some(vec![dir("b"), file("f", 3), dir("a")]));
    assert_eq!(walker.pending(), vec!["/data/b", "/data/a"]);
    walker.supply(None);
    assert_eq!(walker.pending(), vec!["/data/a"]);
    walker.supply(Some(vec![dir("x")]));
    assert_eq!(walker.pending(), vec!["/data/a/x"]);
    walker.supply(Some(vec![file("g", 4)]));
    assert!(walker.is_done());
    let table = walker.finish().unwrap();
    assert_eq!(
        rank(&table, 20),
        vec![(7, "/data".to_string()), (4, "/data/a".to_string()), (4, "/data/a/x".to_string())]
    );
}

#[test]
fn has_room_refuses_what_does_not_fit() {
    let mut walker = Walker::new("/big", vec![]);
    assert!(!walker.has_room(&Some(vec![file("a", u64::MAX), file("b", 1)])));
    let listing = Some(vec![file("a", u64::MAX - 5), dir("sub")]);
    assert!(walker.has_room(&listing));
    walker.supply(listing);
    assert!(walker.has_room(&None));
    assert!(walker.has_room(&Some(vec![file("c", 5)])));
    assert!(!walker.has_room(&Some(vec![file("c", 6)])));
    walker.supply(Some(vec![file("c", 5)]));
    let table = walker.finish().unwrap();
    assert_eq!(table.get("/big"), Some(u64::MAX));
    assert_eq!(table.get("/big/sub"), Some(5));
}

#[test]
fn try_supply_leaves_the_walk_alone_when_it_refuses() {
    let mut walker = Walker::new("/big", vec![]);
    assert!(walker.try_supply(Some(vec![file("a", u64::MAX), dir("sub")])));
    assert_eq!(walker.pending(), vec!["/big/sub"]);
    assert!(!walker.try_supply(Some(vec![file("b", 1), dir("deeper")])));
    assert_eq!(walker.pending(), vec!["/big/sub"]);
    assert!(walker.try_supply(None));
    assert!(walker.is_done());
    assert_eq!(rank(&walker.finish().unwrap(), 20), vec![(u64::MAX, "/big".to_string())]);
}

#[test]
fn a_path_listed_twice_keeps_one_record() {
    let mut walker = Walker::new("/d", vec![]);
    walker.supply(Some(vec![dir("same"), dir("same")]));
    walker.supply(Some(vec![file("a", 1)]));
    walker.supply(Some(vec![file("b", 2)]));
    let table = walker.finish().unwrap();
    assert_eq!(table.len(), 2);
    assert_eq!(table.get("/d"), Some(3));
    assert_eq!(table.get("/d/same"), Some(2));
}

#[test]
fn root_failure_has_a_message() {
    assert_eq!(WalkError::RootUnreadable.message(), "the starting directory cannot be listed");
}
