use dirsize::entry::{join, plan_entry, Entry, Probe, Step};
use dirsize::exclude::{components, default_exclusions, is_excluded, starts_with, to_chars};

fn text(chars: &[char]) -> String {
    chars.iter().collect()
}

fn parts(path: &str) -> Vec<String> {
    components(path).iter().map(|c| text(c)).collect()
}

#[test]
fn default_exclusions_are_the_pseudo_filesystems() {
    assert_eq!(default_exclusions(), vec!["/proc", "/dev", "/sys", "/run", "/tmp", "/var/run"]);
}

#[test]
fn to_chars_keeps_every_character() {
    assert_eq!(to_chars("a/é"), vec!['a', '/', 'é']);
    assert_eq!(to_chars(""), Vec::<char>::new());
}

#[test]
fn components_split_at_separators() {
    assert_eq!(parts("/var/run"), vec!["/", "var", "run"]);
    assert_eq!(parts("var/run"), vec!["var", "run"]);
    assert_eq!(parts("//var///run/"), vec!["/", "var", "run"]);
    assert_eq!(parts(""), Vec::<String>::new());
    assert_eq!(parts("/"), vec!["/"]);
}

#[test]
fn components_drop_dots_except_the_first() {
    assert_eq!(parts("./a/./b/."), vec![".", "a", "b"]);
    assert_eq!(parts("/./a"), vec!["/", "a"]);
    assert_eq!(parts("a/../b"), vec!["a", "..", "b"]);
    assert_eq!(parts("."), vec!["."]);
}

#[test]
fn starts_with_compares_whole_components() {
    assert!(starts_with("/proc/1/fd", "/proc"));
    assert!(starts_with("/proc", "/proc"));
    assert!(starts_with("/proc", "/proc/"));
    assert!(!starts_with("/procfs", "/proc"));
    assert!(!starts_with("/pro", "/proc"));
    assert!(!starts_with("proc/1", "/proc"));
    assert!(!starts_with("/home/proc", "/proc"));
    assert!(starts_with("/anything", ""));
}

#[test]
fn is_excluded_matches_any_prefix() {
    let excluded = default_exclusions();
    assert!(is_excluded("/proc", &excluded));
    assert!(is_excluded("/dev/shm", &excluded));
    assert!(is_excluded("/var/run/lock", &excluded));
    assert!(is_excluded("//tmp/x", &excluded));
    assert!(is_excluded("/./sys", &excluded));
    assert!(!is_excluded("/var/running", &excluded));
    assert!(!is_excluded("/var", &excluded));
    assert!(!is_excluded("/home/user", &excluded));
    assert!(!is_excluded("/", &excluded));
    assert!(!is_excluded("tmp", &excluded));
}

#[test]
fn nothing_is_excluded_by_an_empty_list() {
    assert!(!is_excluded("/proc", &Vec::new()));
}

#[test]
fn join_puts_one_separator_between() {
    assert_eq!(join("/data", "a"), "/data/a");
    assert_eq!(join("/data/", "a"), "/data/a");
    assert_eq!(join("/", "proc"), "/proc");
    assert_eq!(join("", "a"), "a");
    assert_eq!(join("rel", "été"), "rel/été");
    assert_eq!(join("/data", "/abs"), "/abs");
    assert_eq!(join("/data", ""), "/data/");
}

#[test]
fn plan_entry_decides_by_kind_and_exclusion() {
    let excluded = default_exclusions();
    let file = Entry { name: "proc".to_string(), probe: Probe::File(12) };
    let lost = Entry { name: "x".to_string(), probe: Probe::Unavailable };
    let proc = Entry { name: "proc".to_string(), probe: Probe::Directory };
    let home = Entry { name: "home".to_string(), probe: Probe::Directory };
    assert_eq!(plan_entry("/", &file, &excluded), Step::Bytes(12));
    assert_eq!(plan_entry("/", &lost, &excluded), Step::Skip);
    assert_eq!(plan_entry("/", &proc, &excluded), Step::Skip);
    assert_eq!(plan_entry("/", &home, &excluded), Step::Visit("/home".to_string()));
    assert_eq!(plan_entry("/srv", &proc, &excluded), Step::Visit("/srv/proc".to_string()));
}

#[test]
fn what_is_below_an_excluded_directory_is_excluded() {
    let excluded = default_exclusions();
    let below = join("/var/run", "lock");
    assert_eq!(below, "/var/run/lock");
    assert!(is_excluded(&below, &excluded));
    assert!(is_excluded(&join(&below, "deeper"), &excluded));
    assert!(starts_with(&join("rel/dir", "x"), "rel/dir"));
}
