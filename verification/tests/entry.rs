use httpd::entry::child_name;
use httpd::entry::inside_root;
use httpd::entry::locate;
use httpd::entry::resolve;
use httpd::entry::EntryInfo;
use httpd::entry::Found;
use httpd::entry::Listed;
use httpd::entry::ResolvedEntry;

fn listed(name: &str, is_directory: bool, size: u64) -> Listed {
    Listed { name: name.to_string(), is_directory, size }
}

#[test]
fn paths_below_the_root_stay_inside() {
    assert!(inside_root("/"));
    assert!(inside_root("/a"));
    assert!(inside_root("/a/b/c.txt"));
    assert!(inside_root("/a//b"));
    assert!(inside_root("/./a"));
    assert!(inside_root("/..."));
    assert!(inside_root("/..a"));
    assert!(inside_root("/a../b"));
    assert!(inside_root("/a/.b./c"));
    assert!(inside_root("/é/…"));
}

#[test]
fn paths_with_a_parent_segment_do_not_stay_inside() {
    assert!(!inside_root("/.."));
    assert!(!inside_root("/../"));
    assert!(!inside_root("/../etc/passwd"));
    assert!(!inside_root("/a/.."));
    assert!(!inside_root("/a/../b"));
    assert!(!inside_root("/a/b/../../.."));
    assert!(!inside_root("/é/../x"));
}

#[test]
fn paths_that_do_not_begin_with_a_separator_do_not_stay_inside() {
    assert!(!inside_root(""));
    assert!(!inside_root("a"));
    assert!(!inside_root("*"));
    assert!(!inside_root(".."));
    assert!(!inside_root("etc/passwd"));
}

#[test]
fn child_names_are_single_segments() {
    assert!(child_name("a"));
    assert!(child_name("a b.txt"));
    assert!(child_name("..."));
    assert!(child_name(".hidden"));
    assert!(child_name("..a"));
    assert!(!child_name(""));
    assert!(!child_name("."));
    assert!(!child_name(".."));
    assert!(!child_name("a/b"));
    assert!(!child_name("/"));
    assert!(!child_name("../x"));
}

#[test]
fn locate_joins_the_path_onto_the_root() {
    assert_eq!(locate("/srv/www", "/a/b"), Some("/srv/www/a/b".to_string()));
    assert_eq!(locate("/srv/www", "/"), Some("/srv/www/".to_string()));
    assert_eq!(locate("", "/etc"), Some("/etc".to_string()));
    assert_eq!(locate("/srv/www", "/../etc"), None);
    assert_eq!(locate("/srv/www", "x"), None);
    assert_eq!(locate("/srv/www", ""), None);
}

#[test]
fn resolve_gives_a_file_its_path_and_size() {
    let out = resolve("/srv/www", "/a/b.txt", &Found::File(42));
    assert_eq!(
        out,
        ResolvedEntry::File(EntryInfo {
            absolute_path: "/srv/www/a/b.txt".to_string(),
            is_directory: false,
            size: 42,
        })
    );
}

#[test]
fn resolve_lists_children_in_the_order_of_the_listing() {
    let found = Found::Directory(vec![
        listed("zeta", false, 1),
        listed("alpha", true, 0),
        listed("mid dle", false, 7),
    ]);
    let out = resolve("/srv/www", "/sub", &found);
    assert_eq!(
        out,
        ResolvedEntry::Directory(vec![
            EntryInfo { absolute_path: "/srv/www/sub/zeta".to_string(), is_directory: false, size: 1 },
            EntryInfo { absolute_path: "/srv/www/sub/alpha".to_string(), is_directory: true, size: 0 },
            EntryInfo {
                absolute_path: "/srv/www/sub/mid dle".to_string(),
                is_directory: false,
                size: 7,
            },
        ])
    );
}

#[test]
fn resolve_adds_no_second_separator_behind_one() {
    let found = Found::Directory(vec![listed("a", false, 1)]);
    assert_eq!(
        resolve("/srv/www", "/", &found),
        ResolvedEntry::Directory(vec![EntryInfo {
            absolute_path: "/srv/www/a".to_string(),
            is_directory: false,
            size: 1,
        }])
    );
    assert_eq!(
        resolve("/srv/www", "/sub/", &found),
        ResolvedEntry::Directory(vec![EntryInfo {
            absolute_path: "/srv/www/sub/a".to_string(),
            is_directory: false,
            size: 1,
        }])
    );
}

#[test]
fn resolve_of_an_empty_directory_has_no_children() {
    assert_eq!(
        resolve("/srv/www", "/empty", &Found::Directory(vec![])),
        ResolvedEntry::Directory(vec![])
    );
}

#[test]
fn resolve_finds_nothing_where_nothing_is() {
    assert_eq!(resolve("/srv/www", "/missing", &Found::Nothing), ResolvedEntry::NotFound);
}

#[test]
fn resolve_finds_nothing_outside_the_root_whatever_is_on_disk() {
    let dir = Found::Directory(vec![listed("passwd", false, 10)]);
    for path in ["/..", "/../etc", "/a/../../etc", "/a/..", "", "etc", ".."] {
        assert_eq!(resolve("/srv/www", path, &Found::File(10)), ResolvedEntry::NotFound);
        assert_eq!(resolve("/srv/www", path, &dir), ResolvedEntry::NotFound);
        assert_eq!(resolve("/srv/www", path, &Found::Nothing), ResolvedEntry::NotFound);
    }
}

#[test]
fn resolve_does_not_serve_a_listing_with_a_line_that_names_no_child() {
    for name in ["..", ".", "", "a/b"] {
        let found = Found::Directory(vec![listed("ok", false, 1), listed(name, false, 1)]);
        assert_eq!(resolve("/srv/www", "/sub", &found), ResolvedEntry::NotFound);
    }
}

#[test]
fn resolved_paths_begin_with_the_root() {
    let found = Found::Directory(vec![listed("a", false, 1), listed("b", true, 0)]);
    match resolve("/srv/www", "/x/y", &found) {
        ResolvedEntry::Directory(children) => {
            assert_eq!(children.len(), 2);
            for child in children {
                assert!(child.absolute_path.starts_with("/srv/www/"));
                assert!(inside_root(&child.absolute_path["/srv/www".len()..]));
            }
        }
        other => panic!("not a directory: {:?}", other),
    }
}
