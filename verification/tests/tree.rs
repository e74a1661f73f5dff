use basic_udev::enumerator::class_path;
use basic_udev::tree::find_child;
use basic_udev::{Device, Entry, Enumerator, FileSystem, Node};

fn entry(name: &str, node: Node) -> Entry {
    Entry { name: name.as_bytes().to_vec(), node }
}

fn text(content: &str) -> Node {
    Node::File(Some(content.as_bytes().to_vec()))
}

fn to(target: &str) -> Node {
    Node::Symlink(Some(target.as_bytes().to_vec()))
}

fn names(path: &[&str]) -> Vec<Vec<u8>> {
    path.iter().map(|name| name.as_bytes().to_vec()).collect()
}

/// /a/b/file  "x"
/// /a/link  -> /a/b
/// /a/lost  -> nothing
/// /a/far   -> /elsewhere
/// /c/uevent   unreadable
fn tree() -> FileSystem {
    FileSystem::new(Node::Directory(vec![
        entry("a", Node::Directory(vec![
            entry("b", Node::Directory(vec![entry("file", text("x"))])),
            entry("link", to("/a/b")),
            entry("lost", Node::Symlink(None)),
            entry("far", to("/elsewhere")),
        ])),
        entry("c", Node::Directory(vec![entry("uevent", Node::File(None))])),
        entry("d", Node::Directory(vec![entry("uevent", to("/a/b/file"))])),
    ]))
}

fn is_file_with(node: Option<&Node>, content: &[u8]) -> bool {
    matches!(node, Some(Node::File(Some(bytes))) if bytes.as_slice() == content)
}

#[test]
fn lookup_goes_down_by_names() {
    let fs = tree();
    assert!(is_file_with(fs.lookup(&names(&["a", "b", "file"])), b"x"));
    assert!(matches!(fs.lookup(&names(&["a", "b"])), Some(Node::Directory(_))));
    assert!(matches!(fs.lookup(&names(&[])), Some(Node::Directory(_))));
    assert!(fs.lookup(&names(&["a", "none"])).is_none());
    assert!(fs.lookup(&names(&["a", "b", "file", "x"])).is_none());
}

#[test]
fn lookup_follows_no_link() {
    let fs = tree();
    assert!(matches!(fs.lookup(&names(&["a", "link"])), Some(Node::Symlink(Some(_)))));
    assert!(fs.lookup(&names(&["a", "link", "file"])).is_none());
}

#[test]
fn follow_goes_to_the_target_of_a_link() {
    let fs = tree();
    let link = fs.lookup(&names(&["a", "link"]));
    assert!(matches!(fs.follow(link), Some(Node::Directory(_))));
    let lost = fs.lookup(&names(&["a", "lost"]));
    assert!(fs.follow(lost).is_none());
    let far = fs.lookup(&names(&["a", "far"]));
    assert!(fs.follow(far).is_none());
    let file = fs.lookup(&names(&["a", "b", "file"]));
    assert!(is_file_with(fs.follow(file), b"x"));
    assert!(fs.follow(None).is_none());
}

#[test]
fn find_child_takes_the_first_of_a_name() {
    let entries = vec![entry("n", text("1")), entry("m", text("2")), entry("n", text("3"))];
    assert!(is_file_with(find_child(&entries, b"n"), b"1"));
    assert!(is_file_with(find_child(&entries, b"m"), b"2"));
    assert!(find_child(&entries, b"").is_none());
    assert!(find_child(&entries, b"nn").is_none());
}

#[test]
fn canonicalize_resolves_links_and_dots() {
    let fs = tree();
    assert_eq!(fs.canonicalize(b"/a/link/file"), Some(names(&["a", "b", "file"])));
    assert_eq!(fs.canonicalize(b"/a/link"), Some(names(&["a", "b"])));
    assert_eq!(fs.canonicalize(b"/a/./b/../b"), Some(names(&["a", "b"])));
    assert_eq!(fs.canonicalize(b"/a/link/.."), Some(names(&["a"])));
    assert_eq!(fs.canonicalize(b"/../.."), Some(names(&[])));
    assert_eq!(fs.canonicalize(b""), Some(names(&[])));
    assert_eq!(fs.canonicalize(b"a/b"), Some(names(&["a", "b"])));
}

#[test]
fn canonicalize_fails_where_a_name_leads_nowhere() {
    let fs = tree();
    assert_eq!(fs.canonicalize(b"/a/none"), None);
    assert_eq!(fs.canonicalize(b"/a/lost"), None);
    assert_eq!(fs.canonicalize(b"/a/none/.."), None);
    assert_eq!(fs.canonicalize(b"/a/b/file/x"), None);
}

#[test]
fn canonicalize_takes_a_link_at_its_word() {
    let fs = tree();
    assert_eq!(fs.canonicalize(b"/a/far"), Some(names(&["elsewhere"])));
    assert_eq!(fs.canonicalize(b"/a/far/x"), None);
}

#[test]
fn advance_goes_one_name_further() {
    let fs = tree();
    let mut at = names(&["a"]);
    assert!(fs.advance(&mut at, b"b"));
    assert_eq!(at, names(&["a", "b"]));
    assert!(fs.advance(&mut at, b"."));
    assert_eq!(at, names(&["a", "b"]));
    assert!(fs.advance(&mut at, b".."));
    assert_eq!(at, names(&["a"]));
    assert!(fs.advance(&mut at, b"link"));
    assert_eq!(at, names(&["a", "b"]));
    assert!(!fs.advance(&mut at, b"none"));
    let mut root = names(&[]);
    assert!(fs.advance(&mut root, b".."));
    assert_eq!(root, names(&[]));
}

#[test]
fn metadata_of_tells_devices_from_other_directories() {
    let fs = tree();
    assert_eq!(fs.metadata_of(&names(&["a"])), None);
    assert_eq!(fs.metadata_of(&names(&["c"])), Some(None));
    assert_eq!(fs.metadata_of(&names(&["d"])), Some(Some(&b"x".to_vec())));
    assert_eq!(fs.metadata_of(&names(&["none"])), None);
}

#[test]
fn the_path_of_a_device_leads_back_to_it() {
    let fs = FileSystem::new(Node::Directory(vec![
        entry("real", Node::Directory(vec![
            entry("uevent", text("DEVNAME=one\n")),
            entry("size", text("9\n")),
        ])),
        entry("alias", to("/real")),
    ]));
    let first = Device::from_syspath(&fs, b"/alias/.").unwrap();
    let again = Device::from_syspath(&fs, first.syspath()).unwrap();
    assert_eq!(first.syspath(), b"/real");
    assert_eq!(again.syspath(), first.syspath());
    assert_eq!(again.devnode(), first.devnode());
    assert_eq!(again.attribute_value("size"), first.attribute_value("size"));
    assert_eq!(again.property_value("DEVNAME"), first.property_value("DEVNAME"));
}

#[test]
fn enumerator_remembers_the_last_subsystem() {
    let mut enumerator = Enumerator::new().unwrap();
    assert_eq!(enumerator.subsystem(), None);
    enumerator.match_subsystem("block").unwrap();
    assert_eq!(enumerator.subsystem(), Some("block"));
    enumerator.match_subsystem("net").unwrap();
    assert_eq!(enumerator.subsystem(), Some("net"));
}

#[test]
fn class_path_is_under_the_device_root() {
    assert_eq!(class_path("block"), b"/sys/class/block".to_vec());
    assert_eq!(class_path("usb/hubs"), b"/sys/class/usb/hubs".to_vec());
    assert_eq!(class_path(""), b"/sys/class/".to_vec());
    assert_eq!(class_path("/other"), b"/other".to_vec());
}

#[test]
fn scan_joins_the_subsystem_as_a_path() {
    let fs = FileSystem::new(Node::Directory(vec![
        entry("sys", Node::Directory(vec![entry(
            "class",
            Node::Directory(vec![entry(
                "usb",
                Node::Directory(vec![entry(
                    "hubs",
                    Node::Directory(vec![entry("h0", Node::Directory(vec![entry("uevent", text(""))]))]),
                )]),
            )]),
        )])),
        entry("other", Node::Directory(vec![
            entry("x", Node::Directory(vec![entry("uevent", text(""))])),
            entry("y", Node::Directory(vec![entry("uevent", text(""))])),
        ])),
    ]));
    let mut enumerator = Enumerator::new().unwrap();
    enumerator.match_subsystem("usb/hubs").unwrap();
    let devices = enumerator.scan_devices(&fs).unwrap();
    assert_eq!(devices.len(), 1);
    assert_eq!(devices[0].syspath(), b"/sys/class/usb/hubs/h0");
    enumerator.match_subsystem("/other").unwrap();
    assert_eq!(enumerator.scan_devices(&fs).unwrap().len(), 2);
}
