use std::collections::BTreeMap;

use executable_packer::closure::{Action, Event, Walk, WalkError};

/// A dependency graph and a file system held in memory: `graph` maps a
/// queried path to the resolver's output for it, `files` maps a path to its
/// contents.
struct World {
    graph: BTreeMap<Vec<u8>, String>,
    files: BTreeMap<Vec<u8>, Vec<u8>>,
    queries: Vec<Vec<u8>>,
    copies: Vec<(Vec<u8>, Vec<u8>)>,
}

fn line(name: &str, path: &str) -> String {
    format!("\t{} => {} (0x00007f0000000000)\n", name, path)
}

impl World {
    fn new() -> World {
        World {
            graph: BTreeMap::new(),
            files: BTreeMap::new(),
            queries: Vec::new(),
            copies: Vec::new(),
        }
    }

    fn file(&mut self, path: &str, contents: &str) {
        self.files.insert(path.as_bytes().to_vec(), contents.as_bytes().to_vec());
    }

    fn deps(&mut self, path: &str, deps: &[(&str, &str)]) {
        let mut text = String::from("\tlinux-vdso.so.1 (0x00007ffc00000000)\n");
        for (n, p) in deps {
            text.push_str(&line(n, p));
        }
        self.graph.insert(path.as_bytes().to_vec(), text);
    }

    /// Runs a walk to its end and returns the final action.
    fn run(&mut self, root: &str, dir: &str) -> (Walk, Action) {
        let (mut walk, mut action) = Walk::new(root.as_bytes().to_vec(), dir.as_bytes().to_vec());
        for _ in 0..1000 {
            let event = match &action {
                Action::Query { binary } => {
                    self.queries.push(binary.clone());
                    let out = self.graph.get(binary).cloned().unwrap_or_default();
                    Event::Listing { output: out.into_bytes() }
                },
                Action::Inspect { source, destination } => Event::Contents {
                    source: self.files.get(source).cloned(),
                    destination: self.files.get(destination).cloned(),
                },
                Action::Copy { source, destination } => {
                    let c = self.files.get(source).cloned().unwrap();
                    self.files.insert(destination.clone(), c);
                    self.copies.push((source.clone(), destination.clone()));
                    Event::Copied
                },
                Action::Done | Action::Fail { .. } => return (walk, action),
            };
            let next = walk.resume(event);
            walk = next.0;
            action = next.1;
        }
        panic!("walk did not end");
    }

    fn lib_dir(&self, dir: &str) -> Vec<String> {
        let prefix = format!("{}/", dir);
        self.files
            .keys()
            .map(|k| String::from_utf8(k.clone()).unwrap())
            .filter(|k| k.starts_with(&prefix))
            .collect()
    }
}

#[test]
fn chain_copies_each_library_once() {
    let mut w = World::new();
    w.file("/bin/app", "app");
    w.file("/opt/libX.so", "X");
    w.file("/opt/libY.so", "Y");
    w.deps("/bin/app", &[("libX.so", "/opt/libX.so"), ("libY.so", "/opt/libY.so")]);
    w.deps("app/lib/libX.so", &[("libY.so", "/opt/libY.so")]);
    let (walk, action) = w.run("/bin/app", "app/lib");
    assert!(matches!(action, Action::Done));
    assert_eq!(w.lib_dir("app/lib"), vec!["app/lib/libX.so", "app/lib/libY.so"]);
    assert_eq!(w.files[&b"app/lib/libX.so".to_vec()], b"X".to_vec());
    assert_eq!(w.files[&b"app/lib/libY.so".to_vec()], b"Y".to_vec());
    assert_eq!(w.copies.len(), 2);
    let y_queries = w.queries.iter().filter(|q| q.as_slice() == b"app/lib/libY.so").count();
    assert_eq!(y_queries, 1);
    assert_eq!(walk.copied(), &vec![b"libX.so".to_vec(), b"libY.so".to_vec()]);
}

#[test]
fn diamond_copies_shared_library_once() {
    let mut w = World::new();
    w.file("/opt/libA.so", "A");
    w.file("/opt/libB.so", "B");
    w.file("/opt/libC.so", "C");
    w.deps("/bin/app", &[("libA.so", "/opt/libA.so"), ("libB.so", "/opt/libB.so")]);
    w.deps("out/libA.so", &[("libC.so", "/opt/libC.so")]);
    w.deps("out/libB.so", &[("libC.so", "/opt/libC.so")]);
    let (_, action) = w.run("/bin/app", "out");
    assert!(matches!(action, Action::Done));
    let c_copies = w.copies.iter().filter(|c| c.1.as_slice() == b"out/libC.so").count();
    assert_eq!(c_copies, 1);
    assert_eq!(w.copies.len(), 3);
    assert_eq!(w.queries.len(), 4);
}

#[test]
fn cycle_ends() {
    let mut w = World::new();
    w.file("/opt/libA.so", "A");
    w.file("/opt/libB.so", "B");
    w.deps("/bin/app", &[("libA.so", "/opt/libA.so")]);
    w.deps("out/libA.so", &[("libB.so", "/opt/libB.so")]);
    w.deps("out/libB.so", &[("libA.so", "/opt/libA.so")]);
    let (_, action) = w.run("/bin/app", "out");
    assert!(matches!(action, Action::Done));
    assert_eq!(w.copies.len(), 2);
    assert_eq!(w.queries.len(), 3);
}

#[test]
fn no_dependencies_leaves_lib_empty() {
    let mut w = World::new();
    w.deps("/bin/app", &[]);
    let (walk, action) = w.run("/bin/app", "app/lib");
    assert!(matches!(action, Action::Done));
    assert!(w.lib_dir("app/lib").is_empty());
    assert!(walk.copied().is_empty());
}

#[test]
fn collision_keeps_first_copy() {
    let mut w = World::new();
    w.file("/one/libz.so", "first");
    w.file("/two/libz.so", "second");
    w.file("/opt/libA.so", "A");
    w.deps("/bin/app", &[("libz.so", "/one/libz.so"), ("libA.so", "/opt/libA.so")]);
    w.deps("out/libA.so", &[]);
    w.deps("out/libz.so", &[]);
    // a second, unrelated walk into the same directory meets a different libz.so
    let (_, first) = w.run("/bin/app", "out");
    assert!(matches!(first, Action::Done));
    w.deps("/bin/other", &[("libz.so", "/two/libz.so")]);
    let copies_before = w.copies.len();
    let (_, action) = w.run("/bin/other", "out");
    match action {
        Action::Fail { error: WalkError::Collision { source, destination } } => {
            assert_eq!(source, b"/two/libz.so".to_vec());
            assert_eq!(destination, b"out/libz.so".to_vec());
        },
        _ => panic!("expected a collision"),
    }
    assert_eq!(w.copies.len(), copies_before);
    assert_eq!(w.files[&b"out/libz.so".to_vec()], b"first".to_vec());
}

#[test]
fn identical_existing_copy_is_overwritten() {
    let mut w = World::new();
    w.file("/opt/libA.so", "A");
    w.file("out/libA.so", "A");
    w.deps("/bin/app", &[("libA.so", "/opt/libA.so")]);
    let (_, action) = w.run("/bin/app", "out");
    assert!(matches!(action, Action::Done));
    assert_eq!(w.copies.len(), 1);
}

#[test]
fn malformed_listing_fails() {
    let mut w = World::new();
    w.graph.insert(b"/bin/app".to_vec(), String::from("\tlibq.so => /a b/libq.so (0x1)\n"));
    let (_, action) = w.run("/bin/app", "out");
    match action {
        Action::Fail { error: WalkError::Malformed { line } } => {
            assert_eq!(line, b"libq.so => /a b/libq.so (0x1)".to_vec());
        },
        _ => panic!("expected a malformed line"),
    }
    assert!(w.copies.is_empty());
}

#[test]
fn path_without_file_name_fails() {
    let mut w = World::new();
    w.deps("/bin/app", &[("libq.so", "/lib/")]);
    let (_, action) = w.run("/bin/app", "out");
    match action {
        Action::Fail { error: WalkError::NoFileName { path } } => {
            assert_eq!(path, b"/lib/".to_vec());
        },
        _ => panic!("expected a path without file name"),
    }
}

#[test]
fn event_out_of_turn_fails() {
    let (walk, _) = Walk::new(b"/bin/app".to_vec(), b"out".to_vec());
    let (walk, action) = walk.resume(Event::Copied);
    assert!(matches!(action, Action::Fail { error: WalkError::OutOfTurn }));
    let (_, action) = walk.resume(Event::Listing { output: Vec::new() });
    assert!(matches!(action, Action::Fail { error: WalkError::OutOfTurn }));
}

#[test]
fn first_action_queries_root() {
    let (_, action) = Walk::new(b"/bin/app".to_vec(), b"out".to_vec());
    match action {
        Action::Query { binary } => assert_eq!(binary, b"/bin/app".to_vec()),
        _ => panic!("expected a query"),
    }
}

#[test]
fn walk_is_depth_first() {
    let mut w = World::new();
    w.file("/opt/libA.so", "A");
    w.file("/opt/libB.so", "B");
    w.file("/opt/libC.so", "C");
    w.deps("/bin/app", &[("libA.so", "/opt/libA.so"), ("libB.so", "/opt/libB.so")]);
    w.deps("out/libA.so", &[("libC.so", "/opt/libC.so")]);
    let (walk, action) = w.run("/bin/app", "out");
    assert!(matches!(action, Action::Done));
    assert_eq!(
        walk.copied(),
        &vec![b"libA.so".to_vec(), b"libC.so".to_vec(), b"libB.so".to_vec()]
    );
    assert_eq!(
        w.queries,
        vec![
            b"/bin/app".to_vec(),
            b"out/libA.so".to_vec(),
            b"out/libC.so".to_vec(),
            b"out/libB.so".to_vec()
        ]
    );
}

#[test]
fn collision_within_one_walk_keeps_first_copy() {
    let mut w = World::new();
    w.file("/one/libz.so", "first");
    w.file("/two/libz.so", "second");
    w.file("/opt/libA.so", "A");
    w.deps("/bin/app", &[("libz.so", "/one/libz.so"), ("libA.so", "/opt/libA.so")]);
    w.deps("out/libA.so", &[("libz.so", "/two/libz.so")]);
    let (walk, action) = w.run("/bin/app", "out");
    match action {
        Action::Fail { error: WalkError::Collision { source, destination } } => {
            assert_eq!(source, b"/two/libz.so".to_vec());
            assert_eq!(destination, b"out/libz.so".to_vec());
        },
        _ => panic!("expected a collision"),
    }
    assert_eq!(w.files[&b"out/libz.so".to_vec()], b"first".to_vec());
    let z_copies = w.copies.iter().filter(|c| c.1.as_slice() == b"out/libz.so").count();
    assert_eq!(z_copies, 1);
    assert_eq!(walk.copied(), &vec![b"libz.so".to_vec(), b"libA.so".to_vec()]);
}

#[test]
fn identical_library_from_another_path_is_skipped() {
    let mut w = World::new();
    w.file("/one/libz.so", "same");
    w.file("/two/libz.so", "same");
    w.file("/opt/libA.so", "A");
    w.deps("/bin/app", &[("libz.so", "/one/libz.so"), ("libA.so", "/opt/libA.so")]);
    w.deps("out/libA.so", &[("libz.so", "/two/libz.so")]);
    let (_, action) = w.run("/bin/app", "out");
    assert!(matches!(action, Action::Done));
    assert_eq!(w.copies.len(), 2);
    let z_queries = w.queries.iter().filter(|q| q.as_slice() == b"out/libz.so").count();
    assert_eq!(z_queries, 1);
}

#[test]
fn unresolved_dependency_is_skipped() {
    let mut w = World::new();
    w.file("/opt/libA.so", "A");
    let mut text = String::from("\tlibgone.so => not found\n");
    text.push_str(&line("libA.so", "/opt/libA.so"));
    w.graph.insert(b"/bin/app".to_vec(), text);
    let (walk, action) = w.run("/bin/app", "out");
    assert!(matches!(action, Action::Done));
    assert_eq!(walk.copied(), &vec![b"libA.so".to_vec()]);
}
