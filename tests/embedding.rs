use embed_dir::{
    needs_listing, plan_embedding, relative_key, BuildError, DirIter, EmbeddingTable, EntryKind,
    PlanEntry, Walked,
};

/// An in-memory directory tree: each node's path (components joined by '/'),
/// whether it is a directory, and a file's content.
struct Tree {
    nodes: Vec<(String, bool, String)>,
    unreadable: Vec<String>,
    reversed: bool,
}

fn parts(p: &str) -> Vec<String> {
    p.split('/').filter(|s| !s.is_empty()).map(|s| s.to_string()).collect()
}

impl Tree {
    fn new(nodes: &[(&str, bool, &str)]) -> Tree {
        Tree {
            nodes: nodes
                .iter()
                .map(|(p, d, c)| (p.to_string(), *d, c.to_string()))
                .collect(),
            unreadable: Vec::new(),
            reversed: false,
        }
    }

    fn is_dir(&self, path: &[String]) -> bool {
        path.len() == 1 || self.nodes.iter().any(|(p, d, _)| *d && parts(p) == path)
    }

    fn list(&self, dir: &[String]) -> Result<Vec<Result<Vec<String>, String>>, String> {
        if !self.is_dir(dir) || self.unreadable.iter().any(|u| parts(u) == dir) {
            return Err(format!("cannot list {}", dir.join("/")));
        }
        let mut out: Vec<Result<Vec<String>, String>> = self
            .nodes
            .iter()
            .map(|(p, _, _)| parts(p))
            .filter(|p| p.len() == dir.len() + 1 && p[..dir.len()] == *dir)
            .map(Ok)
            .collect();
        if self.reversed {
            out.reverse();
        }
        Ok(out)
    }

    fn kind(&self, path: &[String]) -> Result<EntryKind, String> {
        if self.is_dir(path) {
            Ok(EntryKind::Dir)
        } else {
            Ok(EntryKind::File)
        }
    }

    fn content(&self, path: &[String]) -> Vec<u8> {
        let (_, _, c) = self.nodes.iter().find(|(p, _, _)| parts(p) == path).unwrap();
        c.as_bytes().to_vec()
    }

    /// Runs a walk from the root `r`, one step at a time.
    fn walk(&self) -> Result<Vec<Option<Walked>>, String> {
        let root = parts("r");
        let mut it = DirIter::new(self.list(&root))?;
        let mut results = Vec::new();
        while let Some(entry) = it.pop_pending() {
            let meta = self.kind(&entry);
            let listing = if needs_listing(&meta) { Some(self.list(&entry)) } else { None };
            let step = it.settle(entry, meta, listing);
            results.push(step.ok().map(|(path, kind)| Walked { path, kind }));
        }
        Ok(results)
    }

    fn table(&self, sep: &str) -> Result<EmbeddingTable, String> {
        let walked = self.walk()?;
        let plan = plan_embedding(&parts("r"), &walked, sep).unwrap();
        let contents = plan
            .iter()
            .map(|e| self.content(&walked[e.index].as_ref().unwrap().path))
            .collect();
        Ok(EmbeddingTable::from_plan(&plan, contents))
    }
}

fn sorted_keys(t: &EmbeddingTable) -> Vec<String> {
    let mut k = t.keys();
    k.sort();
    k
}

fn two_file_tree() -> Tree {
    Tree::new(&[
        ("r/a.txt", false, "hello"),
        ("r/sub", true, ""),
        ("r/sub/b.txt", false, "world"),
    ])
}

#[test]
fn two_files_and_a_subdirectory() {
    let t = two_file_tree().table("/").unwrap();
    assert_eq!(sorted_keys(&t), vec!["a.txt".to_string(), "sub/b.txt".to_string()]);
    assert_eq!(t.get("a.txt").unwrap(), &b"hello".to_vec());
    assert_eq!(t.get("sub/b.txt").unwrap(), &b"world".to_vec());
    assert_eq!(t.get("a.txt").unwrap().len(), 5);
}

#[test]
fn keys_use_the_given_separator() {
    let t = two_file_tree().table("\\").unwrap();
    assert_eq!(sorted_keys(&t), vec!["a.txt".to_string(), "sub\\b.txt".to_string()]);
    assert_eq!(t.get("sub\\b.txt").unwrap(), &b"world".to_vec());
    assert!(t.get("sub/b.txt").is_none());
}

#[test]
fn empty_root_gives_empty_table() {
    let t = Tree::new(&[]).table("/").unwrap();
    assert!(t.keys().is_empty());
}

#[test]
fn missing_root_is_fatal() {
    let r: Result<DirIter<Vec<String>>, String> = DirIter::new(Err("no such directory".to_string()));
    assert_eq!(r.err(), Some("no such directory".to_string()));
}

#[test]
fn unreadable_subdirectory_is_left_out() {
    let mut tree = Tree::new(&[
        ("r/a.txt", false, "hello"),
        ("r/locked", true, ""),
        ("r/locked/secret.txt", false, "hidden"),
        ("r/open", true, ""),
        ("r/open/c.txt", false, "seen"),
    ]);
    tree.unreadable.push("r/locked".to_string());
    let walked = tree.walk().unwrap();
    assert_eq!(walked.iter().filter(|w| w.is_none()).count(), 1);
    let t = tree.table("/").unwrap();
    assert_eq!(sorted_keys(&t), vec!["a.txt".to_string(), "open/c.txt".to_string()]);
}

#[test]
fn rebuilding_in_another_order_gives_the_same_table() {
    let nodes = [
        ("r/x", false, "1"),
        ("r/d", true, ""),
        ("r/d/y", false, "22"),
        ("r/d/e", true, ""),
        ("r/d/e/z", false, "333"),
    ];
    let first = Tree::new(&nodes);
    let mut second = Tree::new(&nodes);
    second.reversed = true;
    let w1: Vec<Vec<String>> = first.walk().unwrap().into_iter().map(|w| w.unwrap().path).collect();
    let w2: Vec<Vec<String>> = second.walk().unwrap().into_iter().map(|w| w.unwrap().path).collect();
    assert_ne!(w1, w2);
    let t1 = first.table("/").unwrap();
    let t2 = second.table("/").unwrap();
    assert_eq!(sorted_keys(&t1), sorted_keys(&t2));
    for k in t1.keys() {
        assert_eq!(t1.get(&k), t2.get(&k));
    }
}

#[test]
fn directories_are_never_keys() {
    let t = Tree::new(&[("r/d", true, ""), ("r/d/e", true, ""), ("r/d/f", false, "x")])
        .table("/")
        .unwrap();
    assert_eq!(sorted_keys(&t), vec!["d/f".to_string()]);
    assert!(t.get("d").is_none());
    assert!(t.get("d/e").is_none());
}

#[test]
fn every_file_once_in_a_deeper_tree() {
    let t = Tree::new(&[
        ("r/a", true, ""),
        ("r/a/b", true, ""),
        ("r/a/b/c", false, "deep"),
        ("r/a/d", false, "mid"),
        ("r/e", false, "top"),
    ])
    .table("/")
    .unwrap();
    assert_eq!(
        sorted_keys(&t),
        vec!["a/b/c".to_string(), "a/d".to_string(), "e".to_string()]
    );
    assert_eq!(t.get("a/b/c").unwrap(), &b"deep".to_vec());
    assert_eq!(t.get("a/d").unwrap(), &b"mid".to_vec());
    assert_eq!(t.get("e").unwrap(), &b"top".to_vec());
}

#[test]
fn walk_visits_last_listed_first_and_goes_deep() {
    let listing: Vec<Result<u32, ()>> = vec![Ok(1), Ok(2), Ok(3)];
    let mut it = DirIter::new(Ok(listing)).unwrap();
    assert_eq!(it.pop_pending(), Some(3));
    let r = it.settle(3, Ok(EntryKind::Dir), Some(Ok(vec![Ok::<u32, ()>(30), Ok(31)])));
    assert_eq!(r, Ok((3, EntryKind::Dir)));
    assert_eq!(it.pop_pending(), Some(31));
    assert_eq!(it.pop_pending(), Some(30));
    assert_eq!(it.pop_pending(), Some(2));
    assert_eq!(it.pop_pending(), Some(1));
    assert_eq!(it.pop_pending(), None);
    assert!(it.is_done());
}

#[test]
fn children_that_fail_to_resolve_are_dropped() {
    let listing: Vec<Result<u32, &str>> = vec![Ok(1), Err("bad"), Ok(2)];
    let mut it = DirIter::new(Ok(listing)).unwrap();
    assert_eq!(it.pop_pending(), Some(2));
    assert_eq!(it.pop_pending(), Some(1));
    assert_eq!(it.pop_pending(), None);
}

#[test]
fn metadata_error_is_the_result() {
    let mut it = DirIter::new(Ok(vec![Ok::<u32, &str>(7)])).unwrap();
    let e = it.pop_pending().unwrap();
    assert_eq!(it.settle(e, Err("gone"), None), Err("gone"));
    assert!(it.is_done());
}

#[test]
fn listing_error_is_the_result_and_nothing_is_pushed() {
    let mut it = DirIter::new(Ok(vec![Ok::<u32, &str>(7)])).unwrap();
    let e = it.pop_pending().unwrap();
    assert_eq!(it.settle(e, Ok(EntryKind::Dir), Some(Err("denied"))), Err("denied"));
    assert!(it.is_done());
}

#[test]
fn files_are_not_descended_into() {
    let mut it = DirIter::new(Ok(vec![Ok::<u32, &str>(7)])).unwrap();
    let e = it.pop_pending().unwrap();
    let r = it.settle(e, Ok(EntryKind::File), Some(Ok(vec![Ok::<u32, &str>(8)])));
    assert_eq!(r, Ok((7, EntryKind::File)));
    assert!(it.is_done());
}

#[test]
fn only_directories_need_listing() {
    assert!(needs_listing::<()>(&Ok(EntryKind::Dir)));
    assert!(!needs_listing::<()>(&Ok(EntryKind::File)));
    assert!(!needs_listing::<()>(&Ok(EntryKind::Other)));
    assert!(!needs_listing(&Err(())));
    assert!(EntryKind::File.is_file());
    assert!(!EntryKind::Dir.is_file());
    assert!(EntryKind::Dir.is_dir());
}

#[test]
fn relative_key_strips_the_root() {
    assert_eq!(
        relative_key(&parts("/srv/assets"), &parts("/srv/assets/css/site.css"), "/"),
        Some("css/site.css".to_string())
    );
    assert_eq!(relative_key(&parts("a"), &parts("a/b/c"), "::"), Some("b::c".to_string()));
    assert_eq!(relative_key(&parts("a"), &parts("a"), "/"), Some(String::new()));
}

#[test]
fn relative_key_outside_root_is_none() {
    assert_eq!(relative_key(&parts("a/b"), &parts("a/c/d"), "/"), None);
    assert_eq!(relative_key(&parts("a/b"), &parts("a"), "/"), None);
    assert_eq!(relative_key(&parts("a/b"), &parts("a/bc"), "/"), None);
}

#[test]
fn plan_skips_errors_and_non_files() {
    let walked = vec![
        Some(Walked { path: parts("r/d"), kind: EntryKind::Dir }),
        None,
        Some(Walked { path: parts("r/d/f"), kind: EntryKind::File }),
        Some(Walked { path: parts("r/l"), kind: EntryKind::Other }),
        Some(Walked { path: parts("r/g"), kind: EntryKind::File }),
    ];
    let plan: Vec<PlanEntry> = plan_embedding(&parts("r"), &walked, "/").unwrap();
    let got: Vec<(String, usize)> = plan.into_iter().map(|e| (e.key, e.index)).collect();
    assert_eq!(got, vec![("d/f".to_string(), 2), ("g".to_string(), 4)]);
}

#[test]
fn plan_names_a_file_outside_the_root() {
    let walked = vec![
        Some(Walked { path: parts("r/a"), kind: EntryKind::File }),
        Some(Walked { path: parts("q/b"), kind: EntryKind::Dir }),
        Some(Walked { path: parts("q/c"), kind: EntryKind::File }),
    ];
    assert_eq!(plan_embedding(&parts("r"), &walked, "/").err(), Some(BuildError::OutsideRoot(2)));
}

#[test]
fn insert_replaces_an_existing_key() {
    let mut t = EmbeddingTable::new();
    t.insert("k".to_string(), vec![1, 2]);
    t.insert("j".to_string(), vec![3]);
    t.insert("k".to_string(), vec![9]);
    assert_eq!(t.get("k"), Some(&vec![9]));
    assert_eq!(t.get("j"), Some(&vec![3]));
    assert_eq!(t.get("missing"), None);
    assert_eq!(t.keys(), vec!["k".to_string(), "j".to_string()]);
}
