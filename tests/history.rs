use bobble::filter::{Filter, FilterError};
use bobble::graft::{apply_push, graft, resolve_parent, GraftError, PushError};
use bobble::provision::provision;
use bobble::repo::{ApplyError, BaseRepo};
use bobble::store::{Commit, Entry, Oid, Store, Tree};
use bobble::view::{parse_view, select, PathView, Sel, ViewError};

fn blob(s: &mut Store, text: &str) -> Oid {
    s.add_blob(text.as_bytes().to_vec()).expect("blob")
}

fn tree(s: &mut Store, entries: Vec<(&str, bool, Oid)>) -> Oid {
    let entries = entries
        .into_iter()
        .map(|(n, t, o)| Entry { name: n.as_bytes().to_vec(), is_tree: t, oid: o })
        .collect();
    s.add_tree(Tree { entries }).expect("tree")
}

fn commit(s: &mut Store, tree: Oid, parents: Vec<Oid>, message: &str) -> Oid {
    s.add_commit(Commit {
        tree,
        parents,
        author: b"foo <bar>".to_vec(),
        message: message.as_bytes().to_vec(),
    })
    .expect("commit")
}

fn lib_view() -> PathView {
    parse_view("lib").expect("view")
}

fn entry_oid(s: &Store, t: Oid, name: &str) -> Option<(bool, Oid)> {
    s.trees[t as usize]
        .entries
        .iter()
        .find(|e| e.name == name.as_bytes())
        .map(|e| (e.is_tree, e.oid))
}

/// A base history: `lib/a.txt`, then `docs/readme.md`, then `lib/b.txt`.
struct Base {
    s: Store,
    c1: Oid,
    c2: Oid,
    c3: Oid,
    lib1: Oid,
    lib3: Oid,
    docs: Oid,
}

fn base_history() -> Base {
    let mut s = Store::new();
    let a = blob(&mut s, "a");
    let b = blob(&mut s, "b");
    let readme = blob(&mut s, "readme");
    let lib1 = tree(&mut s, vec![("a.txt", false, a)]);
    let root1 = tree(&mut s, vec![("lib", true, lib1)]);
    let c1 = commit(&mut s, root1, vec![], "add lib/a.txt");
    let docs = tree(&mut s, vec![("readme.md", false, readme)]);
    let root2 = tree(&mut s, vec![("lib", true, lib1), ("docs", true, docs)]);
    let c2 = commit(&mut s, root2, vec![c1], "add docs/readme.md");
    let lib3 = tree(&mut s, vec![("a.txt", false, a), ("b.txt", false, b)]);
    let root3 = tree(&mut s, vec![("lib", true, lib3), ("docs", true, docs)]);
    let c3 = commit(&mut s, root3, vec![c2], "add lib/b.txt");
    Base { s, c1, c2, c3, lib1, lib3, docs }
}

#[test]
fn parse_view_components() {
    let v = parse_view("lib/sub").unwrap();
    assert_eq!(v.path, vec![b"lib".to_vec(), b"sub".to_vec()]);
    let v = parse_view("/lib//./sub/").unwrap();
    assert_eq!(v.path, vec![b"lib".to_vec(), b"sub".to_vec()]);
}

#[test]
fn parse_view_whole_tree() {
    assert!(parse_view(".").unwrap().is_identity());
    assert!(parse_view("").unwrap().is_identity());
    assert!(PathView::identity().is_identity());
}

#[test]
fn parse_view_rejects_parent() {
    assert!(matches!(parse_view("a/../b"), Err(ViewError::InvalidView)));
    assert!(matches!(parse_view(".."), Err(ViewError::InvalidView)));
}

#[test]
fn select_follows_path() {
    let b = base_history();
    let root3 = b.s.commits[b.c3 as usize].tree;
    assert_eq!(select(&b.s, root3, &lib_view()), Sel::Dir(b.lib3));
    assert_eq!(select(&b.s, root3, &parse_view("src").unwrap()), Sel::Missing);
    assert_eq!(select(&b.s, root3, &parse_view("lib/a.txt").unwrap()), Sel::NotDir);
    assert_eq!(select(&b.s, root3, &PathView::identity()), Sel::Dir(root3));
}

#[test]
fn filter_drops_changes_outside_view() {
    let mut b = base_history();
    let before = b.s.commits.len();
    let mut f = Filter::new(lib_view());
    let tip = f.filter(&mut b.s, b.c3).unwrap().unwrap();
    // exactly two filtered commits: for lib/a.txt and for lib/b.txt
    assert_eq!(b.s.commits.len(), before + 2);
    let fc3 = &b.s.commits[tip as usize];
    assert_eq!(fc3.tree, b.lib3);
    assert_eq!(fc3.message, b"add lib/b.txt".to_vec());
    assert_eq!(fc3.parents.len(), 1);
    let fc1 = fc3.parents[0];
    assert_eq!(b.s.commits[fc1 as usize].tree, b.lib1);
    assert_eq!(b.s.commits[fc1 as usize].parents, Vec::<Oid>::new());
    assert_eq!(b.s.commits[fc1 as usize].message, b"add lib/a.txt".to_vec());
}

#[test]
fn filter_noop_commit_collapses() {
    let mut b = base_history();
    let mut f = Filter::new(lib_view());
    let t1 = f.filter(&mut b.s, b.c1).unwrap();
    let t2 = f.filter(&mut b.s, b.c2).unwrap();
    assert_eq!(t1, t2);
    assert!(t1.is_some());
}

#[test]
fn filter_twice_same_oid() {
    let mut b = base_history();
    let mut f = Filter::new(lib_view());
    let first = f.filter(&mut b.s, b.c3).unwrap();
    let n = b.s.commits.len();
    let second = f.filter(&mut b.s, b.c3).unwrap();
    assert_eq!(first, second);
    assert_eq!(b.s.commits.len(), n);
}

#[test]
fn filter_extends_history() {
    let mut b = base_history();
    let mut f = Filter::new(lib_view());
    let old_tip = f.filter(&mut b.s, b.c3).unwrap().unwrap();
    let old_image = f.cached(b.c3);
    let c = blob(&mut b.s, "c");
    let a = b.s.trees[b.lib3 as usize].entries[0].oid;
    let bb = b.s.trees[b.lib3 as usize].entries[1].oid;
    let lib4 = tree(&mut b.s, vec![("a.txt", false, a), ("b.txt", false, bb), ("c.txt", false, c)]);
    let root4 = tree(&mut b.s, vec![("lib", true, lib4), ("docs", true, b.docs)]);
    let c4 = commit(&mut b.s, root4, vec![b.c3], "add lib/c.txt");
    let new_tip = f.filter(&mut b.s, c4).unwrap().unwrap();
    assert_ne!(new_tip, old_tip);
    assert_eq!(b.s.commits[new_tip as usize].parents, vec![old_tip]);
    assert_eq!(f.cached(b.c3), old_image);
}

#[test]
fn filter_whole_tree_view() {
    let mut b = base_history();
    let mut f = Filter::new(PathView::identity());
    let tip = f.filter(&mut b.s, b.c3).unwrap().unwrap();
    assert_eq!(b.s.commits[tip as usize].tree, b.s.commits[b.c3 as usize].tree);
}

#[test]
fn filter_empty_view_has_no_commit() {
    let mut b = base_history();
    let mut f = Filter::new(parse_view("src").unwrap());
    assert_eq!(f.filter(&mut b.s, b.c3), Ok(None));
}

#[test]
fn filter_docs_view_starts_later() {
    let mut b = base_history();
    let mut f = Filter::new(parse_view("docs").unwrap());
    let tip = f.filter(&mut b.s, b.c3).unwrap().unwrap();
    assert_eq!(f.cached(b.c1), Some(None));
    assert_eq!(b.s.commits[tip as usize].tree, b.docs);
    assert_eq!(b.s.commits[tip as usize].parents, Vec::<Oid>::new());
    assert_eq!(f.filter(&mut b.s, b.c2), Ok(Some(tip)));
}

#[test]
fn filter_rejects_blob_path() {
    let mut b = base_history();
    let mut f = Filter::new(parse_view("lib/a.txt").unwrap());
    assert_eq!(f.filter(&mut b.s, b.c3), Err(FilterError::InvalidView));
}

#[test]
fn filter_rejects_unknown_commit() {
    let mut b = base_history();
    let mut f = Filter::new(lib_view());
    assert_eq!(f.filter(&mut b.s, 1000), Err(FilterError::CorruptHistory));
}

#[test]
fn merge_with_equal_subtrees_is_not_a_merge() {
    let mut b = base_history();
    let x = blob(&mut b.s, "x");
    let other = tree(&mut b.s, vec![("x.txt", false, x)]);
    // a side branch from c1 that only touches other/
    let side_root = tree(&mut b.s, vec![("lib", true, b.lib1), ("other", true, other)]);
    let side = commit(&mut b.s, side_root, vec![b.c1], "add other/x.txt");
    let merge_root = tree(&mut b.s, vec![("lib", true, b.lib1), ("docs", true, b.docs), ("other", true, other)]);
    let merge = commit(&mut b.s, merge_root, vec![b.c2, side], "merge side");
    let mut f = Filter::new(lib_view());
    let m = f.filter(&mut b.s, merge).unwrap().unwrap();
    let first = f.filter(&mut b.s, b.c2).unwrap().unwrap();
    assert_eq!(m, first);
    assert!(b.s.commits[m as usize].parents.len() <= 1);
}

#[test]
fn merge_with_different_subtrees_keeps_both_parents() {
    let mut b = base_history();
    let z = blob(&mut b.s, "z");
    let a = b.s.trees[b.lib1 as usize].entries[0].oid;
    let lib_side = tree(&mut b.s, vec![("a.txt", false, a), ("z.txt", false, z)]);
    let side_root = tree(&mut b.s, vec![("lib", true, lib_side)]);
    let side = commit(&mut b.s, side_root, vec![b.c1], "add lib/z.txt");
    let lib_m = tree(&mut b.s, vec![("a.txt", false, a), ("z.txt", false, z), ("b.txt", false, a)]);
    let merge_root = tree(&mut b.s, vec![("lib", true, lib_m), ("docs", true, b.docs)]);
    let merge = commit(&mut b.s, merge_root, vec![b.c3, side], "merge side");
    let mut f = Filter::new(lib_view());
    let m = f.filter(&mut b.s, merge).unwrap().unwrap();
    let left = f.filter(&mut b.s, b.c3).unwrap().unwrap();
    let right = f.filter(&mut b.s, side).unwrap().unwrap();
    assert_eq!(b.s.commits[m as usize].parents, vec![left, right]);
}

/// A filtered commit on top of the filtered tip that adds `lib/c.txt`.
fn pushed_commit(b: &mut Base, filtered_tip: Oid) -> (Oid, Oid) {
    let c = blob(&mut b.s, "c");
    let a = b.s.trees[b.lib3 as usize].entries[0].oid;
    let bb = b.s.trees[b.lib3 as usize].entries[1].oid;
    let lib4 = tree(&mut b.s, vec![("a.txt", false, a), ("b.txt", false, bb), ("c.txt", false, c)]);
    let fc = commit(&mut b.s, lib4, vec![filtered_tip], "add c.txt");
    (fc, lib4)
}

#[test]
fn push_grafts_onto_base_tip() {
    let mut b = base_history();
    let mut repo = BaseRepo::new();
    repo.apply(&b"master".to_vec(), b.c3, None).unwrap();
    let mut f = Filter::new(lib_view());
    let ftip = f.filter(&mut b.s, b.c3).unwrap().unwrap();
    let (fc, lib4) = pushed_commit(&mut b, ftip);
    let g = apply_push(&mut b.s, &mut repo, &lib_view(), &b"master".to_vec(), fc).unwrap();
    assert_eq!(repo.branch_tip(&b"master".to_vec()), Some(g));
    let made = &b.s.commits[g as usize];
    assert_eq!(made.parents, vec![b.c3]);
    assert_eq!(made.message, b"add c.txt".to_vec());
    let root = made.tree;
    assert_eq!(entry_oid(&b.s, root, "docs"), Some((true, b.docs)));
    assert_eq!(entry_oid(&b.s, root, "lib"), Some((true, lib4)));
    assert_eq!(b.s.trees[root as usize].entries.len(), 2);
}

#[test]
fn graft_then_filter_gives_pushed_tree() {
    let mut b = base_history();
    let mut f = Filter::new(lib_view());
    let ftip = f.filter(&mut b.s, b.c3).unwrap().unwrap();
    let (fc, lib4) = pushed_commit(&mut b, ftip);
    let g = graft(&mut b.s, &lib_view(), fc, b.c3).unwrap();
    let image = f.filter(&mut b.s, g).unwrap().unwrap();
    assert_eq!(b.s.commits[image as usize].tree, lib4);
    assert_eq!(b.s.commits[image as usize].parents, vec![ftip]);
}

#[test]
fn graft_nested_view_keeps_siblings() {
    let mut s = Store::new();
    let a = blob(&mut s, "a");
    let k = blob(&mut s, "k");
    let sub = tree(&mut s, vec![("a.txt", false, a)]);
    let lib = tree(&mut s, vec![("keep.txt", false, k), ("sub", true, sub)]);
    let root = tree(&mut s, vec![("lib", true, lib)]);
    let base = commit(&mut s, root, vec![], "base");
    let n = blob(&mut s, "n");
    let new_sub = tree(&mut s, vec![("n.txt", false, n)]);
    let fc = commit(&mut s, new_sub, vec![], "change");
    let view = parse_view("lib/sub").unwrap();
    let g = graft(&mut s, &view, fc, base).unwrap();
    let groot = s.commits[g as usize].tree;
    let (_, glib) = entry_oid(&s, groot, "lib").unwrap();
    assert_eq!(entry_oid(&s, glib, "keep.txt"), Some((false, k)));
    assert_eq!(entry_oid(&s, glib, "sub"), Some((true, new_sub)));
    assert_eq!(select(&s, groot, &view), Sel::Dir(new_sub));
}

#[test]
fn graft_target_missing() {
    let mut b = base_history();
    let fc = b.c1;
    assert_eq!(
        graft(&mut b.s, &parse_view("src").unwrap(), fc, b.c3),
        Err(GraftError::GraftTargetMissing)
    );
    assert_eq!(graft(&mut b.s, &lib_view(), fc, 999), Err(GraftError::CorruptHistory));
}

#[test]
fn push_to_unknown_branch() {
    let mut b = base_history();
    let mut repo = BaseRepo::new();
    let r = apply_push(&mut b.s, &mut repo, &lib_view(), &b"main".to_vec(), b.c1);
    assert_eq!(r, Err(PushError::UnknownBranch));
}

#[test]
fn resolve_parent_cases() {
    let tips = vec![10, 20, 30];
    let images = vec![Some(1), Some(2), Some(1)];
    assert_eq!(resolve_parent(&tips, &images, 2, 99), Ok(20));
    assert_eq!(resolve_parent(&tips, &images, 7, 99), Ok(99));
    assert_eq!(resolve_parent(&tips, &images, 1, 99), Err(GraftError::AmbiguousGraft));
    let same = vec![10, 10];
    assert_eq!(resolve_parent(&same, &vec![Some(1), Some(1)], 1, 99), Ok(10));
}

#[test]
fn apply_is_compare_and_swap() {
    let mut repo = BaseRepo::new();
    let name = b"master".to_vec();
    assert_eq!(repo.apply(&name, 5, Some(4)), Err(ApplyError::Conflict));
    assert_eq!(repo.apply(&name, 5, None), Ok(()));
    assert_eq!(repo.branch_tip(&name), Some(5));
    assert_eq!(repo.apply(&name, 6, None), Err(ApplyError::Conflict));
    assert_eq!(repo.apply(&name, 6, Some(4)), Err(ApplyError::Conflict));
    assert_eq!(repo.branch_tip(&name), Some(5));
    assert_eq!(repo.apply(&name, 6, Some(5)), Ok(()));
    assert_eq!(repo.branch_tip(&name), Some(6));
    assert_eq!(repo.apply(&b"dev".to_vec(), 1, None), Ok(()));
    assert_eq!(repo.branch_tip(&name), Some(6));
    assert_eq!(repo.branch_tip(&b"dev".to_vec()), Some(1));
    assert_eq!(repo.branch_tip(&b"none".to_vec()), None);
}

#[test]
fn provision_filters_every_branch() {
    let mut b = base_history();
    let mut repo = BaseRepo::new();
    repo.apply(&b"master".to_vec(), b.c3, None).unwrap();
    repo.apply(&b"old".to_vec(), b.c1, None).unwrap();
    let mut f = Filter::new(lib_view());
    let out = provision(&mut f, &mut b.s, &repo).unwrap();
    assert_eq!(out.len(), 2);
    assert_eq!(out[0].name, b"master".to_vec());
    assert_eq!(out[1].name, b"old".to_vec());
    let master = out[0].tip.unwrap();
    assert_eq!(b.s.commits[master as usize].tree, b.lib3);
    assert_eq!(b.s.commits[out[1].tip.unwrap() as usize].tree, b.lib1);
    let n = b.s.commits.len();
    let again = provision(&mut f, &mut b.s, &repo).unwrap();
    assert_eq!(b.s.commits.len(), n);
    assert_eq!(again[0].tip, out[0].tip);
    assert_eq!(again[1].tip, out[1].tip);
}

#[test]
fn store_rejects_dangling_references() {
    let mut s = Store::new();
    assert_eq!(
        s.add_tree(Tree { entries: vec![Entry { name: b"x".to_vec(), is_tree: false, oid: 0 }] }),
        None
    );
    let t = s.add_tree(Tree { entries: vec![] }).unwrap();
    assert_eq!(t, 0);
    let c = Commit { tree: t, parents: vec![0], author: vec![], message: vec![] };
    assert_eq!(s.add_commit(c), None);
    let c = Commit { tree: t, parents: vec![], author: vec![], message: vec![] };
    assert_eq!(s.add_commit(c), Some(0));
}
