use imgsearch::record::ImageInfo;
use imgsearch::record::ImgIdx;
use imgsearch::record::RenameModel;
use imgsearch::record::SearchModel;
use imgsearch::store::IndexStore;

fn emb(seed: i64) -> Vec<i64> {
    let mut v = vec![0i64; 768];
    v[0] = seed;
    v
}

fn placeholder(id: &str, path: &str, root: &str) -> ImgIdx {
    ImgIdx::new_empty(
        id.to_string(),
        path.to_string(),
        root.to_string(),
        format!("sign-of-{}", id),
        format!("/thumbs/{}.jpg", id),
    )
}

fn indexed(id: &str, path: &str, root: &str, seed: i64) -> ImgIdx {
    ImgIdx::new(
        id.to_string(),
        path.to_string(),
        root.to_string(),
        format!("sign-of-{}", id),
        format!("/thumbs/{}.jpg", id),
        format!("desc-of-{}", id),
        emb(seed),
    )
}

#[test]
fn constructors_fill_fields() {
    let r = indexed("i1", "/photos/cat.jpg", "/photos", 5);
    assert_eq!(r.id, "i1");
    assert_eq!(r.name, "cat.jpg");
    assert_eq!(r.path, "/photos/cat.jpg");
    assert!(r.idxed);
    assert_eq!(r.desc.as_deref(), Some("desc-of-i1"));
    assert_eq!(r.vec.as_ref().map(|v| v.len()), Some(768));

    let p = placeholder("i2", "/photos/dog.png", "/photos");
    assert_eq!(p.name, "dog.png");
    assert!(!p.idxed);
    assert!(p.desc.is_none());
    assert!(p.vec.is_none());
}

#[test]
fn command_models_carry_their_fields() {
    let s = SearchModel { keyword: "sunset over water".to_string(), top: 5 };
    assert_eq!(s.keyword, "sunset over water");
    assert_eq!(s.top, 5);
    let r = RenameModel { old: "/r/a.jpg".to_string(), new: "/r/b.jpg".to_string() };
    assert_eq!(r.old, "/r/a.jpg");
    assert_eq!(r.new, "/r/b.jpg");
    let i = ImageInfo {
        id: "id".to_string(),
        name: "a.jpg".to_string(),
        path: "/r/a.jpg".to_string(),
        created_at: 7,
    };
    assert_eq!(i.name, "a.jpg");
    assert_eq!(i.created_at, 7);
}

#[test]
fn upsert_same_path_two_batches() {
    // Two records under one path, different row ids: exactly one row
    // remains, holding the later record wholesale.
    let mut store = IndexStore::new();
    store.save_batch(vec![placeholder("id-a", "/r/x.jpg", "/r")]);
    assert_eq!(store.len(), 1);
    store.save_batch(vec![indexed("id-b", "/r/x.jpg", "/r", 3)]);
    assert_eq!(store.len(), 1);
    let all = store.get_all(true);
    assert_eq!(all.len(), 1);
    assert_eq!(all[0].id, "id-b");
    assert_eq!(all[0].path, "/r/x.jpg");
    assert!(all[0].idxed);
}

#[test]
fn upsert_same_path_one_batch() {
    let mut store = IndexStore::new();
    store.save_batch(vec![
        placeholder("id-a", "/r/x.jpg", "/r"),
        indexed("id-b", "/r/x.jpg", "/r", 3),
    ]);
    assert_eq!(store.len(), 1);
    let all = store.get_all(true);
    assert_eq!(all[0].id, "id-b");
    assert!(all[0].idxed);
}

#[test]
fn upsert_distinct_paths_inserts() {
    let mut store = IndexStore::new();
    store.save_batch(vec![
        placeholder("a", "/r/a.jpg", "/r"),
        placeholder("b", "/r/b.jpg", "/r"),
    ]);
    store.save_batch(vec![placeholder("c", "/r/c.jpg", "/r")]);
    assert_eq!(store.len(), 3);
}

#[test]
fn get_all_filters_unindexed() {
    let mut store = IndexStore::new();
    store.save_batch(vec![
        placeholder("a", "/r/a.jpg", "/r"),
        indexed("b", "/r/b.jpg", "/r", 1),
    ]);
    assert_eq!(store.get_all(true).len(), 2);
    let only = store.get_all(false);
    assert_eq!(only.len(), 1);
    assert_eq!(only[0].id, "b");
    assert!(only[0].score.is_none());
}

#[test]
fn remove_path_returns_thumbnail() {
    let mut store = IndexStore::new();
    store.save_batch(vec![placeholder("a", "/r/a.jpg", "/r")]);
    let t = store.remove_path("/r/a.jpg");
    assert_eq!(t, Some("/thumbs/a.jpg".to_string()));
    assert_eq!(store.len(), 0);
    assert_eq!(store.remove_path("/r/a.jpg"), None);
}

#[test]
fn remove_path_like_is_boundary_exact() {
    // Deleting "/root/sub" must not touch the sibling "/root/subother".
    let mut store = IndexStore::new();
    store.save_batch(vec![
        placeholder("a", "/root/sub/a.jpg", "/root"),
        placeholder("b", "/root/sub/deep/b.png", "/root"),
        placeholder("c", "/root/subother/c.jpg", "/root"),
    ]);
    let thumbs = store.remove_path_like("/root/sub");
    assert_eq!(thumbs, vec!["/thumbs/a.jpg".to_string(), "/thumbs/b.jpg".to_string()]);
    let left = store.get_all(true);
    assert_eq!(left.len(), 1);
    assert_eq!(left[0].path, "/root/subother/c.jpg");
}

#[test]
fn remove_by_root_deletes_only_that_root() {
    let mut store = IndexStore::new();
    store.save_batch(vec![
        placeholder("a", "/p/a.jpg", "/p"),
        placeholder("b", "/q/b.jpg", "/q"),
    ]);
    store.remove_by_root("/p");
    let left = store.get_all(true);
    assert_eq!(left.len(), 1);
    assert_eq!(left[0].root, "/q");
}

#[test]
fn update_path_rewrites_one_row() {
    let mut store = IndexStore::new();
    store.save_batch(vec![
        placeholder("a", "/r/a.jpg", "/r"),
        placeholder("b", "/r/b.jpg", "/r"),
    ]);
    store.update_path("/r/a.jpg", "/r/a2.jpg");
    let all = store.get_all(true);
    let moved = all.iter().find(|x| x.id == "a").unwrap();
    assert_eq!(moved.path, "/r/a2.jpg");
    let other = all.iter().find(|x| x.id == "b").unwrap();
    assert_eq!(other.path, "/r/b.jpg");
    // A miss is a no-op.
    store.update_path("/r/nope.jpg", "/r/x.jpg");
    assert_eq!(store.len(), 2);
}

#[test]
fn update_path_prefix_rewrites_subtree() {
    let mut store = IndexStore::new();
    store.save_batch(vec![
        placeholder("a", "/a/x.jpg", "/a"),
        placeholder("b", "/a/deep/y.jpg", "/a"),
        placeholder("c", "/b/z.jpg", "/b"),
    ]);
    store.update_path_prefix("/a", "/c");
    let all = store.get_all(true);
    assert_eq!(all.iter().find(|x| x.id == "a").unwrap().path, "/c/x.jpg");
    assert_eq!(all.iter().find(|x| x.id == "b").unwrap().path, "/c/deep/y.jpg");
    assert_eq!(all.iter().find(|x| x.id == "c").unwrap().path, "/b/z.jpg");
}

#[test]
fn search_ranks_by_distance() {
    let mut store = IndexStore::new();
    store.save_batch(vec![
        indexed("near", "/r/near.jpg", "/r", 10),
        indexed("far", "/r/far.jpg", "/r", 30),
        indexed("mid", "/r/mid.jpg", "/r", 20),
        placeholder("skip", "/r/skip.jpg", "/r"),
    ]);
    let q = emb(0);
    let top = store.search(&q, 5);
    // Placeholders are not candidates; at most `top` rows come back.
    assert_eq!(top.len(), 3);
    assert_eq!(top[0].id, "near");
    assert_eq!(top[1].id, "mid");
    assert_eq!(top[2].id, "far");
    // Squared distances, non-decreasing.
    assert_eq!(top[0].score, Some(100));
    assert_eq!(top[1].score, Some(400));
    assert_eq!(top[2].score, Some(900));
}

#[test]
fn search_cuts_to_top() {
    let mut store = IndexStore::new();
    store.save_batch(vec![
        indexed("a", "/r/a.jpg", "/r", 4),
        indexed("b", "/r/b.jpg", "/r", 2),
        indexed("c", "/r/c.jpg", "/r", 9),
    ]);
    let q = emb(0);
    let top = store.search(&q, 2);
    assert_eq!(top.len(), 2);
    assert_eq!(top[0].id, "b");
    assert_eq!(top[1].id, "a");
    assert!(store.search(&q, 0).is_empty());
}

#[test]
fn ann_index_builds_once_past_threshold() {
    let mut store = IndexStore::new();
    assert!(!store.maybe_build_index());
    let mut batch = Vec::new();
    for i in 0..256 {
        batch.push(placeholder(&format!("id{}", i), &format!("/r/{}.jpg", i), "/r"));
    }
    store.save_batch(batch);
    assert_eq!(store.len(), 256);
    // Built exactly once, then idempotent.
    assert!(store.maybe_build_index());
    assert!(!store.maybe_build_index());
}
