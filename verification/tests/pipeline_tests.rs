use imgsearch::errors::AppError;
use imgsearch::pipeline::ChunkItem;
use imgsearch::pipeline::Pipeline;
use imgsearch::record::ImageIndexResp;

fn emb(seed: i64) -> Vec<i64> {
    let mut v = vec![0i64; 768];
    v[0] = seed;
    v
}

fn item(id: &str, path: &str) -> ChunkItem {
    ChunkItem {
        id: id.to_string(),
        path: path.to_string(),
        sign: format!("sign-of-{}", id),
        thumbnail: format!("/thumbs/{}.jpg", id),
    }
}

fn resp(seed: i64, desc: &str) -> ImageIndexResp {
    ImageIndexResp { vec: emb(seed), desc: desc.to_string(), name: None }
}

fn paths(ps: &[&str]) -> Vec<String> {
    ps.iter().map(|p| p.to_string()).collect()
}

#[test]
fn index_images_requires_server() {
    let mut p = Pipeline::new();
    let items = vec![item("a", "/photos/a.jpg")];
    let r = p.index_images("/photos", &items, Ok(vec![resp(1, "cat")]), &vec![None], 0);
    assert!(matches!(r, Err(AppError::Auth(_))));
    assert!(p.show_all(true).is_empty());
}

#[test]
fn end_to_end_track_index_and_remove_root() {
    // Track "/photos" with two images; both get indexed; untracking
    // the root empties the table.
    let mut p = Pipeline::new();
    p.set_server_ready(true);
    let now = 0;
    p.mark_pending_all(&paths(&["/photos/a.jpg", "/photos/b.png"]), now);
    let items = vec![item("id-a", "/photos/a.jpg"), item("id-b", "/photos/b.png")];
    p.save_placeholders("/photos", &items);
    let listed = p.show_all(true);
    assert_eq!(listed.len(), 2);
    assert!(listed.iter().all(|x| !x.idxed));

    let outcome = Ok(vec![resp(1, "a cat"), resp(2, "a dog")]);
    let r = p.index_images("/photos", &items, outcome, &vec![None, None], now);
    assert!(r.is_ok());
    let rows = p.show_all(true);
    assert_eq!(rows.len(), 2);
    assert!(rows.iter().all(|x| x.idxed));
    let a = rows.iter().find(|x| x.id == "id-a").unwrap();
    assert_eq!(a.path, "/photos/a.jpg");
    assert_eq!(a.name, "a.jpg");
    assert_eq!(a.desc.as_deref(), Some("a cat"));

    p.remove_root("/photos");
    assert!(p.show_all(true).is_empty());
}

#[test]
fn failed_call_keeps_placeholders() {
    // A chunk of three whose service call fails with a network error:
    // all three rows persist unindexed and no error escapes.
    let mut p = Pipeline::new();
    p.set_server_ready(true);
    let now = 0;
    let items = vec![
        item("a", "/r/a.jpg"),
        item("b", "/r/b.jpg"),
        item("c", "/r/c.jpg"),
    ];
    p.mark_pending_all(&paths(&["/r/a.jpg", "/r/b.jpg", "/r/c.jpg"]), now);
    let outcome: Result<Vec<ImageIndexResp>, AppError> =
        Err(AppError::Network("host unreachable".to_string()));
    let r = p.index_images("/r", &items, outcome, &vec![None, None, None], now);
    assert!(r.is_ok());
    let rows = p.show_all(true);
    assert_eq!(rows.len(), 3);
    for row in &rows {
        assert!(!row.idxed);
        assert!(row.desc.is_none());
        assert!(row.score.is_none());
    }
}

#[test]
fn rename_mid_index_lands_on_new_path() {
    // "/photos/a.jpg" is mid-index when the user renames it: the
    // persisted row carries "/photos/a2.jpg".
    let mut p = Pipeline::new();
    p.set_server_ready(true);
    let now = 0;
    p.mark_pending_all(&paths(&["/photos/a.jpg"]), now);
    let r = p.resolve_rename("/photos/a.jpg", "/photos/a2.jpg", now);
    assert!(r.is_ok());
    // Nothing written to the table yet: the rename is parked.
    assert!(p.show_all(true).is_empty());

    let items = vec![item("id-a", "/photos/a.jpg")];
    let r = p.index_images("/photos", &items, Ok(vec![resp(1, "a cat")]), &vec![None], now);
    assert!(r.is_ok());
    let rows = p.show_all(true);
    assert_eq!(rows.len(), 1);
    assert_eq!(rows[0].path, "/photos/a2.jpg");
    assert_eq!(rows[0].name, "a2.jpg");
    assert_eq!(rows[0].id, "id-a");
    assert!(rows[0].idxed);
}

#[test]
fn rename_of_idle_path_updates_store_directly() {
    // A path that is not pending is renamed straight in the table.
    let mut p = Pipeline::new();
    p.set_server_ready(true);
    let items = vec![item("id-a", "/photos/a.jpg")];
    p.save_placeholders("/photos", &items);
    let r = p.resolve_rename("/photos/a.jpg", "/photos/a2.jpg", 0);
    assert!(r.is_ok());
    let rows = p.show_all(true);
    assert_eq!(rows.len(), 1);
    assert_eq!(rows[0].path, "/photos/a2.jpg");
    assert_eq!(rows[0].id, "id-a");
}

#[test]
fn rename_onto_occupied_path_is_refused() {
    let mut p = Pipeline::new();
    let items = vec![item("a", "/r/a.jpg"), item("b", "/r/b.jpg")];
    p.save_placeholders("/r", &items);
    let r = p.resolve_rename("/r/a.jpg", "/r/b.jpg", 0);
    assert!(matches!(r, Err(AppError::Internal(_))));
    assert_eq!(p.show_all(true).len(), 2);
}

#[test]
fn rename_tree_rewrites_prefix() {
    let mut p = Pipeline::new();
    let items = vec![item("a", "/old/a.jpg"), item("b", "/old/d/b.jpg")];
    p.save_placeholders("/old", &items);
    let r = p.rename_tree("/old", "/new");
    assert!(r.is_ok());
    let rows = p.show_all(true);
    assert_eq!(rows.iter().find(|x| x.id == "a").unwrap().path, "/new/a.jpg");
    assert_eq!(rows.iter().find(|x| x.id == "b").unwrap().path, "/new/d/b.jpg");
}

#[test]
fn delete_path_clears_pending_and_returns_thumbnails() {
    let mut p = Pipeline::new();
    p.set_server_ready(true);
    let now = 0;
    let items = vec![item("a", "/r/sub/a.jpg"), item("b", "/r/other/b.jpg")];
    p.save_placeholders("/r", &items);
    p.mark_pending_all(&paths(&["/r/sub/a.jpg", "/r/other/b.jpg"]), now);

    let thumbs = p.delete_path("/r/sub");
    assert_eq!(thumbs, vec!["/thumbs/a.jpg".to_string()]);
    // The deleted file is no longer pending: a batch that completes
    // later skips it instead of resurrecting the row.
    let chunk = vec![item("a", "/r/sub/a.jpg")];
    let r = p.index_images("/r", &chunk, Ok(vec![resp(1, "gone")]), &vec![None], now);
    assert!(r.is_ok());
    let rows = p.show_all(true);
    assert_eq!(rows.len(), 1);
    assert_eq!(rows[0].path, "/r/other/b.jpg");
}

#[test]
fn pending_entries_expire() {
    let mut p = Pipeline::new();
    p.mark_pending_all(&paths(&["/r/a.jpg"]), 0);
    assert!(p.cache.contains("/r/a.jpg", 0));
    assert!(p.cache.contains("/r/a.jpg", 59));
    // The TTL is sixty seconds.
    assert!(!p.cache.contains("/r/a.jpg", 60));
    assert!(!p.cache.contains("/r/a.jpg", 1000));
}

#[test]
fn suggested_rename_used_when_no_deferred_one() {
    // The caller physically renamed the file on the service's
    // suggestion; the row follows, keeping its identity.
    let mut p = Pipeline::new();
    p.set_server_ready(true);
    let now = 0;
    p.mark_pending_all(&paths(&["/r/dsc001.jpg"]), now);
    let items = vec![item("id-a", "/r/dsc001.jpg")];
    let renamed = vec![Some("/r/sunset.jpg".to_string())];
    let r = p.index_images("/r", &items, Ok(vec![resp(1, "a sunset")]), &renamed, now);
    assert!(r.is_ok());
    let rows = p.show_all(true);
    assert_eq!(rows[0].path, "/r/sunset.jpg");
    assert_eq!(rows[0].id, "id-a");
}

#[test]
fn deferred_rename_beats_suggested_one() {
    let mut p = Pipeline::new();
    p.set_server_ready(true);
    let now = 0;
    p.mark_pending_all(&paths(&["/r/a.jpg"]), now);
    p.resolve_rename("/r/a.jpg", "/r/user.jpg", now).unwrap();
    let items = vec![item("id-a", "/r/a.jpg")];
    let renamed = vec![Some("/r/service.jpg".to_string())];
    let r = p.index_images("/r", &items, Ok(vec![resp(1, "x")]), &renamed, now);
    assert!(r.is_ok());
    assert_eq!(p.show_all(true)[0].path, "/r/user.jpg");
}

#[test]
fn search_gates_on_server_and_hands_errors_through() {
    let mut p = Pipeline::new();
    let r = p.search(Ok(emb(0)), 5);
    assert!(matches!(r, Err(AppError::Auth(_))));
    p.set_server_ready(true);
    let r = p.search(Err(AppError::RightsLimit("quota".to_string())), 5);
    assert!(matches!(r, Err(AppError::RightsLimit(_))));
    let r = p.search(Err(AppError::Network("api.example".to_string())), 5);
    assert!(matches!(r, Err(AppError::Network(_))));
    // A malformed embedding (wrong dimension) is an internal error.
    let r = p.search(Ok(vec![1i64, 2, 3]), 5);
    assert!(matches!(r, Err(AppError::Internal(_))));
    let r = p.search(Ok(emb(0)), 5);
    assert!(r.unwrap().is_empty());
}

#[test]
fn search_returns_at_most_top_sorted() {
    let mut p = Pipeline::new();
    p.set_server_ready(true);
    let now = 0;
    let mut items = Vec::new();
    let mut resps = Vec::new();
    let mut ps = Vec::new();
    for i in 0..7 {
        let path = format!("/r/{}.jpg", i);
        items.push(item(&format!("id{}", i), &path));
        ps.push(path);
        resps.push(resp((7 - i) * 10, &format!("pic {}", i)));
    }
    let pvec: Vec<String> = ps.clone();
    p.mark_pending_all(&pvec, now);
    p.index_images("/r", &items, Ok(resps), &vec![None; 7], now).unwrap();
    let got = p.search(Ok(emb(0)), 5).unwrap();
    assert_eq!(got.len(), 5);
    for w in got.windows(2) {
        assert!(w[0].score.unwrap() <= w[1].score.unwrap());
    }
    // The two farthest rows are the ones cut off.
    assert!(got.iter().all(|x| x.id != "id0" && x.id != "id1"));
}

#[test]
fn take_chunk_splits_in_fives() {
    let mut work: Vec<ChunkItem> = (0..7).map(|i| item(&format!("i{}", i), &format!("/r/{}.jpg", i))).collect();
    let first = Pipeline::take_chunk(&mut work);
    assert_eq!(first.len(), 5);
    assert_eq!(first[0].id, "i0");
    assert_eq!(work.len(), 2);
    let second = Pipeline::take_chunk(&mut work);
    assert_eq!(second.len(), 2);
    assert_eq!(second[0].id, "i5");
    assert!(work.is_empty());
    let third = Pipeline::take_chunk(&mut work);
    assert!(third.is_empty());
}

#[test]
fn mismatched_reply_count_downgrades_chunk() {
    // Two items but one reply: the library refuses to guess and
    // persists placeholders.
    let mut p = Pipeline::new();
    p.set_server_ready(true);
    let now = 0;
    p.mark_pending_all(&paths(&["/r/a.jpg", "/r/b.jpg"]), now);
    let items = vec![item("a", "/r/a.jpg"), item("b", "/r/b.jpg")];
    let r = p.index_images("/r", &items, Ok(vec![resp(1, "only one")]), &vec![None, None], now);
    assert!(r.is_ok());
    let rows = p.show_all(true);
    assert_eq!(rows.len(), 2);
    assert!(rows.iter().all(|x| !x.idxed));
}
