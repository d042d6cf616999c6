use tanoshi::catalogue::{Chapter, Manga, Page};
use tanoshi::db::Db;
use tanoshi::error::Error;

fn manga(source_id: i64, path: &str, title: &str) -> Manga {
    Manga {
        id: 0,
        source_id,
        title: title.to_string(),
        author: "alice,bob".to_string(),
        genre: "action".to_string(),
        status: Some("ongoing".to_string()),
        description: Some("desc".to_string()),
        path: path.to_string(),
        cover_url: Some("http://covers/x.png".to_string()),
        is_favorite: false,
        last_read_chapter: None,
        date_added: 0,
    }
}

fn chapter(source_id: i64, manga_id: i64, path: &str, rank: i64, uploaded: i64) -> Chapter {
    Chapter {
        id: 0,
        source_id,
        manga_id,
        title: format!("ch {}", rank),
        path: path.to_string(),
        rank,
        read_at: None,
        uploaded,
        date_added: 0,
    }
}

fn page(source_id: i64, manga_id: i64, chapter_id: i64, rank: i64, url: &str) -> Page {
    Page {
        id: 0,
        source_id,
        manga_id,
        chapter_id,
        rank,
        url: url.to_string(),
        read_at: None,
        date_added: 0,
    }
}

#[test]
fn store_insert_and_lookup_manga() {
    let mut db = Db::new();
    let id = db.insert_manga(manga(2, "/a", "A"), 100).unwrap();
    assert_eq!(id, 1);
    let m = db.get_manga_by_id(id).unwrap();
    assert_eq!(m.title, "A");
    assert_eq!(m.date_added, 100);
    assert!(!m.is_favorite);
    let by_key = db.get_manga_by_source_path(2, &"/a".to_string()).unwrap();
    assert_eq!(by_key.id, id);
    assert!(db.get_manga_by_id(99).is_none());
    assert!(db.get_manga_by_source_path(3, &"/a".to_string()).is_none());
}

#[test]
fn store_insert_conflicts_on_natural_key() {
    let mut db = Db::new();
    db.insert_manga(manga(2, "/a", "A"), 100).unwrap();
    assert_eq!(
        db.insert_manga(manga(2, "/a", "A again"), 200),
        Err(Error::ConflictOnInsert)
    );
    // same path under another source is a different natural key
    assert!(db.insert_manga(manga(3, "/a", "other"), 200).is_ok());
}

#[test]
fn store_chapter_conflicts_on_key_and_rank() {
    let mut db = Db::new();
    let mid = db.insert_manga(manga(2, "/a", "A"), 100).unwrap();
    db.insert_chapter(chapter(2, mid, "/a/1", 1, 10), 100).unwrap();
    assert_eq!(
        db.insert_chapter(chapter(2, mid, "/a/1", 2, 11), 100),
        Err(Error::ConflictOnInsert)
    );
    assert_eq!(
        db.insert_chapter(chapter(2, mid, "/a/other", 1, 11), 100),
        Err(Error::ConflictOnInsert)
    );
}

#[test]
fn store_page_conflicts_on_source_url() {
    let mut db = Db::new();
    db.insert_page(page(2, 1, 1, 1, "http://p/1"), 100).unwrap();
    assert_eq!(
        db.insert_page(page(2, 9, 9, 9, "http://p/1"), 100),
        Err(Error::ConflictOnInsert)
    );
    let g = db.get_page_by_source_url(2, &"http://p/1".to_string()).unwrap();
    assert_eq!(g.rank, 1);
    assert!(g.read_at.is_none());
}

#[test]
fn store_update_manga_info_preserves_user_state() {
    let mut db = Db::new();
    let id = db.insert_manga(manga(2, "/a", "A"), 100).unwrap();
    db.favorite_manga(id, true);
    let mut fresh = manga(2, "/a", "A fresh");
    fresh.id = id;
    fresh.description = Some("newer".to_string());
    assert_eq!(db.update_manga_info(fresh), Ok(1));
    let m = db.get_manga_by_id(id).unwrap();
    assert_eq!(m.title, "A fresh");
    assert_eq!(m.description.as_deref(), Some("newer"));
    assert_eq!(m.date_added, 100);
    assert!(m.is_favorite);
    assert_eq!(m.last_read_chapter, None);
}

#[test]
fn store_update_manga_info_missing_row_affects_nothing() {
    let mut db = Db::new();
    let mut ghost_row = manga(2, "/a", "A");
    ghost_row.id = 42;
    assert_eq!(db.update_manga_info(ghost_row), Ok(0));
}

#[test]
fn store_update_manga_info_refuses_key_clash() {
    let mut db = Db::new();
    let a = db.insert_manga(manga(2, "/a", "A"), 100).unwrap();
    db.insert_manga(manga(2, "/b", "B"), 100).unwrap();
    let mut moved = manga(2, "/b", "A moved onto B's key");
    moved.id = a;
    assert_eq!(db.update_manga_info(moved), Err(Error::ConflictOnInsert));
    assert_eq!(db.get_manga_by_id(a).unwrap().path, "/a");
}

#[test]
fn store_favorite_counts_rows() {
    let mut db = Db::new();
    let id = db.insert_manga(manga(2, "/a", "A"), 100).unwrap();
    assert_eq!(db.favorite_manga(id, true), 1);
    // toggling to the held value is idempotent on state but still counts
    assert_eq!(db.favorite_manga(id, true), 1);
    assert!(db.get_manga_by_id(id).unwrap().is_favorite);
    assert_eq!(db.favorite_manga(99, true), 0);
}

#[test]
fn store_library_lists_favorites_only() {
    let mut db = Db::new();
    let a = db.insert_manga(manga(2, "/a", "A"), 100).unwrap();
    db.insert_manga(manga(2, "/b", "B"), 100).unwrap();
    let c = db.insert_manga(manga(2, "/c", "C"), 100).unwrap();
    db.favorite_manga(a, true);
    db.favorite_manga(c, true);
    let lib = db.get_library();
    assert_eq!(lib.len(), 2);
    assert_eq!(lib[0].id, a);
    assert_eq!(lib[1].id, c);
}

#[test]
fn store_rank_neighbors() {
    let mut db = Db::new();
    let mid = db.insert_manga(manga(2, "/a", "A"), 100).unwrap();
    let mut ids = Vec::new();
    for rank in 1..=4 {
        let cid = db
            .insert_chapter(chapter(2, mid, &format!("/a/{}", rank), rank, 10 + rank), 100)
            .unwrap();
        ids.push(cid);
    }
    // rank 1: no prev, next is rank 2
    let d1 = db.get_chapter_by_id(ids[0]).unwrap();
    assert_eq!(d1.prev, None);
    assert_eq!(d1.next, Some(ids[1]));
    // rank 3: prev is rank 2, next is rank 4
    let d3 = db.get_chapter_by_id(ids[2]).unwrap();
    assert_eq!(d3.prev, Some(ids[1]));
    assert_eq!(d3.next, Some(ids[3]));
    // rank 4 (the last): no next
    let d4 = db.get_chapter_by_id(ids[3]).unwrap();
    assert_eq!(d4.prev, Some(ids[2]));
    assert_eq!(d4.next, None);
    // neighbors never cross manga boundaries
    let other = db.insert_manga(manga(3, "/z", "Z"), 100).unwrap();
    let zc = db.insert_chapter(chapter(3, other, "/z/2", 2, 50), 100).unwrap();
    let dz = db.get_chapter_by_id(zc).unwrap();
    assert_eq!(dz.prev, None);
    assert_eq!(dz.next, None);
}

#[test]
fn store_chapters_by_manga_sorted_rank_desc() {
    let mut db = Db::new();
    let mid = db.insert_manga(manga(2, "/a", "A"), 100).unwrap();
    // inserted out of order on purpose
    db.insert_chapter(chapter(2, mid, "/a/2", 2, 12), 100).unwrap();
    db.insert_chapter(chapter(2, mid, "/a/1", 1, 11), 100).unwrap();
    db.insert_chapter(chapter(2, mid, "/a/3", 3, 13), 100).unwrap();
    let list = db.get_chapters_by_manga_id(mid).unwrap();
    let ranks: Vec<i64> = list.iter().map(|d| d.chapter.rank).collect();
    assert_eq!(ranks, vec![3, 2, 1]);
    assert!(matches!(db.get_chapters_by_manga_id(999), Err(Error::NotFound)));
}

#[test]
fn store_pages_by_chapter() {
    let mut db = Db::new();
    db.insert_page(page(2, 1, 7, 1, "http://p/1"), 100).unwrap();
    db.insert_page(page(2, 1, 7, 2, "http://p/2"), 100).unwrap();
    db.insert_page(page(2, 1, 8, 1, "http://p/3"), 100).unwrap();
    let pages = db.get_pages_by_chapter_id(7).unwrap();
    assert_eq!(pages.len(), 2);
    assert_eq!(pages[0].url, "http://p/1");
    assert_eq!(pages[1].url, "http://p/2");
    assert!(matches!(db.get_pages_by_chapter_id(9), Err(Error::NotFound)));
}

#[test]
fn store_update_page_read_at() {
    let mut db = Db::new();
    let pid = db.insert_page(page(2, 1, 7, 1, "http://p/1"), 100).unwrap();
    assert_eq!(db.update_page_read_at(pid, 555), 1);
    assert_eq!(
        db.get_page_by_source_url(2, &"http://p/1".to_string()).unwrap().read_at,
        Some(555)
    );
    assert_eq!(db.update_page_read_at(99, 555), 0);
}

#[test]
fn error_messages_name_each_kind() {
    assert_eq!(Error::ProviderUnavailable.message(), "provider unavailable");
    assert_eq!(Error::NotFound.message(), "not found");
    assert_eq!(Error::ConflictOnInsert.message(), "conflict on insert");
    assert_eq!(Error::MalformedCursor.message(), "malformed cursor");
    assert_eq!(Error::StoreUnavailable.message(), "store unavailable");
    assert_eq!(Error::InvalidPagination.message(), "invalid pagination arguments");
}
