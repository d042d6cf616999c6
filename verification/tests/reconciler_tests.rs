use tanoshi::catalogue::{
    sync_chapters, sync_pages, upsert_source_manga, CatalogueRoot, MangaPlan, MangaRoot, Source,
    SourceChapter, SourceManga, SourcePage, SourceRoot,
};
use tanoshi::context::{Extensions, GlobalContext};
use tanoshi::db::Db;
use tanoshi::error::Error;
use tanoshi::graphql::{MutationRoot, QueryRoot};

fn source_manga(path: &str, title: &str) -> SourceManga {
    SourceManga {
        title: title.to_string(),
        author: "alice".to_string(),
        genre: "action,drama".to_string(),
        status: Some("ongoing".to_string()),
        description: Some("desc".to_string()),
        path: path.to_string(),
        cover_url: Some("http://covers/a.png".to_string()),
    }
}

fn bare_source_manga(path: &str, title: &str) -> SourceManga {
    SourceManga {
        title: title.to_string(),
        author: "".to_string(),
        genre: "".to_string(),
        status: None,
        description: None,
        path: path.to_string(),
        cover_url: None,
    }
}

#[test]
fn upsert_twice_keeps_one_row_and_identity() {
    let mut db = Db::new();
    let first = upsert_source_manga(&mut db, 2, source_manga("/a", "A"), 100);
    assert_eq!(db.mangas.len(), 1);
    assert_eq!(first.date_added, 100);
    assert!(!first.is_favorite);
    // a second sync of the same natural key, later, changes nothing
    let second = upsert_source_manga(&mut db, 2, source_manga("/a", "A renamed"), 200);
    assert_eq!(db.mangas.len(), 1);
    assert_eq!(second.id, first.id);
    assert_eq!(second.date_added, 100);
    assert_eq!(second.title, "A");
}

#[test]
fn browse_source_upserts_in_provider_order() {
    let mut ctx = GlobalContext::new(Db::new(), Extensions::new());
    let root = CatalogueRoot::default();
    let fetched = vec![source_manga("/a", "A"), source_manga("/b", "B")];
    let rows = root.browse_source(&mut ctx, 2, Some(fetched), 100).unwrap();
    assert_eq!(rows.len(), 2);
    assert_eq!(rows[0].path, "/a");
    assert_eq!(rows[1].path, "/b");
    assert_eq!(ctx.db.mangas.len(), 2);
    // browsing again, with one new record, adds only the new one
    let fetched2 = vec![source_manga("/a", "A"), source_manga("/c", "C")];
    let rows2 = root.browse_source(&mut ctx, 2, Some(fetched2), 200).unwrap();
    assert_eq!(rows2.len(), 2);
    assert_eq!(rows2[0].id, rows[0].id);
    assert_eq!(rows2[0].date_added, 100);
    assert_eq!(ctx.db.mangas.len(), 3);
}

#[test]
fn browse_source_provider_failure_leaves_store_untouched() {
    let mut ctx = GlobalContext::new(Db::new(), Extensions::new());
    let root = CatalogueRoot::default();
    root.browse_source(&mut ctx, 2, Some(vec![source_manga("/a", "A")]), 100).unwrap();
    let r = root.browse_source(&mut ctx, 2, None, 200);
    assert!(matches!(r, Err(Error::ProviderUnavailable)));
    assert_eq!(ctx.db.mangas.len(), 1);
}

#[test]
fn manga_plan_reports_what_to_do() {
    let mut ctx = GlobalContext::new(Db::new(), Extensions::new());
    let root = CatalogueRoot::default();
    let complete = root
        .browse_source(&mut ctx, 2, Some(vec![source_manga("/a", "A")]), 100)
        .unwrap()[0]
        .id;
    let partial = root
        .browse_source(&mut ctx, 2, Some(vec![bare_source_manga("/b", "B")]), 100)
        .unwrap()[0]
        .id;
    assert!(matches!(root.manga_plan(&ctx, 999), MangaPlan::NotFound));
    match root.manga_plan(&ctx, complete) {
        MangaPlan::Ready(m) => assert_eq!(m.id, complete),
        _ => panic!("expected a ready row"),
    }
    match root.manga_plan(&ctx, partial) {
        MangaPlan::NeedsDetail { source_id, path } => {
            assert_eq!(source_id, 2);
            assert_eq!(path, "/b");
        },
        _ => panic!("expected a detail fetch"),
    }
}

#[test]
fn repair_preserves_identity_and_refreshes_description() {
    let mut ctx = GlobalContext::new(Db::new(), Extensions::new());
    let root = CatalogueRoot::default();
    let row = root
        .browse_source(&mut ctx, 2, Some(vec![bare_source_manga("/b", "B")]), 100)
        .unwrap()[0]
        .clone();
    // user state set between browse and detail must survive the repair
    ctx.db.favorite_manga(row.id, true);
    let repaired = root
        .manga(&mut ctx, row.id, Some(source_manga("/b", "B full")))
        .unwrap();
    assert_eq!(repaired.id, row.id);
    assert_eq!(repaired.date_added, 100);
    assert!(repaired.is_favorite);
    assert_eq!(repaired.last_read_chapter, None);
    assert_eq!(repaired.title, "B full");
    assert_eq!(repaired.status.as_deref(), Some("ongoing"));
    assert_eq!(repaired.description.as_deref(), Some("desc"));
    assert_eq!(repaired.cover_url.as_deref(), Some("http://covers/a.png"));
    // the store row itself was updated in place
    let stored = ctx.db.get_manga_by_id(row.id).unwrap();
    assert_eq!(stored.title, "B full");
    assert_eq!(stored.date_added, 100);
    assert!(stored.is_favorite);
}

#[test]
fn manga_without_detail_returns_stale_row() {
    let mut ctx = GlobalContext::new(Db::new(), Extensions::new());
    let root = CatalogueRoot::default();
    let row = root
        .browse_source(&mut ctx, 2, Some(vec![bare_source_manga("/b", "B")]), 100)
        .unwrap()[0]
        .clone();
    // the provider failed: the incomplete row comes back unchanged
    let stale = root.manga(&mut ctx, row.id, None).unwrap();
    assert_eq!(stale.title, "B");
    assert_eq!(stale.status, None);
    // a complete row never triggers a repair
    let complete = root
        .browse_source(&mut ctx, 2, Some(vec![source_manga("/a", "A")]), 100)
        .unwrap()[0]
        .clone();
    let got = root.manga(&mut ctx, complete.id, None).unwrap();
    assert_eq!(got.title, "A");
    assert!(root.manga(&mut ctx, 999, None).is_none());
}

#[test]
fn manga_root_converts_without_store_writes() {
    let root = MangaRoot::default();
    let rows = root
        .mangas(2, Some(vec![source_manga("/a", "A"), source_manga("/b", "B")]))
        .unwrap();
    assert_eq!(rows.len(), 2);
    assert_eq!(rows[0].id, 0);
    assert_eq!(rows[0].source_id, 2);
    assert_eq!(rows[0].title, "A");
    assert!(!rows[0].is_favorite);
    assert!(matches!(root.mangas(2, None), Err(Error::ProviderUnavailable)));
}

#[test]
fn registry_lists_and_finds_sources() {
    let mut extensions = Extensions::new();
    extensions.register(Source { id: 2, name: "local".to_string(), version: "1.0.0".to_string() });
    extensions.register(Source { id: 3, name: "mirror".to_string(), version: "0.2.1".to_string() });
    let ctx = GlobalContext::new(Db::new(), extensions);
    let listed = SourceRoot::default().installed_sources(&ctx);
    assert_eq!(listed.len(), 2);
    assert_eq!(listed[0].name, "local");
    assert_eq!(listed[1].name, "mirror");
    assert_eq!(ctx.extensions.get(3).unwrap().version, "0.2.1");
    assert!(ctx.extensions.get(9).is_none());
    // the composed surface carries the same roots
    let _q: QueryRoot = QueryRoot::default();
    let _m: MutationRoot = MutationRoot::default();
}

fn source_chapter(path: &str, uploaded: i64) -> SourceChapter {
    SourceChapter {
        title: format!("chapter {}", path),
        path: path.to_string(),
        uploaded,
    }
}

#[test]
fn sync_chapters_assigns_ranks_by_provider_order() {
    let mut db = Db::new();
    let mid = upsert_source_manga(&mut db, 2, source_manga("/a", "A"), 100).id;
    let n = sync_chapters(
        &mut db,
        2,
        mid,
        vec![source_chapter("/a/1", 10), source_chapter("/a/2", 20)],
        100,
    );
    assert_eq!(n, 2);
    let list = db.get_chapters_by_manga_id(mid).unwrap();
    assert_eq!(list.len(), 2);
    assert_eq!(list[0].chapter.rank, 2);
    assert_eq!(list[0].chapter.path, "/a/2");
    assert_eq!(list[1].chapter.rank, 1);
    // re-syncing the same listing is a no-op, not a rank reassignment
    let again = sync_chapters(
        &mut db,
        2,
        mid,
        vec![source_chapter("/a/1", 10), source_chapter("/a/2", 20)],
        200,
    );
    assert_eq!(again, 0);
    let relisted = db.get_chapters_by_manga_id(mid).unwrap();
    assert_eq!(relisted.len(), 2);
    assert_eq!(relisted[1].chapter.date_added, 100);
    // a longer listing adds only the new tail
    let extended = sync_chapters(
        &mut db,
        2,
        mid,
        vec![
            source_chapter("/a/1", 10),
            source_chapter("/a/2", 20),
            source_chapter("/a/3", 30),
        ],
        300,
    );
    assert_eq!(extended, 1);
    assert_eq!(db.get_chapters_by_manga_id(mid).unwrap().len(), 3);
}

#[test]
fn sync_pages_upserts_by_url() {
    let mut db = Db::new();
    let mid = upsert_source_manga(&mut db, 2, source_manga("/a", "A"), 100).id;
    sync_chapters(&mut db, 2, mid, vec![source_chapter("/a/1", 10)], 100);
    let cid = db.get_chapter_by_source_path(2, &"/a/1".to_string()).unwrap().chapter.id;
    let n = sync_pages(
        &mut db,
        2,
        mid,
        cid,
        vec![
            SourcePage { url: "http://p/1".to_string() },
            SourcePage { url: "http://p/2".to_string() },
        ],
        100,
    );
    assert_eq!(n, 2);
    let again = sync_pages(
        &mut db,
        2,
        mid,
        cid,
        vec![SourcePage { url: "http://p/1".to_string() }],
        200,
    );
    assert_eq!(again, 0);
    let pages = db.get_pages_by_chapter_id(cid).unwrap();
    assert_eq!(pages.len(), 2);
    assert_eq!(pages[0].rank, 1);
    assert_eq!(pages[1].rank, 2);
}
