use vstd::prelude::*;
use vstd::pervasive::unreached;

use crate::context::GlobalContext;
use crate::db::{
    chapter_idx_by_key, chapter_idx_by_rank, lemma_find_first, manga_id_pred, manga_idx_by_id,
    manga_idx_by_key, manga_key_pred, mangas_wf, new_chapter_row, new_manga_row, new_page_row,
    page_idx_by_key, updated_manga_row, Db,
};
use crate::error::Error;

verus! {

/// A persisted manga row: one title from one provider.
///
/// The natural key is `(source_id, path)`; `id` is assigned by the store and
/// stable once assigned. `is_favorite` and `last_read_chapter` are user state,
/// never supplied by providers. `author` and `genre` are comma-separated
/// lists, as the persisted schema stores them. Timestamps are unix seconds.
pub struct Manga {
    pub id: i64,
    pub source_id: i64,
    pub title: String,
    pub author: String,
    pub genre: String,
    pub status: Option<String>,
    pub description: Option<String>,
    pub path: String,
    pub cover_url: Option<String>,
    pub is_favorite: bool,
    pub last_read_chapter: Option<i64>,
    pub date_added: i64,
}

impl Manga {
    /// A manga is incomplete when a descriptive field needed for detail
    /// display is still unset; a detail fetch then repairs it in place.
    pub open spec fn spec_incomplete(self) -> bool {
        self.status is None || self.description is None || self.cover_url is None
    }

    pub fn incomplete(&self) -> (r: bool)
        ensures
            r == self.spec_incomplete(),
    {
        self.status.is_none() || self.description.is_none() || self.cover_url.is_none()
    }
}

/// A persisted chapter row, belonging to exactly one manga.
///
/// `rank` is a strictly positive position in the provider-defined reading
/// order, unique within a manga; neighbors are computed from it at read time,
/// never stored.
pub struct Chapter {
    pub id: i64,
    pub source_id: i64,
    pub manga_id: i64,
    pub title: String,
    pub path: String,
    pub rank: i64,
    pub read_at: Option<i64>,
    pub uploaded: i64,
    pub date_added: i64,
}

/// A chapter row joined with its computed neighbors: `prev` is the id of the
/// chapter of the same manga at `rank - 1`, `next` the one at `rank + 1`.
pub struct ChapterDetail {
    pub chapter: Chapter,
    pub prev: Option<i64>,
    pub next: Option<i64>,
}

/// A persisted page row, belonging to exactly one chapter. The natural key is
/// `(source_id, url)`; `manga_id` is denormalized for query convenience.
pub struct Page {
    pub id: i64,
    pub source_id: i64,
    pub manga_id: i64,
    pub chapter_id: i64,
    pub rank: i64,
    pub url: String,
    pub read_at: Option<i64>,
    pub date_added: i64,
}

/// A transient manga record as a provider reports it: descriptive fields only,
/// identified by its path under the source. Providers know nothing of local
/// ids or user state. `author` and `genre` are comma-separated lists.
pub struct SourceManga {
    pub title: String,
    pub author: String,
    pub genre: String,
    pub status: Option<String>,
    pub description: Option<String>,
    pub path: String,
    pub cover_url: Option<String>,
}

/// A transient chapter record as a provider reports it, in reading order.
pub struct SourceChapter {
    pub title: String,
    pub path: String,
    pub uploaded: i64,
}

/// A transient page record as a provider reports it, in reading order.
pub struct SourcePage {
    pub url: String,
}

impl Clone for SourceChapter {
    fn clone(&self) -> (r: Self)
        ensures
            r == *self,
    {
        SourceChapter {
            title: self.title.clone(),
            path: self.path.clone(),
            uploaded: self.uploaded,
        }
    }
}

impl Clone for SourcePage {
    fn clone(&self) -> (r: Self)
        ensures
            r == *self,
    {
        SourcePage { url: self.url.clone() }
    }
}

/// Identity metadata of an installed provider.
#[derive(Debug)]
pub struct Source {
    pub id: i64,
    pub name: String,
    pub version: String,
}

/// An entry of a provider index: where a provider lives and the versions it
/// was built against. Used only for compatibility checks, outside this store.
#[derive(Debug)]
pub struct SourceIndex {
    pub name: String,
    pub path: String,
    pub rustc_version: String,
    pub core_version: String,
    pub version: String,
}

/// Sort parameter for querying manga from a source, normalized across sources.
#[derive(Clone, Copy, Debug, PartialEq, Eq, Structural)]
pub enum SortByParam {
    LastUpdated,
    Title,
    Comment,
    Views,
}

/// Sort order parameter for querying manga from a source.
#[derive(Clone, Copy, Debug, PartialEq, Eq, Structural)]
pub enum SortOrderParam {
    Asc,
    Desc,
}

/// Clones an optional string.
fn clone_opt_string(v: &Option<String>) -> (r: Option<String>)
    ensures
        r == *v,
{
    match v {
        Some(s) => Some(s.clone()),
        None => None,
    }
}

impl Clone for Manga {
    fn clone(&self) -> (r: Self)
        ensures
            r == *self,
    {
        Manga {
            id: self.id,
            source_id: self.source_id,
            title: self.title.clone(),
            author: self.author.clone(),
            genre: self.genre.clone(),
            status: clone_opt_string(&self.status),
            description: clone_opt_string(&self.description),
            path: self.path.clone(),
            cover_url: clone_opt_string(&self.cover_url),
            is_favorite: self.is_favorite,
            last_read_chapter: self.last_read_chapter,
            date_added: self.date_added,
        }
    }
}

impl Clone for Chapter {
    fn clone(&self) -> (r: Self)
        ensures
            r == *self,
    {
        Chapter {
            id: self.id,
            source_id: self.source_id,
            manga_id: self.manga_id,
            title: self.title.clone(),
            path: self.path.clone(),
            rank: self.rank,
            read_at: self.read_at,
            uploaded: self.uploaded,
            date_added: self.date_added,
        }
    }
}

impl Clone for Page {
    fn clone(&self) -> (r: Self)
        ensures
            r == *self,
    {
        Page {
            id: self.id,
            source_id: self.source_id,
            manga_id: self.manga_id,
            chapter_id: self.chapter_id,
            rank: self.rank,
            url: self.url.clone(),
            read_at: self.read_at,
            date_added: self.date_added,
        }
    }
}

impl Clone for SourceManga {
    fn clone(&self) -> (r: Self)
        ensures
            r == *self,
    {
        SourceManga {
            title: self.title.clone(),
            author: self.author.clone(),
            genre: self.genre.clone(),
            status: clone_opt_string(&self.status),
            description: clone_opt_string(&self.description),
            path: self.path.clone(),
            cover_url: clone_opt_string(&self.cover_url),
        }
    }
}

impl Clone for Source {
    fn clone(&self) -> (r: Self)
        ensures
            r == *self,
    {
        Source {
            id: self.id,
            name: self.name.clone(),
            version: self.version.clone(),
        }
    }
}

/// The browse-path transient row for `sm` under `source_id`, before the
/// store assigns identity: user state at its defaults, id and date unset.
pub open spec fn manga_from_source(source_id: i64, sm: SourceManga) -> Manga {
    Manga {
        id: 0,
        source_id,
        title: sm.title,
        author: sm.author,
        genre: sm.genre,
        status: sm.status,
        description: sm.description,
        path: sm.path,
        cover_url: sm.cover_url,
        is_favorite: false,
        last_read_chapter: None,
        date_added: 0,
    }
}

/// The manga rows after upserting `sm`: unchanged when the natural key
/// `(source_id, sm.path)` is present, else extended by the new row.
pub open spec fn upsert_mangas(
    s: Seq<Manga>,
    next_id: i64,
    source_id: i64,
    sm: SourceManga,
    now: i64,
) -> Seq<Manga> {
    let k = manga_idx_by_key(s, source_id, sm.path@);
    if k >= 0 {
        s
    } else {
        s.push(new_manga_row(manga_from_source(source_id, sm), next_id, now))
    }
}

/// The id counter after upserting `sm`.
pub open spec fn upsert_next(s: Seq<Manga>, next_id: i64, source_id: i64, sm: SourceManga) -> i64 {
    let k = manga_idx_by_key(s, source_id, sm.path@);
    if k >= 0 {
        next_id
    } else {
        (next_id + 1) as i64
    }
}

/// The row the upsert returns: the existing row untouched, or the row just
/// inserted.
pub open spec fn upsert_row(
    s: Seq<Manga>,
    next_id: i64,
    source_id: i64,
    sm: SourceManga,
    now: i64,
) -> Manga {
    let k = manga_idx_by_key(s, source_id, sm.path@);
    if k >= 0 {
        s[k]
    } else {
        new_manga_row(manga_from_source(source_id, sm), next_id, now)
    }
}

/// The manga rows and id counter after upserting a whole provider listing,
/// left to right.
pub open spec fn upsert_all(
    s: Seq<Manga>,
    next_id: i64,
    source_id: i64,
    list: Seq<SourceManga>,
    now: i64,
) -> (Seq<Manga>, i64)
    decreases list.len(),
{
    if list.len() == 0 {
        (s, next_id)
    } else {
        let (s1, n1) = upsert_all(s, next_id, source_id, list.drop_last(), now);
        (upsert_mangas(s1, n1, source_id, list.last(), now), upsert_next(
            s1,
            n1,
            source_id,
            list.last(),
        ))
    }
}

/// Pushing a row keeps every earlier natural-key hit at its index.
pub proof fn lemma_idx_by_key_push_stable(s: Seq<Manga>, x: Manga, source_id: i64, path: Seq<char>)
    requires
        manga_idx_by_key(s, source_id, path) >= 0,
    ensures
        manga_idx_by_key(s.push(x), source_id, path) == manga_idx_by_key(s, source_id, path),
{
    let p = manga_key_pred(source_id, path);
    assert(forall|m: Manga| #[trigger] p(m) <==> m.source_id == source_id && m.path@ == path);
    lemma_find_first(s, p);
    lemma_find_first(s.push(x), p);
    let k = manga_idx_by_key(s, source_id, path);
    let k2 = manga_idx_by_key(s.push(x), source_id, path);
    assert(forall|j: int| 0 <= j < s.len() ==> #[trigger] s.push(x)[j] == s[j]);
    assert(p(s.push(x)[k]));
    assert(k2 != -1);
    if k2 < k {
        assert(!p(s[k2]));
        assert(false);
    }
    if k2 > k {
        assert(!p(s.push(x)[k]));
        assert(false);
    }
}

/// Upsert idempotence: a second sync of the same `(source_id, path)` leaves
/// the store, the id counter and the returned row exactly as the first sync
/// left them, and exactly one row holds the natural key afterward.
pub proof fn lemma_upsert_idempotent(
    s: Seq<Manga>,
    next_id: i64,
    source_id: i64,
    sm: SourceManga,
    now1: i64,
    now2: i64,
)
    requires
        mangas_wf(s, next_id),
        next_id < i64::MAX,
    ensures
        ({
            let s1 = upsert_mangas(s, next_id, source_id, sm, now1);
            let n1 = upsert_next(s, next_id, source_id, sm);
            &&& upsert_mangas(s1, n1, source_id, sm, now2) == s1
            &&& upsert_next(s1, n1, source_id, sm) == n1
            &&& upsert_row(s1, n1, source_id, sm, now2) == upsert_row(s, next_id, source_id, sm, now1)
            &&& ({
                let k = manga_idx_by_key(s1, source_id, sm.path@);
                &&& 0 <= k < s1.len()
                &&& s1[k].source_id == source_id
                &&& s1[k].path@ == sm.path@
                &&& forall|j: int|
                    0 <= j < s1.len() && j != k ==> !((#[trigger] s1[j]).source_id == source_id
                        && s1[j].path@ == sm.path@)
            })
        }),
{
    let p = manga_key_pred(source_id, sm.path@);
    assert(forall|m: Manga| #[trigger] p(m) <==> m.source_id == source_id && m.path@ == sm.path@);
    let k0 = manga_idx_by_key(s, source_id, sm.path@);
    lemma_find_first(s, p);
    if k0 >= 0 {
        let k = manga_idx_by_key(s, source_id, sm.path@);
        assert forall|j: int|
            0 <= j < s.len() && j != k implies !((#[trigger] s[j]).source_id == source_id
            && s[j].path@ == sm.path@) by {
            if j > k {
                assert(!(s[k].source_id == s[j].source_id && s[k].path@ == s[j].path@));
            }
        }
    } else {
        let row = new_manga_row(manga_from_source(source_id, sm), next_id, now1);
        let s1 = s.push(row);
        lemma_find_first(s1, p);
        let k1 = manga_idx_by_key(s1, source_id, sm.path@);
        assert(s1[s.len() as int] == row);
        assert(p(row));
        assert(k1 != -1);
        assert(forall|j: int| 0 <= j < s.len() ==> #[trigger] s1[j] == s[j]);
        if k1 < s.len() {
            assert(!p(s[k1]));
            assert(false);
        }
        assert(k1 == s.len());
        assert forall|j: int|
            0 <= j < s1.len() && j != k1 implies !((#[trigger] s1[j]).source_id == source_id
            && s1[j].path@ == sm.path@) by {
            assert(s1[j] == s[j]);
            assert(!p(s[j]));
        }
    }
}

/// The catalogue query surface: browse a source and fetch one manga, with
/// the reconciler keeping persisted rows unique by natural key.
#[derive(Default)]
pub struct CatalogueRoot;

/// A legacy listing surface: converts a provider listing without touching
/// the store.
#[derive(Default)]
pub struct MangaRoot;

/// The provider metadata surface.
#[derive(Default)]
pub struct SourceRoot;

/// What a detail query must do next for manga `id`: nothing, answer from the
/// store, or fetch provider detail for the row's source and path first.
pub enum MangaPlan {
    NotFound,
    Ready(Manga),
    NeedsDetail { source_id: i64, path: String },
}

/// Upserts one transient provider record by natural key: an existing row is
/// returned untouched (the browse path never overwrites), a missing one is
/// inserted with a fresh id and `date_added` stamped `now`.
pub fn upsert_source_manga(db: &mut Db, source_id: i64, sm: SourceManga, now: i64) -> (r: Manga)
    requires
        old(db).inv(),
        old(db).next_manga_id < i64::MAX,
    ensures
        final(db).inv(),
        final(db).mangas@ == upsert_mangas(
            old(db).mangas@,
            old(db).next_manga_id,
            source_id,
            sm,
            now,
        ),
        final(db).next_manga_id == upsert_next(
            old(db).mangas@,
            old(db).next_manga_id,
            source_id,
            sm,
        ),
        final(db).chapters@ == old(db).chapters@,
        final(db).pages@ == old(db).pages@,
        final(db).next_chapter_id == old(db).next_chapter_id,
        final(db).next_page_id == old(db).next_page_id,
        r == upsert_row(old(db).mangas@, old(db).next_manga_id, source_id, sm, now),
        ({
            let k = manga_idx_by_key(final(db).mangas@, source_id, sm.path@);
            k >= 0 && r == final(db).mangas@[k]
        }),
{
    let ghost p = manga_key_pred(source_id, sm.path@);
    proof {
        assert(forall|m: Manga| #[trigger] p(m) <==> m.source_id == source_id && m.path@
            == sm.path@);
    }
    match db.get_manga_by_source_path(source_id, &sm.path) {
        Some(m) => m,
        None => {
            let ghost old_mangas = db.mangas@;
            let path_again = sm.path.clone();
            let row = Manga {
                id: 0,
                source_id,
                title: sm.title,
                author: sm.author,
                genre: sm.genre,
                status: sm.status,
                description: sm.description,
                path: sm.path,
                cover_url: sm.cover_url,
                is_favorite: false,
                last_read_chapter: None,
                date_added: 0,
            };
            match db.insert_manga(row, now) {
                Ok(id) => {
                    proof {
                        lemma_find_first(db.mangas@, p);
                        let k = manga_idx_by_key(db.mangas@, source_id, sm.path@);
                        assert(p(db.mangas@[old_mangas.len() as int]));
                        assert(k != -1);
                        assert(forall|j: int|
                            0 <= j < old_mangas.len() ==> #[trigger] db.mangas@[j]
                                == old_mangas[j]);
                        if k < old_mangas.len() {
                            assert(!p(old_mangas[k]));
                            assert(false);
                        }
                        let q = manga_id_pred(id);
                        assert(forall|m: Manga| #[trigger] q(m) <==> m.id == id);
                        lemma_find_first(db.mangas@, q);
                        let i = manga_idx_by_id(db.mangas@, id);
                        assert(q(db.mangas@[old_mangas.len() as int]));
                        assert(i != -1);
                        if i < old_mangas.len() {
                            assert(1 <= old_mangas[i].id < old(db).next_manga_id);
                            assert(false);
                        }
                    }
                    match db.get_manga_by_id(id) {
                        Some(m) => m,
                        None => unreached(),
                    }
                },
                Err(_) => {
                    // a concurrent writer winning the insert is recovered by
                    // re-fetching the row; in this sequential model the
                    // lookup above rules the conflict out
                    match db.get_manga_by_source_path(source_id, &path_again) {
                        Some(m) => m,
                        None => unreached(),
                    }
                },
            }
        },
    }
}

impl CatalogueRoot {
    /// Browses one source: each record the provider listed, in provider
    /// order, reconciled into the store by natural key. A failed fetch
    /// (`fetched` is `None`) is a retryable `ProviderUnavailable` and leaves
    /// the store untouched.
    #[verifier::loop_isolation(false)]
    pub fn browse_source(
        &self,
        ctx: &mut GlobalContext,
        source_id: i64,
        fetched: Option<Vec<SourceManga>>,
        now: i64,
    ) -> (r: Result<Vec<Manga>, Error>)
        requires
            old(ctx).db.inv(),
            fetched matches Some(l) ==> old(ctx).db.next_manga_id + l@.len() <= i64::MAX,
        ensures
            final(ctx).db.inv(),
            final(ctx).extensions == old(ctx).extensions,
            fetched is None ==> r == Err::<Vec<Manga>, Error>(Error::ProviderUnavailable)
                && final(ctx).db == old(ctx).db,
            fetched matches Some(l) ==> {
                &&& r is Ok
                &&& final(ctx).db.mangas@ == upsert_all(
                    old(ctx).db.mangas@,
                    old(ctx).db.next_manga_id,
                    source_id,
                    l@,
                    now,
                ).0
                &&& final(ctx).db.next_manga_id == upsert_all(
                    old(ctx).db.mangas@,
                    old(ctx).db.next_manga_id,
                    source_id,
                    l@,
                    now,
                ).1
                &&& final(ctx).db.chapters@ == old(ctx).db.chapters@
                &&& final(ctx).db.pages@ == old(ctx).db.pages@
                &&& final(ctx).db.next_chapter_id == old(ctx).db.next_chapter_id
                &&& final(ctx).db.next_page_id == old(ctx).db.next_page_id
                &&& r->Ok_0@.len() == l@.len()
                &&& forall|t: int|
                    0 <= t < l@.len() ==> {
                        let kt = manga_idx_by_key(
                            final(ctx).db.mangas@,
                            source_id,
                            (#[trigger] l@[t]).path@,
                        );
                        kt >= 0 && r->Ok_0@[t] == final(ctx).db.mangas@[kt]
                    }
            },
    {
        let list = match fetched {
            Some(l) => l,
            None => {
                return Err(Error::ProviderUnavailable);
            },
        };
        let ghost l0 = list@;
        let ghost m0 = ctx.db.mangas@;
        let ghost n0 = ctx.db.next_manga_id;
        let mut out: Vec<Manga> = Vec::new();
        let mut i: usize = 0;
        while i < list.len()
            invariant
                i <= l0.len(),
                list@ == l0,
                ctx.db.inv(),
                ctx.db.mangas@ == upsert_all(m0, n0, source_id, l0.take(i as int), now).0,
                ctx.db.next_manga_id == upsert_all(m0, n0, source_id, l0.take(i as int), now).1,
                ctx.db.next_manga_id <= n0 + i,
                ctx.db.chapters@ == old(ctx).db.chapters@,
                ctx.db.pages@ == old(ctx).db.pages@,
                ctx.db.next_chapter_id == old(ctx).db.next_chapter_id,
                ctx.db.next_page_id == old(ctx).db.next_page_id,
                ctx.extensions == old(ctx).extensions,
                out@.len() == i,
                forall|t: int|
                    0 <= t < i ==> {
                        let kt = manga_idx_by_key(
                            ctx.db.mangas@,
                            source_id,
                            (#[trigger] l0[t]).path@,
                        );
                        kt >= 0 && out@[t] == ctx.db.mangas@[kt]
                    },
            decreases l0.len() - i,
        {
            let sm = list[i].clone();
            let ghost pre = ctx.db.mangas@;
            let ghost pre_next = ctx.db.next_manga_id;
            let m = upsert_source_manga(&mut ctx.db, source_id, sm, now);
            proof {
                assert(l0.take(i + 1 as int).drop_last() =~= l0.take(i as int));
                assert(l0.take(i + 1 as int).last() == l0[i as int]);
                assert forall|t: int|
                    0 <= t < i implies {
                    let kt = manga_idx_by_key(
                        ctx.db.mangas@,
                        source_id,
                        (#[trigger] l0[t]).path@,
                    );
                    kt >= 0 && out@[t] == ctx.db.mangas@[kt]
                } by {
                    let kp = manga_key_pred(source_id, l0[t].path@);
                    assert(forall|m: Manga| #[trigger] kp(m) <==> m.source_id == source_id
                        && m.path@ == l0[t].path@);
                    let kt = manga_idx_by_key(pre, source_id, l0[t].path@);
                    assert(kt >= 0 && out@[t] == pre[kt]);
                    lemma_find_first(pre, kp);
                    if ctx.db.mangas@.len() > pre.len() {
                        let x = ctx.db.mangas@.last();
                        assert(ctx.db.mangas@ =~= pre.push(x));
                        lemma_idx_by_key_push_stable(pre, x, source_id, l0[t].path@);
                    }
                }
            }
            out.push(m);
            i += 1;
        }
        proof {
            assert(l0.take(l0.len() as int) =~= l0);
        }
        Ok(out)
    }

    /// What a detail query of manga `id` must do: the row does not exist, is
    /// complete as stored, or needs a provider detail fetch first.
    pub fn manga_plan(&self, ctx: &GlobalContext, id: i64) -> (r: MangaPlan)
        ensures
            ({
                let i = manga_idx_by_id(ctx.db.mangas@, id);
                if i < 0 {
                    r is NotFound
                } else if !ctx.db.mangas@[i].spec_incomplete() {
                    r == MangaPlan::Ready(ctx.db.mangas@[i])
                } else {
                    r == (MangaPlan::NeedsDetail {
                        source_id: ctx.db.mangas@[i].source_id,
                        path: ctx.db.mangas@[i].path,
                    })
                }
            }),
    {
        match ctx.db.get_manga_by_id(id) {
            None => MangaPlan::NotFound,
            Some(m) => {
                if m.incomplete() {
                    MangaPlan::NeedsDetail { source_id: m.source_id, path: m.path }
                } else {
                    MangaPlan::Ready(m)
                }
            },
        }
    }

    /// Fetches one manga for display, repairing an incomplete row in place
    /// from the provider's detail response: descriptive fields are refreshed
    /// while `id`, `date_added`, `is_favorite` and `last_read_chapter` are
    /// carried forward unchanged. Without a detail response (the provider
    /// failed), or when the refreshed key would collide, the stale row is
    /// returned untouched.
    pub fn manga(&self, ctx: &mut GlobalContext, id: i64, detail: Option<SourceManga>) -> (r:
        Option<Manga>)
        requires
            old(ctx).db.inv(),
        ensures
            final(ctx).db.inv(),
            final(ctx).extensions == old(ctx).extensions,
            ({
                let i = manga_idx_by_id(old(ctx).db.mangas@, id);
                let row = old(ctx).db.mangas@[i];
                if i < 0 {
                    r is None && final(ctx).db == old(ctx).db
                } else if !row.spec_incomplete() {
                    r == Some(row) && final(ctx).db == old(ctx).db
                } else {
                    match detail {
                        None => r == Some(row) && final(ctx).db == old(ctx).db,
                        Some(d) => {
                            let clash = exists|j: int|
                                0 <= j < old(ctx).db.mangas@.len() && j != i && (#[trigger] old(
                                    ctx,
                                ).db.mangas@[j]).source_id == row.source_id && old(
                                    ctx,
                                ).db.mangas@[j].path@ == d.path@;
                            if clash {
                                r == Some(row) && final(ctx).db == old(ctx).db
                            } else {
                                let updated = updated_manga_row(row, detail_manga(row, d));
                                &&& final(ctx).db.mangas@ == old(ctx).db.mangas@.update(
                                    i,
                                    updated,
                                )
                                &&& final(ctx).db.chapters@ == old(ctx).db.chapters@
                                &&& final(ctx).db.pages@ == old(ctx).db.pages@
                                &&& final(ctx).db.next_manga_id == old(ctx).db.next_manga_id
                                &&& final(ctx).db.next_chapter_id == old(ctx).db.next_chapter_id
                                &&& final(ctx).db.next_page_id == old(ctx).db.next_page_id
                                &&& r == Some(updated)
                                &&& updated.id == row.id
                                &&& updated.date_added == row.date_added
                                &&& updated.is_favorite == row.is_favorite
                                &&& updated.last_read_chapter == row.last_read_chapter
                            }
                        },
                    }
                }
            }),
    {
        proof {
            let q = manga_id_pred(id);
            assert(forall|x: Manga| #[trigger] q(x) <==> x.id == id);
            lemma_find_first(ctx.db.mangas@, q);
        }
        let m = match ctx.db.get_manga_by_id(id) {
            None => {
                return None;
            },
            Some(m) => m,
        };
        if !m.incomplete() {
            return Some(m);
        }
        let d = match detail {
            None => {
                return Some(m);
            },
            Some(d) => d,
        };
        let m2 = Manga {
            id: m.id,
            source_id: m.source_id,
            title: d.title,
            author: d.author,
            genre: d.genre,
            status: d.status,
            description: d.description,
            path: d.path,
            cover_url: d.cover_url,
            is_favorite: false,
            last_read_chapter: None,
            date_added: 0,
        };
        match ctx.db.update_manga_info(m2) {
            Ok(_) => {
                proof {
                    let q = manga_id_pred(id);
                    assert(forall|x: Manga| #[trigger] q(x) <==> x.id == id);
                    let i = manga_idx_by_id(old(ctx).db.mangas@, id);
                    assert(forall|j: int|
                        0 <= j < ctx.db.mangas@.len() ==> q(#[trigger] ctx.db.mangas@[j]) == q(
                            old(ctx).db.mangas@[j],
                        ));
                    crate::db::lemma_find_first_congruence(
                        old(ctx).db.mangas@,
                        ctx.db.mangas@,
                        q,
                    );
                    lemma_find_first(ctx.db.mangas@, q);
                }
                match ctx.db.get_manga_by_id(id) {
                    Some(u) => Some(u),
                    None => unreached(),
                }
            },
            Err(_) => Some(m),
        }
    }
}

/// The transient row carrying a provider detail response for the row being
/// repaired: its identity and natural-key source, the response's
/// descriptive fields.
pub open spec fn detail_manga(row: Manga, d: SourceManga) -> Manga {
    Manga {
        id: row.id,
        source_id: row.source_id,
        title: d.title,
        author: d.author,
        genre: d.genre,
        status: d.status,
        description: d.description,
        path: d.path,
        cover_url: d.cover_url,
        is_favorite: false,
        last_read_chapter: None,
        date_added: 0,
    }
}

impl MangaRoot {
    /// Converts a provider listing to transient manga values, in provider
    /// order, without touching the store; a failed fetch is
    /// `ProviderUnavailable`.
    #[verifier::loop_isolation(false)]
    pub fn mangas(&self, source_id: i64, fetched: Option<Vec<SourceManga>>) -> (r: Result<
        Vec<Manga>,
        Error,
    >)
        ensures
            fetched is None ==> r == Err::<Vec<Manga>, Error>(Error::ProviderUnavailable),
            fetched matches Some(l) ==> r is Ok && r->Ok_0@ == l@.map_values(
                |sm: SourceManga| manga_from_source(source_id, sm),
            ),
    {
        let list = match fetched {
            Some(l) => l,
            None => {
                return Err(Error::ProviderUnavailable);
            },
        };
        let ghost f = |sm: SourceManga| manga_from_source(source_id, sm);
        let mut out: Vec<Manga> = Vec::new();
        let mut i: usize = 0;
        while i < list.len()
            invariant
                i <= list@.len(),
                out@ == list@.take(i as int).map_values(f),
            decreases list@.len() - i,
        {
            let sm = list[i].clone();
            let m = Manga {
                id: 0,
                source_id,
                title: sm.title,
                author: sm.author,
                genre: sm.genre,
                status: sm.status,
                description: sm.description,
                path: sm.path,
                cover_url: sm.cover_url,
                is_favorite: false,
                last_read_chapter: None,
                date_added: 0,
            };
            out.push(m);
            proof {
                assert(out@ =~= list@.take(i + 1 as int).map_values(f));
            }
            i += 1;
        }
        proof {
            assert(list@.take(list@.len() as int) =~= list@);
        }
        Ok(out)
    }
}

impl SourceRoot {
    /// All installed providers' metadata, in registration order.
    #[verifier::loop_isolation(false)]
    pub fn installed_sources(&self, ctx: &GlobalContext) -> (r: Vec<Source>)
        ensures
            r@ == ctx.extensions.sources@,
    {
        let mut out: Vec<Source> = Vec::new();
        let mut i: usize = 0;
        while i < ctx.extensions.sources.len()
            invariant
                i <= ctx.extensions.sources@.len(),
                out@ == ctx.extensions.sources@.take(i as int),
            decreases ctx.extensions.sources@.len() - i,
        {
            out.push(ctx.extensions.sources[i].clone());
            proof {
                assert(out@ =~= ctx.extensions.sources@.take(i + 1 as int));
            }
            i += 1;
        }
        proof {
            assert(ctx.extensions.sources@.take(ctx.extensions.sources@.len() as int)
                =~= ctx.extensions.sources@);
        }
        out
    }
}

/// The chapter row a provider record takes at `rank` under its manga,
/// before the store assigns identity.
pub open spec fn chapter_from_source(
    source_id: i64,
    manga_id: i64,
    sc: SourceChapter,
    rank: i64,
) -> Chapter {
    Chapter {
        id: 0,
        source_id,
        manga_id,
        title: sc.title,
        path: sc.path,
        rank,
        read_at: None,
        uploaded: sc.uploaded,
        date_added: 0,
    }
}

/// One step of chapter ingestion: a record whose natural key, or whose rank
/// slot, is already taken is a no-op; anything else is inserted.
pub open spec fn sync_chapter_step(
    s: Seq<Chapter>,
    next_id: i64,
    source_id: i64,
    manga_id: i64,
    sc: SourceChapter,
    rank: i64,
    now: i64,
) -> (Seq<Chapter>, i64) {
    if chapter_idx_by_key(s, source_id, sc.path@) >= 0 || chapter_idx_by_rank(
        s,
        manga_id,
        rank as int,
    ) >= 0 {
        (s, next_id)
    } else {
        (
            s.push(new_chapter_row(chapter_from_source(source_id, manga_id, sc, rank), next_id, now)),
            (next_id + 1) as i64,
        )
    }
}

/// The chapter rows and id counter after ingesting a provider's chapter
/// list, ranks assigned by provider order starting at 1.
pub open spec fn sync_chapters_state(
    s: Seq<Chapter>,
    next_id: i64,
    source_id: i64,
    manga_id: i64,
    list: Seq<SourceChapter>,
    now: i64,
) -> (Seq<Chapter>, i64)
    decreases list.len(),
{
    if list.len() == 0 {
        (s, next_id)
    } else {
        let (s1, n1) = sync_chapters_state(s, next_id, source_id, manga_id, list.drop_last(), now);
        sync_chapter_step(s1, n1, source_id, manga_id, list.last(), list.len() as i64, now)
    }
}

/// Ingests a provider's chapter list for one manga: rank is the position in
/// provider order (starting at 1), a record already known by natural key or
/// rank is a no-op — never a rank reassignment. Reports how many rows were
/// inserted.
#[verifier::loop_isolation(false)]
pub fn sync_chapters(
    db: &mut Db,
    source_id: i64,
    manga_id: i64,
    fetched: Vec<SourceChapter>,
    now: i64,
) -> (r: u64)
    requires
        old(db).inv(),
        old(db).next_chapter_id + fetched@.len() <= i64::MAX,
    ensures
        final(db).inv(),
        final(db).chapters@ == sync_chapters_state(
            old(db).chapters@,
            old(db).next_chapter_id,
            source_id,
            manga_id,
            fetched@,
            now,
        ).0,
        final(db).next_chapter_id == sync_chapters_state(
            old(db).chapters@,
            old(db).next_chapter_id,
            source_id,
            manga_id,
            fetched@,
            now,
        ).1,
        final(db).mangas@ == old(db).mangas@,
        final(db).pages@ == old(db).pages@,
        final(db).next_manga_id == old(db).next_manga_id,
        final(db).next_page_id == old(db).next_page_id,
        r as int == final(db).next_chapter_id - old(db).next_chapter_id,
{
    let ghost l0 = fetched@;
    let ghost c0 = db.chapters@;
    let ghost n0 = db.next_chapter_id;
    let mut inserted: u64 = 0;
    let mut i: usize = 0;
    while i < fetched.len()
        invariant
            i <= l0.len(),
            fetched@ == l0,
            db.inv(),
            db.chapters@ == sync_chapters_state(c0, n0, source_id, manga_id, l0.take(i as int), now).0,
            db.next_chapter_id == sync_chapters_state(
                c0,
                n0,
                source_id,
                manga_id,
                l0.take(i as int),
                now,
            ).1,
            db.next_chapter_id <= n0 + i,
            n0 <= db.next_chapter_id,
            inserted as int == db.next_chapter_id - n0,
            db.mangas@ == old(db).mangas@,
            db.pages@ == old(db).pages@,
            db.next_manga_id == old(db).next_manga_id,
            db.next_page_id == old(db).next_page_id,
        decreases l0.len() - i,
    {
        proof {
            assert(l0.take(i + 1 as int).drop_last() =~= l0.take(i as int));
            assert(l0.take(i + 1 as int).last() == l0[i as int]);
        }
        let sc = fetched[i].clone();
        let rank = (i + 1) as i64;
        let row = Chapter {
            id: 0,
            source_id,
            manga_id,
            title: sc.title,
            path: sc.path,
            rank,
            read_at: None,
            uploaded: sc.uploaded,
            date_added: 0,
        };
        match db.insert_chapter(row, now) {
            Ok(_) => {
                inserted += 1;
            },
            Err(_) => {
                // already known, by natural key or by rank slot: a no-op
            },
        }
        i += 1;
    }
    proof {
        assert(l0.take(l0.len() as int) =~= l0);
    }
    inserted
}

/// The page row a provider record takes at `rank` under its chapter.
pub open spec fn page_from_source(
    source_id: i64,
    manga_id: i64,
    chapter_id: i64,
    sp: SourcePage,
    rank: i64,
) -> Page {
    Page {
        id: 0,
        source_id,
        manga_id,
        chapter_id,
        rank,
        url: sp.url,
        read_at: None,
        date_added: 0,
    }
}

/// One step of page ingestion: a record whose natural key `(source_id,
/// url)` is already taken is a no-op; anything else is inserted.
pub open spec fn sync_page_step(
    s: Seq<Page>,
    next_id: i64,
    source_id: i64,
    manga_id: i64,
    chapter_id: i64,
    sp: SourcePage,
    rank: i64,
    now: i64,
) -> (Seq<Page>, i64) {
    if page_idx_by_key(s, source_id, sp.url@) >= 0 {
        (s, next_id)
    } else {
        (
            s.push(
                new_page_row(page_from_source(source_id, manga_id, chapter_id, sp, rank), next_id, now),
            ),
            (next_id + 1) as i64,
        )
    }
}

/// The page rows and id counter after ingesting a chapter's page list,
/// ranks assigned by provider order starting at 1.
pub open spec fn sync_pages_state(
    s: Seq<Page>,
    next_id: i64,
    source_id: i64,
    manga_id: i64,
    chapter_id: i64,
    list: Seq<SourcePage>,
    now: i64,
) -> (Seq<Page>, i64)
    decreases list.len(),
{
    if list.len() == 0 {
        (s, next_id)
    } else {
        let (s1, n1) = sync_pages_state(
            s,
            next_id,
            source_id,
            manga_id,
            chapter_id,
            list.drop_last(),
            now,
        );
        sync_page_step(s1, n1, source_id, manga_id, chapter_id, list.last(), list.len() as i64, now)
    }
}

/// Ingests a chapter's page list: rank is the position in provider order
/// (starting at 1), a record already known by natural key is a no-op.
/// Reports how many rows were inserted.
#[verifier::loop_isolation(false)]
pub fn sync_pages(
    db: &mut Db,
    source_id: i64,
    manga_id: i64,
    chapter_id: i64,
    fetched: Vec<SourcePage>,
    now: i64,
) -> (r: u64)
    requires
        old(db).inv(),
        old(db).next_page_id + fetched@.len() <= i64::MAX,
    ensures
        final(db).inv(),
        final(db).pages@ == sync_pages_state(
            old(db).pages@,
            old(db).next_page_id,
            source_id,
            manga_id,
            chapter_id,
            fetched@,
            now,
        ).0,
        final(db).next_page_id == sync_pages_state(
            old(db).pages@,
            old(db).next_page_id,
            source_id,
            manga_id,
            chapter_id,
            fetched@,
            now,
        ).1,
        final(db).mangas@ == old(db).mangas@,
        final(db).chapters@ == old(db).chapters@,
        final(db).next_manga_id == old(db).next_manga_id,
        final(db).next_chapter_id == old(db).next_chapter_id,
        r as int == final(db).next_page_id - old(db).next_page_id,
{
    let ghost l0 = fetched@;
    let ghost p0 = db.pages@;
    let ghost n0 = db.next_page_id;
    let mut inserted: u64 = 0;
    let mut i: usize = 0;
    while i < fetched.len()
        invariant
            i <= l0.len(),
            fetched@ == l0,
            db.inv(),
            db.pages@ == sync_pages_state(
                p0,
                n0,
                source_id,
                manga_id,
                chapter_id,
                l0.take(i as int),
                now,
            ).0,
            db.next_page_id == sync_pages_state(
                p0,
                n0,
                source_id,
                manga_id,
                chapter_id,
                l0.take(i as int),
                now,
            ).1,
            db.next_page_id <= n0 + i,
            n0 <= db.next_page_id,
            inserted as int == db.next_page_id - n0,
            db.mangas@ == old(db).mangas@,
            db.chapters@ == old(db).chapters@,
            db.next_manga_id == old(db).next_manga_id,
            db.next_chapter_id == old(db).next_chapter_id,
        decreases l0.len() - i,
    {
        proof {
            assert(l0.take(i + 1 as int).drop_last() =~= l0.take(i as int));
            assert(l0.take(i + 1 as int).last() == l0[i as int]);
        }
        let sp = fetched[i].clone();
        let rank = (i + 1) as i64;
        let row = Page {
            id: 0,
            source_id,
            manga_id,
            chapter_id,
            rank,
            url: sp.url,
            read_at: None,
            date_added: 0,
        };
        match db.insert_page(row, now) {
            Ok(_) => {
                inserted += 1;
            },
            Err(_) => {
                // already known by natural key: a no-op
            },
        }
        i += 1;
    }
    proof {
        assert(l0.take(l0.len() as int) =~= l0);
    }
    inserted
}

} // verus!
