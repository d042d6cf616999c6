//! The library surface: favorites, the recent-updates connection, and
//! recently read chapters, together with the mutations on user state.
use vstd::prelude::*;

use crate::catalogue::{Manga, Page};
use crate::context::GlobalContext;
use crate::cursor::{b64_of, cursor_bytes, decode_cursor, encode_cursor, parse_cursor_bytes};
use crate::db::{favorite_pred, manga_idx_by_id, page_idx_by_id, Db};
use crate::error::Error;
use crate::feed::{chapter_key, favorited, feed_seq, key_lt, recent_chapters_seq, update_key};

verus! {

/// One entry of the recent-updates feed: a chapter of a favorited manga,
/// joined with its manga's display fields. Ordered by `(uploaded,
/// chapter_id)` descending.
pub struct RecentUpdate {
    pub manga_id: i64,
    pub chapter_id: i64,
    pub manga_title: String,
    pub cover_url: Option<String>,
    pub chapter_title: String,
    pub uploaded: i64,
}

/// One recently read chapter of a favorited manga: the most recently read
/// page decides `last_page_read` and `read_at`.
pub struct RecentChapter {
    pub manga_id: i64,
    pub chapter_id: i64,
    pub manga_title: String,
    pub cover_url: Option<String>,
    pub chapter_title: String,
    pub last_page_read: i64,
    pub read_at: i64,
}

/// One edge of a connection: a feed entry with the cursor that resumes the
/// feed directly after it.
pub struct Edge {
    pub cursor: String,
    pub node: RecentUpdate,
}

/// A relay-style connection over the recent-updates feed.
pub struct Connection {
    pub has_previous_page: bool,
    pub has_next_page: bool,
    pub edges: Vec<Edge>,
}

impl Clone for RecentUpdate {
    fn clone(&self) -> (r: Self)
        ensures
            r == *self,
    {
        RecentUpdate {
            manga_id: self.manga_id,
            chapter_id: self.chapter_id,
            manga_title: self.manga_title.clone(),
            cover_url: match &self.cover_url {
                Some(s) => Some(s.clone()),
                None => None,
            },
            chapter_title: self.chapter_title.clone(),
            uploaded: self.uploaded,
        }
    }
}

impl Clone for RecentChapter {
    fn clone(&self) -> (r: Self)
        ensures
            r == *self,
    {
        RecentChapter {
            manga_id: self.manga_id,
            chapter_id: self.chapter_id,
            manga_title: self.manga_title.clone(),
            cover_url: match &self.cover_url {
                Some(s) => Some(s.clone()),
                None => None,
            },
            chapter_title: self.chapter_title.clone(),
            last_page_read: self.last_page_read,
            read_at: self.read_at,
        }
    }
}

/// The library query surface.
#[derive(Default)]
pub struct LibraryRoot;

/// The library and read-state mutation surface.
#[derive(Default)]
pub struct LibraryMutationRoot;

/// Relies on `chrono::Local::now`: the present wall-clock instant as unix
/// seconds. Nothing can be promised of a clock reading.
#[verifier::external_body]
fn now_timestamp() -> i64 {
    chrono::Local::now().timestamp()
}

/// The nodes a run of edges carries, in order.
pub open spec fn nodes_of(edges: Seq<Edge>) -> Seq<RecentUpdate> {
    edges.map_values(|e: Edge| e.node)
}

/// The slice of the feed a request selects: the first `first` entries
/// forward, the last `last` entries backward (still in descending order), or
/// the whole bounded range when no size is given.
pub open spec fn page_nodes(f: Seq<RecentUpdate>, first: Option<i32>, last: Option<i32>) -> Seq<
    RecentUpdate,
> {
    match (first, last) {
        (Some(n), None) => f.take(
            if n as int <= f.len() {
                n as int
            } else {
                f.len() as int
            },
        ),
        (None, Some(n)) => {
            let k = if n as int <= f.len() {
                n as int
            } else {
                f.len() as int
            };
            f.skip(f.len() - k)
        },
        _ => f,
    }
}

/// `first` and `last` are mutually exclusive and never negative.
pub open spec fn bad_pagination(first: Option<i32>, last: Option<i32>) -> bool {
    ||| (first is Some && last is Some)
    ||| (first matches Some(n) && n < 0)
    ||| (last matches Some(n) && n < 0)
}

/// `k` is the bound an optional cursor denotes: the default when the cursor
/// is absent, and otherwise — for a cursor that is the canonical encoding of
/// some bytes — the parsed position, or the default when those bytes do not
/// parse. A non-canonical token leaves `k` unconstrained.
pub open spec fn cursor_bound_or(c: Option<Seq<char>>, default: (i64, i64), k: (i64, i64)) -> bool {
    match c {
        None => k == default,
        Some(t) => forall|b: Seq<u8>|
            t == b64_of(b) ==> k == (match parse_cursor_bytes(b) {
                Some(p) => p,
                None => default,
            }),
    }
}

pub open spec fn opt_str_view(s: Option<String>) -> Option<Seq<char>> {
    match s {
        Some(x) => Some(x@),
        None => None,
    }
}

/// What a returned connection holds for the window `(after, before)`: the
/// requested slice of the feed as nodes, a resume cursor on every edge, and
/// boundary flags probed strictly beyond the first and last returned keys —
/// both false when no edge was returned.
pub open spec fn connection_post(
    db: Db,
    after: (i64, i64),
    before: (i64, i64),
    first: Option<i32>,
    last: Option<i32>,
    conn: Connection,
) -> bool {
    let f = feed_seq(db, after, before);
    let nodes = nodes_of(conn.edges@);
    &&& nodes == page_nodes(f, first, last)
    &&& forall|i: int|
        0 <= i < conn.edges@.len() ==> (#[trigger] conn.edges@[i]).cursor@ == b64_of(
            cursor_bytes(conn.edges@[i].node.uploaded, conn.edges@[i].node.chapter_id),
        )
    &&& conn.has_previous_page == (nodes.len() > 0 && exists|ci: int|
        0 <= ci < db.chapters@.len() && favorited(db, #[trigger] db.chapters@[ci]) && key_lt(
            update_key(nodes[0]),
            chapter_key(db.chapters@[ci]),
        ))
    &&& conn.has_next_page == (nodes.len() > 0 && exists|ci: int|
        0 <= ci < db.chapters@.len() && favorited(db, #[trigger] db.chapters@[ci]) && key_lt(
            chapter_key(db.chapters@[ci]),
            update_key(nodes[nodes.len() - 1]),
        ))
}

impl LibraryRoot {
    /// All favorited manga, in insertion order.
    pub fn library(&self, ctx: &GlobalContext) -> (r: Vec<Manga>)
        ensures
            r@ == ctx.db.mangas@.filter(favorite_pred()),
    {
        ctx.db.get_library()
    }

    /// The recent-updates connection for an explicit present instant `now`:
    /// an absent or malformed `after` cursor falls back to the open bound
    /// `(now, 0)`, an absent or malformed `before` cursor to the epoch bound
    /// `(0, 0)`. Requests setting both `first` and `last`, or a negative
    /// size, are rejected as `InvalidPagination`.
    #[verifier::loop_isolation(false)]
    pub fn recent_updates_at(
        &self,
        ctx: &GlobalContext,
        now: i64,
        after: Option<String>,
        before: Option<String>,
        first: Option<i32>,
        last: Option<i32>,
    ) -> (r: Result<Connection, Error>)
        requires
            ctx.db.inv(),
        ensures
            r is Err <==> bad_pagination(first, last),
            r is Err ==> r == Err::<Connection, Error>(Error::InvalidPagination),
            r matches Ok(conn) ==> exists|ak: (i64, i64), bk: (i64, i64)|
                #![trigger cursor_bound_or(opt_str_view(after), (now, 0), ak), cursor_bound_or(opt_str_view(before), (0, 0), bk)]
                cursor_bound_or(opt_str_view(after), (now, 0), ak) && cursor_bound_or(
                    opt_str_view(before),
                    (0, 0),
                    bk,
                ) && connection_post(ctx.db, ak, bk, first, last, conn),
    {
        if first.is_some() && last.is_some() {
            return Err(Error::InvalidPagination);
        }
        if let Some(n) = first {
            if n < 0 {
                return Err(Error::InvalidPagination);
            }
        }
        if let Some(n) = last {
            if n < 0 {
                return Err(Error::InvalidPagination);
            }
        }
        let a_key = match &after {
            Some(s) => match decode_cursor(s.as_str()) {
                Ok(k) => k,
                Err(_) => (now, 0),
            },
            None => (now, 0),
        };
        let b_key = match &before {
            Some(s) => match decode_cursor(s.as_str()) {
                Ok(k) => k,
                Err(_) => (0, 0),
            },
            None => (0, 0),
        };
        proof {
            assert(cursor_bound_or(opt_str_view(after), (now, 0), a_key));
            assert(cursor_bound_or(opt_str_view(before), (0, 0), b_key));
        }
        let nodes: Vec<RecentUpdate> = if let Some(n) = first {
            ctx.db.get_first_recent_updates(a_key, b_key, n)
        } else if let Some(n) = last {
            ctx.db.get_last_recent_updates(a_key, b_key, n)
        } else {
            ctx.db.get_recent_updates(a_key, b_key)
        };
        let has_previous_page: bool;
        let has_next_page: bool;
        if nodes.len() > 0 {
            has_previous_page = ctx.db.get_chapter_has_before_page(
                (nodes[0].uploaded, nodes[0].chapter_id),
            );
            has_next_page = ctx.db.get_chapter_has_next_page(
                (nodes[nodes.len() - 1].uploaded, nodes[nodes.len() - 1].chapter_id),
            );
        } else {
            has_previous_page = false;
            has_next_page = false;
        }
        let mut edges: Vec<Edge> = Vec::new();
        let mut i: usize = 0;
        while i < nodes.len()
            invariant
                i <= nodes@.len(),
                edges@.len() == i,
                nodes_of(edges@) == nodes@.take(i as int),
                forall|t: int|
                    0 <= t < i ==> (#[trigger] edges@[t]).cursor@ == b64_of(
                        cursor_bytes(edges@[t].node.uploaded, edges@[t].node.chapter_id),
                    ),
            decreases nodes@.len() - i,
        {
            let node = nodes[i].clone();
            let cursor = encode_cursor(node.uploaded, node.chapter_id);
            edges.push(Edge { cursor, node });
            proof {
                assert(nodes_of(edges@) =~= nodes@.take(i + 1 as int));
            }
            i += 1;
        }
        proof {
            assert(nodes@.take(nodes@.len() as int) =~= nodes@);
        }
        let conn = Connection { has_previous_page, has_next_page, edges };
        proof {
            assert(connection_post(ctx.db, a_key, b_key, first, last, conn));
        }
        Ok(conn)
    }

    /// The recent-updates connection with the present instant read from the
    /// wall clock: as `recent_updates_at`, for some clock reading `t`.
    pub fn recent_updates(
        &self,
        ctx: &GlobalContext,
        after: Option<String>,
        before: Option<String>,
        first: Option<i32>,
        last: Option<i32>,
    ) -> (r: Result<Connection, Error>)
        requires
            ctx.db.inv(),
        ensures
            r is Err <==> bad_pagination(first, last),
            r is Err ==> r == Err::<Connection, Error>(Error::InvalidPagination),
            r matches Ok(conn) ==> exists|t: i64, ak: (i64, i64), bk: (i64, i64)|
                #![trigger cursor_bound_or(opt_str_view(after), (t, 0), ak), cursor_bound_or(opt_str_view(before), (0, 0), bk)]
                cursor_bound_or(opt_str_view(after), (t, 0), ak) && cursor_bound_or(
                    opt_str_view(before),
                    (0, 0),
                    bk,
                ) && connection_post(ctx.db, ak, bk, first, last, conn),
    {
        let now = now_timestamp();
        self.recent_updates_at(ctx, now, after, before, first, last)
    }

    /// One entry per favorited chapter with a read page, most recently read
    /// first.
    pub fn recent_chapters(&self, ctx: &GlobalContext) -> (r: Vec<RecentChapter>)
        requires
            ctx.db.inv(),
        ensures
            r@ == recent_chapters_seq(ctx.db),
    {
        ctx.db.get_recent_chapters()
    }
}

impl LibraryMutationRoot {
    /// Marks one manga as a favorite; reports how many rows changed (0 when
    /// no row holds the id). Toggling to the held value is an idempotent
    /// no-op on the state.
    pub fn add_to_library(&self, ctx: &mut GlobalContext, manga_id: i64) -> (r: Result<u64, Error>)
        requires
            old(ctx).db.inv(),
        ensures
            final(ctx).db.inv(),
            final(ctx).extensions == old(ctx).extensions,
            ({
                let i = manga_idx_by_id(old(ctx).db.mangas@, manga_id);
                if i < 0 {
                    r == Ok::<u64, Error>(0u64) && final(ctx).db == old(ctx).db
                } else {
                    &&& r == Ok::<u64, Error>(1u64)
                    &&& final(ctx).db.mangas@ == old(ctx).db.mangas@.update(
                        i,
                        Manga { is_favorite: true, ..old(ctx).db.mangas@[i] },
                    )
                    &&& final(ctx).db.chapters@ == old(ctx).db.chapters@
                    &&& final(ctx).db.pages@ == old(ctx).db.pages@
                    &&& final(ctx).db.next_manga_id == old(ctx).db.next_manga_id
                    &&& final(ctx).db.next_chapter_id == old(ctx).db.next_chapter_id
                    &&& final(ctx).db.next_page_id == old(ctx).db.next_page_id
                }
            }),
    {
        let n = ctx.db.favorite_manga(manga_id, true);
        Ok(n)
    }

    /// Removes one manga from the favorites; reports how many rows changed.
    pub fn delete_from_library(&self, ctx: &mut GlobalContext, manga_id: i64) -> (r: Result<
        u64,
        Error,
    >)
        requires
            old(ctx).db.inv(),
        ensures
            final(ctx).db.inv(),
            final(ctx).extensions == old(ctx).extensions,
            ({
                let i = manga_idx_by_id(old(ctx).db.mangas@, manga_id);
                if i < 0 {
                    r == Ok::<u64, Error>(0u64) && final(ctx).db == old(ctx).db
                } else {
                    &&& r == Ok::<u64, Error>(1u64)
                    &&& final(ctx).db.mangas@ == old(ctx).db.mangas@.update(
                        i,
                        Manga { is_favorite: false, ..old(ctx).db.mangas@[i] },
                    )
                    &&& final(ctx).db.chapters@ == old(ctx).db.chapters@
                    &&& final(ctx).db.pages@ == old(ctx).db.pages@
                    &&& final(ctx).db.next_manga_id == old(ctx).db.next_manga_id
                    &&& final(ctx).db.next_chapter_id == old(ctx).db.next_chapter_id
                    &&& final(ctx).db.next_page_id == old(ctx).db.next_page_id
                }
            }),
    {
        let n = ctx.db.favorite_manga(manga_id, false);
        Ok(n)
    }

    /// Stamps one page as read at `now`; reports how many rows changed.
    pub fn update_page_read_at(&self, ctx: &mut GlobalContext, page_id: i64, now: i64) -> (r:
        Result<u64, Error>)
        requires
            old(ctx).db.inv(),
        ensures
            final(ctx).db.inv(),
            final(ctx).extensions == old(ctx).extensions,
            ({
                let i = page_idx_by_id(old(ctx).db.pages@, page_id);
                if i < 0 {
                    r == Ok::<u64, Error>(0u64) && final(ctx).db == old(ctx).db
                } else {
                    &&& r == Ok::<u64, Error>(1u64)
                    &&& final(ctx).db.pages@ == old(ctx).db.pages@.update(
                        i,
                        Page { read_at: Some(now), ..old(ctx).db.pages@[i] },
                    )
                    &&& final(ctx).db.mangas@ == old(ctx).db.mangas@
                    &&& final(ctx).db.chapters@ == old(ctx).db.chapters@
                    &&& final(ctx).db.next_manga_id == old(ctx).db.next_manga_id
                    &&& final(ctx).db.next_chapter_id == old(ctx).db.next_chapter_id
                    &&& final(ctx).db.next_page_id == old(ctx).db.next_page_id
                }
            }),
    {
        let n = ctx.db.update_page_read_at(page_id, now);
        Ok(n)
    }
}

} // verus!
