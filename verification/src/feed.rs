//! The keyset pagination engine: stable, bidirectional windows over the
//! chapters of favorited manga, ordered by `(uploaded, chapter_id)`
//! descending. Bounds are exclusive on both sides; `chapter_id` breaks
//! `uploaded` ties, so the order is total and every window reproducible.
use vstd::prelude::*;

use crate::catalogue::{Chapter, Manga, Page};
use crate::db::{
    manga_idx_by_id, find_first, lemma_find_first, lemma_filter_distinct, Db,
};
use crate::library::{RecentChapter, RecentUpdate};
use crate::sorting::{
    insert_desc, lemma_insert_desc_at, lemma_sort_desc_properties, lemma_sorted_desc_unique,
    sort_desc, sorted_desc,
};

verus! {

/// Strict order on composite keys `(uploaded, id)`: by timestamp, then by id.
pub open spec fn key_lt(a: (i64, i64), b: (i64, i64)) -> bool {
    a.0 < b.0 || (a.0 == b.0 && a.1 < b.1)
}

/// The ordering key of a chapter row.
pub open spec fn chapter_key(c: Chapter) -> (i64, i64) {
    (c.uploaded, c.id)
}

/// The ordering key of a feed entry.
pub open spec fn update_key(u: RecentUpdate) -> (i64, i64) {
    (u.uploaded, u.chapter_id)
}

/// Feed entries ordered by their composite key.
pub open spec fn update_lt() -> spec_fn(RecentUpdate, RecentUpdate) -> bool {
    |a: RecentUpdate, b: RecentUpdate| key_lt(update_key(a), update_key(b))
}

/// Whether the manga owning `c` exists and is favorited.
pub open spec fn favorited(db: Db, c: Chapter) -> bool {
    let i = manga_idx_by_id(db.mangas@, c.manga_id);
    i >= 0 && db.mangas@[i].is_favorite
}

/// The manga row owning `c` (meaningful when `favorited` holds).
pub open spec fn manga_of(db: Db, c: Chapter) -> Manga {
    db.mangas@[manga_idx_by_id(db.mangas@, c.manga_id)]
}

/// A chapter is in the window when its manga is favorited and its key lies
/// strictly between `before` and `after`.
pub open spec fn in_window(db: Db, after: (i64, i64), before: (i64, i64), c: Chapter) -> bool {
    favorited(db, c) && key_lt(chapter_key(c), after) && key_lt(before, chapter_key(c))
}

pub open spec fn window_pred(db: Db, after: (i64, i64), before: (i64, i64)) -> spec_fn(
    Chapter,
) -> bool {
    |c: Chapter| in_window(db, after, before, c)
}

/// The feed entry for chapter `c` of manga `m`.
pub open spec fn mk_update(c: Chapter, m: Manga) -> RecentUpdate {
    RecentUpdate {
        manga_id: m.id,
        chapter_id: c.id,
        manga_title: m.title,
        cover_url: m.cover_url,
        chapter_title: c.title,
        uploaded: c.uploaded,
    }
}

pub open spec fn update_of(db: Db) -> spec_fn(Chapter) -> RecentUpdate {
    |c: Chapter| mk_update(c, manga_of(db, c))
}

/// The unordered entries of the window.
pub open spec fn window_entries(db: Db, after: (i64, i64), before: (i64, i64)) -> Seq<
    RecentUpdate,
> {
    db.chapters@.filter(window_pred(db, after, before)).map_values(update_of(db))
}

/// The feed for the window: its entries in descending key order.
pub open spec fn feed_seq(db: Db, after: (i64, i64), before: (i64, i64)) -> Seq<RecentUpdate> {
    sort_desc(window_entries(db, after, before), update_lt())
}

/// Compares composite keys.
pub fn key_lt_exec(a: (i64, i64), b: (i64, i64)) -> (r: bool)
    ensures
        r == key_lt(a, b),
{
    a.0 < b.0 || (a.0 == b.0 && a.1 < b.1)
}

impl Db {
    /// Inserts `u` into a feed page ordered by key descending.
    #[verifier::loop_isolation(false)]
    fn insert_update_desc(out: &mut Vec<RecentUpdate>, u: RecentUpdate)
        ensures
            final(out)@ == insert_desc(old(out)@, u, update_lt()),
    {
        let ghost lt = update_lt();
        proof {
            assert(forall|a: RecentUpdate, b: RecentUpdate| #[trigger] lt(a, b) <==> key_lt(
                update_key(a),
                update_key(b),
            ));
        }
        let mut pos: usize = 0;
        while pos < out.len() && !key_lt_exec(
            (out[pos].uploaded, out[pos].chapter_id),
            (u.uploaded, u.chapter_id),
        )
            invariant
                pos <= out@.len(),
                forall|k: int| 0 <= k < pos ==> !lt(#[trigger] out@[k], u),
            decreases out@.len() - pos,
        {
            pos += 1;
        }
        proof {
            lemma_insert_desc_at(out@, u, lt, pos as int);
        }
        out.insert(pos, u);
        proof {
            assert(final(out)@ =~= insert_desc(old(out)@, u, lt));
        }
    }

    /// The full bounded window of recent updates: every chapter of a
    /// favorited manga whose key lies strictly between the bounds, joined
    /// with its manga, in descending key order.
    #[verifier::loop_isolation(false)]
    pub fn get_recent_updates(&self, after: (i64, i64), before: (i64, i64)) -> (r: Vec<
        RecentUpdate,
    >)
        requires
            self.inv(),
        ensures
            r@ == feed_seq(*self, after, before),
            sorted_desc(r@, update_lt()),
    {
        let ghost wp = window_pred(*self, after, before);
        let ghost uo = update_of(*self);
        let ghost lt = update_lt();
        proof {
            assert(forall|c: Chapter| #[trigger] wp(c) <==> in_window(*self, after, before, c));
            assert(forall|c: Chapter| #[trigger] uo(c) == mk_update(c, manga_of(*self, c)));
            reveal(Seq::filter);
        }
        let mut out: Vec<RecentUpdate> = Vec::new();
        let mut j: usize = 0;
        while j < self.chapters.len()
            invariant
                j <= self.chapters@.len(),
                out@ == sort_desc(self.chapters@.take(j as int).filter(wp).map_values(uo), lt),
            decreases self.chapters@.len() - j,
        {
            proof {
                assert(self.chapters@.take(j + 1 as int).drop_last() =~= self.chapters@.take(
                    j as int,
                ));
                assert(self.chapters@.take(j + 1 as int).last() == self.chapters@[j as int]);
            }
            let c = &self.chapters[j];
            let within = key_lt_exec((c.uploaded, c.id), after) && key_lt_exec(
                before,
                (c.uploaded, c.id),
            );
            let mut taken = false;
            if within {
                if let Some(m) = self.get_manga_by_id(c.manga_id) {
                    if m.is_favorite {
                        let u = RecentUpdate {
                            manga_id: m.id,
                            chapter_id: c.id,
                            manga_title: m.title,
                            cover_url: m.cover_url,
                            chapter_title: c.title.clone(),
                            uploaded: c.uploaded,
                        };
                        proof {
                            assert(u == uo(self.chapters@[j as int]));
                            assert(wp(self.chapters@[j as int]));
                        }
                        Self::insert_update_desc(&mut out, u);
                        taken = true;
                        proof {
                            let pf = self.chapters@.take(j as int).filter(wp);
                            assert(self.chapters@.take(j + 1 as int).filter(wp) =~= pf.push(
                                self.chapters@[j as int],
                            ));
                            assert(pf.push(self.chapters@[j as int]).map_values(uo)
                                =~= pf.map_values(uo).push(uo(self.chapters@[j as int])));
                            assert(pf.map_values(uo).push(
                                uo(self.chapters@[j as int]),
                            ).drop_last() =~= pf.map_values(uo));
                        }
                    }
                }
            }
            if !taken {
                proof {
                    assert(!wp(self.chapters@[j as int]));
                    assert(self.chapters@.take(j + 1 as int).filter(wp) =~= self.chapters@.take(
                        j as int,
                    ).filter(wp));
                }
            }
            j += 1;
        }
        proof {
            assert(self.chapters@.take(self.chapters@.len() as int) =~= self.chapters@);
            lemma_feed_seq_props(*self, after, before);
        }
        out
    }

    /// The forward page: the first `first` entries of the bounded window in
    /// descending key order.
    pub fn get_first_recent_updates(&self, after: (i64, i64), before: (i64, i64), first: i32) -> (r:
        Vec<RecentUpdate>)
        requires
            self.inv(),
            first >= 0,
        ensures
            ({
                let f = feed_seq(*self, after, before);
                r@ == f.take(if first as int <= f.len() {
                    first as int
                } else {
                    f.len() as int
                })
            }),
    {
        let mut full = self.get_recent_updates(after, before);
        let n: usize = full.len();
        let k: usize = if (first as usize) <= n {
            first as usize
        } else {
            n
        };
        full.truncate(k);
        proof {
            assert(full@ =~= feed_seq(*self, after, before).take(k as int));
        }
        full
    }

    /// The backward page: the last `last` entries of the bounded window,
    /// still in descending key order — the window's tail, not a re-sort.
    pub fn get_last_recent_updates(&self, after: (i64, i64), before: (i64, i64), last: i32) -> (r:
        Vec<RecentUpdate>)
        requires
            self.inv(),
            last >= 0,
        ensures
            ({
                let f = feed_seq(*self, after, before);
                let k = if last as int <= f.len() {
                    last as int
                } else {
                    f.len() as int
                };
                r@ == f.skip(f.len() - k)
            }),
    {
        let mut full = self.get_recent_updates(after, before);
        let n: usize = full.len();
        let k: usize = if (last as usize) <= n {
            last as usize
        } else {
            n
        };
        let tail = full.split_off(n - k);
        proof {
            assert(tail@ =~= feed_seq(*self, after, before).skip(n - k));
        }
        tail
    }

    /// Probes whether any favorited chapter's key lies strictly above `key`
    /// — an existence check, never a count.
    #[verifier::loop_isolation(false)]
    pub fn get_chapter_has_before_page(&self, key: (i64, i64)) -> (r: bool)
        requires
            self.inv(),
        ensures
            r <==> exists|i: int|
                0 <= i < self.chapters@.len() && favorited(*self, #[trigger] self.chapters@[i])
                    && key_lt(key, chapter_key(self.chapters@[i])),
    {
        let mut j: usize = 0;
        while j < self.chapters.len()
            invariant
                j <= self.chapters@.len(),
                forall|k: int|
                    0 <= k < j ==> !(favorited(*self, #[trigger] self.chapters@[k]) && key_lt(
                        key,
                        chapter_key(self.chapters@[k]),
                    )),
            decreases self.chapters@.len() - j,
        {
            let c = &self.chapters[j];
            if key_lt_exec(key, (c.uploaded, c.id)) {
                if let Some(m) = self.get_manga_by_id(c.manga_id) {
                    if m.is_favorite {
                        return true;
                    }
                }
            }
            j += 1;
        }
        false
    }

    /// Probes whether any favorited chapter's key lies strictly below `key`.
    #[verifier::loop_isolation(false)]
    pub fn get_chapter_has_next_page(&self, key: (i64, i64)) -> (r: bool)
        requires
            self.inv(),
        ensures
            r <==> exists|i: int|
                0 <= i < self.chapters@.len() && favorited(*self, #[trigger] self.chapters@[i])
                    && key_lt(chapter_key(self.chapters@[i]), key),
    {
        let mut j: usize = 0;
        while j < self.chapters.len()
            invariant
                j <= self.chapters@.len(),
                forall|k: int|
                    0 <= k < j ==> !(favorited(*self, #[trigger] self.chapters@[k]) && key_lt(
                        chapter_key(self.chapters@[k]),
                        key,
                    )),
            decreases self.chapters@.len() - j,
        {
            let c = &self.chapters[j];
            if key_lt_exec((c.uploaded, c.id), key) {
                if let Some(m) = self.get_manga_by_id(c.manga_id) {
                    if m.is_favorite {
                        return true;
                    }
                }
            }
            j += 1;
        }
        false
    }

    /// How many chapters belong to favorited manga.
    #[verifier::loop_isolation(false)]
    pub fn get_chapter_len(&self) -> (r: i64)
        requires
            self.inv(),
        ensures
            r as int == self.chapters@.filter(|c: Chapter| favorited(*self, c)).len(),
    {
        let ghost p = |c: Chapter| favorited(*self, c);
        proof {
            assert(forall|c: Chapter| #[trigger] p(c) <==> favorited(*self, c));
            reveal(Seq::filter);
        }
        let mut count: usize = 0;
        let mut j: usize = 0;
        while j < self.chapters.len()
            invariant
                j <= self.chapters@.len(),
                count as int == self.chapters@.take(j as int).filter(p).len(),
                count <= j,
            decreases self.chapters@.len() - j,
        {
            proof {
                assert(self.chapters@.take(j + 1 as int).drop_last() =~= self.chapters@.take(
                    j as int,
                ));
                assert(self.chapters@.take(j + 1 as int).last() == self.chapters@[j as int]);
            }
            let c = &self.chapters[j];
            let mut fav = false;
            if let Some(m) = self.get_manga_by_id(c.manga_id) {
                if m.is_favorite {
                    fav = true;
                }
            }
            if fav {
                count += 1;
            }
            j += 1;
        }
        proof {
            assert(self.chapters@.take(self.chapters@.len() as int) =~= self.chapters@);
        }
        count as i64
    }
}

/// A page counts for chapter `c` when it belongs to it (by both the direct
/// and the denormalized relation) and has been read.
pub open spec fn page_matches(g: Page, c: Chapter) -> bool {
    g.chapter_id == c.id && g.manga_id == c.manga_id && g.read_at is Some
}

/// The greatest `read_at` among the read pages of `c`, if any page of `c`
/// was read.
pub open spec fn max_read_at(s: Seq<Page>, c: Chapter) -> Option<i64>
    decreases s.len(),
{
    if s.len() == 0 {
        None
    } else {
        let rest = max_read_at(s.drop_last(), c);
        let g = s.last();
        if page_matches(g, c) {
            match rest {
                None => g.read_at,
                Some(v) => if g.read_at.unwrap() > v {
                    g.read_at
                } else {
                    Some(v)
                },
            }
        } else {
            rest
        }
    }
}

/// Matches the pages of `c` read exactly at `v`.
pub open spec fn best_page_pred(c: Chapter, v: i64) -> spec_fn(Page) -> bool {
    |g: Page| page_matches(g, c) && g.read_at == Some(v)
}

/// The recent-chapter entry for `c`: display fields from its manga, and the
/// rank and time of the first page (in insertion order) holding the greatest
/// `read_at`.
pub open spec fn mk_recent_chapter(db: Db, c: Chapter) -> RecentChapter {
    let m = manga_of(db, c);
    let v = max_read_at(db.pages@, c).unwrap();
    let bi = find_first(db.pages@, best_page_pred(c, v));
    RecentChapter {
        manga_id: m.id,
        chapter_id: c.id,
        manga_title: m.title,
        cover_url: m.cover_url,
        chapter_title: c.title,
        last_page_read: db.pages@[bi].rank,
        read_at: v,
    }
}

/// A chapter shows among recent chapters when its manga is favorited and at
/// least one of its pages was read.
pub open spec fn read_chapter_pred(db: Db) -> spec_fn(Chapter) -> bool {
    |c: Chapter| favorited(db, c) && max_read_at(db.pages@, c) is Some
}

/// Recent chapters ordered by `(read_at, chapter_id)`.
pub open spec fn rc_lt() -> spec_fn(RecentChapter, RecentChapter) -> bool {
    |a: RecentChapter, b: RecentChapter| key_lt((a.read_at, a.chapter_id), (b.read_at, b.chapter_id))
}

pub open spec fn rc_of(db: Db) -> spec_fn(Chapter) -> RecentChapter {
    |c: Chapter| mk_recent_chapter(db, c)
}

/// The recent-chapters projection: one entry per favorited chapter with a
/// read page, most recently read first.
pub open spec fn recent_chapters_seq(db: Db) -> Seq<RecentChapter> {
    sort_desc(db.chapters@.filter(read_chapter_pred(db)).map_values(rc_of(db)), rc_lt())
}

impl Db {
    /// The rank and read time of the most recently read page of `c`: the
    /// first page, in insertion order, holding the greatest `read_at`.
    #[verifier::loop_isolation(false)]
    #[verifier::rlimit(30)]
    fn best_read_page(&self, c: &Chapter) -> (r: Option<(i64, i64)>)
        ensures
            match max_read_at(self.pages@, *c) {
                None => r is None,
                Some(v) => {
                    let bi = find_first(self.pages@, best_page_pred(*c, v));
                    bi >= 0 && r == Some((self.pages@[bi].rank, v))
                },
            },
    {
        let mut best: Option<(usize, i64)> = None;
        let mut j: usize = 0;
        while j < self.pages.len()
            invariant
                j <= self.pages@.len(),
                match best {
                    None => max_read_at(self.pages@.take(j as int), *c) is None
                        && forall|k: int|
                        0 <= k < j ==> !page_matches(#[trigger] self.pages@[k], *c),
                    Some((bi, v)) => {
                        &&& bi < j
                        &&& max_read_at(self.pages@.take(j as int), *c) == Some(v)
                        &&& page_matches(self.pages@[bi as int], *c)
                        &&& self.pages@[bi as int].read_at == Some(v)
                        &&& forall|k: int|
                            0 <= k < bi ==> !(page_matches(#[trigger] self.pages@[k], *c)
                                && self.pages@[k].read_at == Some(v))
                        &&& forall|k: int|
                            0 <= k < j ==> (page_matches(#[trigger] self.pages@[k], *c)
                                ==> self.pages@[k].read_at.unwrap() <= v)
                    },
                },
            decreases self.pages@.len() - j,
        {
            proof {
                assert(self.pages@.take(j + 1 as int).drop_last() =~= self.pages@.take(j as int));
                assert(self.pages@.take(j + 1 as int).last() == self.pages@[j as int]);
            }
            let g = &self.pages[j];
            let mut matched = false;
            if g.chapter_id == c.id && g.manga_id == c.manga_id {
                if let Some(w) = g.read_at {
                    matched = true;
                    match best {
                        None => {
                            best = Some((j, w));
                        },
                        Some((_bi, v)) => {
                            if w > v {
                                best = Some((j, w));
                            }
                        },
                    }
                }
            }
            if !matched {
                proof {
                    assert(!page_matches(self.pages@[j as int], *c));
                }
            }
            j += 1;
        }
        proof {
            assert(self.pages@.take(self.pages@.len() as int) =~= self.pages@);
        }
        match best {
            Some((bi, v)) => {
                proof {
                    let bp = best_page_pred(*c, v);
                    assert(forall|g: Page| #[trigger] bp(g) <==> page_matches(g, *c) && g.read_at
                        == Some(v));
                    lemma_find_first(self.pages@, bp);
                    assert(bp(self.pages@[bi as int]));
                }
                Some((self.pages[bi].rank, v))
            },
            None => None,
        }
    }

    /// Inserts an entry into a recent-chapters list ordered by
    /// `(read_at, chapter_id)` descending.
    #[verifier::loop_isolation(false)]
    fn insert_rc_desc(out: &mut Vec<RecentChapter>, u: RecentChapter)
        ensures
            final(out)@ == insert_desc(old(out)@, u, rc_lt()),
    {
        let ghost lt = rc_lt();
        proof {
            assert(forall|a: RecentChapter, b: RecentChapter| #[trigger] lt(a, b) <==> key_lt(
                (a.read_at, a.chapter_id),
                (b.read_at, b.chapter_id),
            ));
        }
        let mut pos: usize = 0;
        while pos < out.len() && !key_lt_exec(
            (out[pos].read_at, out[pos].chapter_id),
            (u.read_at, u.chapter_id),
        )
            invariant
                pos <= out@.len(),
                forall|k: int| 0 <= k < pos ==> !lt(#[trigger] out@[k], u),
            decreases out@.len() - pos,
        {
            pos += 1;
        }
        proof {
            lemma_insert_desc_at(out@, u, lt, pos as int);
        }
        out.insert(pos, u);
        proof {
            assert(final(out)@ =~= insert_desc(old(out)@, u, lt));
        }
    }

    /// One entry per favorited chapter with a read page, carrying the rank
    /// and time of its most recently read page, most recently read first.
    #[verifier::loop_isolation(false)]
    pub fn get_recent_chapters(&self) -> (r: Vec<RecentChapter>)
        requires
            self.inv(),
        ensures
            r@ == recent_chapters_seq(*self),
    {
        let ghost rp = read_chapter_pred(*self);
        let ghost f = rc_of(*self);
        let ghost lt = rc_lt();
        proof {
            assert(forall|c: Chapter| #[trigger] rp(c) <==> favorited(*self, c) && max_read_at(
                self.pages@,
                c,
            ) is Some);
            assert(forall|c: Chapter| #[trigger] f(c) == mk_recent_chapter(*self, c));
            reveal(Seq::filter);
        }
        let mut out: Vec<RecentChapter> = Vec::new();
        let mut j: usize = 0;
        while j < self.chapters.len()
            invariant
                j <= self.chapters@.len(),
                out@ == sort_desc(self.chapters@.take(j as int).filter(rp).map_values(f), lt),
            decreases self.chapters@.len() - j,
        {
            proof {
                assert(self.chapters@.take(j + 1 as int).drop_last() =~= self.chapters@.take(
                    j as int,
                ));
                assert(self.chapters@.take(j + 1 as int).last() == self.chapters@[j as int]);
            }
            let c = &self.chapters[j];
            let mut taken = false;
            if let Some(m) = self.get_manga_by_id(c.manga_id) {
                if m.is_favorite {
                    if let Some((rank, v)) = self.best_read_page(c) {
                        let u = RecentChapter {
                            manga_id: m.id,
                            chapter_id: c.id,
                            manga_title: m.title,
                            cover_url: m.cover_url,
                            chapter_title: c.title.clone(),
                            last_page_read: rank,
                            read_at: v,
                        };
                        proof {
                            assert(u == f(self.chapters@[j as int]));
                            assert(rp(self.chapters@[j as int]));
                        }
                        Self::insert_rc_desc(&mut out, u);
                        taken = true;
                        proof {
                            let pf = self.chapters@.take(j as int).filter(rp);
                            assert(self.chapters@.take(j + 1 as int).filter(rp) =~= pf.push(
                                self.chapters@[j as int],
                            ));
                            assert(pf.push(self.chapters@[j as int]).map_values(f)
                                =~= pf.map_values(f).push(f(self.chapters@[j as int])));
                            assert(pf.map_values(f).push(
                                f(self.chapters@[j as int]),
                            ).drop_last() =~= pf.map_values(f));
                        }
                    }
                }
            }
            if !taken {
                proof {
                    assert(!rp(self.chapters@[j as int]));
                    assert(self.chapters@.take(j + 1 as int).filter(rp) =~= self.chapters@.take(
                        j as int,
                    ).filter(rp));
                }
            }
            j += 1;
        }
        proof {
            assert(self.chapters@.take(self.chapters@.len() as int) =~= self.chapters@);
        }
        out
    }
}


/// `u` is the entry of some chapter of the window.
pub open spec fn entry_of_window(db: Db, after: (i64, i64), before: (i64, i64), u: RecentUpdate) -> bool {
    exists|i: int|
        0 <= i < db.chapters@.len() && in_window(db, after, before, #[trigger] db.chapters@[i])
            && u == update_of(db)(db.chapters@[i])
}

/// The feed is strictly descending by key, one entry long per window
/// chapter, and holds exactly the windowed chapters' entries.
pub proof fn lemma_feed_seq_props(db: Db, after: (i64, i64), before: (i64, i64))
    requires
        db.inv(),
    ensures
        sorted_desc(feed_seq(db, after, before), update_lt()),
        feed_seq(db, after, before).len() == db.chapters@.filter(
            window_pred(db, after, before),
        ).len(),
        forall|u: RecentUpdate|
            #[trigger] feed_seq(db, after, before).contains(u) <==> entry_of_window(
                db,
                after,
                before,
                u,
            ),
{
    let wp = window_pred(db, after, before);
    let uo = update_of(db);
    let lt = update_lt();
    assert(forall|c: Chapter| #[trigger] wp(c) <==> in_window(db, after, before, c));
    assert(forall|c: Chapter| #[trigger] uo(c) == mk_update(c, manga_of(db, c)));
    assert(forall|x: RecentUpdate, y: RecentUpdate| #[trigger] lt(x, y) <==> key_lt(
        update_key(x),
        update_key(y),
    ));
    let rows = db.chapters@.filter(wp);
    let entries = rows.map_values(uo);
    assert(forall|i: int, j: int|
        0 <= i < j < db.chapters@.len() ==> db.chapters@[i] != db.chapters@[j]) by {
        assert(forall|i: int, j: int|
            0 <= i < j < db.chapters@.len() ==> (#[trigger] db.chapters@[i]).id != (
            #[trigger] db.chapters@[j]).id);
    }
    lemma_filter_distinct(db.chapters@, wp);
    assert forall|i: int, j: int|
        0 <= i < entries.len() && 0 <= j < entries.len() && i != j implies lt(
        #[trigger] entries[i],
        #[trigger] entries[j],
    ) || lt(entries[j], entries[i]) by {
        assert(entries[i] == uo(rows[i]) && entries[j] == uo(rows[j]));
        if update_key(entries[i]) == update_key(entries[j]) {
            assert(entries[i].chapter_id == rows[i].id && entries[j].chapter_id == rows[j].id);
            assert(rows[i].id == rows[j].id);
            assert(db.chapters@.contains(rows[i]));
            assert(db.chapters@.contains(rows[j]));
            let x = choose|x: int|
                0 <= x < db.chapters@.len() && db.chapters@[x] == rows[i];
            let y = choose|y: int|
                0 <= y < db.chapters@.len() && db.chapters@[y] == rows[j];
            if i < j {
                assert(rows[i] != rows[j]);
            } else {
                assert(rows[j] != rows[i]);
            }
            assert(x != y);
            assert(false);
        }
    }
    assert(crate::sorting::lt_transitive(lt));
    lemma_sort_desc_properties(entries, lt);
    assert forall|u: RecentUpdate|
        #[trigger] feed_seq(db, after, before).contains(u) <==> entry_of_window(
        db,
        after,
        before,
        u,
    ) by {
        if feed_seq(db, after, before).contains(u) {
            assert(entries.contains(u));
            let k = choose|k: int| 0 <= k < entries.len() && entries[k] == u;
            assert(u == uo(rows[k]));
            db.chapters@.lemma_filter_pred(wp, k);
            assert(db.chapters@.contains(rows[k]));
            let i = choose|i: int|
                0 <= i < db.chapters@.len() && db.chapters@[i] == rows[k];
            assert(in_window(db, after, before, db.chapters@[i]));
            assert(u == uo(db.chapters@[i]));
        }
        if entry_of_window(db, after, before, u) {
            let i = choose|i: int|
                0 <= i < db.chapters@.len() && in_window(
                    db,
                    after,
                    before,
                    #[trigger] db.chapters@[i],
                ) && u == uo(db.chapters@[i]);
            db.chapters@.lemma_filter_contains(wp, i);
            assert(rows.contains(db.chapters@[i]));
            let k = choose|k: int| 0 <= k < rows.len() && rows[k] == db.chapters@[i];
            assert(entries[k] == u);
            assert(entries.contains(u));
        }
    }
}

/// Forward pages chain with no gap and no overlap: within any bounded
/// window, cutting the feed after its `k`-th entry and resuming from that
/// entry's key reproduces exactly the remainder — so concatenating
/// successive pages, each opened with the previous page's last cursor,
/// walks the whole window exactly once, still in descending key order.
pub proof fn lemma_feed_pages_chain(db: Db, after: (i64, i64), before: (i64, i64), k: int)
    requires
        db.inv(),
        0 < k <= feed_seq(db, after, before).len(),
    ensures
        feed_seq(db, after, before).take(k) + feed_seq(db, after, before).skip(k) == feed_seq(
            db,
            after,
            before,
        ),
        feed_seq(db, update_key(feed_seq(db, after, before)[k - 1]), before) == feed_seq(
            db,
            after,
            before,
        ).skip(k),
{
    let lt = update_lt();
    assert(forall|x: RecentUpdate, y: RecentUpdate| #[trigger] lt(x, y) <==> key_lt(
        update_key(x),
        update_key(y),
    ));
    let uo = update_of(db);
    assert(forall|c: Chapter| #[trigger] uo(c) == mk_update(c, manga_of(db, c)));
    let f = feed_seq(db, after, before);
    assert(f.take(k) + f.skip(k) =~= f);
    lemma_feed_seq_props(db, after, before);
    let a2 = update_key(f[k - 1]);
    let g = feed_seq(db, a2, before);
    lemma_feed_seq_props(db, a2, before);
    let s = f.skip(k);
    assert(forall|i: int| 0 <= i < s.len() ==> #[trigger] s[i] == f[k + i]);
    assert(sorted_desc(s, lt)) by {
        assert(forall|i: int, j: int| 0 <= i < j < s.len() ==> lt(#[trigger] s[j], #[trigger] s[i]));
    }
    assert(f.contains(f[k - 1]));
    assert(entry_of_window(db, after, before, f[k - 1]));
    let ci0 = choose|i: int|
        0 <= i < db.chapters@.len() && in_window(db, after, before, #[trigger] db.chapters@[i])
            && f[k - 1] == uo(db.chapters@[i]);
    assert(a2 == chapter_key(db.chapters@[ci0]));
    assert(key_lt(a2, after));
    assert forall|u: RecentUpdate| s.contains(u) <==> g.contains(u) by {
        if s.contains(u) {
            let i = choose|i: int| 0 <= i < s.len() && s[i] == u;
            assert(f[k + i] == u);
            assert(f.contains(u));
            assert(entry_of_window(db, after, before, u));
            let ci = choose|c: int|
                0 <= c < db.chapters@.len() && in_window(
                    db,
                    after,
                    before,
                    #[trigger] db.chapters@[c],
                ) && u == uo(db.chapters@[c]);
            assert(chapter_key(db.chapters@[ci]) == update_key(u));
            assert(lt(f[k + i], f[k - 1]));
            assert(key_lt(update_key(u), a2));
            assert(in_window(db, a2, before, db.chapters@[ci]));
            assert(entry_of_window(db, a2, before, u));
            assert(g.contains(u));
        }
        if g.contains(u) {
            assert(entry_of_window(db, a2, before, u));
            let ci = choose|c: int|
                0 <= c < db.chapters@.len() && in_window(
                    db,
                    a2,
                    before,
                    #[trigger] db.chapters@[c],
                ) && u == uo(db.chapters@[c]);
            assert(key_lt(chapter_key(db.chapters@[ci]), a2));
            assert(key_lt(chapter_key(db.chapters@[ci]), after));
            assert(in_window(db, after, before, db.chapters@[ci]));
            assert(entry_of_window(db, after, before, u));
            assert(f.contains(u));
            let i = choose|i: int| 0 <= i < f.len() && f[i] == u;
            assert(update_key(u) == chapter_key(db.chapters@[ci]));
            assert(key_lt(update_key(u), a2));
            if i < k - 1 {
                assert(lt(f[k - 1], f[i]));
                assert(false);
            }
            if i == k - 1 {
                assert(false);
            }
            assert(s[i - k] == u);
            assert(s.contains(u));
        }
    }
    assert(crate::sorting::lt_transitive(lt));
    assert(crate::sorting::lt_asymmetric(lt));
    lemma_sorted_desc_unique(g, s, lt);
}

} // verus!
