//! The entity store: persisted manga, chapter and page rows, with identity
//! assignment and natural-key uniqueness enforced on every write.
use vstd::prelude::*;
use vstd::pervasive::VecAdditionalExecFns;

use crate::catalogue::{Chapter, ChapterDetail, Manga, Page};
use crate::error::Error;

verus! {

/// The index of the first element of `s` satisfying `p`, or `-1`.
pub open spec fn find_first<A>(s: Seq<A>, p: spec_fn(A) -> bool) -> int
    decreases s.len(),
{
    if s.len() == 0 {
        -1
    } else if p(s[0]) {
        0
    } else {
        let r = find_first(s.drop_first(), p);
        if r == -1 {
            -1
        } else {
            r + 1
        }
    }
}

/// `find_first` returns `-1` exactly when nothing matches, and otherwise the
/// least matching index.
pub proof fn lemma_find_first<A>(s: Seq<A>, p: spec_fn(A) -> bool)
    ensures
        find_first(s, p) == -1 ==> forall|j: int| 0 <= j < s.len() ==> !p(#[trigger] s[j]),
        find_first(s, p) != -1 ==> 0 <= find_first(s, p) < s.len() && p(s[find_first(s, p)]),
        find_first(s, p) != -1 ==> forall|j: int|
            0 <= j < find_first(s, p) ==> !p(#[trigger] s[j]),
        (exists|j: int| 0 <= j < s.len() && p(#[trigger] s[j])) ==> find_first(s, p) != -1,
    decreases s.len(),
{
    if s.len() != 0 && !p(s[0]) {
        let d = s.drop_first();
        lemma_find_first(d, p);
        assert(forall|j: int| 0 <= j < d.len() ==> #[trigger] d[j] == s[j + 1]);
        if find_first(d, p) == -1 {
            assert forall|j: int| 0 <= j < s.len() implies !p(#[trigger] s[j]) by {
                if j > 0 {
                    assert(d[j - 1] == s[j]);
                }
            }
        } else {
            let r = find_first(d, p);
            assert(s[r + 1] == d[r]);
            assert forall|j: int| 0 <= j < r + 1 implies !p(#[trigger] s[j]) by {
                if j > 0 {
                    assert(d[j - 1] == s[j]);
                }
            }
        }
        if exists|j: int| 0 <= j < s.len() && p(#[trigger] s[j]) {
            let j = choose|j: int| 0 <= j < s.len() && p(#[trigger] s[j]);
            assert(j > 0);
            assert(d[j - 1] == s[j]);
            assert(exists|k: int| 0 <= k < d.len() && p(#[trigger] d[k]));
        }
    }
}


/// Two sequences on which `p` agrees pointwise have the same first match.
pub proof fn lemma_find_first_congruence<A>(s1: Seq<A>, s2: Seq<A>, p: spec_fn(A) -> bool)
    requires
        s1.len() == s2.len(),
        forall|j: int| 0 <= j < s1.len() ==> p(#[trigger] s1[j]) == p(#[trigger] s2[j]),
    ensures
        find_first(s1, p) == find_first(s2, p),
    decreases s1.len(),
{
    if s1.len() != 0 {
        assert(forall|j: int|
            0 <= j < s1.drop_first().len() ==> #[trigger] s1.drop_first()[j] == s1[j + 1]);
        assert(forall|j: int|
            0 <= j < s2.drop_first().len() ==> #[trigger] s2.drop_first()[j] == s2[j + 1]);
        lemma_find_first_congruence(s1.drop_first(), s2.drop_first(), p);
    }
}

/// Matches a favorited manga row.
pub open spec fn favorite_pred() -> spec_fn(Manga) -> bool {
    |m: Manga| m.is_favorite
}

/// Matches a manga row by local id.
pub open spec fn manga_id_pred(id: i64) -> spec_fn(Manga) -> bool {
    |m: Manga| m.id == id
}

/// Matches a manga row by natural key.
pub open spec fn manga_key_pred(source_id: i64, path: Seq<char>) -> spec_fn(Manga) -> bool {
    |m: Manga| m.source_id == source_id && m.path@ == path
}

/// Matches a chapter row by local id.
pub open spec fn chapter_id_pred(id: i64) -> spec_fn(Chapter) -> bool {
    |c: Chapter| c.id == id
}

/// Matches a chapter row by natural key.
pub open spec fn chapter_key_pred(source_id: i64, path: Seq<char>) -> spec_fn(Chapter) -> bool {
    |c: Chapter| c.source_id == source_id && c.path@ == path
}

/// Matches a chapter row by owning manga and rank.
pub open spec fn chapter_rank_pred(manga_id: i64, rank: int) -> spec_fn(Chapter) -> bool {
    |c: Chapter| c.manga_id == manga_id && c.rank == rank
}

/// Matches a page row by local id.
pub open spec fn page_id_pred(id: i64) -> spec_fn(Page) -> bool {
    |p: Page| p.id == id
}

/// Matches a page row by natural key.
pub open spec fn page_key_pred(source_id: i64, url: Seq<char>) -> spec_fn(Page) -> bool {
    |p: Page| p.source_id == source_id && p.url@ == url
}

pub open spec fn manga_idx_by_id(s: Seq<Manga>, id: i64) -> int {
    find_first(s, manga_id_pred(id))
}

pub open spec fn manga_idx_by_key(s: Seq<Manga>, source_id: i64, path: Seq<char>) -> int {
    find_first(s, manga_key_pred(source_id, path))
}

pub open spec fn chapter_idx_by_id(s: Seq<Chapter>, id: i64) -> int {
    find_first(s, chapter_id_pred(id))
}

pub open spec fn chapter_idx_by_key(s: Seq<Chapter>, source_id: i64, path: Seq<char>) -> int {
    find_first(s, chapter_key_pred(source_id, path))
}

pub open spec fn chapter_idx_by_rank(s: Seq<Chapter>, manga_id: i64, rank: int) -> int {
    find_first(s, chapter_rank_pred(manga_id, rank))
}

pub open spec fn page_idx_by_id(s: Seq<Page>, id: i64) -> int {
    find_first(s, page_id_pred(id))
}

pub open spec fn page_idx_by_key(s: Seq<Page>, source_id: i64, url: Seq<char>) -> int {
    find_first(s, page_key_pred(source_id, url))
}

/// The relational store. Rows are held in insertion order, which is also the
/// order of their assigned ids; the `next_*` counters are the ids the next
/// inserts will take.
pub struct Db {
    pub mangas: Vec<Manga>,
    pub chapters: Vec<Chapter>,
    pub pages: Vec<Page>,
    pub next_manga_id: i64,
    pub next_chapter_id: i64,
    pub next_page_id: i64,
}

/// Every manga id was assigned below `next` and ids never repeat; natural
/// keys `(source_id, path)` never repeat.
pub open spec fn mangas_wf(s: Seq<Manga>, next: i64) -> bool {
    &&& forall|i: int| 0 <= i < s.len() ==> 1 <= (#[trigger] s[i]).id < next
    &&& forall|i: int, j: int|
        0 <= i < j < s.len() ==> (#[trigger] s[i]).id != (#[trigger] s[j]).id
    &&& forall|i: int, j: int|
        0 <= i < j < s.len() ==> !((#[trigger] s[i]).source_id == (#[trigger] s[j]).source_id
            && s[i].path@ == s[j].path@)
}

/// Chapter rows: ids and natural keys unique, and within one manga each rank
/// is strictly positive and taken at most once.
pub open spec fn chapters_wf(s: Seq<Chapter>, next: i64) -> bool {
    &&& forall|i: int| 0 <= i < s.len() ==> 1 <= (#[trigger] s[i]).id < next
    &&& forall|i: int| 0 <= i < s.len() ==> (#[trigger] s[i]).rank >= 1
    &&& forall|i: int, j: int|
        0 <= i < j < s.len() ==> (#[trigger] s[i]).id != (#[trigger] s[j]).id
    &&& forall|i: int, j: int|
        0 <= i < j < s.len() ==> !((#[trigger] s[i]).source_id == (#[trigger] s[j]).source_id
            && s[i].path@ == s[j].path@)
    &&& forall|i: int, j: int|
        0 <= i < j < s.len() ==> !((#[trigger] s[i]).manga_id == (#[trigger] s[j]).manga_id
            && s[i].rank == s[j].rank)
}

/// Page rows: ids and natural keys `(source_id, url)` unique.
pub open spec fn pages_wf(s: Seq<Page>, next: i64) -> bool {
    &&& forall|i: int| 0 <= i < s.len() ==> 1 <= (#[trigger] s[i]).id < next
    &&& forall|i: int, j: int|
        0 <= i < j < s.len() ==> (#[trigger] s[i]).id != (#[trigger] s[j]).id
    &&& forall|i: int, j: int|
        0 <= i < j < s.len() ==> !((#[trigger] s[i]).source_id == (#[trigger] s[j]).source_id
            && s[i].url@ == s[j].url@)
}

/// The manga row inserted for `m`: a fresh id, `date_added` stamped now, and
/// user state at its defaults — providers never supply it.
pub open spec fn new_manga_row(m: Manga, id: i64, now: i64) -> Manga {
    Manga { id, is_favorite: false, last_read_chapter: None, date_added: now, ..m }
}

/// The chapter row inserted for `c`: a fresh id, `date_added` stamped now,
/// `read_at` unset.
pub open spec fn new_chapter_row(c: Chapter, id: i64, now: i64) -> Chapter {
    Chapter { id, read_at: None, date_added: now, ..c }
}

/// The page row inserted for `p`: a fresh id, `date_added` stamped now,
/// `read_at` unset.
pub open spec fn new_page_row(p: Page, id: i64, now: i64) -> Page {
    Page { id, read_at: None, date_added: now, ..p }
}

/// A descriptive update of `row` from `m`: descriptive fields are taken from
/// `m` while `id`, `is_favorite`, `last_read_chapter` and `date_added` are
/// carried forward from the existing row.
pub open spec fn updated_manga_row(row: Manga, m: Manga) -> Manga {
    Manga {
        source_id: m.source_id,
        title: m.title,
        author: m.author,
        genre: m.genre,
        status: m.status,
        description: m.description,
        path: m.path,
        cover_url: m.cover_url,
        ..row
    }
}

impl Db {
    /// Identity and uniqueness invariants of the store.
    pub open spec fn inv(self) -> bool {
        &&& 1 <= self.next_manga_id
        &&& 1 <= self.next_chapter_id
        &&& 1 <= self.next_page_id
        &&& self.mangas@.len() < self.next_manga_id
        &&& self.chapters@.len() < self.next_chapter_id
        &&& self.pages@.len() < self.next_page_id
        &&& mangas_wf(self.mangas@, self.next_manga_id)
        &&& chapters_wf(self.chapters@, self.next_chapter_id)
        &&& pages_wf(self.pages@, self.next_page_id)
    }

    /// An empty store.
    pub fn new() -> (db: Db)
        ensures
            db.inv(),
            db.mangas@.len() == 0,
            db.chapters@.len() == 0,
            db.pages@.len() == 0,
    {
        Db {
            mangas: Vec::new(),
            chapters: Vec::new(),
            pages: Vec::new(),
            next_manga_id: 1,
            next_chapter_id: 1,
            next_page_id: 1,
        }
    }

    /// Looks a manga up by its local id.
    #[verifier::loop_isolation(false)]
    pub fn get_manga_by_id(&self, id: i64) -> (r: Option<Manga>)
        ensures
            ({
                let i = manga_idx_by_id(self.mangas@, id);
                if i >= 0 {
                    r == Some(self.mangas@[i])
                } else {
                    r is None
                }
            }),
    {
        let ghost p = manga_id_pred(id);
        proof {
            assert(forall|m: Manga| #[trigger] p(m) <==> m.id == id);
        }
        let mut j: usize = 0;
        while j < self.mangas.len()
            invariant
                j <= self.mangas@.len(),
                forall|k: int| 0 <= k < j ==> !p(#[trigger] self.mangas@[k]),
            decreases self.mangas@.len() - j,
        {
            if self.mangas[j].id == id {
                proof {
                    lemma_find_first(self.mangas@, p);
                }
                return Some(self.mangas[j].clone());
            }
            j += 1;
        }
        proof {
            lemma_find_first(self.mangas@, p);
        }
        None
    }

    /// Looks a manga up by its natural key.
    #[verifier::loop_isolation(false)]
    pub fn get_manga_by_source_path(&self, source_id: i64, path: &String) -> (r: Option<Manga>)
        ensures
            ({
                let i = manga_idx_by_key(self.mangas@, source_id, path@);
                if i >= 0 {
                    r == Some(self.mangas@[i])
                } else {
                    r is None
                }
            }),
    {
        let ghost p = manga_key_pred(source_id, path@);
        proof {
            assert(forall|m: Manga| #[trigger] p(m) <==> m.source_id == source_id && m.path@ == path@);
        }
        let mut j: usize = 0;
        while j < self.mangas.len()
            invariant
                j <= self.mangas@.len(),
                forall|k: int| 0 <= k < j ==> !p(#[trigger] self.mangas@[k]),
            decreases self.mangas@.len() - j,
        {
            if self.mangas[j].source_id == source_id && self.mangas[j].path == *path {
                proof {
                    lemma_find_first(self.mangas@, p);
                }
                return Some(self.mangas[j].clone());
            }
            j += 1;
        }
        proof {
            lemma_find_first(self.mangas@, p);
        }
        None
    }

    /// All favorited manga, in insertion order.
    #[verifier::loop_isolation(false)]
    pub fn get_library(&self) -> (r: Vec<Manga>)
        ensures
            r@ == self.mangas@.filter(favorite_pred()),
    {
        let ghost p = favorite_pred();
        proof {
            assert(forall|m: Manga| #[trigger] p(m) <==> m.is_favorite);
        }
        let mut out: Vec<Manga> = Vec::new();
        let mut j: usize = 0;
        while j < self.mangas.len()
            invariant
                j <= self.mangas@.len(),
                out@ == self.mangas@.take(j as int).filter(p),
            decreases self.mangas@.len() - j,
        {
            proof {
                reveal(Seq::filter);
                assert(self.mangas@.take(j + 1 as int).drop_last() =~= self.mangas@.take(j as int));
                assert(self.mangas@.take(j + 1 as int).last() == self.mangas@[j as int]);
            }
            if self.mangas[j].is_favorite {
                out.push(self.mangas[j].clone());
            }
            j += 1;
        }
        proof {
            assert(self.mangas@.take(self.mangas@.len() as int) =~= self.mangas@);
        }
        out
    }

    /// Inserts a manga row, assigning the next id and stamping `date_added`;
    /// refuses a natural key that is already taken.
    #[verifier::loop_isolation(false)]
    pub fn insert_manga(&mut self, manga: Manga, now: i64) -> (r: Result<i64, Error>)
        requires
            old(self).inv(),
            old(self).next_manga_id < i64::MAX,
        ensures
            final(self).inv(),
            ({
                let k = manga_idx_by_key(old(self).mangas@, manga.source_id, manga.path@);
                if k >= 0 {
                    r == Err::<i64, Error>(Error::ConflictOnInsert) && *final(self) == *old(self)
                } else {
                    &&& r == Ok::<i64, Error>(old(self).next_manga_id)
                    &&& final(self).mangas@ == old(self).mangas@.push(
                        new_manga_row(manga, old(self).next_manga_id, now),
                    )
                    &&& final(self).next_manga_id == old(self).next_manga_id + 1
                    &&& final(self).chapters@ == old(self).chapters@
                    &&& final(self).pages@ == old(self).pages@
                    &&& final(self).next_chapter_id == old(self).next_chapter_id
                    &&& final(self).next_page_id == old(self).next_page_id
                }
            }),
    {
        let ghost p = manga_key_pred(manga.source_id, manga.path@);
        proof {
            assert(forall|m: Manga| #[trigger] p(m) <==> m.source_id == manga.source_id && m.path@ == manga.path@);
        }
        let mut j: usize = 0;
        while j < self.mangas.len()
            invariant
                j <= self.mangas@.len(),
                forall|k: int| 0 <= k < j ==> !p(#[trigger] self.mangas@[k]),
            decreases self.mangas@.len() - j,
        {
            if self.mangas[j].source_id == manga.source_id && self.mangas[j].path == manga.path {
                proof {
                    lemma_find_first(self.mangas@, p);
                }
                return Err(Error::ConflictOnInsert);
            }
            j += 1;
        }
        proof {
            lemma_find_first(self.mangas@, p);
        }
        let id = self.next_manga_id;
        let row = Manga {
            id,
            is_favorite: false,
            last_read_chapter: None,
            date_added: now,
            ..manga
        };
        self.mangas.push(row);
        self.next_manga_id = id + 1;
        Ok(id)
    }

    /// Inserts a chapter row, assigning the next id and stamping
    /// `date_added`; refuses a natural key, or a `(manga_id, rank)` slot,
    /// that is already taken.
    #[verifier::loop_isolation(false)]
    pub fn insert_chapter(&mut self, chapter: Chapter, now: i64) -> (r: Result<i64, Error>)
        requires
            old(self).inv(),
            old(self).next_chapter_id < i64::MAX,
            chapter.rank >= 1,
        ensures
            final(self).inv(),
            ({
                let k = chapter_idx_by_key(old(self).chapters@, chapter.source_id, chapter.path@);
                let kr = chapter_idx_by_rank(
                    old(self).chapters@,
                    chapter.manga_id,
                    chapter.rank as int,
                );
                if k >= 0 || kr >= 0 {
                    r == Err::<i64, Error>(Error::ConflictOnInsert) && *final(self) == *old(self)
                } else {
                    &&& r == Ok::<i64, Error>(old(self).next_chapter_id)
                    &&& final(self).chapters@ == old(self).chapters@.push(
                        new_chapter_row(chapter, old(self).next_chapter_id, now),
                    )
                    &&& final(self).next_chapter_id == old(self).next_chapter_id + 1
                    &&& final(self).mangas@ == old(self).mangas@
                    &&& final(self).pages@ == old(self).pages@
                    &&& final(self).next_manga_id == old(self).next_manga_id
                    &&& final(self).next_page_id == old(self).next_page_id
                }
            }),
    {
        let ghost p = chapter_key_pred(chapter.source_id, chapter.path@);
        let ghost q = chapter_rank_pred(chapter.manga_id, chapter.rank as int);
        proof {
            assert(forall|c: Chapter| #[trigger] p(c) <==> c.source_id == chapter.source_id && c.path@ == chapter.path@);
            assert(forall|c: Chapter| #[trigger] q(c) <==> c.manga_id == chapter.manga_id && c.rank == chapter.rank);
        }
        let mut j: usize = 0;
        while j < self.chapters.len()
            invariant
                j <= self.chapters@.len(),
                forall|k: int| 0 <= k < j ==> !p(#[trigger] self.chapters@[k]),
                forall|k: int| 0 <= k < j ==> !q(#[trigger] self.chapters@[k]),
            decreases self.chapters@.len() - j,
        {
            if self.chapters[j].source_id == chapter.source_id && self.chapters[j].path
                == chapter.path {
                proof {
                    lemma_find_first(self.chapters@, p);
                }
                return Err(Error::ConflictOnInsert);
            }
            if self.chapters[j].manga_id == chapter.manga_id && self.chapters[j].rank
                == chapter.rank {
                proof {
                    lemma_find_first(self.chapters@, q);
                }
                return Err(Error::ConflictOnInsert);
            }
            j += 1;
        }
        proof {
            lemma_find_first(self.chapters@, p);
            lemma_find_first(self.chapters@, q);
        }
        let id = self.next_chapter_id;
        let row = Chapter { id, read_at: None, date_added: now, ..chapter };
        self.chapters.push(row);
        self.next_chapter_id = id + 1;
        Ok(id)
    }

    /// Inserts a page row, assigning the next id and stamping `date_added`;
    /// refuses a natural key that is already taken.
    #[verifier::loop_isolation(false)]
    pub fn insert_page(&mut self, page: Page, now: i64) -> (r: Result<i64, Error>)
        requires
            old(self).inv(),
            old(self).next_page_id < i64::MAX,
        ensures
            final(self).inv(),
            ({
                let k = page_idx_by_key(old(self).pages@, page.source_id, page.url@);
                if k >= 0 {
                    r == Err::<i64, Error>(Error::ConflictOnInsert) && *final(self) == *old(self)
                } else {
                    &&& r == Ok::<i64, Error>(old(self).next_page_id)
                    &&& final(self).pages@ == old(self).pages@.push(
                        new_page_row(page, old(self).next_page_id, now),
                    )
                    &&& final(self).next_page_id == old(self).next_page_id + 1
                    &&& final(self).mangas@ == old(self).mangas@
                    &&& final(self).chapters@ == old(self).chapters@
                    &&& final(self).next_manga_id == old(self).next_manga_id
                    &&& final(self).next_chapter_id == old(self).next_chapter_id
                }
            }),
    {
        let ghost p = page_key_pred(page.source_id, page.url@);
        proof {
            assert(forall|g: Page| #[trigger] p(g) <==> g.source_id == page.source_id && g.url@ == page.url@);
        }
        let mut j: usize = 0;
        while j < self.pages.len()
            invariant
                j <= self.pages@.len(),
                forall|k: int| 0 <= k < j ==> !p(#[trigger] self.pages@[k]),
            decreases self.pages@.len() - j,
        {
            if self.pages[j].source_id == page.source_id && self.pages[j].url == page.url {
                proof {
                    lemma_find_first(self.pages@, p);
                }
                return Err(Error::ConflictOnInsert);
            }
            j += 1;
        }
        proof {
            lemma_find_first(self.pages@, p);
        }
        let id = self.next_page_id;
        let row = Page { id, read_at: None, date_added: now, ..page };
        self.pages.push(row);
        self.next_page_id = id + 1;
        Ok(id)
    }

    /// Updates the descriptive fields of the row whose id is `manga.id`,
    /// carrying `id`, `is_favorite`, `last_read_chapter` and `date_added`
    /// forward from the stored row; reports how many rows changed. Refuses a
    /// natural key move onto a key another row holds.
    #[verifier::loop_isolation(false)]
    pub fn update_manga_info(&mut self, manga: Manga) -> (r: Result<u64, Error>)
        requires
            old(self).inv(),
        ensures
            final(self).inv(),
            ({
                let i = manga_idx_by_id(old(self).mangas@, manga.id);
                let clash = exists|j: int|
                    0 <= j < old(self).mangas@.len() && j != i && (#[trigger] old(
                        self,
                    ).mangas@[j]).source_id == manga.source_id && old(self).mangas@[j].path@
                        == manga.path@;
                if i < 0 {
                    r == Ok::<u64, Error>(0u64) && *final(self) == *old(self)
                } else if clash {
                    r == Err::<u64, Error>(Error::ConflictOnInsert) && *final(self) == *old(self)
                } else {
                    &&& r == Ok::<u64, Error>(1u64)
                    &&& final(self).mangas@ == old(self).mangas@.update(
                        i,
                        updated_manga_row(old(self).mangas@[i], manga),
                    )
                    &&& final(self).chapters@ == old(self).chapters@
                    &&& final(self).pages@ == old(self).pages@
                    &&& final(self).next_manga_id == old(self).next_manga_id
                    &&& final(self).next_chapter_id == old(self).next_chapter_id
                    &&& final(self).next_page_id == old(self).next_page_id
                }
            }),
    {
        let ghost p = manga_id_pred(manga.id);
        proof {
            assert(forall|m: Manga| #[trigger] p(m) <==> m.id == manga.id);
        }
        let mut j: usize = 0;
        let mut found: Option<usize> = None;
        while j < self.mangas.len()
            invariant
                j <= self.mangas@.len(),
                found is None ==> forall|k: int| 0 <= k < j ==> !p(#[trigger] self.mangas@[k]),
                found matches Some(f) ==> f < j && p(self.mangas@[f as int]) && forall|k: int|
                    0 <= k < f ==> !p(#[trigger] self.mangas@[k]),
            decreases self.mangas@.len() - j,
        {
            if found.is_none() && self.mangas[j].id == manga.id {
                found = Some(j);
            }
            j += 1;
        }
        proof {
            lemma_find_first(self.mangas@, p);
        }
        let i = match found {
            Some(i) => i,
            None => {
                return Ok(0);
            },
        };
        proof {
            assert(manga_idx_by_id(self.mangas@, manga.id) == i);
        }
        // refuse moving the natural key onto another row's key
        let mut k: usize = 0;
        while k < self.mangas.len()
            invariant
                k <= self.mangas@.len(),
                i < self.mangas@.len(),
                forall|t: int|
                    0 <= t < k && t != i ==> !((#[trigger] self.mangas@[t]).source_id
                        == manga.source_id && self.mangas@[t].path@ == manga.path@),
            decreases self.mangas@.len() - k,
        {
            if k != i && self.mangas[k].source_id == manga.source_id && self.mangas[k].path
                == manga.path {
                return Err(Error::ConflictOnInsert);
            }
            k += 1;
        }
        let row = &self.mangas[i];
        let new_row = Manga {
            id: row.id,
            source_id: manga.source_id,
            title: manga.title,
            author: manga.author,
            genre: manga.genre,
            status: manga.status,
            description: manga.description,
            path: manga.path,
            cover_url: manga.cover_url,
            is_favorite: row.is_favorite,
            last_read_chapter: row.last_read_chapter,
            date_added: row.date_added,
        };
        self.mangas.set(i, new_row);
        Ok(1)
    }

    /// Sets or clears the favorite mark of one manga; reports how many rows
    /// changed. Toggling to the value already held still counts the row, as
    /// an unconditional store update does.
    #[verifier::loop_isolation(false)]
    pub fn favorite_manga(&mut self, manga_id: i64, is_favorite: bool) -> (r: u64)
        requires
            old(self).inv(),
        ensures
            final(self).inv(),
            ({
                let i = manga_idx_by_id(old(self).mangas@, manga_id);
                if i < 0 {
                    r == 0u64 && *final(self) == *old(self)
                } else {
                    &&& r == 1u64
                    &&& final(self).mangas@ == old(self).mangas@.update(
                        i,
                        Manga { is_favorite, ..old(self).mangas@[i] },
                    )
                    &&& final(self).chapters@ == old(self).chapters@
                    &&& final(self).pages@ == old(self).pages@
                    &&& final(self).next_manga_id == old(self).next_manga_id
                    &&& final(self).next_chapter_id == old(self).next_chapter_id
                    &&& final(self).next_page_id == old(self).next_page_id
                }
            }),
    {
        let ghost p = manga_id_pred(manga_id);
        proof {
            assert(forall|m: Manga| #[trigger] p(m) <==> m.id == manga_id);
        }
        let mut j: usize = 0;
        while j < self.mangas.len()
            invariant
                j <= self.mangas@.len(),
                forall|k: int| 0 <= k < j ==> !p(#[trigger] self.mangas@[k]),
                self.inv(),
                *self == *old(self),
            decreases self.mangas@.len() - j,
        {
            if self.mangas[j].id == manga_id {
                proof {
                    lemma_find_first(self.mangas@, p);
                }
                let mut row = self.mangas[j].clone();
                row.is_favorite = is_favorite;
                self.mangas.set(j, row);
                return 1;
            }
            j += 1;
        }
        proof {
            lemma_find_first(self.mangas@, p);
        }
        0
    }

    /// Stamps `read_at` on one page with the present instant; reports how
    /// many rows changed.
    #[verifier::loop_isolation(false)]
    pub fn update_page_read_at(&mut self, page_id: i64, now: i64) -> (r: u64)
        requires
            old(self).inv(),
        ensures
            final(self).inv(),
            ({
                let i = page_idx_by_id(old(self).pages@, page_id);
                if i < 0 {
                    r == 0u64 && *final(self) == *old(self)
                } else {
                    &&& r == 1u64
                    &&& final(self).pages@ == old(self).pages@.update(
                        i,
                        Page { read_at: Some(now), ..old(self).pages@[i] },
                    )
                    &&& final(self).mangas@ == old(self).mangas@
                    &&& final(self).chapters@ == old(self).chapters@
                    &&& final(self).next_manga_id == old(self).next_manga_id
                    &&& final(self).next_chapter_id == old(self).next_chapter_id
                    &&& final(self).next_page_id == old(self).next_page_id
                }
            }),
    {
        let ghost p = page_id_pred(page_id);
        proof {
            assert(forall|g: Page| #[trigger] p(g) <==> g.id == page_id);
        }
        let mut j: usize = 0;
        while j < self.pages.len()
            invariant
                j <= self.pages@.len(),
                forall|k: int| 0 <= k < j ==> !p(#[trigger] self.pages@[k]),
                self.inv(),
                *self == *old(self),
            decreases self.pages@.len() - j,
        {
            if self.pages[j].id == page_id {
                proof {
                    lemma_find_first(self.pages@, p);
                }
                let mut row = self.pages[j].clone();
                row.read_at = Some(now);
                self.pages.set(j, row);
                return 1;
            }
            j += 1;
        }
        proof {
            lemma_find_first(self.pages@, p);
        }
        0
    }
}


/// A filter of a duplicate-free sequence is duplicate-free, and its elements
/// all come from the source.
pub proof fn lemma_filter_distinct<A>(s: Seq<A>, p: spec_fn(A) -> bool)
    requires
        forall|i: int, j: int| 0 <= i < j < s.len() ==> s[i] != s[j],
    ensures
        forall|i: int, j: int|
            0 <= i < j < s.filter(p).len() ==> s.filter(p)[i] != s.filter(p)[j],
        forall|i: int| 0 <= i < s.filter(p).len() ==> s.contains(#[trigger] s.filter(p)[i]),
    decreases s.len(),
{
    reveal(Seq::filter);
    if s.len() > 0 {
        let d = s.drop_last();
        assert(forall|i: int| 0 <= i < d.len() ==> #[trigger] d[i] == s[i]);
        lemma_filter_distinct(d, p);
        let out = s.filter(p);
        let sub = d.filter(p);
        assert forall|i: int| 0 <= i < out.len() implies s.contains(#[trigger] out[i]) by {
            if p(s.last()) && i == out.len() - 1 {
                assert(out[i] == s.last());
                assert(s[s.len() - 1] == s.last());
            } else {
                assert(out[i] == sub[i]);
                assert(d.contains(sub[i]));
                let k = choose|k: int| 0 <= k < d.len() && d[k] == sub[i];
                assert(s[k] == sub[i]);
            }
        }
        assert forall|i: int, j: int| 0 <= i < j < out.len() implies out[i] != out[j] by {
            if p(s.last()) && j == out.len() - 1 {
                assert(out[i] == sub[i]);
                assert(d.contains(sub[i]));
                let k = choose|k: int| 0 <= k < d.len() && d[k] == sub[i];
                assert(s[k] == out[i] && s[s.len() - 1] == out[j] && k < s.len() - 1);
            } else {
                assert(out[i] == sub[i] && out[j] == sub[j]);
            }
        }
    }
}

/// Orders chapter details by rank, ascending; used descending for listings.
pub open spec fn detail_rank_lt() -> spec_fn(ChapterDetail, ChapterDetail) -> bool {
    |a: ChapterDetail, b: ChapterDetail| a.chapter.rank < b.chapter.rank
}

/// The id of the chapter of the same manga ranked directly below `c`.
pub open spec fn prev_id_spec(s: Seq<Chapter>, c: Chapter) -> Option<i64> {
    let j = chapter_idx_by_rank(s, c.manga_id, c.rank - 1);
    if j >= 0 {
        Some(s[j].id)
    } else {
        None
    }
}

/// The id of the chapter of the same manga ranked directly above `c`.
pub open spec fn next_id_spec(s: Seq<Chapter>, c: Chapter) -> Option<i64> {
    let j = chapter_idx_by_rank(s, c.manga_id, c.rank + 1);
    if j >= 0 {
        Some(s[j].id)
    } else {
        None
    }
}

/// `c` joined with its computed neighbors.
pub open spec fn chapter_detail_spec(s: Seq<Chapter>, c: Chapter) -> ChapterDetail {
    ChapterDetail { chapter: c, prev: prev_id_spec(s, c), next: next_id_spec(s, c) }
}

impl Db {

    /// Rank-neighbor law: in a well-formed store, a chapter's `prev` is
    /// `Some(p)` exactly when a chapter of the same manga holds rank
    /// `c.rank - 1` — and then `p` is that chapter's id — and its `next`
    /// behaves the same way at rank `c.rank + 1`.
    pub proof fn lemma_rank_neighbors(self, c: Chapter)
        requires
            self.inv(),
        ensures
            ({
                let d = chapter_detail_spec(self.chapters@, c);
                &&& (d.prev is Some <==> exists|j: int|
                    0 <= j < self.chapters@.len() && (#[trigger] self.chapters@[j]).manga_id
                        == c.manga_id && self.chapters@[j].rank == c.rank - 1)
                &&& (d.next is Some <==> exists|j: int|
                    0 <= j < self.chapters@.len() && (#[trigger] self.chapters@[j]).manga_id
                        == c.manga_id && self.chapters@[j].rank == c.rank + 1)
                &&& forall|j: int|
                    0 <= j < self.chapters@.len() && (#[trigger] self.chapters@[j]).manga_id
                        == c.manga_id && self.chapters@[j].rank == c.rank - 1 ==> d.prev == Some(
                        self.chapters@[j].id,
                    )
                &&& forall|j: int|
                    0 <= j < self.chapters@.len() && (#[trigger] self.chapters@[j]).manga_id
                        == c.manga_id && self.chapters@[j].rank == c.rank + 1 ==> d.next == Some(
                        self.chapters@[j].id,
                    )
            }),
    {
        let s = self.chapters@;
        let p = chapter_rank_pred(c.manga_id, c.rank - 1);
        let q = chapter_rank_pred(c.manga_id, c.rank + 1);
        assert(forall|x: Chapter| #[trigger] p(x) <==> x.manga_id == c.manga_id && x.rank == c.rank
            - 1);
        assert(forall|x: Chapter| #[trigger] q(x) <==> x.manga_id == c.manga_id && x.rank == c.rank
            + 1);
        lemma_find_first(s, p);
        lemma_find_first(s, q);
        let kp = chapter_idx_by_rank(s, c.manga_id, c.rank - 1);
        let kq = chapter_idx_by_rank(s, c.manga_id, c.rank + 1);
        // the rank slot is unique, so any matching index is the found one
        assert forall|j: int|
            0 <= j < s.len() && (#[trigger] s[j]).manga_id == c.manga_id && s[j].rank == c.rank
                - 1 implies chapter_detail_spec(s, c).prev == Some(s[j].id) by {
            assert(kp >= 0);
            if j != kp {
                if j < kp {
                    assert(!((s[j]).manga_id == (s[kp]).manga_id && s[j].rank == s[kp].rank));
                } else {
                    assert(!((s[kp]).manga_id == (s[j]).manga_id && s[kp].rank == s[j].rank));
                }
                assert(false);
            }
        }
        assert forall|j: int|
            0 <= j < s.len() && (#[trigger] s[j]).manga_id == c.manga_id && s[j].rank == c.rank
                + 1 implies chapter_detail_spec(s, c).next == Some(s[j].id) by {
            assert(kq >= 0);
            if j != kq {
                if j < kq {
                    assert(!((s[j]).manga_id == (s[kq]).manga_id && s[j].rank == s[kq].rank));
                } else {
                    assert(!((s[kq]).manga_id == (s[j]).manga_id && s[kq].rank == s[j].rank));
                }
                assert(false);
            }
        }
    }

    /// The id of the chapter of `manga_id` holding exactly `rank`, if any.
    #[verifier::loop_isolation(false)]
    fn find_chapter_id_at_rank(&self, manga_id: i64, rank: i64) -> (r: Option<i64>)
        ensures
            ({
                let j = chapter_idx_by_rank(self.chapters@, manga_id, rank as int);
                if j >= 0 {
                    r == Some(self.chapters@[j].id)
                } else {
                    r is None
                }
            }),
    {
        let ghost q = chapter_rank_pred(manga_id, rank as int);
        proof {
            assert(forall|c: Chapter| #[trigger] q(c) <==> c.manga_id == manga_id && c.rank
                == rank);
        }
        let mut j: usize = 0;
        while j < self.chapters.len()
            invariant
                j <= self.chapters@.len(),
                forall|k: int| 0 <= k < j ==> !q(#[trigger] self.chapters@[k]),
            decreases self.chapters@.len() - j,
        {
            if self.chapters[j].manga_id == manga_id && self.chapters[j].rank == rank {
                proof {
                    lemma_find_first(self.chapters@, q);
                }
                return Some(self.chapters[j].id);
            }
            j += 1;
        }
        proof {
            lemma_find_first(self.chapters@, q);
        }
        None
    }

    /// Joins one chapter row with its computed rank neighbors.
    fn make_chapter_detail(&self, chapter: Chapter) -> (r: ChapterDetail)
        requires
            chapter.rank >= 1,
        ensures
            r == chapter_detail_spec(self.chapters@, chapter),
    {
        let prev = self.find_chapter_id_at_rank(chapter.manga_id, chapter.rank - 1);
        let next = if chapter.rank < i64::MAX {
            self.find_chapter_id_at_rank(chapter.manga_id, chapter.rank + 1)
        } else {
            proof {
                let q = chapter_rank_pred(chapter.manga_id, chapter.rank + 1);
                assert(forall|c: Chapter| #[trigger] q(c) <==> c.manga_id == chapter.manga_id
                    && c.rank == chapter.rank + 1);
                lemma_find_first(self.chapters@, q);
                assert(chapter_idx_by_rank(self.chapters@, chapter.manga_id, chapter.rank + 1)
                    == -1);
            }
            None
        };
        ChapterDetail { chapter, prev, next }
    }

    /// Looks a chapter up by its local id, with computed `prev`/`next`: the
    /// ids of the same manga's chapters at the ranks directly below and above.
    pub fn get_chapter_by_id(&self, id: i64) -> (r: Option<ChapterDetail>)
        requires
            self.inv(),
        ensures
            ({
                let i = chapter_idx_by_id(self.chapters@, id);
                if i >= 0 {
                    r == Some(chapter_detail_spec(self.chapters@, self.chapters@[i]))
                } else {
                    r is None
                }
            }),
    {
        let ghost p = chapter_id_pred(id);
        proof {
            assert(forall|c: Chapter| #[trigger] p(c) <==> c.id == id);
        }
        let mut j: usize = 0;
        #[verifier::loop_isolation(false)]
        while j < self.chapters.len()
            invariant
                j <= self.chapters@.len(),
                forall|k: int| 0 <= k < j ==> !p(#[trigger] self.chapters@[k]),
            decreases self.chapters@.len() - j,
        {
            if self.chapters[j].id == id {
                proof {
                    lemma_find_first(self.chapters@, p);
                }
                let c = self.chapters[j].clone();
                return Some(self.make_chapter_detail(c));
            }
            j += 1;
        }
        proof {
            lemma_find_first(self.chapters@, p);
        }
        None
    }

    /// Looks a chapter up by its natural key, with computed neighbors.
    pub fn get_chapter_by_source_path(&self, source_id: i64, path: &String) -> (r: Option<
        ChapterDetail,
    >)
        requires
            self.inv(),
        ensures
            ({
                let i = chapter_idx_by_key(self.chapters@, source_id, path@);
                if i >= 0 {
                    r == Some(chapter_detail_spec(self.chapters@, self.chapters@[i]))
                } else {
                    r is None
                }
            }),
    {
        let ghost p = chapter_key_pred(source_id, path@);
        proof {
            assert(forall|c: Chapter| #[trigger] p(c) <==> c.source_id == source_id && c.path@
                == path@);
        }
        let mut j: usize = 0;
        #[verifier::loop_isolation(false)]
        while j < self.chapters.len()
            invariant
                j <= self.chapters@.len(),
                forall|k: int| 0 <= k < j ==> !p(#[trigger] self.chapters@[k]),
            decreases self.chapters@.len() - j,
        {
            if self.chapters[j].source_id == source_id && self.chapters[j].path == *path {
                proof {
                    lemma_find_first(self.chapters@, p);
                }
                let c = self.chapters[j].clone();
                return Some(self.make_chapter_detail(c));
            }
            j += 1;
        }
        proof {
            lemma_find_first(self.chapters@, p);
        }
        None
    }

    /// Inserts `d` into a list ordered by rank descending, in front of the
    /// first detail ranked below it.
    #[verifier::loop_isolation(false)]
    fn insert_detail_desc(out: &mut Vec<ChapterDetail>, d: ChapterDetail)
        ensures
            final(out)@ == crate::sorting::insert_desc(old(out)@, d, detail_rank_lt()),
    {
        let ghost lt = detail_rank_lt();
        proof {
            assert(forall|a: ChapterDetail, b: ChapterDetail| #[trigger] lt(a, b) <==> a.chapter.rank
                < b.chapter.rank);
        }
        let mut pos: usize = 0;
        while pos < out.len() && !(out[pos].chapter.rank < d.chapter.rank)
            invariant
                pos <= out@.len(),
                forall|k: int| 0 <= k < pos ==> !lt(#[trigger] out@[k], d),
            decreases out@.len() - pos,
        {
            pos += 1;
        }
        proof {
            crate::sorting::lemma_insert_desc_at(out@, d, lt, pos as int);
        }
        out.insert(pos, d);
        proof {
            assert(final(out)@ =~= crate::sorting::insert_desc(old(out)@, d, lt));
        }
    }

    /// All chapters of one manga, ordered by rank descending, each with its
    /// computed neighbors; an unknown or chapterless manga is `NotFound`.
    #[verifier::loop_isolation(false)]
    pub fn get_chapters_by_manga_id(&self, manga_id: i64) -> (r: Result<Vec<ChapterDetail>, Error>)
        requires
            self.inv(),
        ensures
            ({
                let rows = self.chapters@.filter(|c: Chapter| c.manga_id == manga_id);
                if rows.len() == 0 {
                    r == Err::<Vec<ChapterDetail>, Error>(Error::NotFound)
                } else {
                    &&& r is Ok
                    &&& r->Ok_0@ == crate::sorting::sort_desc(
                        rows.map_values(|c: Chapter| chapter_detail_spec(self.chapters@, c)),
                        detail_rank_lt(),
                    )
                }
            }),
    {
        let ghost p = |c: Chapter| c.manga_id == manga_id;
        let ghost f = |c: Chapter| chapter_detail_spec(self.chapters@, c);
        let ghost lt = detail_rank_lt();
        proof {
            assert(forall|c: Chapter| #[trigger] p(c) <==> c.manga_id == manga_id);
            reveal(Seq::filter);
        }
        let mut out: Vec<ChapterDetail> = Vec::new();
        let mut j: usize = 0;
        while j < self.chapters.len()
            invariant
                j <= self.chapters@.len(),
                out@ == crate::sorting::sort_desc(
                    self.chapters@.take(j as int).filter(p).map_values(f),
                    lt,
                ),
            decreases self.chapters@.len() - j,
        {
            proof {
                assert(self.chapters@.take(j + 1 as int).drop_last() =~= self.chapters@.take(
                    j as int,
                ));
                assert(self.chapters@.take(j + 1 as int).last() == self.chapters@[j as int]);
            }
            if self.chapters[j].manga_id == manga_id {
                let c = self.chapters[j].clone();
                let d = self.make_chapter_detail(c);
                Self::insert_detail_desc(&mut out, d);
                proof {
                    let pf = self.chapters@.take(j as int).filter(p);
                    assert(self.chapters@.take(j + 1 as int).filter(p) =~= pf.push(
                        self.chapters@[j as int],
                    ));
                    assert(pf.push(self.chapters@[j as int]).map_values(f) =~= pf.map_values(
                        f,
                    ).push(f(self.chapters@[j as int])));
                    assert(pf.map_values(f).push(f(self.chapters@[j as int])).drop_last() =~= pf
                        .map_values(f));
                }
            } else {
                proof {
                    assert(self.chapters@.take(j + 1 as int).filter(p) =~= self.chapters@.take(
                        j as int,
                    ).filter(p));
                }
            }
            j += 1;
        }
        proof {
            assert(self.chapters@.take(self.chapters@.len() as int) =~= self.chapters@);
        }
        if out.len() == 0 {
            proof {
                self.lemma_manga_chapters_comparable(manga_id);
                let rows = self.chapters@.filter(p);
                crate::sorting::lemma_sort_desc_properties(rows.map_values(f), lt);
                assert(rows.map_values(f).len() == rows.len());
            }
            return Err(Error::NotFound);
        }
        proof {
            self.lemma_manga_chapters_comparable(manga_id);
        }
        Ok(out)
    }


    /// Under the store invariant, the rank-ordered details of one manga's
    /// chapters compare pairwise: ranks within a manga never repeat.
    proof fn lemma_manga_chapters_comparable(self, manga_id: i64)
        requires
            self.inv(),
        ensures
            ({
                let rows = self.chapters@.filter(|c: Chapter| c.manga_id == manga_id);
                let details = rows.map_values(
                    |c: Chapter| chapter_detail_spec(self.chapters@, c),
                );
                crate::sorting::pairwise_comparable(details, detail_rank_lt())
            }),
    {
        let p = |c: Chapter| c.manga_id == manga_id;
        let f = |c: Chapter| chapter_detail_spec(self.chapters@, c);
        let lt = detail_rank_lt();
        let rows = self.chapters@.filter(p);
        let details = rows.map_values(f);
        assert(forall|i: int, j: int|
            0 <= i < j < self.chapters@.len() ==> self.chapters@[i] != self.chapters@[j]) by {
            assert(forall|i: int, j: int|
                0 <= i < j < self.chapters@.len() ==> (#[trigger] self.chapters@[i]).id != (
                #[trigger] self.chapters@[j]).id);
        }
        lemma_filter_distinct(self.chapters@, p);
        assert forall|i: int, j: int|
            0 <= i < details.len() && 0 <= j < details.len() && i != j implies lt(
            #[trigger] details[i],
            #[trigger] details[j],
        ) || lt(details[j], details[i]) by {
            assert(details[i] == f(rows[i]) && details[j] == f(rows[j]));
            self.chapters@.lemma_filter_pred(p, i);
            self.chapters@.lemma_filter_pred(p, j);
            if rows[i].rank == rows[j].rank {
                if i < j {
                    assert(rows[i] != rows[j]);
                } else {
                    assert(rows[j] != rows[i]);
                }
                assert(self.chapters@.contains(rows[i]));
                assert(self.chapters@.contains(rows[j]));
                let a = choose|a: int| 0 <= a < self.chapters@.len() && self.chapters@[a]
                    == rows[i];
                let b = choose|b: int| 0 <= b < self.chapters@.len() && self.chapters@[b]
                    == rows[j];
                assert(a != b);
                assert(false);
            }
        }
    }

    /// All pages of one chapter, in insertion order; an unknown or empty
    /// chapter is `NotFound`.
    #[verifier::loop_isolation(false)]
    pub fn get_pages_by_chapter_id(&self, chapter_id: i64) -> (r: Result<Vec<Page>, Error>)
        ensures
            ({
                let rows = self.pages@.filter(|g: Page| g.chapter_id == chapter_id);
                if rows.len() == 0 {
                    r == Err::<Vec<Page>, Error>(Error::NotFound)
                } else {
                    r is Ok && r->Ok_0@ == rows
                }
            }),
    {
        let ghost p = |g: Page| g.chapter_id == chapter_id;
        proof {
            assert(forall|g: Page| #[trigger] p(g) <==> g.chapter_id == chapter_id);
            reveal(Seq::filter);
        }
        let mut out: Vec<Page> = Vec::new();
        let mut j: usize = 0;
        while j < self.pages.len()
            invariant
                j <= self.pages@.len(),
                out@ == self.pages@.take(j as int).filter(p),
            decreases self.pages@.len() - j,
        {
            proof {
                assert(self.pages@.take(j + 1 as int).drop_last() =~= self.pages@.take(j as int));
                assert(self.pages@.take(j + 1 as int).last() == self.pages@[j as int]);
            }
            if self.pages[j].chapter_id == chapter_id {
                out.push(self.pages[j].clone());
            }
            j += 1;
        }
        proof {
            assert(self.pages@.take(self.pages@.len() as int) =~= self.pages@);
        }
        if out.len() == 0 {
            return Err(Error::NotFound);
        }
        Ok(out)
    }

    /// Looks a page up by its natural key.
    #[verifier::loop_isolation(false)]
    pub fn get_page_by_source_url(&self, source_id: i64, url: &String) -> (r: Option<Page>)
        ensures
            ({
                let i = page_idx_by_key(self.pages@, source_id, url@);
                if i >= 0 {
                    r == Some(self.pages@[i])
                } else {
                    r is None
                }
            }),
    {
        let ghost p = page_key_pred(source_id, url@);
        proof {
            assert(forall|g: Page| #[trigger] p(g) <==> g.source_id == source_id && g.url@
                == url@);
        }
        let mut j: usize = 0;
        while j < self.pages.len()
            invariant
                j <= self.pages@.len(),
                forall|k: int| 0 <= k < j ==> !p(#[trigger] self.pages@[k]),
            decreases self.pages@.len() - j,
        {
            if self.pages[j].source_id == source_id && self.pages[j].url == *url {
                proof {
                    lemma_find_first(self.pages@, p);
                }
                return Some(self.pages[j].clone());
            }
            j += 1;
        }
        proof {
            lemma_find_first(self.pages@, p);
        }
        None
    }
}


} // verus!
