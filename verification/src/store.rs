//! Persisted link rows, keyed by article, and the operations the
//! enrichment subsystem performs on them.
//!
//! A [`Link`] is one row per (article, URL) pair. Within one article the
//! URLs are unique, every row id is unique, and a row that is no longer
//! pending always carries a title, a body and a language; [`StoreModel::wf`]
//! states these invariants and every operation preserves them.

use vstd::prelude::*;

verus! {

/// One persisted row of the links table.
///
/// `title`, `body`, `language` and `screenshot` are populated only after a
/// successful enrichment; `pending` starts `true` on insert and is set
/// `false` only when an enrichment is persisted.
pub struct Link {
    pub id: i32,
    pub article_id: i32,
    pub user_id: i32,
    pub url: String,
    pub title: Option<String>,
    pub body: Option<String>,
    pub language: Option<String>,
    pub screenshot: Option<Vec<u8>>,
    pub pending: bool,
}

/// Mathematical model of a [`Link`] row.
pub struct LinkModel {
    pub id: int,
    pub article_id: int,
    pub user_id: int,
    pub url: Seq<char>,
    pub title: Option<Seq<char>>,
    pub body: Option<Seq<char>>,
    pub language: Option<Seq<char>>,
    pub screenshot: Option<Seq<u8>>,
    pub pending: bool,
}

impl View for Link {
    type V = LinkModel;

    open spec fn view(&self) -> LinkModel {
        LinkModel {
            id: self.id as int,
            article_id: self.article_id as int,
            user_id: self.user_id as int,
            url: self.url@,
            title: match self.title {
                Some(t) => Some(t@),
                None => None,
            },
            body: match self.body {
                Some(b) => Some(b@),
                None => None,
            },
            language: match self.language {
                Some(l) => Some(l@),
                None => None,
            },
            screenshot: match self.screenshot {
                Some(s) => Some(s@),
                None => None,
            },
            pending: self.pending,
        }
    }
}

/// A pending row as handed to the worker: row id and URL only.
pub struct LinkUrl {
    pub id: i32,
    pub url: String,
}

/// Mathematical model of a [`LinkUrl`].
pub struct LinkUrlModel {
    pub id: int,
    pub url: Seq<char>,
}

impl View for LinkUrl {
    type V = LinkUrlModel;

    open spec fn view(&self) -> LinkUrlModel {
        LinkUrlModel { id: self.id as int, url: self.url@ }
    }
}

/// A freshly inserted row: pending, with no enrichment data yet.
pub open spec fn new_link_model(id: int, article: int, user: int, url: Seq<char>) -> LinkModel {
    LinkModel {
        id: id,
        article_id: article,
        user_id: user,
        url: url,
        title: None,
        body: None,
        language: None,
        screenshot: None,
        pending: true,
    }
}

/// The same row after a successful enrichment was persisted.
pub open spec fn enriched_model(
    r: LinkModel,
    title: Seq<char>,
    body: Seq<char>,
    language: Seq<char>,
    screenshot: Seq<u8>,
) -> LinkModel {
    LinkModel {
        id: r.id,
        article_id: r.article_id,
        user_id: r.user_id,
        url: r.url,
        title: Some(title),
        body: Some(body),
        language: Some(language),
        screenshot: Some(screenshot),
        pending: false,
    }
}

/// A row that is not pending carries title, body and language.
pub open spec fn row_enriched_wf(r: LinkModel) -> bool {
    !r.pending ==> r.title is Some && r.body is Some && r.language is Some
}

/// Well-formedness of a row sequence: unique ids below `next_id`, unique
/// URLs within each article, and the pending invariant on every row.
pub open spec fn rows_wf(rows: Seq<LinkModel>, next_id: int) -> bool {
    &&& forall|i: int, j: int|
        0 <= i < j < rows.len() ==> (#[trigger] rows[i]).id != (#[trigger] rows[j]).id
    &&& forall|i: int, j: int|
        0 <= i < j < rows.len() && (#[trigger] rows[i]).article_id == (#[trigger] rows[j]).article_id
            ==> rows[i].url != rows[j].url
    &&& forall|i: int| 0 <= i < rows.len() ==> (#[trigger] rows[i].id) < next_id
    &&& forall|i: int| 0 <= i < rows.len() ==> row_enriched_wf(#[trigger] rows[i])
}

/// Rows of exactly this article.
pub open spec fn arow_pred(article: int) -> spec_fn(LinkModel) -> bool {
    |r: LinkModel| r.article_id == article
}

/// Pending rows of exactly this article.
pub open spec fn pending_pred(article: int) -> spec_fn(LinkModel) -> bool {
    |r: LinkModel| r.article_id == article && r.pending
}

/// The URL of a row.
pub open spec fn url_of() -> spec_fn(LinkModel) -> Seq<char> {
    |r: LinkModel| r.url
}

/// The (id, URL) pair of a row.
pub open spec fn link_url_of() -> spec_fn(LinkModel) -> LinkUrlModel {
    |r: LinkModel| LinkUrlModel { id: r.id, url: r.url }
}

/// The view of a string.
pub open spec fn str_view() -> spec_fn(String) -> Seq<char> {
    |s: String| s@
}

/// Keep every row that does not pair `article` with URL `u`.
pub open spec fn keep_other(article: int, u: Seq<char>) -> spec_fn(LinkModel) -> bool {
    |r: LinkModel| !(r.article_id == article && r.url == u)
}

/// Keep the rows of other articles, and the rows of `article` whose URL
/// is still desired.
pub open spec fn keep_desired(article: int, desired: Set<Seq<char>>) -> spec_fn(
    LinkModel,
) -> bool {
    |r: LinkModel| r.article_id != article || desired.contains(r.url)
}

/// Some row of `article` in `rows` holds URL `u`.
pub open spec fn rows_has_url(rows: Seq<LinkModel>, article: int, u: Seq<char>) -> bool {
    exists|i: int|
        0 <= i < rows.len() && (#[trigger] rows[i]).article_id == article && rows[i].url == u
}

/// Mathematical model of the whole store.
pub struct StoreModel {
    pub rows: Seq<LinkModel>,
    pub next_id: int,
}

impl StoreModel {
    pub open spec fn wf(self) -> bool {
        rows_wf(self.rows, self.next_id)
    }

    /// Some row of `article` holds URL `u`.
    pub open spec fn has_url(self, article: int, u: Seq<char>) -> bool {
        rows_has_url(self.rows, article, u)
    }

    /// The set of URLs stored for `article`.
    pub open spec fn urls(self, article: int) -> Set<Seq<char>> {
        Set::new(|u: Seq<char>| self.has_url(article, u))
    }

    /// The rows of `article`, in row order.
    pub open spec fn article_rows(self, article: int) -> Seq<LinkModel> {
        self.rows.filter(arow_pred(article))
    }

    /// The URLs stored for `article`, in row order.
    pub open spec fn urls_seq(self, article: int) -> Seq<Seq<char>> {
        self.article_rows(article).map_values(url_of())
    }

    /// The pending rows of `article`, in row order, as (id, URL) pairs.
    pub open spec fn pending_rows(self, article: int) -> Seq<LinkUrlModel> {
        self.rows.filter(pending_pred(article)).map_values(link_url_of())
    }

    /// The articles that still have at least one pending row.
    pub open spec fn pending_articles(self) -> Set<int> {
        Set::new(
            |a: int|
                exists|i: int|
                    0 <= i < self.rows.len() && (#[trigger] self.rows[i]).article_id == a
                        && self.rows[i].pending,
        )
    }
}

/// The in-memory image of the links table that the subsystem reconciles
/// and enriches.
pub struct LinkStore {
    rows: Vec<Link>,
    next_id: i32,
}

impl View for LinkStore {
    type V = StoreModel;

    closed spec fn view(&self) -> StoreModel {
        StoreModel { rows: self.rows@.map_values(|l: Link| l@), next_id: self.next_id as int }
    }
}

impl LinkStore {
    pub open spec fn wf(&self) -> bool {
        self@.wf()
    }

    pub fn new() -> (s: Self)
        ensures
            s@.rows =~= Seq::<LinkModel>::empty(),
            s@.next_id == 0,
            s.wf(),
    {
        let s = LinkStore { rows: Vec::new(), next_id: 0 };
        proof {
            assert(s@.rows =~= Seq::<LinkModel>::empty());
        }
        s
    }

    /// The rows as stored, for inspection; the model is their view.
    pub fn rows(&self) -> (r: &Vec<Link>)
        ensures
            r@.map_values(|l: Link| l@) == self@.rows,
    {
        &self.rows
    }

    /// The id the next inserted row will get.
    pub fn next_id(&self) -> (n: i32)
        ensures
            n as int == self@.next_id,
    {
        self.next_id
    }

    /// Whether `article` already stores `url`.
    pub fn has_url(&self, article: i32, url: &String) -> (r: bool)
        ensures
            r == self@.has_url(article as int, url@),
    {
        let mut i: usize = 0;
        while i < self.rows.len()
            invariant
                0 <= i <= self.rows.len(),
                forall|k: int|
                    0 <= k < i ==> !((#[trigger] self@.rows[k]).article_id == article as int
                        && self@.rows[k].url == url@),
            decreases self.rows.len() - i,
        {
            if self.rows[i].article_id == article && self.rows[i].url == *url {
                proof {
                    assert(self@.rows[i as int].article_id == article as int
                        && self@.rows[i as int].url == url@);
                }
                return true;
            }
            i += 1;
        }
        false
    }

    /// Insert a fresh pending row for (`article`, `url`).
    pub fn insert_link(&mut self, article: i32, user: i32, url: String)
        requires
            old(self).wf(),
            !old(self)@.has_url(article as int, url@),
            old(self)@.next_id < i32::MAX as int,
        ensures
            final(self).wf(),
            final(self)@.rows =~= old(self)@.rows.push(
                new_link_model(old(self)@.next_id, article as int, user as int, url@),
            ),
            final(self)@.next_id == old(self)@.next_id + 1,
    {
        let ghost m = new_link_model(self.next_id as int, article as int, user as int, url@);
        let link = Link {
            id: self.next_id,
            article_id: article,
            user_id: user,
            url: url,
            title: None,
            body: None,
            language: None,
            screenshot: None,
            pending: true,
        };
        self.next_id = self.next_id + 1;
        self.rows.push(link);
        proof {
            assert(self@.rows =~= old(self)@.rows.push(m));
        }
    }

    /// Delete the row of (`article`, `url`), if any.
    pub fn delete_link(&mut self, article: i32, url: &String)
        requires
            old(self).wf(),
        ensures
            final(self).wf(),
            final(self)@.next_id == old(self)@.next_id,
            final(self)@.rows =~= old(self)@.rows.filter(keep_other(article as int, url@)),
    {
        let ghost keep = keep_other(article as int, url@);
        let ghost rows0 = self@.rows;
        let mut i: usize = 0;
        let ghost mut k: int = 0;
        while i < self.rows.len()
            invariant
                old(self).wf(),
                self@.next_id == old(self)@.next_id,
                0 <= k <= rows0.len(),
                i as int == rows0.subrange(0, k).filter(keep).len(),
                self@.rows =~= rows0.subrange(0, k).filter(keep) + rows0.subrange(
                    k,
                    rows0.len() as int,
                ),
                rows0 == old(self)@.rows,
                keep == keep_other(article as int, url@),
            decreases rows0.len() - k,
        {
            proof {
                assert(self@.rows[i as int] == rows0[k]);
                assert(rows0.subrange(0, k + 1) =~= rows0.subrange(0, k).push(rows0[k]));
                lemma_filter_push(rows0.subrange(0, k), rows0[k], keep);
            }
            let ghost prev = self@.rows;
            if self.rows[i].article_id == article && self.rows[i].url == *url {
                self.rows.remove(i);
                proof {
                    assert(!keep(rows0[k]));
                    assert(self@.rows =~= prev.remove(i as int));
                    assert(prev.remove(i as int) =~= rows0.subrange(0, k + 1).filter(keep)
                        + rows0.subrange(k + 1, rows0.len() as int));
                }
            } else {
                proof {
                    assert(keep(rows0[k]));
                    assert(rows0.subrange(k, rows0.len() as int) =~= seq![rows0[k]]
                        + rows0.subrange(k + 1, rows0.len() as int));
                    assert(self@.rows =~= rows0.subrange(0, k + 1).filter(keep) + rows0.subrange(
                        k + 1,
                        rows0.len() as int,
                    ));
                }
                i += 1;
            }
            proof {
                k = k + 1;
            }
        }
        proof {
            assert(rows0.subrange(0, rows0.len() as int) =~= rows0);
            assert(rows0.subrange(rows0.len() as int, rows0.len() as int)
                =~= Seq::<LinkModel>::empty());
            assert(final(self)@.rows =~= rows0.filter(keep));
            lemma_rows_wf_filter(rows0, old(self)@.next_id, keep);
        }
    }

    /// Delete every row of `article` whose URL is not in `desired`.
    pub fn retain_desired(&mut self, article: i32, desired: &Vec<String>)
        requires
            old(self).wf(),
        ensures
            final(self).wf(),
            final(self)@.next_id == old(self)@.next_id,
            final(self)@.rows =~= old(self)@.rows.filter(
                keep_desired(article as int, desired@.map_values(str_view()).to_set()),
            ),
    {
        let ghost keep = keep_desired(article as int, desired@.map_values(str_view()).to_set());
        let ghost rows0 = self@.rows;
        let mut i: usize = 0;
        let ghost mut k: int = 0;
        while i < self.rows.len()
            invariant
                old(self).wf(),
                self@.next_id == old(self)@.next_id,
                0 <= k <= rows0.len(),
                i as int == rows0.subrange(0, k).filter(keep).len(),
                self@.rows =~= rows0.subrange(0, k).filter(keep) + rows0.subrange(
                    k,
                    rows0.len() as int,
                ),
                rows0 == old(self)@.rows,
                keep == keep_desired(article as int, desired@.map_values(str_view()).to_set()),
            decreases rows0.len() - k,
        {
            proof {
                assert(self@.rows[i as int] == rows0[k]);
                assert(rows0.subrange(0, k + 1) =~= rows0.subrange(0, k).push(rows0[k]));
                lemma_filter_push(rows0.subrange(0, k), rows0[k], keep);
            }
            let drop = self.rows[i].article_id == article && !contains_string(
                desired,
                &self.rows[i].url,
            );
            let ghost prev = self@.rows;
            if drop {
                proof {
                    assert(!keep(rows0[k]));
                }
                self.rows.remove(i);
                proof {
                    assert(self@.rows =~= prev.remove(i as int));
                    assert(prev.remove(i as int) =~= rows0.subrange(0, k + 1).filter(keep)
                        + rows0.subrange(k + 1, rows0.len() as int));
                }
            } else {
                proof {
                    assert(keep(rows0[k]));
                    assert(rows0.subrange(k, rows0.len() as int) =~= seq![rows0[k]]
                        + rows0.subrange(k + 1, rows0.len() as int));
                    assert(self@.rows =~= rows0.subrange(0, k + 1).filter(keep) + rows0.subrange(
                        k + 1,
                        rows0.len() as int,
                    ));
                }
                i += 1;
            }
            proof {
                k = k + 1;
            }
        }
        proof {
            assert(rows0.subrange(0, rows0.len() as int) =~= rows0);
            assert(final(self)@.rows =~= rows0.filter(keep));
            lemma_rows_wf_filter(rows0, old(self)@.next_id, keep);
        }
    }

    /// All URLs stored for `article`, in row order.
    pub fn list_urls(&self, article: i32) -> (urls: Vec<String>)
        ensures
            urls@.map_values(str_view()) =~= self@.urls_seq(article as int),
    {
        let mut urls: Vec<String> = Vec::new();
        let mut i: usize = 0;
        while i < self.rows.len()
            invariant
                i <= self.rows.len(),
                urls@.map_values(str_view()) =~= self@.rows.subrange(0, i as int).filter(
                    arow_pred(article as int),
                ).map_values(url_of()),
            decreases self.rows.len() - i,
        {
            let ghost prefix = self@.rows.subrange(0, i as int);
            let ghost urls0 = urls@;
            if self.rows[i].article_id == article {
                urls.push(self.rows[i].url.clone());
                proof {
                    assert(urls@ =~= urls0.push(urls@[urls0.len() as int]));
                    assert(urls@.map_values(str_view()) =~= urls0.map_values(str_view()).push(
                        self@.rows[i as int].url,
                    ));
                }
            }
            proof {
                assert(self@.rows.subrange(0, i as int + 1) =~= prefix.push(
                    self@.rows[i as int],
                ));
                lemma_filter_push(prefix, self@.rows[i as int], arow_pred(article as int));
                assert(urls@.map_values(str_view()) =~= self@.rows.subrange(0, i as int + 1)
                    .filter(arow_pred(article as int)).map_values(url_of()));
            }
            i += 1;
        }
        proof {
            assert(self@.rows.subrange(0, self@.rows.len() as int) =~= self@.rows);
        }
        urls
    }

    /// The pending rows of `article`, as (row id, URL) pairs in row order.
    pub fn get_link_urls(&self, article: i32) -> (links: Vec<LinkUrl>)
        ensures
            links@.map_values(|l: LinkUrl| l@) =~= self@.pending_rows(article as int),
    {
        let mut links: Vec<LinkUrl> = Vec::new();
        let mut i: usize = 0;
        while i < self.rows.len()
            invariant
                i <= self.rows.len(),
                links@.map_values(|l: LinkUrl| l@) =~= self@.rows.subrange(0, i as int).filter(
                    pending_pred(article as int),
                ).map_values(link_url_of()),
            decreases self.rows.len() - i,
        {
            let ghost prefix = self@.rows.subrange(0, i as int);
            let ghost links0 = links@;
            if self.rows[i].article_id == article && self.rows[i].pending {
                links.push(LinkUrl { id: self.rows[i].id, url: self.rows[i].url.clone() });
                proof {
                    assert(links@ =~= links0.push(links@[links0.len() as int]));
                    assert(links@.map_values(|l: LinkUrl| l@) =~= links0.map_values(
                        |l: LinkUrl| l@,
                    ).push(link_url_of()(self@.rows[i as int])));
                }
            }
            proof {
                assert(self@.rows.subrange(0, i as int + 1) =~= prefix.push(
                    self@.rows[i as int],
                ));
                lemma_filter_push(prefix, self@.rows[i as int], pending_pred(article as int));
                assert(links@.map_values(|l: LinkUrl| l@) =~= self@.rows.subrange(0, i as int + 1)
                    .filter(pending_pred(article as int)).map_values(link_url_of()));
            }
            i += 1;
        }
        proof {
            assert(self@.rows.subrange(0, self@.rows.len() as int) =~= self@.rows);
        }
        links
    }

    /// The distinct articles that still have pending rows.
    pub fn get_fresh_links(&self) -> (ids: Vec<i32>)
        ensures
            ids@.no_duplicates(),
            forall|a: i32| ids@.contains(a) <==> self@.pending_articles().contains(a as int),
    {
        let mut ids: Vec<i32> = Vec::new();
        let mut i: usize = 0;
        while i < self.rows.len()
            invariant
                i <= self.rows.len(),
                ids@.no_duplicates(),
                forall|a: i32|
                    ids@.contains(a) <==> exists|j: int|
                        0 <= j < i && (#[trigger] self@.rows[j]).article_id == a as int
                            && self@.rows[j].pending,
            decreases self.rows.len() - i,
        {
            if self.rows[i].pending && !contains_id(&ids, self.rows[i].article_id) {
                let ghost ids0 = ids@;
                ids.push(self.rows[i].article_id);
                proof {
                    assert forall|a: i32| ids@.contains(a) implies exists|j: int|
                        0 <= j < i + 1 && (#[trigger] self@.rows[j]).article_id == a as int
                            && self@.rows[j].pending by {
                        let w = choose|w: int| 0 <= w < ids@.len() && ids@[w] == a;
                        if w < ids0.len() {
                            assert(ids0.contains(a));
                        } else {
                            assert(self@.rows[i as int].article_id == a as int);
                        }
                    }
                    assert forall|a: i32|
                        (exists|j: int|
                            0 <= j < i + 1 && (#[trigger] self@.rows[j]).article_id == a as int
                                && self@.rows[j].pending) implies ids@.contains(a) by {
                        let j = choose|j: int|
                            0 <= j < i + 1 && (#[trigger] self@.rows[j]).article_id == a as int
                                && self@.rows[j].pending;
                        if j < i {
                            assert(ids0.contains(a));
                            let w = choose|w: int| 0 <= w < ids0.len() && ids0[w] == a;
                            assert(ids@[w] == a);
                        } else {
                            assert(ids@[ids0.len() as int] == a);
                        }
                    }
                }
            } else {
                proof {
                    if self@.rows[i as int].pending {
                        assert(ids@.contains(self@.rows[i as int].article_id as i32));
                    }
                    assert forall|a: i32|
                        (exists|j: int|
                            0 <= j < i + 1 && (#[trigger] self@.rows[j]).article_id == a as int
                                && self@.rows[j].pending) implies ids@.contains(a) by {
                        let j = choose|j: int|
                            0 <= j < i + 1 && (#[trigger] self@.rows[j]).article_id == a as int
                                && self@.rows[j].pending;
                        if j == i {
                            assert(a as int == self@.rows[i as int].article_id);
                            assert(a == self@.rows[i as int].article_id as i32);
                        }
                    }
                }
            }
            i += 1;
        }
        ids
    }

    /// Persist a successful enrichment for the row with id `link_id` and
    /// clear its pending flag. A row that no longer exists is left alone.
    pub fn persist_enrichment(
        &mut self,
        link_id: i32,
        title: String,
        body: String,
        language: String,
        screenshot: Vec<u8>,
    )
        requires
            old(self).wf(),
        ensures
            final(self).wf(),
            final(self)@.next_id == old(self)@.next_id,
            final(self)@.rows =~= old(self)@.rows.map_values(
                enrich_if(link_id as int, title@, body@, language@, screenshot@),
            ),
    {
        let ghost f = enrich_if(link_id as int, title@, body@, language@, screenshot@);
        let ghost rows0 = self@.rows;
        let mut i: usize = 0;
        while i < self.rows.len()
            invariant
                old(self).wf(),
                i <= self.rows.len(),
                self@ == old(self)@,
                rows0 == old(self)@.rows,
                f == enrich_if(link_id as int, title@, body@, language@, screenshot@),
                forall|j: int| 0 <= j < i ==> (#[trigger] self@.rows[j]).id != link_id as int,
            decreases self.rows.len() - i,
        {
            if self.rows[i].id == link_id {
                proof {
                    assert(rows0[i as int].id == link_id as int);
                }
                let row = self.rows.remove(i);
                let ghost removed = self@.rows;
                proof {
                    assert(removed =~= rows0.remove(i as int));
                }
                let new_row = Link {
                    id: row.id,
                    article_id: row.article_id,
                    user_id: row.user_id,
                    url: row.url,
                    title: Some(title),
                    body: Some(body),
                    language: Some(language),
                    screenshot: Some(screenshot),
                    pending: false,
                };
                self.rows.insert(i, new_row);
                proof {
                    assert(new_row@ == enriched_model(
                        rows0[i as int],
                        title@,
                        body@,
                        language@,
                        screenshot@,
                    ));
                    assert forall|j: int| 0 <= j < rows0.len() && j != i implies (
                    #[trigger] rows0[j]).id != link_id as int by {
                        if j < i {
                            assert(rows0[j].id != rows0[i as int].id);
                        } else {
                            assert(rows0[i as int].id != rows0[j].id);
                        }
                    }
                    assert(self@.rows =~= removed.insert(i as int, new_row@));
                    assert(self@.rows =~= rows0.map_values(f));
                    lemma_rows_wf_enrich(rows0, old(self)@.next_id, f, link_id as int, title@,
                        body@, language@, screenshot@);
                }
                return ;
            }
            i += 1;
        }
        proof {
            assert(self@.rows =~= rows0.map_values(f));
            lemma_rows_wf_enrich(rows0, old(self)@.next_id, f, link_id as int, title@, body@,
                language@, screenshot@);
        }
    }
}

/// Test of membership of a `String` in a vector of strings, by value.
fn contains_string(v: &Vec<String>, s: &String) -> (r: bool)
    ensures
        r == v@.map_values(str_view()).contains(s@),
{
    let ghost vs = v@.map_values(str_view());
    let mut i: usize = 0;
    while i < v.len()
        invariant
            i <= v.len(),
            vs == v@.map_values(str_view()),
            forall|k: int| 0 <= k < i ==> vs[k] != s@,
        decreases v.len() - i,
    {
        if v[i] == *s {
            proof {
                assert(vs[i as int] == s@);
            }
            return true;
        }
        i += 1;
    }
    false
}

/// Test of membership of an id in a vector of ids.
fn contains_id(v: &Vec<i32>, x: i32) -> (r: bool)
    ensures
        r == v@.contains(x),
{
    let mut i: usize = 0;
    while i < v.len()
        invariant
            i <= v.len(),
            forall|k: int| 0 <= k < i ==> v@[k] != x,
        decreases v.len() - i,
    {
        if v[i] == x {
            return true;
        }
        i += 1;
    }
    false
}

/// Apply an enrichment to the one row with this id; leave other rows alone.
pub open spec fn enrich_if(
    id: int,
    title: Seq<char>,
    body: Seq<char>,
    language: Seq<char>,
    screenshot: Seq<u8>,
) -> spec_fn(LinkModel) -> LinkModel {
    |r: LinkModel|
        if r.id == id {
            enriched_model(r, title, body, language, screenshot)
        } else {
            r
        }
}

/// Filtering a pushed element either appends it or leaves the filtered
/// sequence as it was, depending on the predicate.
pub proof fn lemma_filter_push<A>(s: Seq<A>, x: A, pred: spec_fn(A) -> bool)
    ensures
        pred(x) ==> s.push(x).filter(pred) =~= s.filter(pred).push(x),
        !pred(x) ==> s.push(x).filter(pred) =~= s.filter(pred),
{
    reveal(Seq::filter);
    assert(s.push(x).drop_last() =~= s);
    assert(s.push(x).last() == x);
}

/// A filter that keeps every element changes nothing.
pub proof fn lemma_filter_all<A>(s: Seq<A>, pred: spec_fn(A) -> bool)
    requires
        forall|i: int| 0 <= i < s.len() ==> pred(#[trigger] s[i]),
    ensures
        s.filter(pred) =~= s,
    decreases s.len(),
{
    reveal(Seq::filter);
    if s.len() > 0 {
        lemma_filter_all(s.drop_last(), pred);
        assert(pred(s[s.len() - 1]));
        assert(s.drop_last().push(s.last()) =~= s);
    }
}

/// Every element of a filtered sequence comes from the original sequence
/// and satisfies the predicate.
pub proof fn lemma_filter_elems<A>(s: Seq<A>, pred: spec_fn(A) -> bool)
    ensures
        forall|x: A| #[trigger] s.filter(pred).contains(x) ==> s.contains(x) && pred(x),
    decreases s.len(),
{
    reveal(Seq::filter);
    if s.len() > 0 {
        lemma_filter_elems(s.drop_last(), pred);
        assert forall|x: A| #[trigger] s.filter(pred).contains(x) implies s.contains(x) && pred(
            x,
        ) by {
            if s.drop_last().filter(pred).contains(x) {
                let w = choose|w: int|
                    0 <= w < s.drop_last().len() && s.drop_last()[w] == x;
                assert(s[w] == x);
            } else {
                assert(x == s.last());
                assert(s[s.len() - 1] == x);
            }
        }
    }
}

/// The pending invariant: in a well-formed store every row that is no
/// longer pending carries a title, a body and a language — and a freshly
/// inserted row is pending with none of them, as `new_link_model` states.
pub proof fn lemma_pending_invariant(m: StoreModel)
    requires
        m.wf(),
    ensures
        forall|i: int|
            0 <= i < m.rows.len() && !(#[trigger] m.rows[i]).pending ==> m.rows[i].title is Some
                && m.rows[i].body is Some && m.rows[i].language is Some,
        forall|id: int, article: int, user: int, url: Seq<char>|
            {
                let fresh = #[trigger] new_link_model(id, article, user, url);
                fresh.pending && fresh.title is None && fresh.body is None && fresh.language
                    is None
            },
{
    assert forall|i: int|
        0 <= i < m.rows.len() && !(#[trigger] m.rows[i]).pending implies m.rows[i].title is Some
        && m.rows[i].body is Some && m.rows[i].language is Some by {
        assert(row_enriched_wf(m.rows[i]));
    }
}

/// Enriching one row in place preserves well-formedness of a row sequence.
pub proof fn lemma_rows_wf_enrich(
    rows: Seq<LinkModel>,
    next_id: int,
    f: spec_fn(LinkModel) -> LinkModel,
    id: int,
    title: Seq<char>,
    body: Seq<char>,
    language: Seq<char>,
    screenshot: Seq<u8>,
)
    requires
        rows_wf(rows, next_id),
        f == enrich_if(id, title, body, language, screenshot),
    ensures
        rows_wf(rows.map_values(f), next_id),
{
    let out = rows.map_values(f);
    assert forall|j: int| 0 <= j < out.len() implies (#[trigger] out[j]).id == rows[j].id
        && out[j].article_id == rows[j].article_id && out[j].url == rows[j].url
        && row_enriched_wf(out[j]) by {
        assert(row_enriched_wf(rows[j]));
    }
}

/// Filtering preserves well-formedness of a row sequence.
pub proof fn lemma_rows_wf_filter(rows: Seq<LinkModel>, next_id: int, pred: spec_fn(LinkModel) -> bool)
    requires
        rows_wf(rows, next_id),
    ensures
        rows_wf(rows.filter(pred), next_id),
    decreases rows.len(),
{
    reveal(Seq::filter);
    if rows.len() > 0 {
        let rest = rows.drop_last();
        assert(rows_wf(rest, next_id));
        lemma_rows_wf_filter(rest, next_id, pred);
        lemma_filter_elems(rest, pred);
        let fr = rest.filter(pred);
        if pred(rows.last()) {
            let out = fr.push(rows.last());
            assert forall|i: int, j: int| 0 <= i < j < out.len() implies (#[trigger] out[i]).id
                != (#[trigger] out[j]).id by {
                if j == out.len() - 1 {
                    assert(fr.contains(fr[i]));
                    let w = choose|w: int| 0 <= w < rest.len() && rest[w] == fr[i];
                    assert(rows[w] == fr[i]);
                    assert(rows[w].id != rows[rows.len() - 1].id);
                }
            }
            assert forall|i: int, j: int|
                0 <= i < j < out.len() && (#[trigger] out[i]).article_id == (
                #[trigger] out[j]).article_id implies out[i].url != out[j].url by {
                if j == out.len() - 1 {
                    assert(fr.contains(fr[i]));
                    let w = choose|w: int| 0 <= w < rest.len() && rest[w] == fr[i];
                    assert(rows[w] == fr[i]);
                }
            }
            assert forall|i: int| 0 <= i < out.len() implies (#[trigger] out[i]).id
                < next_id by {
                if i < out.len() - 1 {
                } else {
                    assert(rows[rows.len() - 1].id < next_id);
                }
            }
            assert forall|i: int| 0 <= i < out.len() implies row_enriched_wf(
                #[trigger] out[i],
            ) by {
                if i < out.len() - 1 {
                } else {
                    assert(row_enriched_wf(rows[rows.len() - 1]));
                }
            }
        }
    }
}

} // verus!
