//! The assembled link enrichment subsystem: the link store, the bounded
//! enrichment queue and the worker, behind one handle, together with the
//! reconciliation of an article's stored link set against its latest
//! extracted URLs.

use vstd::prelude::*;
use crate::queue::Message;
use crate::queue::Queue;
use crate::queue::enrich_msg;
use crate::queue::submit_all;
use crate::queue::submit_spec;
use crate::store::LinkModel;
use crate::store::LinkStore;
use crate::store::StoreModel;
use crate::store::rows_wf;
use crate::store::keep_desired;
use crate::store::lemma_filter_all;
use crate::store::lemma_filter_elems;
use crate::store::new_link_model;
use crate::store::rows_has_url;
use crate::store::str_view;
use crate::worker::Worker;

verus! {

/// How many submissions the enrichment queue buffers before it starts
/// dropping them.
pub const QUEUE_CAPACITY: usize = 100;

/// Where the browser automation endpoint listens; read from configuration
/// by the surrounding program and used when the external session is
/// started.
pub struct AnalyzerConfig {
    pub url: String,
}

/// The one handle to the enrichment subsystem that callers share.
pub struct Analyzer {
    pub store: LinkStore,
    pub queue: Queue,
    pub worker: Worker,
}

/// Build the subsystem around a link store: an empty bounded queue and a
/// fresh running worker that owns the browser session. Starting the
/// external browser process itself is the surrounding program's work and
/// happens before this; its failure is fatal at startup.
pub fn start_analyzer(store: LinkStore) -> (analyzer: Analyzer)
    ensures
        analyzer.store@ == store@,
        analyzer.queue@.msgs =~= Seq::<Message>::empty(),
        analyzer.queue@.cap == QUEUE_CAPACITY as nat,
        !analyzer.queue@.closed,
        analyzer.worker@.phase is Running,
        analyzer.worker@.batch =~= Seq::<crate::store::LinkUrlModel>::empty(),
        analyzer.worker@.session_open,
{
    Analyzer { store, queue: Queue::new(QUEUE_CAPACITY), worker: Worker::new() }
}

impl Analyzer {
    /// Fire-and-forget enrichment request for an article: the best-effort
    /// submission path shared by reconciliation and the startup resync.
    pub fn send(&mut self, id: i32)
        ensures
            final(self).queue@ == submit_spec(old(self).queue@, Message::Enrich(id)),
            final(self).store@ == old(self).store@,
            final(self).worker@ == old(self).worker@,
    {
        self.queue.submit(id);
    }
}

/// Startup resync: re-submit every article that still has pending links
/// left over from a prior run, through the same best-effort path. Returns
/// the distinct articles that were submitted.
pub fn analyze_fresh(analyzer: &mut Analyzer) -> (ids: Vec<i32>)
    ensures
        final(analyzer).store@ == old(analyzer).store@,
        final(analyzer).worker@ == old(analyzer).worker@,
        ids@.no_duplicates(),
        forall|x: i32|
            ids@.contains(x) <==> old(analyzer).store@.pending_articles().contains(x as int),
        final(analyzer).queue@ == submit_all(old(analyzer).queue@, ids@.map_values(enrich_msg())),
{
    let ids = analyzer.store.get_fresh_links();
    let mut i: usize = 0;
    while i < ids.len()
        invariant
            i <= ids.len(),
            analyzer.store@ == old(analyzer).store@,
            analyzer.worker@ == old(analyzer).worker@,
            analyzer.queue@ == submit_all(
                old(analyzer).queue@,
                ids@.subrange(0, i as int).map_values(enrich_msg()),
            ),
        decreases ids.len() - i,
    {
        let ghost pre = ids@.subrange(0, i as int).map_values(enrich_msg());
        analyzer.queue.submit(ids[i]);
        proof {
            crate::queue::lemma_submit_all_push(
                old(analyzer).queue@,
                pre,
                Message::Enrich(ids@[i as int]),
            );
            assert(ids@.subrange(0, i as int + 1).map_values(enrich_msg()) =~= pre.push(
                Message::Enrich(ids@[i as int]),
            ));
        }
        i += 1;
    }
    proof {
        assert(ids@.subrange(0, ids@.len() as int) =~= ids@);
    }
    ids
}

/// Begin the shutdown protocol: submit the shutdown request through the
/// same best-effort path (it may be dropped if the queue is full or
/// already closed). The caller then drives the worker until it returns
/// the acknowledgment step, and only after that releases the browser
/// session.
pub fn stop_analyzer(analyzer: &mut Analyzer)
    ensures
        final(analyzer).queue@ == submit_spec(old(analyzer).queue@, Message::Shutdown),
        final(analyzer).store@ == old(analyzer).store@,
        final(analyzer).worker@ == old(analyzer).worker@,
{
    analyzer.queue.submit_shutdown();
}

/// Delete every link row of an article, as its deletion cascades. No
/// enrichment is ever requested for removals.
pub fn delete_article_links(store: &mut LinkStore, article: i32)
    requires
        old(store).wf(),
    ensures
        final(store).wf(),
        final(store)@.next_id == old(store)@.next_id,
        final(store)@.rows =~= old(store)@.rows.filter(
            keep_desired(article as int, Set::<Seq<char>>::empty()),
        ),
{
    let none: Vec<String> = Vec::new();
    store.retain_desired(article, &none);
    proof {
        assert(none@.map_values(str_view()).to_set() =~= Set::<Seq<char>>::empty());
    }
}

/// The URLs of `desired` that are not yet stored, first occurrence each,
/// in order: exactly the rows the reconciler inserts.
pub open spec fn added_urls(desired: Seq<Seq<char>>, stored: Set<Seq<char>>) -> Seq<Seq<char>>
    decreases desired.len(),
{
    if desired.len() == 0 {
        Seq::empty()
    } else {
        let rest = desired.drop_last();
        added_urls(rest, stored) + (if !stored.contains(desired.last()) && !rest.contains(
            desired.last(),
        ) {
            seq![desired.last()]
        } else {
            Seq::<Seq<char>>::empty()
        })
    }
}

/// The fresh pending rows for a list of added URLs, with consecutive ids
/// from `base_id` on.
pub open spec fn inserted_rows(urls: Seq<Seq<char>>, article: int, user: int, base_id: int) -> Seq<
    LinkModel,
> {
    urls.map(|k: int, u: Seq<char>| new_link_model(base_id + k, article, user, u))
}

/// An added URL is exactly a desired URL that is not stored.
proof fn lemma_added_urls_membership(desired: Seq<Seq<char>>, stored: Set<Seq<char>>)
    ensures
        forall|u: Seq<char>|
            #[trigger] added_urls(desired, stored).contains(u) <==> desired.contains(u)
                && !stored.contains(u),
    decreases desired.len(),
{
    if desired.len() > 0 {
        let rest = desired.drop_last();
        let last = desired.last();
        lemma_added_urls_membership(rest, stored);
        assert forall|u: Seq<char>| #[trigger]
            added_urls(desired, stored).contains(u) implies desired.contains(u)
            && !stored.contains(u) by {
            let au = added_urls(desired, stored);
            let w = choose|w: int| 0 <= w < au.len() && au[w] == u;
            if w < added_urls(rest, stored).len() {
                assert(added_urls(rest, stored).contains(u));
                let v = choose|v: int| 0 <= v < rest.len() && rest[v] == u;
                assert(desired[v] == u);
            } else {
                assert(u == last);
                assert(desired[desired.len() - 1] == u);
            }
        }
        assert forall|u: Seq<char>|
            desired.contains(u) && !stored.contains(u) implies #[trigger] added_urls(
            desired,
            stored,
        ).contains(u) by {
            let au = added_urls(desired, stored);
            let w = choose|w: int| 0 <= w < desired.len() && desired[w] == u;
            if w < desired.len() - 1 {
                assert(rest[w] == u);
                assert(added_urls(rest, stored).contains(u));
                let v = choose|v: int|
                    0 <= v < added_urls(rest, stored).len() && added_urls(rest, stored)[v] == u;
                assert(au[v] == u);
            } else {
                if rest.contains(u) {
                    assert(added_urls(rest, stored).contains(u));
                    let v = choose|v: int|
                        0 <= v < added_urls(rest, stored).len() && added_urls(rest, stored)[v]
                            == u;
                    assert(au[v] == u);
                } else {
                    assert(au[au.len() - 1] == u);
                }
            }
        }
    }
}

/// The reconciler inserts exactly one fresh row per URL of `D \ S`: the
/// added list holds each desired-but-unstored URL once, so its length —
/// the number of inserts and the growth of `next_id` after `reconcile` —
/// is the cardinality of `D \ S`. In particular the queue is fed exactly
/// when `D \ S` is non-empty.
pub proof fn lemma_added_urls_count(desired: Seq<Seq<char>>, stored: Set<Seq<char>>)
    ensures
        added_urls(desired, stored).no_duplicates(),
        added_urls(desired, stored).to_set() =~= desired.to_set().difference(stored),
        added_urls(desired, stored).len() == desired.to_set().difference(stored).len(),
    decreases desired.len(),
{
    lemma_added_urls_membership(desired, stored);
    let au = added_urls(desired, stored);
    if desired.len() == 0 {
        assert(au.to_set() =~= desired.to_set().difference(stored));
        assert(au.to_set().len() == 0) by {
            au.unique_seq_to_set();
        }
    } else {
        let rest = desired.drop_last();
        let last = desired.last();
        lemma_added_urls_count(rest, stored);
        lemma_added_urls_membership(rest, stored);
        let aur = added_urls(rest, stored);
        assert forall|i: int, j: int| 0 <= i < j < au.len() implies au[i] != au[j] by {
            if j < aur.len() {
                assert(au[i] == aur[i] && au[j] == aur[j]);
            } else {
                assert(au[j] == last);
                assert(!rest.contains(last) && !stored.contains(last));
                assert(au[i] == aur[i]);
                assert(aur.contains(aur[i]));
            }
        }
        assert(au.no_duplicates());
        assert(au.to_set() =~= desired.to_set().difference(stored));
        au.unique_seq_to_set();
    }
}

proof fn lemma_delete_count(m: StoreModel, article: int, desired: Set<Seq<char>>)
    requires
        m.wf(),
    ensures
        m.urls(article).finite(),
        m.rows.len() - m.rows.filter(keep_desired(article, desired)).len() == m.urls(
            article,
        ).difference(desired).len(),
    decreases m.rows.len(),
{
    reveal(Seq::filter);
    let pred = keep_desired(article, desired);
    if m.rows.len() == 0 {
        assert(m.urls(article) =~= Set::<Seq<char>>::empty());
        assert(m.urls(article).difference(desired) =~= Set::<Seq<char>>::empty());
    } else {
        let rest = StoreModel { rows: m.rows.drop_last(), next_id: m.next_id };
        assert(rows_wf(rest.rows, rest.next_id));
        lemma_delete_count(rest, article, desired);
        let last = m.rows.last();
        assert(m.rows =~= rest.rows + seq![last]);
        assert forall|u: Seq<char>|
            rows_has_url(m.rows, article, u) <==> (rows_has_url(rest.rows, article, u) || (
            last.article_id == article && last.url == u)) by {
            lemma_has_url_split(m.rows, rest.rows, seq![last], article, u);
            if rows_has_url(seq![last], article, u) {
                let w = choose|w: int|
                    0 <= w < 1 && (#[trigger] seq![last][w]).article_id == article
                        && seq![last][w].url == u;
                assert(seq![last][0] == last);
            }
            if last.article_id == article && last.url == u {
                assert(seq![last][0].article_id == article && seq![last][0].url == u);
            }
        }
        if last.article_id == article {
            assert(!rows_has_url(rest.rows, article, last.url)) by {
                if rows_has_url(rest.rows, article, last.url) {
                    let w = choose|w: int|
                        0 <= w < rest.rows.len() && (#[trigger] rest.rows[w]).article_id
                            == article && rest.rows[w].url == last.url;
                    assert(m.rows[w] == rest.rows[w]);
                    assert(m.rows[w].url != m.rows[m.rows.len() - 1].url);
                }
            }
            assert(m.urls(article) =~= rest.urls(article).insert(last.url));
            if desired.contains(last.url) {
                assert(pred(last));
                assert(m.urls(article).difference(desired) =~= rest.urls(article).difference(
                    desired,
                ));
            } else {
                assert(!pred(last));
                assert(m.urls(article).difference(desired) =~= rest.urls(article).difference(
                    desired,
                ).insert(last.url));
                assert(!rest.urls(article).difference(desired).contains(last.url));
            }
        } else {
            assert(pred(last));
            assert(m.urls(article) =~= rest.urls(article));
            assert(m.urls(article).difference(desired) =~= rest.urls(article).difference(
                desired,
            ));
        }
    }
}

/// After `reconcile`, the store changed by exactly `|S \ D|` deletes and
/// `|D \ S|` inserts: the rows dropped by the delete pass are counted by
/// the stored URLs no longer desired, and the fresh rows appended by the
/// insert pass are counted by the desired URLs not yet stored.
pub proof fn lemma_reconcile_counts(m: StoreModel, article: int, desired: Seq<Seq<char>>)
    requires
        m.wf(),
    ensures
        m.urls(article).finite(),
        m.rows.len() - m.rows.filter(keep_desired(article, desired.to_set())).len() == m.urls(
            article,
        ).difference(desired.to_set()).len(),
        added_urls(desired, m.urls(article)).len() == desired.to_set().difference(
            m.urls(article),
        ).len(),
{
    lemma_delete_count(m, article, desired.to_set());
    lemma_added_urls_count(desired, m.urls(article));
}

/// Splitting a row sequence splits URL membership.
proof fn lemma_has_url_split(
    rows: Seq<LinkModel>,
    left: Seq<LinkModel>,
    right: Seq<LinkModel>,
    article: int,
    u: Seq<char>,
)
    requires
        rows == left + right,
    ensures
        rows_has_url(rows, article, u) <==> rows_has_url(left, article, u) || rows_has_url(
            right,
            article,
            u,
        ),
{
    if rows_has_url(rows, article, u) {
        let i = choose|i: int|
            0 <= i < rows.len() && (#[trigger] rows[i]).article_id == article && rows[i].url == u;
        if i < left.len() {
            assert(left[i] == rows[i]);
        } else {
            assert(right[i - left.len()] == rows[i]);
        }
    }
    if rows_has_url(left, article, u) {
        let i = choose|i: int|
            0 <= i < left.len() && (#[trigger] left[i]).article_id == article && left[i].url == u;
        assert(rows[i] == left[i]);
    }
    if rows_has_url(right, article, u) {
        let i = choose|i: int|
            0 <= i < right.len() && (#[trigger] right[i]).article_id == article && right[i].url
                == u;
        assert(rows[left.len() + i] == right[i]);
    }
}

/// What survives the delete pass: for the reconciled article, exactly the
/// still-desired URLs; for every other article, everything.
proof fn lemma_has_url_filter(
    rows: Seq<LinkModel>,
    article: int,
    desired: Set<Seq<char>>,
    other: int,
    u: Seq<char>,
)
    ensures
        rows_has_url(rows.filter(keep_desired(article, desired)), article, u) <==> (rows_has_url(
            rows,
            article,
            u,
        ) && desired.contains(u)),
        other != article ==> (rows_has_url(rows.filter(keep_desired(article, desired)), other, u)
            <==> rows_has_url(rows, other, u)),
{
    let pred = keep_desired(article, desired);
    let kept = rows.filter(pred);
    lemma_filter_elems(rows, pred);
    if rows_has_url(kept, article, u) {
        let i = choose|i: int|
            0 <= i < kept.len() && (#[trigger] kept[i]).article_id == article && kept[i].url == u;
        assert(kept.contains(kept[i]));
        let w = choose|w: int| 0 <= w < rows.len() && rows[w] == kept[i];
    }
    if rows_has_url(rows, article, u) && desired.contains(u) {
        let i = choose|i: int|
            0 <= i < rows.len() && (#[trigger] rows[i]).article_id == article && rows[i].url == u;
        rows.lemma_filter_contains(pred, i);
        let w = choose|w: int| 0 <= w < kept.len() && kept[w] == rows[i];
    }
    if other != article {
        if rows_has_url(kept, other, u) {
            let i = choose|i: int|
                0 <= i < kept.len() && (#[trigger] kept[i]).article_id == other && kept[i].url
                    == u;
            assert(kept.contains(kept[i]));
            let w = choose|w: int| 0 <= w < rows.len() && rows[w] == kept[i];
        }
        if rows_has_url(rows, other, u) {
            let i = choose|i: int|
                0 <= i < rows.len() && (#[trigger] rows[i]).article_id == other && rows[i].url
                    == u;
            rows.lemma_filter_contains(pred, i);
            let w = choose|w: int| 0 <= w < kept.len() && kept[w] == rows[i];
        }
    }
}

/// The freshly inserted rows hold exactly the added URLs, all for the
/// reconciled article.
proof fn lemma_has_url_inserted(
    urls: Seq<Seq<char>>,
    article: int,
    user: int,
    base_id: int,
    other: int,
    u: Seq<char>,
)
    ensures
        rows_has_url(inserted_rows(urls, article, user, base_id), article, u) <==> urls.contains(
            u,
        ),
        other != article ==> !rows_has_url(inserted_rows(urls, article, user, base_id), other, u),
{
    let ins = inserted_rows(urls, article, user, base_id);
    if rows_has_url(ins, article, u) {
        let i = choose|i: int|
            0 <= i < ins.len() && (#[trigger] ins[i]).article_id == article && ins[i].url == u;
        assert(urls[i] == u);
    }
    if urls.contains(u) {
        let i = choose|i: int| 0 <= i < urls.len() && urls[i] == u;
        assert(ins[i].article_id == article && ins[i].url == u);
    }
    if other != article && rows_has_url(ins, other, u) {
        let i = choose|i: int|
            0 <= i < ins.len() && (#[trigger] ins[i]).article_id == other && ins[i].url == u;
        assert(ins[i].article_id == article);
    }
}

/// Reconcile the stored link set of `article` with the URLs extracted
/// from its latest content.
///
/// The rows whose URL is no longer desired are deleted; one fresh pending
/// row is inserted per desired URL that was not stored (duplicates in
/// `desired` count once); rows whose URL stays keep their id and their
/// enrichment data. Exactly when something was inserted, one enrichment
/// request for `article` is submitted best-effort — removals alone never
/// trigger a fetch. The caller sees no error and no queue-full condition.
pub fn reconcile(analyzer: &mut Analyzer, article: i32, user: i32, desired: &Vec<String>)
    requires
        old(analyzer).store.wf(),
        old(analyzer).store@.next_id + desired@.len() <= i32::MAX as int,
    ensures
        final(analyzer).store.wf(),
        // the stored URL set becomes exactly the desired set
        final(analyzer).store@.urls(article as int) =~= desired@.map_values(str_view()).to_set(),
        // other articles keep their URL sets
        forall|b: int, u: Seq<char>|
            b != article as int ==> (final(analyzer).store@.has_url(b, u) <==> old(analyzer)
                .store@.has_url(b, u)),
        // surviving rows unchanged, then one fresh pending row per added URL
        final(analyzer).store@.rows =~= old(analyzer).store@.rows.filter(
            keep_desired(article as int, desired@.map_values(str_view()).to_set()),
        ) + inserted_rows(
            added_urls(
                desired@.map_values(str_view()),
                old(analyzer).store@.urls(article as int),
            ),
            article as int,
            user as int,
            old(analyzer).store@.next_id,
        ),
        final(analyzer).store@.next_id == old(analyzer).store@.next_id + added_urls(
            desired@.map_values(str_view()),
            old(analyzer).store@.urls(article as int),
        ).len(),
        // enqueue exactly when something was added
        final(analyzer).queue@ == (if added_urls(
            desired@.map_values(str_view()),
            old(analyzer).store@.urls(article as int),
        ).len() == 0 {
            old(analyzer).queue@
        } else {
            submit_spec(old(analyzer).queue@, Message::Enrich(article))
        }),
        final(analyzer).worker@ == old(analyzer).worker@,
        // a second call with the same desired set mutates and submits nothing
        old(analyzer).store@.urls(article as int) =~= desired@.map_values(str_view()).to_set()
            ==> {
            &&& final(analyzer).store@.rows =~= old(analyzer).store@.rows
            &&& final(analyzer).store@.next_id == old(analyzer).store@.next_id
            &&& final(analyzer).queue@ == old(analyzer).queue@
        },
{
    let ghost d_full = desired@.map_values(str_view());
    let ghost dset = d_full.to_set();
    let ghost s_set = old(analyzer).store@.urls(article as int);
    let ghost rows0 = old(analyzer).store@.rows;

    // delete pass: drop the rows of `article` that are no longer desired
    analyzer.store.retain_desired(article, desired);
    let ghost kept = analyzer.store@.rows;
    let ghost base = analyzer.store@.next_id;

    // insert pass: one fresh pending row per URL not yet stored
    let mut added: usize = 0;
    let mut j: usize = 0;
    while j < desired.len()
        invariant
            analyzer.store.wf(),
            j <= desired.len(),
            added <= j,
            d_full == desired@.map_values(str_view()),
            dset == d_full.to_set(),
            s_set == old(analyzer).store@.urls(article as int),
            rows0 == old(analyzer).store@.rows,
            kept == rows0.filter(keep_desired(article as int, dset)),
            base == old(analyzer).store@.next_id,
            base + desired@.len() <= i32::MAX as int,
            added as int == added_urls(d_full.subrange(0, j as int), s_set).len(),
            analyzer.store@.rows =~= kept + inserted_rows(
                added_urls(d_full.subrange(0, j as int), s_set),
                article as int,
                user as int,
                base,
            ),
            analyzer.store@.next_id == base + added as int,
            analyzer.queue@ == old(analyzer).queue@,
            analyzer.worker@ == old(analyzer).worker@,
        decreases desired.len() - j,
    {
        let ghost dpre = d_full.subrange(0, j as int);
        let ghost au = added_urls(dpre, s_set);
        let ghost dj = d_full[j as int];
        let ghost ins = inserted_rows(au, article as int, user as int, base);
        proof {
            assert(d_full.subrange(0, j as int + 1) =~= dpre.push(dj));
            assert(d_full.subrange(0, j as int + 1).drop_last() =~= dpre);
            assert(desired@[j as int]@ == dj);
        }
        let present = analyzer.store.has_url(article, &desired[j]);
        proof {
            lemma_has_url_split(analyzer.store@.rows, kept, ins, article as int, dj);
            lemma_has_url_filter(rows0, article as int, dset, article as int, dj);
            lemma_has_url_inserted(au, article as int, user as int, base, article as int, dj);
            lemma_added_urls_membership(dpre, s_set);
            assert(d_full[j as int] == dj);
            assert(d_full.contains(dj));
            assert(dset.contains(dj));
            assert(present <==> (s_set.contains(dj) || au.contains(dj)));
            assert(!present <==> (!s_set.contains(dj) && !dpre.contains(dj)));
        }
        if !present {
            analyzer.store.insert_link(article, user, desired[j].clone());
            added += 1;
            proof {
                assert(added_urls(dpre.push(dj), s_set) =~= au.push(dj));
                assert(inserted_rows(au.push(dj), article as int, user as int, base) =~= ins.push(
                    new_link_model(base + au.len(), article as int, user as int, dj),
                ));
                assert(analyzer.store@.rows =~= kept + inserted_rows(
                    added_urls(d_full.subrange(0, j as int + 1), s_set),
                    article as int,
                    user as int,
                    base,
                ));
            }
        } else {
            proof {
                assert(added_urls(dpre.push(dj), s_set) =~= au);
                assert(analyzer.store@.rows =~= kept + inserted_rows(
                    added_urls(d_full.subrange(0, j as int + 1), s_set),
                    article as int,
                    user as int,
                    base,
                ));
            }
        }
        j += 1;
    }
    proof {
        assert(d_full.subrange(0, d_full.len() as int) =~= d_full);
    }

    // enqueue exactly when something was added; removals alone stay quiet
    if added > 0 {
        analyzer.queue.submit(article);
    }

    proof {
        let au_full = added_urls(d_full, s_set);
        let ins_full = inserted_rows(au_full, article as int, user as int, base);
        lemma_added_urls_membership(d_full, s_set);
        // the stored URL set for `article` is now exactly the desired set
        assert forall|u: Seq<char>|
            final(analyzer).store@.has_url(article as int, u) <==> dset.contains(u) by {
            lemma_has_url_split(final(analyzer).store@.rows, kept, ins_full, article as int, u);
            lemma_has_url_filter(rows0, article as int, dset, article as int, u);
            lemma_has_url_inserted(au_full, article as int, user as int, base, article as int, u);
        }
        assert(final(analyzer).store@.urls(article as int) =~= dset);
        // other articles are untouched
        assert forall|b: int, u: Seq<char>| b != article as int implies (final(analyzer).store@
            .has_url(b, u) <==> old(analyzer).store@.has_url(b, u)) by {
            lemma_has_url_split(final(analyzer).store@.rows, kept, ins_full, b, u);
            lemma_has_url_filter(rows0, article as int, dset, b, u);
            lemma_has_url_inserted(au_full, article as int, user as int, base, b, u);
        }
        // idempotence: with the stored set already equal to the desired
        // set, the filter kept everything and nothing was added
        if s_set =~= dset {
            assert forall|i: int| 0 <= i < rows0.len() implies keep_desired(
                article as int,
                dset,
            )(#[trigger] rows0[i]) by {
                if rows0[i].article_id == article as int {
                    assert(rows_has_url(rows0, article as int, rows0[i].url));
                    assert(s_set.contains(rows0[i].url));
                }
            }
            lemma_filter_all(rows0, keep_desired(article as int, dset));
            if au_full.len() > 0 {
                assert(au_full.contains(au_full[0]));
            }
            assert(final(analyzer).store@.rows =~= rows0);
        }
    }
}

} // verus!

