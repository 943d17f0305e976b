use articles::analyzer::analyze_fresh;
use articles::analyzer::reconcile;
use articles::analyzer::start_analyzer;
use articles::analyzer::stop_analyzer;
use articles::analyzer::Analyzer;
use articles::queue::Message;
use articles::queue::Queue;
use articles::store::LinkStore;
use articles::worker::FetchOutcome;
use articles::worker::Phase;
use articles::worker::finish_fetch;
use articles::worker::Step;

fn urls(v: &[&str]) -> Vec<String> {
    v.iter().map(|s| s.to_string()).collect()
}

fn stored_urls(analyzer: &Analyzer, article: i32) -> Vec<String> {
    analyzer.store.list_urls(article)
}

/// Drive the worker until it has nothing left to do, answering every
/// fetch with `outcome`; reports the fetched URLs in order.
fn run_worker(analyzer: &mut Analyzer, outcome: impl Fn(&str) -> FetchOutcome) -> Vec<String> {
    let mut fetched = Vec::new();
    loop {
        match analyzer.worker.next_step(&mut analyzer.queue, &analyzer.store) {
            Step::Fetch(id, url) => {
                let out = outcome(&url);
                finish_fetch(&mut analyzer.store, id, out);
                fetched.push(url);
            }
            Step::Continue => {}
            Step::Idle | Step::Ack => break,
        }
    }
    fetched
}

fn ok_fetch(url: &str) -> FetchOutcome {
    FetchOutcome::Success {
        title: format!("title of {url}"),
        content: "Some readable page text.".to_string(),
        screenshot: vec![1, 2, 3],
    }
}

#[test]
fn reconcile_inserts_and_enqueues() {
    let mut an = start_analyzer(LinkStore::new());
    reconcile(&mut an, 1, 7, &urls(&["a", "b"]));
    let mut got = stored_urls(&an, 1);
    got.sort();
    assert_eq!(got, urls(&["a", "b"]));
    assert_eq!(an.queue.len(), 1);
    for row in an.store.rows() {
        assert!(row.pending);
        assert!(row.title.is_none() && row.body.is_none() && row.language.is_none());
        assert_eq!(row.user_id, 7);
    }
}

#[test]
fn reconcile_diff_keeps_survivors() {
    // S = {a, b}, D = {b, c}: delete a, insert c, one enqueue
    let mut an = start_analyzer(LinkStore::new());
    reconcile(&mut an, 1, 7, &urls(&["a", "b"]));
    let id_b = an.store.rows().iter().find(|r| r.url == "b").unwrap().id;
    let before = an.queue.len();

    reconcile(&mut an, 1, 7, &urls(&["b", "c"]));
    let mut got = stored_urls(&an, 1);
    got.sort();
    assert_eq!(got, urls(&["b", "c"]));
    // the surviving row kept its identity
    assert_eq!(an.store.rows().iter().find(|r| r.url == "b").unwrap().id, id_b);
    // exactly one delete and one insert happened
    assert_eq!(an.store.rows().len(), 2);
    // exactly one enqueue for the article
    assert_eq!(an.queue.len(), before + 1);
}

#[test]
fn reconcile_pure_removal_never_enqueues() {
    // S = {a, b}, D = {b}: delete a, zero inserts, zero enqueues
    let mut an = start_analyzer(LinkStore::new());
    reconcile(&mut an, 1, 7, &urls(&["a", "b"]));
    let before = an.queue.len();

    reconcile(&mut an, 1, 7, &urls(&["b"]));
    assert_eq!(stored_urls(&an, 1), urls(&["b"]));
    assert_eq!(an.store.rows().len(), 1);
    assert_eq!(an.queue.len(), before);
}

#[test]
fn reconcile_twice_is_idempotent() {
    let mut an = start_analyzer(LinkStore::new());
    reconcile(&mut an, 1, 7, &urls(&["x", "y"]));
    let rows_before: Vec<(i32, String, bool)> =
        an.store.rows().iter().map(|r| (r.id, r.url.clone(), r.pending)).collect();
    let queue_before = an.queue.len();

    reconcile(&mut an, 1, 7, &urls(&["x", "y"]));
    let rows_after: Vec<(i32, String, bool)> =
        an.store.rows().iter().map(|r| (r.id, r.url.clone(), r.pending)).collect();
    assert_eq!(rows_before, rows_after);
    assert_eq!(an.queue.len(), queue_before);
}

#[test]
fn reconcile_dedupes_desired_urls() {
    let mut an = start_analyzer(LinkStore::new());
    reconcile(&mut an, 1, 7, &urls(&["same", "same", "same"]));
    assert_eq!(an.store.rows().len(), 1);
}

#[test]
fn reconcile_leaves_other_articles_alone() {
    let mut an = start_analyzer(LinkStore::new());
    reconcile(&mut an, 1, 7, &urls(&["a"]));
    reconcile(&mut an, 2, 7, &urls(&["b"]));
    reconcile(&mut an, 1, 7, &urls(&[]));
    assert_eq!(stored_urls(&an, 1), urls(&[]));
    assert_eq!(stored_urls(&an, 2), urls(&["b"]));
}

#[test]
fn readding_a_url_makes_a_fresh_pending_row() {
    let mut an = start_analyzer(LinkStore::new());
    reconcile(&mut an, 1, 7, &urls(&["u"]));
    run_worker(&mut an, ok_fetch);
    assert!(!an.store.rows()[0].pending);
    let old_id = an.store.rows()[0].id;

    reconcile(&mut an, 1, 7, &urls(&[]));
    reconcile(&mut an, 1, 7, &urls(&["u"]));
    let row = &an.store.rows()[0];
    assert_ne!(row.id, old_id);
    assert!(row.pending);
    assert!(row.title.is_none());
}

#[test]
fn delete_link_removes_one_row() {
    let mut an = start_analyzer(LinkStore::new());
    reconcile(&mut an, 1, 7, &urls(&["a", "b"]));
    an.store.delete_link(1, &"a".to_string());
    assert_eq!(stored_urls(&an, 1), urls(&["b"]));
    // deleting a URL that is not stored changes nothing
    an.store.delete_link(1, &"zz".to_string());
    assert_eq!(stored_urls(&an, 1), urls(&["b"]));
}

#[test]
fn deleting_an_article_drops_its_links_only() {
    let mut an = start_analyzer(LinkStore::new());
    reconcile(&mut an, 1, 7, &urls(&["a", "b"]));
    reconcile(&mut an, 2, 7, &urls(&["c"]));
    let before = an.queue.len();
    articles::analyzer::delete_article_links(&mut an.store, 1);
    assert_eq!(stored_urls(&an, 1), urls(&[]));
    assert_eq!(stored_urls(&an, 2), urls(&["c"]));
    assert_eq!(an.queue.len(), before);
}

#[test]
fn queue_is_fifo() {
    let mut q = Queue::new(10);
    q.submit(1);
    q.submit(2);
    q.submit(3);
    assert_eq!(q.dequeue(), Some(Message::Enrich(1)));
    assert_eq!(q.dequeue(), Some(Message::Enrich(2)));
    assert_eq!(q.dequeue(), Some(Message::Enrich(3)));
    assert_eq!(q.dequeue(), None);
}

#[test]
fn full_queue_drops_silently() {
    let mut q = Queue::new(2);
    q.submit(1);
    q.submit(2);
    q.submit(3);
    assert_eq!(q.len(), 2);
    assert_eq!(q.dequeue(), Some(Message::Enrich(1)));
    assert_eq!(q.dequeue(), Some(Message::Enrich(2)));
    assert_eq!(q.dequeue(), None);
}

#[test]
fn worker_processes_in_submission_order() {
    // submitting ids [1, 2, 3] yields processing order 1, 2, 3
    let mut an = start_analyzer(LinkStore::new());
    reconcile(&mut an, 1, 7, &urls(&["one"]));
    reconcile(&mut an, 2, 7, &urls(&["two"]));
    reconcile(&mut an, 3, 7, &urls(&["three"]));

    let fetched = run_worker(&mut an, ok_fetch);
    assert_eq!(fetched, urls(&["one", "two", "three"]));
}

#[test]
fn successful_fetch_clears_pending_and_fills_fields() {
    let mut an = start_analyzer(LinkStore::new());
    reconcile(&mut an, 1, 7, &urls(&["u"]));
    run_worker(&mut an, ok_fetch);
    let row = &an.store.rows()[0];
    assert!(!row.pending);
    assert_eq!(row.title.as_deref(), Some("title of u"));
    assert_eq!(row.body.as_deref(), Some("Some readable page text."));
    assert_eq!(row.language.as_deref(), Some("english"));
    assert_eq!(row.screenshot.as_deref(), Some(&[1u8, 2, 3][..]));
}

#[test]
fn failed_fetch_leaves_link_pending_forever() {
    let mut an = start_analyzer(LinkStore::new());
    reconcile(&mut an, 1, 7, &urls(&["bad"]));
    run_worker(&mut an, |_| FetchOutcome::Failure);
    let row = &an.store.rows()[0];
    assert!(row.pending);
    assert!(row.title.is_none() && row.body.is_none() && row.language.is_none());
    // nothing retries it: the worker is idle again
    assert!(matches!(
        an.worker.next_step(&mut an.queue, &an.store),
        Step::Idle
    ));
}

#[test]
fn startup_resync_resubmits_pending_articles() {
    let mut an = start_analyzer(LinkStore::new());
    reconcile(&mut an, 5, 7, &urls(&["a"]));
    reconcile(&mut an, 9, 7, &urls(&["b"]));
    // a prior run ended before the work was done: its queue is gone
    while an.queue.dequeue().is_some() {}

    let mut ids = analyze_fresh(&mut an);
    ids.sort();
    assert_eq!(ids, vec![5, 9]);
    assert_eq!(an.queue.len(), 2);
}

#[test]
fn shutdown_acknowledges_after_draining_and_keeps_session() {
    let mut an = start_analyzer(LinkStore::new());
    reconcile(&mut an, 1, 7, &urls(&["u"]));
    stop_analyzer(&mut an);
    // an enrichment submitted after the shutdown request sits behind it
    an.send(2);

    let mut fetched: Vec<String> = Vec::new();
    let mut acked = false;
    for _ in 0..12 {
        match an.worker.next_step(&mut an.queue, &an.store) {
            Step::Fetch(id, url) => {
                fetched.push(url.clone());
                finish_fetch(&mut an.store, id, ok_fetch(&url));
            }
            Step::Ack => {
                acked = true;
                break;
            }
            Step::Continue => {}
            Step::Idle => {}
        }
    }
    // the in-flight work drained before the acknowledgment
    assert!(acked);
    assert_eq!(fetched, urls(&["u"]));
    // no further message is processed after the acknowledgment, even if
    // it was queued earlier
    assert!(matches!(
        an.worker.next_step(&mut an.queue, &an.store),
        Step::Idle
    ));
    assert_eq!(an.worker.phase(), Phase::Stopped);
    // the worker itself has not released the browser session; that is
    // the caller's next action
    assert!(an.worker.session_open());
    an.worker.release_session();
    assert!(!an.worker.session_open());
    // the queue is closed now: later submissions are dropped
    an.send(3);
    assert_eq!(an.queue.len(), 1); // only the never-processed Enrich(2)
}
