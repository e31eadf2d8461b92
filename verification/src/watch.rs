//! The decision core of the watch loop. The loop itself lives with the
//! runtime: it merges the push-based change stream with a fixed-interval
//! timer and hands whichever event becomes ready first to `handle_event`;
//! on stream failure it restarts, forever, with the caches kept. What each
//! serviced event does to the state is decided — and proved — here.

use vstd::prelude::*;
use crate::cache::ResourceCache;
use crate::cache::cache_upsert;
use crate::crd::Backup;
use crate::crd::BackupModel;
use crate::health::AppHealth;
use crate::metrics::MetricCache;
use crate::metrics::gen_all;
use crate::metrics::render_text;

verus! {

/// The regeneration interval in seconds between timer ticks.
pub const TICK_INTERVAL_SECONDS: u64 = 10;

/// One serviced event: a changed (added or updated) resource record from
/// the change stream, or a timer tick observed at a Unix time.
pub enum WatchEvent {
    Resource(Backup),
    Tick(i64),
}

/// Upserting a whole listing, in listing order.
pub open spec fn upsert_all(s: Seq<BackupModel>, items: Seq<BackupModel>) -> Seq<BackupModel>
    decreases items.len(),
{
    if items.len() == 0 {
        s
    } else {
        upsert_all(cache_upsert(s, items[0]), items.drop_first())
    }
}

proof fn lemma_upsert_all_push(s: Seq<BackupModel>, items: Seq<BackupModel>, b: BackupModel)
    ensures
        upsert_all(s, items.push(b)) == cache_upsert(upsert_all(s, items), b),
    decreases items.len(),
{
    let p = items.push(b);
    if items.len() == 0 {
        assert(p[0] == b);
        assert(p.drop_first() =~= Seq::<BackupModel>::empty());
        assert(upsert_all(s, p) == upsert_all(cache_upsert(s, b), p.drop_first()));
    } else {
        assert(p[0] == items[0]);
        assert(p.drop_first() =~= items.drop_first().push(b));
        lemma_upsert_all_push(cache_upsert(s, items[0]), items.drop_first(), b);
        assert(upsert_all(s, p) == upsert_all(cache_upsert(s, items[0]), items.drop_first().push(b)));
        assert(upsert_all(s, items) == upsert_all(cache_upsert(s, items[0]), items.drop_first()));
    }
}

/// Services exactly one event, as the steady-state loop does per
/// iteration. A change event upserts the resource cache and touches
/// nothing else; a tick regenerates the metric cache from the current
/// resource-cache snapshot and then records the tick in the health
/// tracker, leaving the resource cache untouched.
pub fn handle_event(
    cache: &mut ResourceCache,
    metrics: &mut MetricCache,
    health: &mut AppHealth,
    event: WatchEvent,
)
    ensures
        match event {
            WatchEvent::Resource(b) => final(cache).model() == cache_upsert(
                old(cache).model(),
                b.deep_view(),
            ) && final(metrics).model_metrics() == old(metrics).model_metrics()
                && final(metrics).model_rendered() == old(metrics).model_rendered()
                && final(health).last_run == old(health).last_run,
            WatchEvent::Tick(now) => final(cache).model() == old(cache).model()
                && final(metrics).model_metrics() == gen_all(
                old(metrics).model_metrics(),
                old(cache).model(),
            ) && final(metrics).model_rendered() == render_text(final(metrics).model_metrics())
                && final(health).last_run == Some(now),
        },
{
    match event {
        WatchEvent::Resource(b) => {
            cache.upsert(b);
        },
        WatchEvent::Tick(now) => {
            metrics.generate(cache);
            health.record_tick(now);
        },
    }
}

/// Initial reconciliation: every record of a full listing is upserted
/// into the resource cache, in listing order, and the metric cache is
/// then regenerated once from that initial snapshot. A failed listing is
/// handed in as the empty listing and leaves the caches as they were,
/// with the text re-rendered.
pub fn bootstrap(cache: &mut ResourceCache, metrics: &mut MetricCache, list: Vec<Backup>)
    ensures
        final(cache).model() == upsert_all(old(cache).model(), list.deep_view()),
        final(metrics).model_metrics() == gen_all(
            old(metrics).model_metrics(),
            final(cache).model(),
        ),
        final(metrics).model_rendered() == render_text(final(metrics).model_metrics()),
{
    let ghost lm = list.deep_view();
    let mut rest = list;
    let ghost total: int = lm.len() as int;
    while rest.len() > 0
        invariant
            rest@.len() <= total,
            lm.len() == total,
            rest.deep_view() =~= lm.skip(total - rest@.len()),
            cache.model() == upsert_all(old(cache).model(), lm.take(total - rest@.len())),
            metrics.model_metrics() == old(metrics).model_metrics(),
            metrics.model_rendered() == old(metrics).model_rendered(),
        decreases rest@.len(),
    {
        let ghost k = total - rest@.len();
        let ghost prev = rest@;
        let ghost pdv = rest.deep_view();
        let b = rest.remove(0);
        proof {
            assert(pdv =~= lm.skip(k));
            assert(b.deep_view() == pdv[0]);
            assert(lm.skip(k)[0] == lm[k]);
            assert forall|j: int| 0 <= j < rest@.len() implies rest.deep_view()[j] == lm.skip(
                k + 1,
            )[j] by {
                assert(rest@[j] == prev[j + 1]);
                assert(rest.deep_view()[j] == rest@[j].deep_view());
                assert(pdv[j + 1] == prev[j + 1].deep_view());
                assert(lm.skip(k + 1)[j] == lm.skip(k)[j + 1]);
            }
            assert(rest.deep_view() =~= lm.skip(k + 1));
            assert(lm.take(k + 1) =~= lm.take(k).push(lm[k]));
            lemma_upsert_all_push(old(cache).model(), lm.take(k), lm[k]);
        }
        cache.upsert(b);
    }
    proof {
        assert(lm.take(total) =~= lm);
    }
    metrics.generate(cache);
}

} // verus!
