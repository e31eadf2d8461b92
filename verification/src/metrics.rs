//! The metric cache: gauge metrics derived from a resource-cache snapshot,
//! keyed by (metric name, resource name), plus the rendered exposition
//! text, regenerated wholesale after every derivation.

use vstd::prelude::*;
use vstd::string::StringExecFns;
use crate::cache::ResourceCache;
use crate::clock::rfc3339_unix;
use crate::crd::BackupModel;
use crate::crd::BackupStatus;
use crate::crd::StatusModel;
use crate::crd::status_failed;
use crate::crd::status_last_transition;
use crate::crd::status_reason;
use crate::crd::status_success;

verus! {

/// Mathematical model of a gauge: its labels in insertion order and its
/// non-negative value.
pub ghost struct GaugeModel {
    pub labels: Seq<(Seq<char>, Seq<char>)>,
    pub value: int,
}

/// Mathematical model of one cache entry: the metric key and its gauge.
pub ghost struct EntryModel {
    pub metric: Seq<char>,
    pub resource: Seq<char>,
    pub gauge: GaugeModel,
}

/// The name of the status gauge.
pub open spec fn status_metric_name() -> Seq<char> {
    "backup_last_run_status"@
}

/// The name of the timestamp gauge.
pub open spec fn timestamp_metric_name() -> Seq<char> {
    "backup_last_run_timestamp"@
}

/// Upserting a label: the first pair carrying the key is replaced in
/// place; with no such pair the pair is appended.
pub open spec fn label_upsert(
    ls: Seq<(Seq<char>, Seq<char>)>,
    k: Seq<char>,
    v: Seq<char>,
) -> Seq<(Seq<char>, Seq<char>)>
    decreases ls.len(),
{
    if ls.len() == 0 {
        seq![(k, v)]
    } else if ls[0].0 == k {
        seq![(k, v)] + ls.drop_first()
    } else {
        seq![ls[0]] + label_upsert(ls.drop_first(), k, v)
    }
}

/// The gauge of the first entry carrying the key, if any.
pub open spec fn entries_find(es: Seq<EntryModel>, m: Seq<char>, r: Seq<char>) -> Option<
    GaugeModel,
>
    decreases es.len(),
{
    if es.len() == 0 {
        None
    } else if es[0].metric == m && es[0].resource == r {
        Some(es[0].gauge)
    } else {
        entries_find(es.drop_first(), m, r)
    }
}

/// Upserting an entry: the first entry carrying the key is replaced in
/// place; with no such entry the entry is appended.
pub open spec fn entries_upsert(
    es: Seq<EntryModel>,
    m: Seq<char>,
    r: Seq<char>,
    g: GaugeModel,
) -> Seq<EntryModel>
    decreases es.len(),
{
    if es.len() == 0 {
        seq![EntryModel { metric: m, resource: r, gauge: g }]
    } else if es[0].metric == m && es[0].resource == r {
        seq![EntryModel { metric: m, resource: r, gauge: g }] + es.drop_first()
    } else {
        seq![es[0]] + entries_upsert(es.drop_first(), m, r, g)
    }
}

/// A fresh gauge: value zero, only the "name" label populated.
pub open spec fn fresh_gauge(resource: Seq<char>) -> GaugeModel {
    GaugeModel { labels: seq![("name"@, resource)], value: 0 }
}

/// The cached gauge under a key, or a fresh one where the key is absent.
pub open spec fn lookup_gauge(es: Seq<EntryModel>, m: Seq<char>, r: Seq<char>) -> GaugeModel {
    match entries_find(es, m, r) {
        Some(g) => g,
        None => fresh_gauge(r),
    }
}

/// The "reason" label value: the status's reason, or "Unknown".
pub open spec fn reason_label(st: StatusModel) -> Seq<char> {
    match status_reason(st) {
        Some(r) => r,
        None => "Unknown"@,
    }
}

/// The derived status gauge: the cached (or fresh) gauge with its "reason"
/// label upserted; value 1 on success, 0 on the failed catch-all, and the
/// prior value untouched during the scheduled/running transitions.
pub open spec fn status_gauge(es: Seq<EntryModel>, name: Seq<char>, st: StatusModel) -> GaugeModel {
    let g0 = lookup_gauge(es, status_metric_name(), name);
    let labels = label_upsert(g0.labels, "reason"@, reason_label(st));
    let value = if status_success(st) {
        1
    } else if status_failed(st) {
        0
    } else {
        g0.value
    };
    GaugeModel { labels, value }
}

/// The derived timestamp gauge, present only when the status is
/// successful: the cached (or fresh) gauge, its value set to the
/// Unix-seconds reading of the authoritative condition's transition text
/// when that reading exists and fits the value's range, and left at its
/// prior value otherwise.
pub open spec fn timestamp_gauge(es: Seq<EntryModel>, name: Seq<char>, st: StatusModel) -> Option<
    GaugeModel,
> {
    if status_success(st) {
        let g0 = lookup_gauge(es, timestamp_metric_name(), name);
        let value = match status_last_transition(st) {
            Some(text) => match rfc3339_unix(text) {
                Some(ts) => if 0 <= ts <= usize::MAX {
                    ts as int
                } else {
                    g0.value
                },
                None => g0.value,
            },
            None => g0.value,
        };
        Some(GaugeModel { labels: g0.labels, value })
    } else {
        None
    }
}

/// One derivation step: a record without a status is skipped; otherwise
/// both gauges are derived from the entries as they stood before the step,
/// then the status gauge and (when present) the timestamp gauge are
/// upserted, in that order.
pub open spec fn gen_step(es: Seq<EntryModel>, b: BackupModel) -> Seq<EntryModel> {
    match b.status {
        None => es,
        Some(st) => {
            let sg = status_gauge(es, b.name, st);
            let tg = timestamp_gauge(es, b.name, st);
            let es1 = entries_upsert(es, status_metric_name(), b.name, sg);
            match tg {
                Some(g) => entries_upsert(es1, timestamp_metric_name(), b.name, g),
                None => es1,
            }
        },
    }
}

/// Full derivation: every record of the snapshot folded over the entries,
/// in cache order.
pub open spec fn gen_all(es: Seq<EntryModel>, cache: Seq<BackupModel>) -> Seq<EntryModel>
    decreases cache.len(),
{
    if cache.len() == 0 {
        es
    } else {
        gen_all(gen_step(es, cache[0]), cache.drop_first())
    }
}

/// A decimal digit as a character.
pub open spec fn spec_digit(n: int) -> char {
    if n == 0 {
        '0'
    } else if n == 1 {
        '1'
    } else if n == 2 {
        '2'
    } else if n == 3 {
        '3'
    } else if n == 4 {
        '4'
    } else if n == 5 {
        '5'
    } else if n == 6 {
        '6'
    } else if n == 7 {
        '7'
    } else if n == 8 {
        '8'
    } else {
        '9'
    }
}

/// A non-negative number in decimal, most significant digit first.
pub open spec fn dec_digits(n: int) -> Seq<char>
    decreases n when n >= 0
{
    if n < 10 {
        seq![spec_digit(n)]
    } else {
        dec_digits(n / 10).push(spec_digit(n % 10))
    }
}

/// One label as exposition text: key="value".
pub open spec fn label_text(l: (Seq<char>, Seq<char>)) -> Seq<char> {
    l.0 + "=\""@ + l.1 + "\""@
}

/// A label set as exposition text, comma-separated, in label order.
pub open spec fn labels_text(ls: Seq<(Seq<char>, Seq<char>)>) -> Seq<char>
    decreases ls.len(),
{
    if ls.len() == 0 {
        Seq::<char>::empty()
    } else if ls.len() == 1 {
        label_text(ls[0])
    } else {
        label_text(ls[0]) + ","@ + labels_text(ls.drop_first())
    }
}

/// One entry as exposition text: its type declaration line followed by
/// its sample line.
pub open spec fn entry_text(e: EntryModel) -> Seq<char> {
    "# TYPE "@ + e.metric + " gauge\n"@ + e.metric + "{"@ + labels_text(e.gauge.labels) + "} "@
        + dec_digits(e.gauge.value) + "\n"@
}

/// The whole cache as exposition text, in entry order.
pub open spec fn render_text(es: Seq<EntryModel>) -> Seq<char>
    decreases es.len(),
{
    if es.len() == 0 {
        Seq::<char>::empty()
    } else {
        entry_text(es[0]) + render_text(es.drop_first())
    }
}

/// One gauge metric: a label set in insertion order and a value.
#[derive(Clone, Debug)]
pub struct GaugeMetric {
    labels: Vec<(String, String)>,
    value: usize,
}

impl GaugeMetric {
    /// The gauge as its mathematical model.
    pub closed spec fn model(&self) -> GaugeModel {
        GaugeModel { labels: self.labels.deep_view(), value: self.value as int }
    }
}

#[derive(Clone, Debug)]
struct MetricEntry {
    metric_name: String,
    resource_name: String,
    gauge: GaugeMetric,
}

impl MetricEntry {
    spec fn model(&self) -> EntryModel {
        EntryModel {
            metric: self.metric_name@,
            resource: self.resource_name@,
            gauge: self.gauge.model(),
        }
    }
}

/// The metric cache: derived gauges under their metric keys, in insertion
/// order, and the rendered exposition text kept in sync with them.
#[derive(Clone, Debug)]
pub struct MetricCache {
    metrics: Vec<MetricEntry>,
    rendered: String,
}


proof fn lemma_label_upsert_found(ls: Seq<(Seq<char>, Seq<char>)>, k: Seq<char>, v: Seq<char>, i: int)
    requires
        0 <= i < ls.len(),
        forall|j: int| 0 <= j < i ==> ls[j].0 != k,
        ls[i].0 == k,
    ensures
        label_upsert(ls, k, v) == ls.update(i, (k, v)),
    decreases i,
{
    if i == 0 {
        assert(label_upsert(ls, k, v) =~= ls.update(0, (k, v)));
    } else {
        assert(forall|j: int| 0 <= j < i - 1 ==> ls.drop_first()[j].0 != k);
        lemma_label_upsert_found(ls.drop_first(), k, v, i - 1);
        assert(label_upsert(ls, k, v) =~= ls.update(i, (k, v)));
    }
}

proof fn lemma_label_upsert_absent(ls: Seq<(Seq<char>, Seq<char>)>, k: Seq<char>, v: Seq<char>)
    requires
        forall|j: int| 0 <= j < ls.len() ==> ls[j].0 != k,
    ensures
        label_upsert(ls, k, v) == ls.push((k, v)),
    decreases ls.len(),
{
    if ls.len() == 0 {
        assert(label_upsert(ls, k, v) =~= ls.push((k, v)));
    } else {
        lemma_label_upsert_absent(ls.drop_first(), k, v);
        assert(label_upsert(ls, k, v) =~= ls.push((k, v)));
    }
}

proof fn lemma_entries_upsert_found(es: Seq<EntryModel>, m: Seq<char>, r: Seq<char>, g: GaugeModel, i: int)
    requires
        0 <= i < es.len(),
        forall|j: int| 0 <= j < i ==> !(es[j].metric == m && es[j].resource == r),
        es[i].metric == m && es[i].resource == r,
    ensures
        entries_upsert(es, m, r, g) == es.update(i, EntryModel { metric: m, resource: r, gauge: g }),
    decreases i,
{
    if i == 0 {
        assert(entries_upsert(es, m, r, g) =~= es.update(0, EntryModel { metric: m, resource: r, gauge: g }));
    } else {
        assert(forall|j: int| 0 <= j < i - 1
            ==> !(es.drop_first()[j].metric == m && es.drop_first()[j].resource == r));
        lemma_entries_upsert_found(es.drop_first(), m, r, g, i - 1);
        assert(entries_upsert(es, m, r, g) =~= es.update(i, EntryModel { metric: m, resource: r, gauge: g }));
    }
}

proof fn lemma_entries_upsert_absent(es: Seq<EntryModel>, m: Seq<char>, r: Seq<char>, g: GaugeModel)
    requires
        forall|j: int| 0 <= j < es.len() ==> !(es[j].metric == m && es[j].resource == r),
    ensures
        entries_upsert(es, m, r, g) == es.push(EntryModel { metric: m, resource: r, gauge: g }),
    decreases es.len(),
{
    if es.len() == 0 {
        assert(entries_upsert(es, m, r, g) =~= es.push(EntryModel { metric: m, resource: r, gauge: g }));
    } else {
        lemma_entries_upsert_absent(es.drop_first(), m, r, g);
        assert(entries_upsert(es, m, r, g) =~= es.push(EntryModel { metric: m, resource: r, gauge: g }));
    }
}

proof fn lemma_entries_find_from(es: Seq<EntryModel>, m: Seq<char>, r: Seq<char>, i: int)
    requires
        0 <= i <= es.len(),
        forall|j: int| 0 <= j < i ==> !(es[j].metric == m && es[j].resource == r),
    ensures
        entries_find(es, m, r) == entries_find(es.skip(i), m, r),
    decreases i,
{
    if i == 0 {
        assert(es.skip(0) =~= es);
    } else {
        lemma_entries_find_from(es, m, r, i - 1);
        assert(es.skip(i - 1).drop_first() =~= es.skip(i));
        assert(es.skip(i - 1)[0] == es[i - 1]);
    }
}

fn clone_gauge(g: &GaugeMetric) -> (r: GaugeMetric)
    ensures
        r.model() == g.model(),
{
    let mut labels: Vec<(String, String)> = Vec::new();
    let mut i: usize = 0;
    while i < g.labels.len()
        invariant
            i <= g.labels.len(),
            labels@.len() == i,
            forall|j: int| 0 <= j < i
                ==> (#[trigger] labels@[j]).deep_view() == g.labels@[j].deep_view(),
        decreases g.labels.len() - i,
    {
        let ghost prev = labels@;
        let k = g.labels[i].0.clone();
        let v = g.labels[i].1.clone();
        labels.push((k, v));
        proof {
            assert(labels@ == prev.push((k, v)));
            assert((k, v).deep_view() == g.labels@[i as int].deep_view());
            assert(forall|j: int| 0 <= j < i ==> labels@[j] == prev[j]);
        }
        i += 1;
    }
    proof {
        assert(labels.deep_view() =~= g.labels.deep_view()) by {
            assert(labels.deep_view().len() == g.labels.deep_view().len());
            assert forall|j: int| 0 <= j < labels@.len() implies labels.deep_view()[j]
                == g.labels.deep_view()[j] by {
                assert(labels.deep_view()[j] == labels@[j].deep_view());
                assert(g.labels.deep_view()[j] == g.labels@[j].deep_view());
            }
        }
    }
    GaugeMetric { labels, value: g.value }
}

/// Replaces the first label carrying the key, else appends the pair.
fn gauge_set_label(g: &mut GaugeMetric, k: &str, v: String)
    ensures
        final(g).model().labels == label_upsert(old(g).model().labels, k@, v@),
        final(g).model().value == old(g).model().value,
{
    let ghost ls0 = g.model().labels;
    let mut i: usize = 0;
    while i < g.labels.len()
        invariant
            i <= g.labels.len(),
            g.model() == old(g).model(),
            ls0 == g.labels.deep_view(),
            forall|j: int| 0 <= j < i ==> ls0[j].0 != k@,
        decreases g.labels.len() - i,
    {
        if crate::crd::string_eq(&g.labels[i].0, k) {
            proof {
                assert(ls0[i as int] == g.labels@[i as int].deep_view());
                lemma_label_upsert_found(ls0, k@, v@, i as int);
            }
            g.labels[i] = (k.to_owned(), v);
            proof {
                assert(g.labels.deep_view() =~= ls0.update(i as int, (k@, v@)));
            }
            return;
        }
        proof {
            assert(ls0[i as int] == g.labels@[i as int].deep_view());
        }
        i += 1;
    }
    proof {
        lemma_label_upsert_absent(ls0, k@, v@);
    }
    g.labels.push((k.to_owned(), v));
    proof {
        assert(g.labels.deep_view() =~= ls0.push((k@, v@)));
    }
}

impl MetricCache {
    /// The entries as their mathematical models, in insertion order.
    pub closed spec fn model_metrics(&self) -> Seq<EntryModel> {
        Seq::new(self.metrics@.len(), |i: int| self.metrics@[i].model())
    }

    /// The cached exposition text as a character sequence.
    pub closed spec fn model_rendered(&self) -> Seq<char> {
        self.rendered@
    }

    /// An empty cache rendering to empty text.
    pub fn new() -> (r: MetricCache)
        ensures
            r.model_metrics() == Seq::<EntryModel>::empty(),
            r.model_rendered() == Seq::<char>::empty(),
    {
        let r = MetricCache { metrics: Vec::new(), rendered: String::new() };
        proof {
            assert(r.model_metrics() =~= Seq::<EntryModel>::empty());
        }
        r
    }

    /// The cached gauge under a key, or a fresh one when the key is
    /// absent.
    fn find_or_create_metric(&self, key: (String, String)) -> (g: GaugeMetric)
        ensures
            g.model() == lookup_gauge(self.model_metrics(), key.0@, key.1@),
    {
        let ghost es = self.model_metrics();
        let mut i: usize = 0;
        while i < self.metrics.len()
            invariant
                i <= self.metrics.len(),
                es == self.model_metrics(),
                forall|j: int| 0 <= j < i
                    ==> !((#[trigger] es[j]).metric == key.0@ && es[j].resource == key.1@),
            decreases self.metrics.len() - i,
        {
            let hit = crate::crd::string_eq(&self.metrics[i].metric_name, key.0.as_str())
                && crate::crd::string_eq(&self.metrics[i].resource_name, key.1.as_str());
            proof {
                assert(es[i as int] == self.metrics@[i as int].model());
            }
            if hit {
                proof {
                    lemma_entries_find_from(es, key.0@, key.1@, i as int);
                    assert(es.skip(i as int)[0] == es[i as int]);
                    assert(entries_find(es, key.0@, key.1@) == Some(es[i as int].gauge));
                }
                return clone_gauge(&self.metrics[i].gauge);
            }
            i += 1;
        }
        proof {
            lemma_entries_find_from(es, key.0@, key.1@, es.len() as int);
            assert(es.skip(es.len() as int) =~= Seq::<EntryModel>::empty());
            assert(entries_find(es, key.0@, key.1@) is None);
        }
        let mut labels: Vec<(String, String)> = Vec::new();
        labels.push(("name".to_owned(), key.1));
        let g = GaugeMetric { labels, value: 0 };
        proof {
            assert(g.model().labels =~= fresh_gauge(key.1@).labels);
        }
        g
    }

    /// Upserts a gauge under a key: the first entry with that key is
    /// replaced, else the entry is appended. The rendered text is
    /// untouched.
    fn upsert_entry(&mut self, metric_name: &str, resource_name: String, g: GaugeMetric)
        ensures
            final(self).model_metrics() == entries_upsert(
                old(self).model_metrics(),
                metric_name@,
                resource_name@,
                g.model(),
            ),
            final(self).model_rendered() == old(self).model_rendered(),
    {
        let ghost es = self.model_metrics();
        let ghost gm = g.model();
        let mut i: usize = 0;
        while i < self.metrics.len()
            invariant
                i <= self.metrics.len(),
                es == self.model_metrics(),
                es == old(self).model_metrics(),
                self.model_rendered() == old(self).model_rendered(),
                gm == g.model(),
                forall|j: int| 0 <= j < i
                    ==> !((#[trigger] es[j]).metric == metric_name@ && es[j].resource == resource_name@),
            decreases self.metrics.len() - i,
        {
            let hit = crate::crd::string_eq(&self.metrics[i].metric_name, metric_name)
                && crate::crd::string_eq(&self.metrics[i].resource_name, resource_name.as_str());
            proof {
                assert(es[i as int] == self.metrics@[i as int].model());
            }
            if hit {
                proof {
                    lemma_entries_upsert_found(es, metric_name@, resource_name@, gm, i as int);
                }
                self.metrics[i] = MetricEntry {
                    metric_name: metric_name.to_owned(),
                    resource_name,
                    gauge: g,
                };
                proof {
                    assert(self.model_metrics() =~= es.update(
                        i as int,
                        EntryModel { metric: metric_name@, resource: resource_name@, gauge: gm },
                    ));
                }
                return;
            }
            i += 1;
        }
        proof {
            lemma_entries_upsert_absent(es, metric_name@, resource_name@, gm);
        }
        self.metrics.push(MetricEntry {
            metric_name: metric_name.to_owned(),
            resource_name,
            gauge: g,
        });
        proof {
            assert(self.model_metrics() =~= es.push(
                EntryModel { metric: metric_name@, resource: resource_name@, gauge: gm },
            ));
        }
    }

    /// Derives the status gauge for one record from the entries as they
    /// stand, without mutating them.
    fn status(&self, name: String, status: &BackupStatus) -> (g: GaugeMetric)
        ensures
            g.model() == status_gauge(self.model_metrics(), name@, status.deep_view()),
    {
        let ghost nm = name@;
        let mut metric = self.find_or_create_metric(("backup_last_run_status".to_owned(), name));
        let reason_value = match status.reason() {
            Some(r) => r,
            None => "Unknown".to_owned(),
        };
        gauge_set_label(&mut metric, "reason", reason_value);
        if status.success() {
            metric.value = 1;
        }
        if status.failed() {
            metric.value = 0;
        }
        metric
    }

    /// Derives the timestamp gauge for one record from the entries as
    /// they stand, without mutating them: present only on success.
    fn timestamp(&self, name: String, status: &BackupStatus) -> (g: Option<GaugeMetric>)
        ensures
            match timestamp_gauge(self.model_metrics(), name@, status.deep_view()) {
                Some(gm) => g matches Some(x) && x.model() == gm,
                None => g is None,
            },
    {
        if !status.success() {
            return None;
        }
        let mut metric = self.find_or_create_metric((
            "backup_last_run_timestamp".to_owned(),
            name,
        ));
        match status.last_run() {
            Some(ts) => {
                if ts >= 0 && (ts as u128) <= (usize::MAX as u128) {
                    metric.value = ts as usize;
                }
            },
            None => {},
        }
        Some(metric)
    }
}


/// Appending one label set to the text: the separator stands between
/// labels, not after the last.
proof fn lemma_labels_text_push(ls: Seq<(Seq<char>, Seq<char>)>, l: (Seq<char>, Seq<char>))
    ensures
        labels_text(ls.push(l)) == if ls.len() == 0 {
            label_text(l)
        } else {
            labels_text(ls) + ","@ + label_text(l)
        },
    decreases ls.len(),
{
    let p = ls.push(l);
    if ls.len() == 0 {
        assert(p.len() == 1);
        assert(p[0] == l);
    } else {
        assert(p[0] == ls[0]);
        assert(p.drop_first() =~= ls.drop_first().push(l));
        lemma_labels_text_push(ls.drop_first(), l);
        if ls.len() == 1 {
            assert(labels_text(ls) == label_text(ls[0]));
        }
    }
}

proof fn lemma_render_text_push(es: Seq<EntryModel>, e: EntryModel)
    ensures
        render_text(es.push(e)) == render_text(es) + entry_text(e),
    decreases es.len(),
{
    let p = es.push(e);
    if es.len() == 0 {
        assert(p[0] == e);
        assert(p.drop_first() =~= Seq::<EntryModel>::empty());
        assert(render_text(p) == entry_text(e) + render_text(p.drop_first()));
        assert(render_text(p.drop_first()) == Seq::<char>::empty());
        assert(render_text(es) == Seq::<char>::empty());
        assert(entry_text(e) + Seq::<char>::empty() =~= Seq::<char>::empty() + entry_text(e));
    } else {
        assert(p[0] == es[0]);
        assert(p.drop_first() =~= es.drop_first().push(e));
        lemma_render_text_push(es.drop_first(), e);
        assert(render_text(p) == entry_text(es[0]) + render_text(es.drop_first().push(e)));
        assert(render_text(es) == entry_text(es[0]) + render_text(es.drop_first()));
        assert(entry_text(es[0]) + (render_text(es.drop_first()) + entry_text(e))
            =~= (entry_text(es[0]) + render_text(es.drop_first())) + entry_text(e));
    }
}

proof fn lemma_gen_all_push(es: Seq<EntryModel>, s: Seq<BackupModel>, b: BackupModel)
    ensures
        gen_all(es, s.push(b)) == gen_step(gen_all(es, s), b),
    decreases s.len(),
{
    let p = s.push(b);
    if s.len() == 0 {
        assert(p[0] == b);
        assert(p.drop_first() =~= Seq::<BackupModel>::empty());
        assert(gen_all(es, p) == gen_all(gen_step(es, b), p.drop_first()));
        assert(gen_all(gen_step(es, b), p.drop_first()) == gen_step(es, b));
        assert(gen_all(es, s) == es);
    } else {
        assert(p[0] == s[0]);
        assert(p.drop_first() =~= s.drop_first().push(b));
        lemma_gen_all_push(gen_step(es, s[0]), s.drop_first(), b);
        assert(gen_all(es, p) == gen_all(gen_step(es, s[0]), s.drop_first().push(b)));
        assert(gen_all(es, s) == gen_all(gen_step(es, s[0]), s.drop_first()));
    }
}

/// One decimal digit as text.
fn digit_str(d: usize) -> (r: &'static str)
    requires
        d < 10,
    ensures
        r@ == seq![spec_digit(d as int)],
{
    proof {
        reveal_strlit("0");
        reveal_strlit("1");
        reveal_strlit("2");
        reveal_strlit("3");
        reveal_strlit("4");
        reveal_strlit("5");
        reveal_strlit("6");
        reveal_strlit("7");
        reveal_strlit("8");
        reveal_strlit("9");
    }
    if d == 0 {
        proof { assert("0"@ =~= seq![spec_digit(0)]); }
        "0"
    } else if d == 1 {
        proof { assert("1"@ =~= seq![spec_digit(1)]); }
        "1"
    } else if d == 2 {
        proof { assert("2"@ =~= seq![spec_digit(2)]); }
        "2"
    } else if d == 3 {
        proof { assert("3"@ =~= seq![spec_digit(3)]); }
        "3"
    } else if d == 4 {
        proof { assert("4"@ =~= seq![spec_digit(4)]); }
        "4"
    } else if d == 5 {
        proof { assert("5"@ =~= seq![spec_digit(5)]); }
        "5"
    } else if d == 6 {
        proof { assert("6"@ =~= seq![spec_digit(6)]); }
        "6"
    } else if d == 7 {
        proof { assert("7"@ =~= seq![spec_digit(7)]); }
        "7"
    } else if d == 8 {
        proof { assert("8"@ =~= seq![spec_digit(8)]); }
        "8"
    } else {
        proof { assert("9"@ =~= seq![spec_digit(9)]); }
        "9"
    }
}

/// Appends a value in decimal, most significant digit first.
fn append_value(out: &mut String, v: usize)
    ensures
        final(out)@ == old(out)@ + dec_digits(v as int),
    decreases v,
{
    if v < 10 {
        out.append(digit_str(v));
        proof {
            assert(final(out)@ =~= old(out)@ + dec_digits(v as int));
        }
    } else {
        append_value(out, v / 10);
        out.append(digit_str(v % 10));
        proof {
            assert(final(out)@ =~= old(out)@ + dec_digits(v as int));
        }
    }
}

/// Appends a label set, comma-separated, in label order.
fn append_labels(out: &mut String, labels: &Vec<(String, String)>)
    ensures
        final(out)@ == old(out)@ + labels_text(labels.deep_view()),
{
    let ghost dv = labels.deep_view();
    let mut i: usize = 0;
    while i < labels.len()
        invariant
            i <= labels.len(),
            dv == labels.deep_view(),
            dv.len() == labels@.len(),
            out@ == old(out)@ + labels_text(dv.take(i as int)),
        decreases labels.len() - i,
    {
        let ghost before = out@;
        if i > 0 {
            out.append(",");
        }
        out.append(labels[i].0.as_str());
        out.append("=\"");
        out.append(labels[i].1.as_str());
        out.append("\"");
        proof {
            assert(dv[i as int] == labels@[i as int].deep_view());
            assert(dv.take(i as int + 1) =~= dv.take(i as int).push(dv[i as int]));
            lemma_labels_text_push(dv.take(i as int), dv[i as int]);
            if i == 0 {
                assert(dv.take(0) =~= Seq::<(Seq<char>, Seq<char>)>::empty());
                assert(labels_text(dv.take(0)) =~= Seq::<char>::empty());
                assert(before =~= old(out)@);
            }
            assert(out@ =~= old(out)@ + labels_text(dv.take(i as int + 1)));
        }
        i += 1;
    }
    proof {
        assert(dv.take(dv.len() as int) =~= dv);
    }
}


impl MetricCache {
    /// The cached exposition text, verbatim.
    pub fn rendered(&self) -> (r: String)
        ensures
            r@ == self.model_rendered(),
    {
        self.rendered.clone()
    }

    /// Renders every entry, in entry order, fully replacing the previous
    /// text; the entries themselves are untouched.
    fn render(&mut self)
        ensures
            final(self).model_metrics() == old(self).model_metrics(),
            final(self).model_rendered() == render_text(old(self).model_metrics()),
    {
        let ghost es = self.model_metrics();
        let mut out = String::new();
        let mut i: usize = 0;
        while i < self.metrics.len()
            invariant
                i <= self.metrics.len(),
                es == self.model_metrics(),
                es == old(self).model_metrics(),
                self.metrics@ == old(self).metrics@,
                self.rendered@ == old(self).rendered@,
                out@ == render_text(es.take(i as int)),
            decreases self.metrics.len() - i,
        {
            out.append("# TYPE ");
            out.append(self.metrics[i].metric_name.as_str());
            out.append(" gauge\n");
            out.append(self.metrics[i].metric_name.as_str());
            out.append("{");
            append_labels(&mut out, &self.metrics[i].gauge.labels);
            out.append("} ");
            append_value(&mut out, self.metrics[i].gauge.value);
            out.append("\n");
            proof {
                assert(es[i as int] == self.metrics@[i as int].model());
                assert(es.take(i as int + 1) =~= es.take(i as int).push(es[i as int]));
                lemma_render_text_push(es.take(i as int), es[i as int]);
                assert(out@ =~= render_text(es.take(i as int)) + entry_text(es[i as int]));
            }
            i += 1;
        }
        proof {
            assert(es.take(es.len() as int) =~= es);
        }
        self.rendered = out;
    }

    /// Regenerates the cache from a resource-cache snapshot: every record
    /// folded over the entries in cache order, then the text re-rendered
    /// from the updated entries.
    pub fn generate(&mut self, cache: &ResourceCache)
        ensures
            final(self).model_metrics() == gen_all(old(self).model_metrics(), cache.model()),
            final(self).model_rendered() == render_text(final(self).model_metrics()),
    {
        let ghost es0 = self.model_metrics();
        let ghost cm = cache.model();
        let n = cache.len();
        let mut i: usize = 0;
        while i < n
            invariant
                i <= n,
                n == cm.len(),
                cm == cache.model(),
                es0 == old(self).model_metrics(),
                self.model_metrics() == gen_all(es0, cm.take(i as int)),
            decreases n - i,
        {
            let ghost es_i = self.model_metrics();
            let b = cache.get(i);
            match &b.status {
                None => {
                    proof {
                        assert(b.deep_view().status is None);
                        assert(gen_step(es_i, cm[i as int]) == es_i);
                    }
                },
                Some(st) => {
                    proof {
                        assert(b.deep_view().status matches Some(x) && x == st.deep_view());
                    }
                    let status_metric = self.status(b.name.clone(), st);
                    let timestamp_metric = self.timestamp(b.name.clone(), st);
                    self.upsert_entry("backup_last_run_status", b.name.clone(), status_metric);
                    match timestamp_metric {
                        Some(g) => {
                            self.upsert_entry("backup_last_run_timestamp", b.name.clone(), g);
                        },
                        None => {},
                    }
                    proof {
                        assert(self.model_metrics() == gen_step(es_i, cm[i as int]));
                    }
                },
            }
            proof {
                assert(cm.take(i as int + 1) =~= cm.take(i as int).push(cm[i as int]));
                lemma_gen_all_push(es0, cm.take(i as int), cm[i as int]);
            }
            i += 1;
        }
        proof {
            assert(cm.take(cm.len() as int) =~= cm);
        }
        self.render();
    }
}

impl Default for MetricCache {
    /// The default cache is empty and renders to empty text.
    fn default() -> (r: MetricCache)
        ensures
            r.model_metrics() == Seq::<EntryModel>::empty(),
            r.model_rendered() == Seq::<char>::empty(),
    {
        MetricCache::new()
    }
}

/// Law: a record whose Complete condition reports "True" derives a status
/// gauge of value 1; the failed catch-all derives value 0; the scheduled
/// and running transitions leave the prior cached value untouched.
pub proof fn lemma_status_gauge_values(es: Seq<EntryModel>, name: Seq<char>, st: StatusModel)
    ensures
        status_success(st) ==> status_gauge(es, name, st).value == 1,
        status_failed(st) ==> status_gauge(es, name, st).value == 0,
        !status_success(st) && !status_failed(st) ==> status_gauge(es, name, st).value
            == lookup_gauge(es, status_metric_name(), name).value,
{
}

/// Law: rendering is a pure function of the entries: equal mappings
/// render to identical text.
pub proof fn lemma_render_deterministic(a: Seq<EntryModel>, b: Seq<EntryModel>)
    requires
        a == b,
    ensures
        render_text(a) == render_text(b),
{
}


/// The two metric names differ.
proof fn lemma_metric_names_distinct()
    ensures
        status_metric_name() != timestamp_metric_name(),
{
    reveal_strlit("backup_last_run_status");
    reveal_strlit("backup_last_run_timestamp");
    assert(status_metric_name().len() != timestamp_metric_name().len());
}

/// Finding after an upsert: the upserted key reads back the upserted
/// gauge; every other key reads as before.
proof fn lemma_find_after_upsert(
    es: Seq<EntryModel>,
    m: Seq<char>,
    r: Seq<char>,
    g: GaugeModel,
    m2: Seq<char>,
    r2: Seq<char>,
)
    ensures
        entries_find(entries_upsert(es, m, r, g), m2, r2) == if m == m2 && r == r2 {
            Some(g)
        } else {
            entries_find(es, m2, r2)
        },
    decreases es.len(),
{
    let e = EntryModel { metric: m, resource: r, gauge: g };
    if es.len() == 0 {
        let u = entries_upsert(es, m, r, g);
        assert(u == seq![e]);
        assert(u.drop_first() =~= Seq::<EntryModel>::empty());
        if m2 == m && r2 == r {
            assert(entries_find(u, m2, r2) == Some(g));
        } else {
            assert(!(u[0].metric == m2 && u[0].resource == r2));
            assert(entries_find(u, m2, r2) == entries_find(u.drop_first(), m2, r2));
            assert(entries_find(u.drop_first(), m2, r2) is None);
        }
    } else if es[0].metric == m && es[0].resource == r {
        let u = entries_upsert(es, m, r, g);
        assert(u == seq![e] + es.drop_first());
        assert(u[0] == e);
        assert(u.drop_first() =~= es.drop_first());
        if m2 == m && r2 == r {
            assert(entries_find(u, m2, r2) == Some(g));
        } else {
            assert(!(u[0].metric == m2 && u[0].resource == r2));
            assert(!(es[0].metric == m2 && es[0].resource == r2));
            assert(entries_find(u, m2, r2) == entries_find(es.drop_first(), m2, r2));
            assert(entries_find(es, m2, r2) == entries_find(es.drop_first(), m2, r2));
        }
    } else {
        let u = entries_upsert(es, m, r, g);
        let t = entries_upsert(es.drop_first(), m, r, g);
        assert(u == seq![es[0]] + t);
        assert(u[0] == es[0]);
        assert(u.drop_first() =~= t);
        lemma_find_after_upsert(es.drop_first(), m, r, g, m2, r2);
        if es[0].metric == m2 && es[0].resource == r2 {
            assert(!(m == m2 && r == r2));
            assert(entries_find(u, m2, r2) == Some(es[0].gauge));
            assert(entries_find(es, m2, r2) == Some(es[0].gauge));
        } else {
            assert(entries_find(u, m2, r2) == entries_find(t, m2, r2));
            assert(entries_find(es, m2, r2) == entries_find(es.drop_first(), m2, r2));
        }
    }
}

/// Upserting a label pair twice with one key and value equals upserting
/// it once.
proof fn lemma_label_upsert_idem(ls: Seq<(Seq<char>, Seq<char>)>, k: Seq<char>, v: Seq<char>)
    ensures
        label_upsert(label_upsert(ls, k, v), k, v) == label_upsert(ls, k, v),
    decreases ls.len(),
{
    let l1 = label_upsert(ls, k, v);
    if ls.len() == 0 {
        assert(l1 == seq![(k, v)]);
        assert(l1[0].0 == k);
        assert(label_upsert(l1, k, v) =~= l1);
    } else if ls[0].0 == k {
        assert(l1 == seq![(k, v)] + ls.drop_first());
        assert(l1[0].0 == k);
        assert(label_upsert(l1, k, v) =~= l1);
    } else {
        let t = label_upsert(ls.drop_first(), k, v);
        assert(l1 == seq![ls[0]] + t);
        assert(l1[0] == ls[0]);
        assert(l1.drop_first() =~= t);
        lemma_label_upsert_idem(ls.drop_first(), k, v);
        assert(label_upsert(l1, k, v) == seq![l1[0]] + label_upsert(l1.drop_first(), k, v));
        assert(label_upsert(l1, k, v) =~= l1);
    }
}

/// Upserting back the gauge a key already holds changes nothing.
proof fn lemma_upsert_found_same(es: Seq<EntryModel>, m: Seq<char>, r: Seq<char>, g: GaugeModel)
    requires
        entries_find(es, m, r) == Some(g),
    ensures
        entries_upsert(es, m, r, g) == es,
    decreases es.len(),
{
    if es[0].metric == m && es[0].resource == r {
        assert(es[0].gauge == g);
        assert(EntryModel { metric: m, resource: r, gauge: g } == es[0]);
        assert(entries_upsert(es, m, r, g) =~= es);
    } else {
        lemma_upsert_found_same(es.drop_first(), m, r, g);
        assert(entries_upsert(es, m, r, g) =~= es);
    }
}

/// A derivation step touches no key of another resource.
proof fn lemma_gen_step_frame(es: Seq<EntryModel>, b: BackupModel, m2: Seq<char>, r2: Seq<char>)
    requires
        r2 != b.name,
    ensures
        entries_find(gen_step(es, b), m2, r2) == entries_find(es, m2, r2),
{
    match b.status {
        None => {},
        Some(st) => {
            let sg = status_gauge(es, b.name, st);
            let es1 = entries_upsert(es, status_metric_name(), b.name, sg);
            lemma_find_after_upsert(es, status_metric_name(), b.name, sg, m2, r2);
            match timestamp_gauge(es, b.name, st) {
                Some(tg) => {
                    lemma_find_after_upsert(es1, timestamp_metric_name(), b.name, tg, m2, r2);
                },
                None => {},
            }
        },
    }
}

/// What a derivation step stores under the resource's two keys.
proof fn lemma_gen_step_stores(es: Seq<EntryModel>, b: BackupModel, st: StatusModel)
    requires
        b.status == Some(st),
    ensures
        entries_find(gen_step(es, b), status_metric_name(), b.name) == Some(
            status_gauge(es, b.name, st),
        ),
        timestamp_gauge(es, b.name, st) matches Some(tg) ==> entries_find(
            gen_step(es, b),
            timestamp_metric_name(),
            b.name,
        ) == Some(tg),
{
    lemma_metric_names_distinct();
    let sg = status_gauge(es, b.name, st);
    let es1 = entries_upsert(es, status_metric_name(), b.name, sg);
    lemma_find_after_upsert(es, status_metric_name(), b.name, sg, status_metric_name(), b.name);
    match timestamp_gauge(es, b.name, st) {
        Some(tg) => {
            lemma_find_after_upsert(
                es1,
                timestamp_metric_name(),
                b.name,
                tg,
                status_metric_name(),
                b.name,
            );
            lemma_find_after_upsert(
                es1,
                timestamp_metric_name(),
                b.name,
                tg,
                timestamp_metric_name(),
                b.name,
            );
        },
        None => {},
    }
}

/// A derivation step is a no-op on entries that already hold what the
/// step would derive.
proof fn lemma_gen_step_stable(
    x: Seq<EntryModel>,
    es: Seq<EntryModel>,
    b: BackupModel,
    st: StatusModel,
)
    requires
        b.status == Some(st),
        entries_find(x, status_metric_name(), b.name) == Some(status_gauge(es, b.name, st)),
        timestamp_gauge(es, b.name, st) matches Some(tg) ==> entries_find(
            x,
            timestamp_metric_name(),
            b.name,
        ) == Some(tg),
    ensures
        gen_step(x, b) == x,
{
    let sg = status_gauge(es, b.name, st);
    assert(status_gauge(x, b.name, st) == sg) by {
        lemma_label_upsert_idem(
            lookup_gauge(es, status_metric_name(), b.name).labels,
            "reason"@,
            reason_label(st),
        );
    }
    lemma_upsert_found_same(x, status_metric_name(), b.name, sg);
    match timestamp_gauge(es, b.name, st) {
        Some(tg) => {
            assert(timestamp_gauge(x, b.name, st) == Some(tg));
            lemma_upsert_found_same(x, timestamp_metric_name(), b.name, tg);
        },
        None => {
            assert(timestamp_gauge(x, b.name, st) is None);
        },
    }
}

/// Finding a key of a resource that a derivation pass never visits reads
/// as before the pass.
proof fn lemma_gen_all_frame(
    es: Seq<EntryModel>,
    c: Seq<BackupModel>,
    m2: Seq<char>,
    r2: Seq<char>,
)
    requires
        forall|j: int| 0 <= j < c.len() ==> c[j].name != r2,
    ensures
        entries_find(gen_all(es, c), m2, r2) == entries_find(es, m2, r2),
    decreases c.len(),
{
    if c.len() > 0 {
        lemma_gen_step_frame(es, c[0], m2, r2);
        assert(forall|j: int| 0 <= j < c.drop_first().len() ==> c.drop_first()[j].name != r2);
        lemma_gen_all_frame(gen_step(es, c[0]), c.drop_first(), m2, r2);
    }
}

/// Law: derivation is idempotent. Regenerating from an unchanged
/// snapshot — names unique, as a cache built by upserts keeps them —
/// reproduces the same entries, and hence (the renderer being a pure
/// function of the entries) the same text, byte for byte.
pub proof fn lemma_generate_idempotent(es: Seq<EntryModel>, c: Seq<BackupModel>)
    requires
        crate::cache::unique_names(c),
    ensures
        gen_all(gen_all(es, c), c) == gen_all(es, c),
    decreases c.len(),
{
    if c.len() == 0 {
    } else {
        let b = c[0];
        let cr = c.drop_first();
        let es1 = gen_step(es, b);
        let f = gen_all(es1, cr);
        assert(gen_all(es, c) == f);
        assert(forall|j: int| 0 <= j < cr.len() ==> cr[j].name != b.name) by {
            assert(forall|j: int| 0 <= j < cr.len() ==> cr[j] == c[j + 1]);
        }
        match b.status {
            None => {
                assert(gen_step(f, b) == f);
            },
            Some(st) => {
                lemma_gen_step_stores(es, b, st);
                lemma_gen_all_frame(es1, cr, status_metric_name(), b.name);
                lemma_gen_all_frame(es1, cr, timestamp_metric_name(), b.name);
                lemma_gen_step_stable(f, es, b, st);
            },
        }
        assert(crate::cache::unique_names(cr)) by {
            assert(forall|i: int, j: int| 0 <= i < j < cr.len() ==> cr[i].name != cr[j].name) by {
                assert(forall|i: int| 0 <= i < cr.len() ==> cr[i] == c[i + 1]);
            }
        }
        lemma_generate_idempotent(es1, cr);
        assert(gen_all(f, c) == gen_all(gen_step(f, b), cr));
        assert(gen_all(gen_all(es1, cr), cr) == f);
    }
}

} // verus!
