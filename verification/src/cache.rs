//! The resource cache: the last-known observed record of every backup
//! resource, keyed by name, in insertion order. Mutated only by the watch
//! loop, through upserts.

use vstd::prelude::*;
use crate::crd::Backup;
use crate::crd::BackupModel;

verus! {

/// Upserting a record: the first entry carrying the same name is replaced
/// in place; with no such entry the record is appended.
pub open spec fn cache_upsert(s: Seq<BackupModel>, b: BackupModel) -> Seq<BackupModel>
    decreases s.len(),
{
    if s.len() == 0 {
        seq![b]
    } else if s[0].name == b.name {
        seq![b] + s.drop_first()
    } else {
        seq![s[0]] + cache_upsert(s.drop_first(), b)
    }
}

/// No two entries carry the same name.
pub open spec fn unique_names(s: Seq<BackupModel>) -> bool {
    forall|i: int, j: int| 0 <= i < j < s.len() ==> s[i].name != s[j].name
}

/// When the record's name stands at index `i` and nowhere earlier, the
/// upsert replaces exactly that entry.
proof fn lemma_cache_upsert_found(s: Seq<BackupModel>, b: BackupModel, i: int)
    requires
        0 <= i < s.len(),
        forall|j: int| 0 <= j < i ==> s[j].name != b.name,
        s[i].name == b.name,
    ensures
        cache_upsert(s, b) == s.update(i, b),
    decreases i,
{
    if i == 0 {
        assert(cache_upsert(s, b) =~= s.update(0, b));
    } else {
        assert(forall|j: int| 0 <= j < i - 1 ==> s.drop_first()[j].name != b.name);
        lemma_cache_upsert_found(s.drop_first(), b, i - 1);
        assert(cache_upsert(s, b) =~= s.update(i, b));
    }
}

/// When no entry carries the record's name, the upsert appends the record.
proof fn lemma_cache_upsert_absent(s: Seq<BackupModel>, b: BackupModel)
    requires
        forall|j: int| 0 <= j < s.len() ==> s[j].name != b.name,
    ensures
        cache_upsert(s, b) == s.push(b),
    decreases s.len(),
{
    if s.len() == 0 {
        assert(cache_upsert(s, b) =~= s.push(b));
    } else {
        lemma_cache_upsert_absent(s.drop_first(), b);
        assert(cache_upsert(s, b) =~= s.push(b));
    }
}

/// The resource cache, keyed by resource name.
#[derive(Clone, Debug)]
pub struct ResourceCache {
    entries: Vec<Backup>,
}

impl ResourceCache {
    /// The cache as the sequence of its records, in insertion order.
    pub closed spec fn model(&self) -> Seq<BackupModel> {
        self.entries.deep_view()
    }

    /// An empty cache.
    pub fn new() -> (r: ResourceCache)
        ensures
            r.model() == Seq::<BackupModel>::empty(),
    {
        let r = ResourceCache { entries: Vec::new() };
        proof {
            assert(r.model() =~= Seq::<BackupModel>::empty());
        }
        r
    }

    /// How many records the cache holds.
    pub fn len(&self) -> (n: usize)
        ensures
            n == self.model().len(),
    {
        self.entries.len()
    }

    /// The record at a position, in insertion order.
    pub fn get(&self, i: usize) -> (b: &Backup)
        requires
            i < self.model().len(),
        ensures
            b.deep_view() == self.model()[i as int],
    {
        &self.entries[i]
    }

    /// Upserts a record: the first entry with the same name is replaced,
    /// else the record is appended. Names unique before stay unique after.
    pub fn upsert(&mut self, b: Backup)
        ensures
            final(self).model() == cache_upsert(old(self).model(), b.deep_view()),
    {
        let ghost m0 = self.model();
        let ghost bm = b.deep_view();
        let mut i: usize = 0;
        while i < self.entries.len()
            invariant
                i <= self.entries.len(),
                self.model() == m0,
                m0 == self.entries.deep_view(),
                m0 == old(self).model(),
                bm == b.deep_view(),
                forall|j: int| 0 <= j < i ==> m0[j].name != bm.name,
            decreases self.entries.len() - i,
        {
            if string_eq_ref(&self.entries[i].name, &b.name) {
                proof {
                    assert(m0[i as int] == self.entries@[i as int].deep_view());
                    lemma_cache_upsert_found(m0, bm, i as int);
                }
                self.entries[i] = b;
                proof {
                    assert(self.entries.deep_view() =~= m0.update(i as int, bm));
                }
                return;
            }
            i += 1;
        }
        proof {
            lemma_cache_upsert_absent(m0, bm);
        }
        self.entries.push(b);
        proof {
            assert(self.entries.deep_view() =~= m0.push(bm));
        }
    }
}

/// Compares two owned strings by their character sequences.
fn string_eq_ref(s: &String, t: &String) -> (r: bool)
    ensures
        r == (s@ == t@),
{
    *s == *t
}

/// Law: upserting preserves uniqueness of names.
pub proof fn lemma_upsert_keeps_unique(s: Seq<BackupModel>, b: BackupModel)
    requires
        unique_names(s),
    ensures
        unique_names(cache_upsert(s, b)),
    decreases s.len(),
{
    if s.len() == 0 {
    } else if s[0].name == b.name {
        let r = seq![b] + s.drop_first();
        assert(forall|i: int, j: int|
            0 <= i < j < r.len() ==> r[i].name != r[j].name) by {
            assert(forall|k: int| 1 <= k < r.len() ==> r[k] == s[k]);
        }
    } else {
        lemma_upsert_keeps_unique(s.drop_first(), b);
        let t = cache_upsert(s.drop_first(), b);
        let r = seq![s[0]] + t;
        assert(forall|k: int| 0 <= k < t.len() ==> t[k] == cache_upsert(s, b)[k + 1]);
        lemma_upsert_members(s.drop_first(), b);
        assert(forall|i: int, j: int|
            0 <= i < j < r.len() ==> r[i].name != r[j].name);
    }
}

/// Every entry of an upserted cache is the new record or an old entry.
proof fn lemma_upsert_members(s: Seq<BackupModel>, b: BackupModel)
    ensures
        forall|k: int| 0 <= k < cache_upsert(s, b).len()
            ==> cache_upsert(s, b)[k] == b || s.contains(#[trigger] cache_upsert(s, b)[k]),
        cache_upsert(s, b).len() == s.len() || cache_upsert(s, b).len() == s.len() + 1,
    decreases s.len(),
{
    if s.len() == 0 {
    } else if s[0].name == b.name {
        assert(forall|k: int| 1 <= k < cache_upsert(s, b).len()
            ==> cache_upsert(s, b)[k] == s[k] && s.contains(s[k]));
    } else {
        lemma_upsert_members(s.drop_first(), b);
        assert(forall|k: int| 1 <= k < cache_upsert(s, b).len()
            ==> cache_upsert(s, b)[k] == cache_upsert(s.drop_first(), b)[k - 1]);
        assert(forall|x: BackupModel| s.drop_first().contains(x) ==> s.contains(x));
    }
}

/// Law: upserting a record twice under one name leaves exactly one entry
/// for that name, and it holds the latest record.
pub proof fn lemma_upsert_last_wins(s: Seq<BackupModel>, b1: BackupModel, b2: BackupModel)
    requires
        unique_names(s),
        b1.name == b2.name,
    ensures
        ({
            let r = cache_upsert(cache_upsert(s, b1), b2);
            exists|i: int|
                0 <= i < r.len() && #[trigger] r[i] == b2
                && forall|j: int| 0 <= j < r.len() && j != i ==> r[j].name != b2.name
        }),
    decreases s.len(),
{
    if s.len() == 0 {
        let r = cache_upsert(cache_upsert(s, b1), b2);
        assert(cache_upsert(s, b1) =~= seq![b1]);
        assert(r =~= seq![b2]);
        assert(r[0] == b2);
    } else if s[0].name == b1.name {
        let s1 = cache_upsert(s, b1);
        assert(s1 =~= seq![b1] + s.drop_first());
        let r = cache_upsert(s1, b2);
        assert(s1[0].name == b2.name);
        assert(r =~= seq![b2] + s.drop_first());
        assert(r[0] == b2);
        assert(forall|j: int| 1 <= j < r.len() ==> r[j] == s[j]);
        assert(forall|j: int| 0 <= j < r.len() && j != 0 ==> r[j].name != b2.name);
    } else {
        let s1 = cache_upsert(s, b1);
        assert(s1 =~= seq![s[0]] + cache_upsert(s.drop_first(), b1));
        let r = cache_upsert(s1, b2);
        assert(s1[0] == s[0]);
        assert(s1.drop_first() =~= cache_upsert(s.drop_first(), b1));
        assert(r =~= seq![s[0]] + cache_upsert(cache_upsert(s.drop_first(), b1), b2));
        assert(unique_names(s.drop_first())) by {
            assert(forall|i: int, j: int| 0 <= i < j < s.drop_first().len()
                ==> s.drop_first()[i].name != s.drop_first()[j].name);
        }
        lemma_upsert_last_wins(s.drop_first(), b1, b2);
        let t = cache_upsert(cache_upsert(s.drop_first(), b1), b2);
        let i0 = choose|i: int|
            0 <= i < t.len() && #[trigger] t[i] == b2
            && forall|j: int| 0 <= j < t.len() && j != i ==> t[j].name != b2.name;
        assert(r[i0 + 1] == b2);
        assert(forall|j: int| 0 <= j < r.len() && j != i0 + 1 ==> r[j].name != b2.name);
    }
}

} // verus!
