//! The cache of metrics: records that stay valid only as long as the files, the
//! algorithm and the configuration do.
use crate::metrics::{outcome, Measured, MetricValues};
use crate::order::{
    arrange, arranged, arranging_keeps_the_elements, arranging_sorts, bytes_at_most, compare_bytes,
    dictionary_order_is_total, dictionary_order_is_transitive, in_order, lemma_same_members, preorder,
};
use vstd::prelude::*;
use vstd::utf8::encode_utf8;

verus! {

pub const CACHE_FORMAT_VERSION: u32 = 1;

pub const ALGORITHM_VERSION: &'static str = "phase2-metrics-1";

/// The metrics of one file, with what they were derived from.
#[derive(Clone, Debug, PartialEq)]
pub struct CacheRecord {
    pub file_name: String,
    pub size: u64,
    pub modified_ns: u128,
    pub cache_format_version: u32,
    pub algorithm_version: String,
    pub configuration_fingerprint: String,
    pub metrics: MetricValues,
}

impl Measured for CacheRecord {
    open spec fn values(&self) -> MetricValues {
        self.metrics
    }

    fn metrics(&self) -> (r: &MetricValues) {
        &self.metrics
    }
}

/// All records of a session.
#[derive(Clone, Debug, PartialEq)]
pub struct MetricsCache {
    pub cache_format_version: u32,
    pub algorithm_version: String,
    pub configuration_fingerprint: String,
    pub records: Vec<CacheRecord>,
}

/// What the file system tells of a file.
#[derive(Clone, Copy, Debug, PartialEq, Eq, Structural)]
pub struct FileStat {
    pub size: u64,
    pub modified_ns: u128,
}

/// A time stamp of a file in nanoseconds; zero when the time is not known or
/// lies before the epoch.
pub fn modified_ns(since_epoch: Option<u128>) -> (r: u128)
    ensures
        r == (match since_epoch {
            Some(n) => n,
            None => 0,
        }),
{
    match since_epoch {
        Some(n) => n,
        None => 0,
    }
}

impl CacheRecord {
    /// The record was made by this version of the program under this
    /// configuration.
    pub open spec fn fits(self, fingerprint: Seq<char>) -> bool {
        &&& self.cache_format_version == CACHE_FORMAT_VERSION
        &&& self.algorithm_version@ == ALGORITHM_VERSION@
        &&& self.configuration_fingerprint@ == fingerprint
    }

    /// The record was made for this state of the file of this name.
    pub open spec fn describes(
        self,
        name: Seq<char>,
        stat: FileStat,
        fingerprint: Seq<char>,
    ) -> bool {
        &&& self.file_name@ == name
        &&& self.size == stat.size
        &&& self.modified_ns == stat.modified_ns
        &&& self.fits(fingerprint)
    }

    /// The bytes that records are sorted by.
    pub open spec fn name_bytes(self) -> Seq<u8> {
        encode_utf8(self.file_name@)
    }
}

fn record_fits(record: &CacheRecord, fingerprint: &String) -> (r: bool)
    ensures
        r == record.fits(fingerprint@),
{
    record.cache_format_version == CACHE_FORMAT_VERSION && record.algorithm_version
        == ALGORITHM_VERSION.to_owned() && record.configuration_fingerprint == *fingerprint
}

/// Records by file name.
pub open spec fn by_file_name() -> spec_fn(CacheRecord, CacheRecord) -> bool {
    |a: CacheRecord, b: CacheRecord| bytes_at_most(a.name_bytes(), b.name_bytes())
}

/// Where the first record of this name stands.
pub open spec fn first_named(records: Seq<CacheRecord>, name: Seq<char>) -> Option<int>
    decreases records.len(),
{
    if records.len() == 0 {
        None
    } else {
        match first_named(records.drop_last(), name) {
            Some(i) => Some(i),
            None => if records.last().file_name@ == name {
                Some(records.len() - 1)
            } else {
                None
            },
        }
    }
}

/// The records with `record` in the place of the first one of its name, or at
/// the end.
pub open spec fn replaced(records: Seq<CacheRecord>, record: CacheRecord) -> Seq<CacheRecord> {
    match first_named(records, record.file_name@) {
        Some(i) => records.update(i, record),
        None => records.push(record),
    }
}

/// The records after `record` was put in.
pub open spec fn upserted(records: Seq<CacheRecord>, record: CacheRecord) -> Seq<CacheRecord> {
    arranged(replaced(records, record), by_file_name())
}

/// No two records have the same name.
pub open spec fn names_differ(records: Seq<CacheRecord>) -> bool {
    forall|i: int, j: int|
        0 <= i < j < records.len() ==> (#[trigger] records[i]).file_name@ != (
        #[trigger] records[j]).file_name@
}

proof fn lemma_first_named(records: Seq<CacheRecord>, name: Seq<char>)
    ensures
        match first_named(records, name) {
            Some(i) => 0 <= i < records.len() && records[i].file_name@ == name && forall|j: int|
                0 <= j < i ==> (#[trigger] records[j]).file_name@ != name,
            None => forall|j: int|
                0 <= j < records.len() ==> (#[trigger] records[j]).file_name@ != name,
        },
    decreases records.len(),
{
    if records.len() > 0 {
        let t = records.drop_last();
        lemma_first_named(t, name);
        match first_named(t, name) {
            Some(i) => {
                assert forall|j: int| 0 <= j < i implies (#[trigger] records[j]).file_name@
                    != name by {
                    assert(t[j].file_name@ != name);
                }
            },
            None => {
                assert forall|j: int| 0 <= j < records.len() - 1 implies (
                #[trigger] records[j]).file_name@ != name by {
                    assert(t[j].file_name@ != name);
                }
            },
        }
    }
}

proof fn lemma_by_file_name_preorder()
    ensures
        preorder(by_file_name()),
{
    let leq = by_file_name();
    assert forall|a: CacheRecord, b: CacheRecord| #[trigger] leq(a, b) || leq(b, a) by {
        dictionary_order_is_total(a.name_bytes(), b.name_bytes());
    }
    assert forall|a: CacheRecord, b: CacheRecord, c: CacheRecord| #[trigger]
        leq(a, b) && #[trigger] leq(b, c) implies leq(a, c) by {
        dictionary_order_is_transitive(a.name_bytes(), b.name_bytes(), c.name_bytes());
    }
}

impl MetricsCache {
    /// Every part of the cache was made by this version under this
    /// configuration.
    pub open spec fn compatible(self, fingerprint: Seq<char>) -> bool {
        &&& self.cache_format_version == CACHE_FORMAT_VERSION
        &&& self.algorithm_version@ == ALGORITHM_VERSION@
        &&& self.configuration_fingerprint@ == fingerprint
        &&& forall|i: int|
            0 <= i < self.records@.len() ==> (#[trigger] self.records@[i]).fits(fingerprint)
    }

    pub fn empty(fingerprint: &str) -> (r: MetricsCache)
        ensures
            r.records@.len() == 0,
            r.cache_format_version == CACHE_FORMAT_VERSION,
            r.algorithm_version@ == ALGORITHM_VERSION@,
            r.configuration_fingerprint@ == fingerprint@,
            r.compatible(fingerprint@),
    {
        MetricsCache {
            cache_format_version: CACHE_FORMAT_VERSION,
            algorithm_version: ALGORITHM_VERSION.to_owned(),
            configuration_fingerprint: fingerprint.to_owned(),
            records: Vec::new(),
        }
    }

    pub fn is_compatible(&self, fingerprint: &str) -> (r: bool)
        ensures
            r == self.compatible(fingerprint@),
    {
        let wanted: String = fingerprint.to_owned();
        if self.cache_format_version != CACHE_FORMAT_VERSION {
            return false;
        }
        if !(self.algorithm_version == ALGORITHM_VERSION.to_owned()) {
            return false;
        }
        if !(self.configuration_fingerprint == wanted) {
            return false;
        }
        let mut i: usize = 0;
        while i < self.records.len()
            invariant
                i <= self.records@.len(),
                wanted@ == fingerprint@,
                forall|j: int|
                    0 <= j < i ==> (#[trigger] self.records@[j]).fits(fingerprint@),
            decreases self.records@.len() - i,
        {
            if !record_fits(&self.records[i], &wanted) {
                return false;
            }
            i = i + 1;
        }
        true
    }

    /// The cache to go on with, from what was read: a cache that is not
    /// compatible gives way to an empty one.
    pub fn load(read: Result<MetricsCache, String>, fingerprint: &str) -> (r: Result<
        MetricsCache,
        String,
    >)
        ensures
            match read {
                Err(e) => outcome(r) == Err::<MetricsCache, Seq<char>>(e@),
                Ok(cache) => match r {
                    Err(_) => false,
                    Ok(c) => {
                        &&& c.compatible(fingerprint@)
                        &&& cache.compatible(fingerprint@) ==> c == cache
                        &&& !cache.compatible(fingerprint@) ==> c.records@.len() == 0
                    },
                },
            },
    {
        match read {
            Err(e) => Err(e),
            Ok(cache) => if cache.is_compatible(fingerprint) {
                Ok(cache)
            } else {
                Ok(MetricsCache::empty(fingerprint))
            },
        }
    }

    /// Puts a record in: in the place of the first one of the same name, or as
    /// a new one. The records are sorted by name afterwards.
    pub fn upsert(&mut self, record: CacheRecord)
        ensures
            final(self).records@ == upserted(old(self).records@, record),
            final(self).cache_format_version == old(self).cache_format_version,
            final(self).algorithm_version == old(self).algorithm_version,
            final(self).configuration_fingerprint == old(self).configuration_fingerprint,
    {
        let mut records: Vec<CacheRecord> = Vec::new();
        std::mem::swap(&mut records, &mut self.records);
        let n: usize = records.len();
        let mut i: usize = 0;
        while i < n && !(records[i].file_name == record.file_name)
            invariant
                i <= n == records@.len(),
                forall|j: int|
                    0 <= j < i ==> (#[trigger] records@[j]).file_name@ != record.file_name@,
            ensures
                i <= n,
                forall|j: int|
                    0 <= j < i ==> (#[trigger] records@[j]).file_name@ != record.file_name@,
                i < n ==> records@[i as int].file_name@ == record.file_name@,
            decreases n - i,
        {
            i = i + 1;
        }
        proof {
            lemma_first_named(records@, record.file_name@);
        }
        if i < n {
            records[i] = record;
        } else {
            records.push(record);
        }
        let f = |a: &CacheRecord, b: &CacheRecord| -> (c: bool)
            ensures
                c == by_file_name()(*a, *b),
            {
                compare_bytes(a.file_name.as_str().as_bytes(), b.file_name.as_str().as_bytes())
            };
        self.records = arrange(records, f, Ghost(by_file_name()));
    }

    /// Whether a record still describes the file: same name, size and time
    /// stamp, made by this version under this configuration. A file whose name
    /// or data cannot be told has none.
    pub fn record_is_current(
        &self,
        name: Option<&str>,
        stat: Option<FileStat>,
        fingerprint: &str,
    ) -> (r: bool)
        ensures
            r == (match (name, stat) {
                (Some(n), Some(s)) => exists|i: int|
                    0 <= i < self.records@.len() && (#[trigger] self.records@[i]).describes(
                        n@,
                        s,
                        fingerprint@,
                    ),
                _ => false,
            }),
    {
        let sought: String = match name {
            Some(n) => n.to_owned(),
            None => {
                return false;
            },
        };
        let found = match stat {
            Some(s) => s,
            None => {
                return false;
            },
        };
        let wanted: String = fingerprint.to_owned();
        let mut i: usize = 0;
        while i < self.records.len()
            invariant
                i <= self.records@.len(),
                wanted@ == fingerprint@,
                name is Some && name->0@ == sought@,
                stat == Some(found),
                forall|j: int|
                    0 <= j < i ==> !(#[trigger] self.records@[j]).describes(
                        sought@,
                        found,
                        fingerprint@,
                    ),
            decreases self.records@.len() - i,
        {
            let c = &self.records[i];
            if c.file_name == sought && c.size == found.size && c.modified_ns == found.modified_ns
                && record_fits(c, &wanted) {
                assert(self.records@[i as int].describes(sought@, found, fingerprint@));
                return true;
            }
            i = i + 1;
        }
        false
    }
}

/// The record of a file that was just analysed.
pub fn record_for(
    name: Option<&str>,
    stat: Result<FileStat, String>,
    fingerprint: &str,
    metrics: MetricValues,
) -> (r: Result<CacheRecord, String>)
    ensures
        match stat {
            Err(e) => outcome(r) == Err::<CacheRecord, Seq<char>>(e@),
            Ok(s) => match name {
                None => outcome(r) == Err::<CacheRecord, Seq<char>>("invalid file name"@),
                Some(n) => match r {
                    Err(_) => false,
                    Ok(c) => {
                        &&& c.file_name@ == n@
                        &&& c.size == s.size
                        &&& c.modified_ns == s.modified_ns
                        &&& c.fits(fingerprint@)
                        &&& c.metrics == metrics
                    },
                },
            },
        },
{
    let s = match stat {
        Ok(s) => s,
        Err(e) => {
            return Err(e);
        },
    };
    match name {
        None => Err("invalid file name".to_owned()),
        Some(n) => Ok(
            CacheRecord {
                file_name: n.to_owned(),
                size: s.size,
                modified_ns: s.modified_ns,
                cache_format_version: CACHE_FORMAT_VERSION,
                algorithm_version: ALGORITHM_VERSION.to_owned(),
                configuration_fingerprint: fingerprint.to_owned(),
                metrics,
            },
        ),
    }
}

/// A cache is sorted by file name after every change.
pub proof fn upserting_sorts(records: Seq<CacheRecord>, record: CacheRecord)
    ensures
        in_order(upserted(records, record), by_file_name()),
{
    lemma_by_file_name_preorder();
    arranging_sorts(replaced(records, record), by_file_name());
}

/// In a cache whose names differ, putting a record in leaves that record as the
/// only one of its name and every record of another name as it was.
pub proof fn upserting_replaces_one_name(
    records: Seq<CacheRecord>,
    record: CacheRecord,
    other: CacheRecord,
)
    requires
        names_differ(records),
    ensures
        upserted(records, record).contains(other) <==> other == record || (records.contains(other)
            && other.file_name@ != record.file_name@),
{
    let name = record.file_name@;
    let r = replaced(records, record);
    lemma_first_named(records, name);
    arranging_keeps_the_elements(r, by_file_name());
    lemma_same_members(upserted(records, record), r, other);
    match first_named(records, name) {
        Some(i) => {
            assert(r[i] == record);
            if r.contains(other) {
                let k = choose|k: int| 0 <= k < r.len() && r[k] == other;
                if k != i {
                    assert(records[k] == other);
                    if k < i {
                        assert(records[k].file_name@ != records[i].file_name@);
                    } else {
                        assert(records[i].file_name@ != records[k].file_name@);
                    }
                }
            }
            if records.contains(other) && other.file_name@ != name {
                let k = choose|k: int| 0 <= k < records.len() && records[k] == other;
                assert(r[k] == other);
            }
        },
        None => {
            assert(r[records.len() as int] == record);
            if r.contains(other) {
                let k = choose|k: int| 0 <= k < r.len() && r[k] == other;
                if k < records.len() {
                    assert(records[k] == other);
                    assert(records[k].file_name@ != name);
                }
            }
            if records.contains(other) {
                let k = choose|k: int| 0 <= k < records.len() && records[k] == other;
                assert(r[k] == other);
            }
        },
    }
}

/// Putting a record in keeps the names of a cache different.
pub proof fn upserting_keeps_names_different(records: Seq<CacheRecord>, record: CacheRecord)
    requires
        names_differ(records),
    ensures
        names_differ(upserted(records, record)),
{
    let r = replaced(records, record);
    let u = upserted(records, record);
    lemma_first_named(records, record.file_name@);
    assert(names_differ(r)) by {
        assert forall|i: int, j: int| 0 <= i < j < r.len() implies (#[trigger] r[i]).file_name@ != (
        #[trigger] r[j]).file_name@ by {
            match first_named(records, record.file_name@) {
                Some(k) => {
                    assert(records[i].file_name@ != records[j].file_name@);
                },
                None => {
                    if j < records.len() {
                        assert(records[i].file_name@ != records[j].file_name@);
                    } else {
                        assert(records[i].file_name@ != record.file_name@);
                    }
                },
            }
        }
    }
    arranging_keeps_the_elements(r, by_file_name());
    assert(r.no_duplicates()) by {
        assert forall|i: int, j: int| 0 <= i < r.len() && 0 <= j < r.len() && i != j implies r[i]
            != r[j] by {
            if i < j {
                assert(r[i].file_name@ != r[j].file_name@);
            } else {
                assert(r[j].file_name@ != r[i].file_name@);
            }
        }
    }
    r.lemma_multiset_has_no_duplicates();
    u.lemma_multiset_has_no_duplicates_conv();
    assert forall|i: int, j: int| 0 <= i < j < u.len() implies (#[trigger] u[i]).file_name@ != (
    #[trigger] u[j]).file_name@ by {
        assert(u.contains(u[i]) && u.contains(u[j]));
        lemma_same_members(u, r, u[i]);
        lemma_same_members(u, r, u[j]);
        let a = choose|a: int| 0 <= a < r.len() && r[a] == u[i];
        let b = choose|b: int| 0 <= b < r.len() && r[b] == u[j];
        assert(u[i] != u[j]);
        if a < b {
            assert(r[a].file_name@ != r[b].file_name@);
        } else {
            assert(r[b].file_name@ != r[a].file_name@);
        }
    }
}

/// A record that was made for a file and put in is current for that file.
pub proof fn a_stored_record_is_found(
    records: Seq<CacheRecord>,
    record: CacheRecord,
)
    ensures
        upserted(records, record).contains(record),
{
    let r = replaced(records, record);
    lemma_first_named(records, record.file_name@);
    arranging_keeps_the_elements(r, by_file_name());
    lemma_same_members(upserted(records, record), r, record);
    match first_named(records, record.file_name@) {
        Some(i) => {
            assert(r[i] == record);
        },
        None => {
            assert(r[records.len() as int] == record);
        },
    }
}

/// A record that fits keeps a compatible cache compatible.
pub proof fn upserting_keeps_the_cache_compatible(
    records: Seq<CacheRecord>,
    record: CacheRecord,
    fingerprint: Seq<char>,
)
    requires
        record.fits(fingerprint),
        forall|i: int| 0 <= i < records.len() ==> (#[trigger] records[i]).fits(fingerprint),
    ensures
        forall|i: int|
            0 <= i < upserted(records, record).len() ==> (#[trigger] upserted(
                records,
                record,
            )[i]).fits(fingerprint),
{
    let r = replaced(records, record);
    let u = upserted(records, record);
    lemma_first_named(records, record.file_name@);
    arranging_keeps_the_elements(r, by_file_name());
    assert forall|i: int| 0 <= i < u.len() implies (#[trigger] u[i]).fits(fingerprint) by {
        assert(u.contains(u[i]));
        lemma_same_members(u, r, u[i]);
        let k = choose|k: int| 0 <= k < r.len() && r[k] == u[i];
        if r[k] != record {
            assert(records[k].fits(fingerprint));
        }
    }
}

/// A record describes a file as long as nothing it was derived from has changed:
/// the name, the size and the time of the file, the format, the algorithm and
/// the configuration.
pub proof fn records_describe_one_state_of_a_file(
    record: CacheRecord,
    name: Seq<char>,
    stat: FileStat,
    fingerprint: Seq<char>,
)
    ensures
        record.describes(name, stat, fingerprint) <==> {
            &&& record.file_name@ == name
            &&& record.size == stat.size
            &&& record.modified_ns == stat.modified_ns
            &&& record.cache_format_version == CACHE_FORMAT_VERSION
            &&& record.algorithm_version@ == ALGORITHM_VERSION@
            &&& record.configuration_fingerprint@ == fingerprint
        },
{
}

/// A cache is as good as its worst part: it and every record in it have the
/// format, the algorithm and the configuration that are wanted.
pub proof fn caches_are_compatible_as_a_whole(cache: MetricsCache, fingerprint: Seq<char>)
    ensures
        cache.compatible(fingerprint) <==> {
            &&& cache.cache_format_version == CACHE_FORMAT_VERSION
            &&& cache.algorithm_version@ == ALGORITHM_VERSION@
            &&& cache.configuration_fingerprint@ == fingerprint
            &&& forall|i: int|
                #![trigger cache.records@[i]]
                0 <= i < cache.records@.len() ==> cache.records@[i].cache_format_version
                    == CACHE_FORMAT_VERSION && cache.records@[i].algorithm_version@
                    == ALGORITHM_VERSION@ && cache.records@[i].configuration_fingerprint@
                    == fingerprint
        },
{
    if cache.compatible(fingerprint) {
        assert forall|i: int|
            #![trigger cache.records@[i]]
            0 <= i < cache.records@.len() implies cache.records@[i].cache_format_version
            == CACHE_FORMAT_VERSION && cache.records@[i].algorithm_version@ == ALGORITHM_VERSION@
            && cache.records@[i].configuration_fingerprint@ == fingerprint by {
            assert(cache.records@[i].fits(fingerprint));
        }
    }
}

/// Records come by the bytes of their names, each name before the next.
pub proof fn records_come_by_name(
    records: Seq<CacheRecord>,
    record: CacheRecord,
    i: int,
    j: int,
)
    requires
        0 <= i < j < upserted(records, record).len(),
    ensures
        bytes_at_most(
            encode_utf8(upserted(records, record)[i].file_name@),
            encode_utf8(upserted(records, record)[j].file_name@),
        ),
        upserted(records, record).len() <= records.len() + 1,
{
    upserting_sorts(records, record);
    arranging_keeps_the_elements(replaced(records, record), by_file_name());
    assert(by_file_name()(upserted(records, record)[i], upserted(records, record)[j]));
    lemma_first_named(records, record.file_name@);
}

} // verus!
