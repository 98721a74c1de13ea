//! The registry's service directory: a map from service name to record,
//! mutated by register, update, unregister and heartbeat, read by get, list
//! and stats, probed by the health checker, and pruned by the reaper.
//!
//! Time enters every operation as a plain count of seconds, so the whole
//! state machine is verified; the clock itself stays outside.

use vstd::prelude::*;

use crate::json::{JModel, Json};
use crate::bindings::{rfc3339_of, rfc3339_utc};
use crate::{EVICTION_THRESHOLD_SECS, STALE_THRESHOLD_SECS};

verus! {

/// What the health prober last concluded about a record.
#[derive(Clone, Copy, PartialEq, Eq, Structural, Debug)]
pub enum HealthStatus {
    Unknown,
    Healthy,
    Unhealthy,
}

/// One row of the directory.
pub struct ServiceRecord {
    pub name: String,
    pub host: String,
    pub port: u16,
    pub hostname: String,
    pub url: String,
    pub status: String,
    /// RFC 3339 rendering of the registration time; set once.
    pub timestamp: String,
    /// Seconds since the epoch of the newest heartbeat, successful probe,
    /// or update.
    pub last_heartbeat: u64,
    pub health_status: HealthStatus,
    /// Stored verbatim and returned verbatim.
    pub metadata: Json,
}

/// The mathematical shape of one record.
pub ghost struct RecordModel {
    pub name: Seq<char>,
    pub host: Seq<char>,
    pub port: u16,
    pub hostname: Seq<char>,
    pub url: Seq<char>,
    pub status: Seq<char>,
    pub timestamp: Seq<char>,
    pub last_heartbeat: u64,
    pub health_status: HealthStatus,
    pub metadata: JModel,
}

impl View for ServiceRecord {
    type V = RecordModel;

    open spec fn view(&self) -> RecordModel {
        RecordModel {
            name: self.name@,
            host: self.host@,
            port: self.port,
            hostname: self.hostname@,
            url: self.url@,
            status: self.status@,
            timestamp: self.timestamp@,
            last_heartbeat: self.last_heartbeat,
            health_status: self.health_status,
            metadata: self.metadata@,
        }
    }
}

/// A record is healthy at `now` exactly when its owner reports `running`
/// and its heartbeat is younger than the stale threshold.
pub open spec fn spec_record_healthy(r: RecordModel, now: u64) -> bool {
    r.status == "running"@ && now - r.last_heartbeat < STALE_THRESHOLD_SECS
}

/// A record is ripe for eviction at `now` when its heartbeat is older than
/// the eviction threshold, which sits strictly above the stale threshold.
pub open spec fn spec_record_stale(r: RecordModel, now: u64) -> bool {
    now - r.last_heartbeat > EVICTION_THRESHOLD_SECS
}

impl ServiceRecord {
    /// A fresh record: heartbeat at `now`, probe verdict not yet known,
    /// registration time rendered once.
    pub fn new(
        name: String,
        host: String,
        port: u16,
        hostname: String,
        url: String,
        status: String,
        metadata: Json,
        now: u64,
    ) -> (r: ServiceRecord)
        ensures
            r@ == (RecordModel {
                name: name@,
                host: host@,
                port,
                hostname: hostname@,
                url: url@,
                status: status@,
                timestamp: rfc3339_of(now),
                last_heartbeat: now,
                health_status: HealthStatus::Unknown,
                metadata: metadata@,
            }),
    {
        let timestamp = rfc3339_utc(now);
        ServiceRecord {
            name,
            host,
            port,
            hostname,
            url,
            status,
            timestamp,
            last_heartbeat: now,
            health_status: HealthStatus::Unknown,
            metadata,
        }
    }

    /// Whether the record counts as healthy at `now`.
    pub fn is_healthy(&self, now: u64) -> (r: bool)
        ensures
            r == spec_record_healthy(self@, now),
    {
        let running: String = String::from_str("running");
        if !self.status.eq(&running) {
            return false;
        }
        now < self.last_heartbeat || now - self.last_heartbeat < STALE_THRESHOLD_SECS
    }
}

/// Healthy records are fresh: a record healthy at `now` heartbeated within
/// the stale threshold and reports `running`.
pub proof fn lemma_healthy_is_fresh(r: RecordModel, now: u64)
    requires
        spec_record_healthy(r, now),
    ensures
        now - r.last_heartbeat < STALE_THRESHOLD_SECS,
        r.status == "running"@,
{
}

/// A healthy record is never ripe for eviction: the eviction threshold sits
/// strictly above the stale threshold.
pub proof fn lemma_healthy_not_stale(r: RecordModel, now: u64)
    requires
        spec_record_healthy(r, now),
    ensures
        !spec_record_stale(r, now),
{
}

/// The directory: records with pairwise distinct names.
pub struct Directory {
    pub services: Vec<ServiceRecord>,
}

impl View for Directory {
    type V = Seq<RecordModel>;

    open spec fn view(&self) -> Seq<RecordModel> {
        Seq::new(self.services@.len(), |i: int| self.services@[i]@)
    }
}

/// Pairwise distinct names.
pub open spec fn spec_wf(recs: Seq<RecordModel>) -> bool {
    forall|i: int, j: int|
        0 <= i < j < recs.len() ==> (#[trigger] recs[i].name) != (#[trigger] recs[j].name)
}

/// The index of the first record with a name, if any.
pub open spec fn spec_find(recs: Seq<RecordModel>, name: Seq<char>) -> Option<int>
    decreases recs.len(),
{
    if recs.len() == 0 {
        None
    } else if recs[0].name == name {
        Some(0)
    } else {
        match spec_find(recs.drop_first(), name) {
            Some(i) => Some(i + 1),
            None => None,
        }
    }
}

/// What `spec_find` finds: the first index bearing the name, or nothing
/// anywhere.
pub proof fn lemma_find_characterizes(recs: Seq<RecordModel>, name: Seq<char>)
    ensures
        match spec_find(recs, name) {
            Some(i) => 0 <= i < recs.len() && recs[i].name == name && (forall|j: int|
                0 <= j < i ==> (#[trigger] recs[j].name) != name),
            None => forall|j: int| 0 <= j < recs.len() ==> (#[trigger] recs[j].name) != name,
        },
    decreases recs.len(),
{
    if recs.len() > 0 && recs[0].name != name {
        lemma_find_characterizes(recs.drop_first(), name);
        match spec_find(recs.drop_first(), name) {
            Some(i) => {
                assert(recs[i + 1].name == name) by {
                    assert(recs.drop_first()[i] == recs[i + 1]);
                }
                assert forall|j: int| 0 <= j < i + 1 implies (#[trigger] recs[j].name)
                    != name by {
                    if j > 0 {
                        assert(recs.drop_first()[j - 1] == recs[j]);
                    }
                }
            },
            None => {
                assert forall|j: int| 0 <= j < recs.len() implies (#[trigger] recs[j].name)
                    != name by {
                    if j > 0 {
                        assert(recs.drop_first()[j - 1] == recs[j]);
                    }
                }
            },
        }
    }
}

/// The record a lookup returns.
pub open spec fn spec_get(recs: Seq<RecordModel>, name: Seq<char>) -> Option<RecordModel> {
    match spec_find(recs, name) {
        Some(i) => Some(recs[i]),
        None => None,
    }
}

/// What registering leaves behind: the record replaces its namesake or is
/// appended.
pub open spec fn spec_register(recs: Seq<RecordModel>, rec: RecordModel) -> Seq<RecordModel> {
    match spec_find(recs, rec.name) {
        Some(i) => recs.update(i, rec),
        None => recs.push(rec),
    }
}

/// What unregistering leaves behind.
pub open spec fn spec_unregister(recs: Seq<RecordModel>, name: Seq<char>) -> Seq<RecordModel> {
    match spec_find(recs, name) {
        Some(i) => recs.remove(i),
        None => recs,
    }
}

/// One record after a heartbeat at `now`, with its status replaced when the
/// heartbeat body carried one.
pub open spec fn spec_heartbeat_one(r: RecordModel, now: u64, status: Option<Seq<char>>)
    -> RecordModel {
    RecordModel {
        last_heartbeat: now,
        status: match status {
            Some(st) => st,
            None => r.status,
        },
        ..r
    }
}

/// What a heartbeat leaves behind.
pub open spec fn spec_heartbeat(
    recs: Seq<RecordModel>,
    name: Seq<char>,
    now: u64,
    status: Option<Seq<char>>,
) -> Seq<RecordModel> {
    match spec_find(recs, name) {
        Some(i) => recs.update(i, spec_heartbeat_one(recs[i], now, status)),
        None => recs,
    }
}

impl Directory {
    /// An empty directory.
    pub fn new() -> (r: Directory)
        ensures
            r@ =~= Seq::<RecordModel>::empty(),
            spec_wf(r@),
    {
        Directory { services: Vec::new() }
    }

    /// The number of records.
    pub fn len(&self) -> (r: usize)
        ensures
            r == self@.len(),
    {
        self.services.len()
    }

    /// The index of the record with a name.
    pub fn find(&self, name: &str) -> (r: Option<usize>)
        ensures
            match r {
                Some(i) => spec_find(self@, name@) == Some(i as int),
                None => spec_find(self@, name@) is None,
            },
    {
        proof {
            lemma_find_characterizes(self@, name@);
        }
        let key: String = name.to_owned();
        let mut i: usize = 0;
        while i < self.services.len()
            invariant
                0 <= i <= self@.len(),
                self@.len() == self.services@.len(),
                key@ == name@,
                forall|k: int| 0 <= k < self@.len() ==> self@[k] == self.services@[k]@,
                forall|j: int| 0 <= j < i ==> (#[trigger] self@[j].name) != name@,
            decreases self@.len() - i,
        {
            if self.services[i].name.eq(&key) {
                proof {
                    lemma_find_characterizes(self@, name@);
                    assert(self@[i as int].name == name@);
                    match spec_find(self@, name@) {
                        Some(k) => {
                            assert(self@[k].name == name@);
                            assert(k == i as int);
                        },
                        None => {
                            assert(false);
                        },
                    }
                }
                return Some(i);
            }
            proof {
                assert(self@[i as int].name != name@);
            }
            i += 1;
        }
        proof {
            lemma_find_characterizes(self@, name@);
        }
        None
    }

    /// The record with a name, if registered.
    pub fn get(&self, name: &str) -> (r: Option<&ServiceRecord>)
        ensures
            match r {
                Some(rec) => spec_get(self@, name@) == Some(rec@),
                None => spec_get(self@, name@) is None,
            },
    {
        proof {
            lemma_find_characterizes(self@, name@);
        }
        match self.find(name) {
            Some(i) => Some(&self.services[i]),
            None => None,
        }
    }

    /// Registers a record: replaces its namesake, or appends.
    pub fn register(&mut self, rec: ServiceRecord)
        requires
            spec_wf(old(self)@),
        ensures
            final(self)@ =~= spec_register(old(self)@, rec@),
            spec_wf(final(self)@),
    {
        proof {
            lemma_find_characterizes(self@, rec@.name);
        }
        let ghost old_view = self@;
        match self.find(rec.name.as_str()) {
            Some(i) => {
                let ghost m = rec@;
                self.services[i] = rec;
                proof {
                    assert(self@ =~= old_view.update(i as int, m));
                }
            },
            None => {
                let ghost m = rec@;
                self.services.push(rec);
                proof {
                    assert(self@ =~= old_view.push(m));
                }
            },
        }
    }

    /// Removes the record with a name; reports whether one was there.
    pub fn unregister(&mut self, name: &str) -> (r: bool)
        requires
            spec_wf(old(self)@),
        ensures
            final(self)@ =~= spec_unregister(old(self)@, name@),
            spec_wf(final(self)@),
            r == (spec_find(old(self)@, name@) is Some),
    {
        proof {
            lemma_find_characterizes(self@, name@);
        }
        let ghost old_view = self@;
        match self.find(name) {
            Some(i) => {
                self.services.remove(i);
                proof {
                    assert(self@ =~= old_view.remove(i as int));
                }
                true
            },
            None => false,
        }
    }

    /// Advances the heartbeat of the record with a name to `now`, replacing
    /// its status when the heartbeat carried one; reports whether the name
    /// was registered.
    pub fn heartbeat(&mut self, name: &str, now: u64, status: Option<String>) -> (r: bool)
        requires
            spec_wf(old(self)@),
        ensures
            final(self)@ =~= spec_heartbeat(
                old(self)@,
                name@,
                now,
                match status {
                    Some(st) => Some(st@),
                    None => None,
                },
            ),
            spec_wf(final(self)@),
            r == (spec_find(old(self)@, name@) is Some),
    {
        proof {
            lemma_find_characterizes(self@, name@);
        }
        let ghost old_view = self@;
        match self.find(name) {
            Some(i) => {
                self.services[i].last_heartbeat = now;
                match status {
                    Some(st) => {
                        self.services[i].status = st;
                    },
                    None => {},
                }
                proof {
                    assert(self@ =~= old_view.update(
                        i as int,
                        spec_heartbeat_one(
                            old_view[i as int],
                            now,
                            match status {
                                Some(st) => Some(st@),
                                None => None,
                            },
                        ),
                    ));
                }
                true
            },
            None => false,
        }
    }
}

} // verus!

verus! {

/// A partial update: absent fields keep their values.
pub struct UpdateFields {
    pub host: Option<String>,
    pub port: Option<u16>,
    pub hostname: Option<String>,
    pub url: Option<String>,
    pub status: Option<String>,
    pub metadata: Option<Json>,
}

/// The mathematical shape of a partial update.
pub ghost struct UpdateModel {
    pub host: Option<Seq<char>>,
    pub port: Option<u16>,
    pub hostname: Option<Seq<char>>,
    pub url: Option<Seq<char>>,
    pub status: Option<Seq<char>>,
    pub metadata: Option<JModel>,
}

impl View for UpdateFields {
    type V = UpdateModel;

    open spec fn view(&self) -> UpdateModel {
        UpdateModel {
            host: match self.host {
                Some(ref s) => Some(s@),
                None => None,
            },
            port: self.port,
            hostname: match self.hostname {
                Some(ref s) => Some(s@),
                None => None,
            },
            url: match self.url {
                Some(ref s) => Some(s@),
                None => None,
            },
            status: match self.status {
                Some(ref s) => Some(s@),
                None => None,
            },
            metadata: match self.metadata {
                Some(ref m) => Some(m@),
                None => None,
            },
        }
    }
}

/// One record after a partial update at `now`: given fields replaced, the
/// heartbeat advanced.
pub open spec fn spec_update_one(r: RecordModel, u: UpdateModel, now: u64) -> RecordModel {
    RecordModel {
        host: match u.host {
            Some(h) => h,
            None => r.host,
        },
        port: match u.port {
            Some(p) => p,
            None => r.port,
        },
        hostname: match u.hostname {
            Some(h) => h,
            None => r.hostname,
        },
        url: match u.url {
            Some(x) => x,
            None => r.url,
        },
        status: match u.status {
            Some(st) => st,
            None => r.status,
        },
        metadata: match u.metadata {
            Some(m) => m,
            None => r.metadata,
        },
        last_heartbeat: now,
        ..r
    }
}

/// What a partial update leaves behind.
pub open spec fn spec_update(
    recs: Seq<RecordModel>,
    name: Seq<char>,
    u: UpdateModel,
    now: u64,
) -> Seq<RecordModel> {
    match spec_find(recs, name) {
        Some(i) => recs.update(i, spec_update_one(recs[i], u, now)),
        None => recs,
    }
}

/// One record after a probe outcome at `now`: the verdict recorded, and on
/// success the heartbeat advanced as well.
pub open spec fn spec_probe_one(r: RecordModel, healthy: bool, now: u64) -> RecordModel {
    RecordModel {
        health_status: if healthy {
            HealthStatus::Healthy
        } else {
            HealthStatus::Unhealthy
        },
        last_heartbeat: if healthy {
            now
        } else {
            r.last_heartbeat
        },
        ..r
    }
}

/// What recording a probe outcome leaves behind.
pub open spec fn spec_apply_probe(
    recs: Seq<RecordModel>,
    name: Seq<char>,
    healthy: bool,
    now: u64,
) -> Seq<RecordModel> {
    match spec_find(recs, name) {
        Some(i) => recs.update(i, spec_probe_one(recs[i], healthy, now)),
        None => recs,
    }
}

/// Where a record is probed: a worker's babysitter answers for it on the
/// next port up; everything else answers at its own advertised URL. The
/// probe path is `/health` either way.
pub open spec fn spec_probe_url(r: RecordModel) -> Seq<char> {
    if crate::metadata::spec_is_openai_api(r.metadata) {
        crate::strutil::spec_http_url(r.host, (r.port + 1) as u16) + "/health"@
    } else {
        r.url + "/health"@
    }
}

/// What the reaper leaves behind: the records whose heartbeat is not older
/// than the eviction threshold, in order.
pub open spec fn spec_reap(recs: Seq<RecordModel>, now: u64) -> Seq<RecordModel>
    decreases recs.len(),
{
    if recs.len() == 0 {
        Seq::empty()
    } else {
        let rest = spec_reap(recs.drop_first(), now);
        if spec_record_stale(recs[0], now) {
            rest
        } else {
            seq![recs[0]] + rest
        }
    }
}

/// A name among records.
pub open spec fn spec_has_name(recs: Seq<RecordModel>, name: Seq<char>) -> bool
    decreases recs.len(),
{
    recs.len() > 0 && (recs[0].name == name || spec_has_name(recs.drop_first(), name))
}

/// Distinct names, phrased recursively: the head's name is not repeated.
pub open spec fn spec_wf_rec(recs: Seq<RecordModel>) -> bool
    decreases recs.len(),
{
    recs.len() == 0 || (!spec_has_name(recs.drop_first(), recs[0].name) && spec_wf_rec(
        recs.drop_first(),
    ))
}

/// A name is among records exactly when some index bears it.
pub proof fn lemma_has_name_index(recs: Seq<RecordModel>, name: Seq<char>)
    ensures
        spec_has_name(recs, name) <==> exists|i: int|
            0 <= i < recs.len() && (#[trigger] recs[i].name) == name,
    decreases recs.len(),
{
    if recs.len() > 0 {
        lemma_has_name_index(recs.drop_first(), name);
        if recs[0].name == name {
        } else if spec_has_name(recs.drop_first(), name) {
            let i = choose|i: int|
                0 <= i < recs.drop_first().len() && (#[trigger] recs.drop_first()[i].name) == name;
            assert(recs[i + 1].name == name);
        } else {
            assert forall|i: int| 0 <= i < recs.len() implies (#[trigger] recs[i].name)
                != name by {
                if i > 0 {
                    assert(recs.drop_first()[i - 1] == recs[i]);
                }
            }
        }
    }
}

/// The two phrasings of well-formedness agree.
pub proof fn lemma_wf_rec_iff(recs: Seq<RecordModel>)
    ensures
        spec_wf_rec(recs) <==> spec_wf(recs),
    decreases recs.len(),
{
    if recs.len() > 0 {
        lemma_wf_rec_iff(recs.drop_first());
        lemma_has_name_index(recs.drop_first(), recs[0].name);
        assert(forall|k: int|
            0 <= k < recs.drop_first().len() ==> #[trigger] recs.drop_first()[k] == recs[k + 1]);
        if spec_wf_rec(recs) {
            assert forall|i: int, j: int| 0 <= i < j < recs.len() implies (#[trigger] recs[i].name)
                != (#[trigger] recs[j].name) by {
                assert(recs.drop_first()[j - 1] == recs[j]);
                if i > 0 {
                    assert(recs.drop_first()[i - 1] == recs[i]);
                }
            }
        }
        if spec_wf(recs) {
            assert forall|i: int, j: int|
                0 <= i < j < recs.drop_first().len() implies (#[trigger] recs.drop_first()[i].name)
                != (#[trigger] recs.drop_first()[j].name) by {
                assert(recs.drop_first()[i] == recs[i + 1]);
                assert(recs.drop_first()[j] == recs[j + 1]);
            }
        }
    }
}

/// What the reaper keeps carries a name that was already registered.
pub proof fn lemma_reap_names(recs: Seq<RecordModel>, now: u64, name: Seq<char>)
    ensures
        spec_has_name(spec_reap(recs, now), name) ==> spec_has_name(recs, name),
    decreases recs.len(),
{
    if recs.len() > 0 {
        lemma_reap_names(recs.drop_first(), now, name);
        if !spec_record_stale(recs[0], now) {
            let kept = spec_reap(recs, now);
            assert(kept.drop_first() =~= spec_reap(recs.drop_first(), now));
        }
    }
}

/// Reaping keeps names distinct.
pub proof fn lemma_reap_wf(recs: Seq<RecordModel>, now: u64)
    requires
        spec_wf(recs),
    ensures
        spec_wf(spec_reap(recs, now)),
    decreases recs.len(),
{
    lemma_wf_rec_iff(recs);
    lemma_reap_wf_rec(recs, now);
    lemma_wf_rec_iff(spec_reap(recs, now));
}

proof fn lemma_reap_wf_rec(recs: Seq<RecordModel>, now: u64)
    requires
        spec_wf_rec(recs),
    ensures
        spec_wf_rec(spec_reap(recs, now)),
    decreases recs.len(),
{
    if recs.len() > 0 {
        lemma_reap_wf_rec(recs.drop_first(), now);
        if !spec_record_stale(recs[0], now) {
            let kept = spec_reap(recs, now);
            assert(kept.drop_first() =~= spec_reap(recs.drop_first(), now));
            lemma_reap_names(recs.drop_first(), now, recs[0].name);
        }
    }
}

/// The reaper is exact: it keeps a record if and only if the record is not
/// yet ripe for eviction.
pub proof fn lemma_reap_membership(recs: Seq<RecordModel>, now: u64)
    ensures
        forall|i: int|
            0 <= i < recs.len() && !spec_record_stale(#[trigger] recs[i], now) ==> spec_reap(
                recs,
                now,
            ).contains(recs[i]),
        forall|k: int|
            0 <= k < spec_reap(recs, now).len() ==> !spec_record_stale(
                #[trigger] spec_reap(recs, now)[k],
                now,
            ) && recs.contains(spec_reap(recs, now)[k]),
    decreases recs.len(),
{
    if recs.len() > 0 {
        lemma_reap_membership(recs.drop_first(), now);
        let sub = spec_reap(recs.drop_first(), now);
        let whole = spec_reap(recs, now);
        assert(forall|k: int|
            0 <= k < recs.drop_first().len() ==> #[trigger] recs.drop_first()[k] == recs[k + 1]);
        assert forall|i: int|
            0 <= i < recs.len() && !spec_record_stale(#[trigger] recs[i], now) implies whole.contains(
            recs[i],
        ) by {
            if i == 0 {
                assert(whole[0] == recs[0]);
            } else {
                assert(sub.contains(recs.drop_first()[i - 1]));
                let k = choose|k: int| 0 <= k < sub.len() && sub[k] == recs[i];
                if spec_record_stale(recs[0], now) {
                    assert(whole[k] == recs[i]);
                } else {
                    assert(whole[k + 1] == recs[i]);
                }
            }
        }
        assert forall|k: int| 0 <= k < whole.len() implies !spec_record_stale(
            #[trigger] whole[k],
            now,
        ) && recs.contains(whole[k]) by {
            if spec_record_stale(recs[0], now) {
                assert(whole[k] == sub[k]);
                assert(recs.drop_first().contains(sub[k]));
                let j = choose|j: int|
                    0 <= j < recs.drop_first().len() && recs.drop_first()[j] == sub[k];
                assert(recs[j + 1] == whole[k]);
            } else {
                if k == 0 {
                    assert(whole[0] == recs[0]);
                } else {
                    assert(whole[k] == sub[k - 1]);
                    assert(recs.drop_first().contains(sub[k - 1]));
                    let j = choose|j: int|
                        0 <= j < recs.drop_first().len() && recs.drop_first()[j] == sub[k - 1];
                    assert(recs[j + 1] == whole[k]);
                }
            }
        }
    }
}

impl Directory {
    /// Applies a partial update to the record with a name, advancing its
    /// heartbeat; reports whether the name was registered.
    pub fn update(&mut self, name: &str, fields: UpdateFields, now: u64) -> (r: bool)
        requires
            spec_wf(old(self)@),
        ensures
            final(self)@ =~= spec_update(old(self)@, name@, fields@, now),
            spec_wf(final(self)@),
            r == (spec_find(old(self)@, name@) is Some),
    {
        proof {
            lemma_find_characterizes(self@, name@);
        }
        let ghost old_view = self@;
        let ghost u = fields@;
        match self.find(name) {
            Some(i) => {
                match fields.host {
                    Some(h) => {
                        self.services[i].host = h;
                    },
                    None => {},
                }
                match fields.port {
                    Some(p) => {
                        self.services[i].port = p;
                    },
                    None => {},
                }
                match fields.hostname {
                    Some(h) => {
                        self.services[i].hostname = h;
                    },
                    None => {},
                }
                match fields.url {
                    Some(x) => {
                        self.services[i].url = x;
                    },
                    None => {},
                }
                match fields.status {
                    Some(st) => {
                        self.services[i].status = st;
                    },
                    None => {},
                }
                match fields.metadata {
                    Some(m) => {
                        self.services[i].metadata = m;
                    },
                    None => {},
                }
                self.services[i].last_heartbeat = now;
                proof {
                    assert(self@ =~= old_view.update(
                        i as int,
                        spec_update_one(old_view[i as int], u, now),
                    ));
                }
                true
            },
            None => false,
        }
    }

    /// Records a probe outcome on the record with a name; on success the
    /// heartbeat advances too. Reports whether the name was registered.
    pub fn apply_probe(&mut self, name: &str, healthy: bool, now: u64) -> (r: bool)
        requires
            spec_wf(old(self)@),
        ensures
            final(self)@ =~= spec_apply_probe(old(self)@, name@, healthy, now),
            spec_wf(final(self)@),
            r == (spec_find(old(self)@, name@) is Some),
    {
        proof {
            lemma_find_characterizes(self@, name@);
        }
        let ghost old_view = self@;
        match self.find(name) {
            Some(i) => {
                self.services[i].health_status = if healthy {
                    HealthStatus::Healthy
                } else {
                    HealthStatus::Unhealthy
                };
                if healthy {
                    self.services[i].last_heartbeat = now;
                }
                proof {
                    assert(self@ =~= old_view.update(
                        i as int,
                        spec_probe_one(old_view[i as int], healthy, now),
                    ));
                }
                true
            },
            None => false,
        }
    }

    /// Evicts every record whose heartbeat is older than the eviction
    /// threshold.
    pub fn reap(&mut self, now: u64)
        requires
            spec_wf(old(self)@),
        ensures
            final(self)@ =~= spec_reap(old(self)@, now),
            spec_wf(final(self)@),
    {
        let ghost old_view = self@;
        let mut kept: Vec<ServiceRecord> = Vec::new();
        proof {
            assert(Seq::new(kept@.len(), |k: int| kept@[k]@) + spec_reap(old_view, now)
                =~= spec_reap(old_view, now));
        }
        while self.services.len() > 0
            invariant
                spec_reap(old_view, now) =~= Seq::new(kept@.len(), |k: int| kept@[k]@) + spec_reap(
                    self@,
                    now,
                ),
            decreases self.services@.len(),
        {
            let ghost before = self@;
            let rec = self.services.remove(0);
            proof {
                assert(self@ =~= before.drop_first());
                assert(rec@ == before[0]);
            }
            let rec_stale = now >= rec.last_heartbeat && now - rec.last_heartbeat
                > EVICTION_THRESHOLD_SECS;
            if !rec_stale {
                let ghost old_kept = Seq::new(kept@.len(), |k: int| kept@[k]@);
                kept.push(rec);
                proof {
                    assert(Seq::new(kept@.len(), |k: int| kept@[k]@) =~= old_kept.push(before[0]));
                    assert(old_kept + (seq![before[0]] + spec_reap(before.drop_first(), now))
                        =~= old_kept.push(before[0]) + spec_reap(before.drop_first(), now));
                }
            }
        }
        proof {
            assert(spec_reap(self@, now) =~= Seq::<RecordModel>::empty());
            assert(Seq::new(kept@.len(), |k: int| kept@[k]@) + Seq::<RecordModel>::empty()
                =~= Seq::new(kept@.len(), |k: int| kept@[k]@));
        }
        self.services = kept;
        proof {
            lemma_reap_wf(old_view, now);
        }
    }
}

} // verus!

verus! {

impl ServiceRecord {
    /// The URL the prober calls for this record.
    pub fn probe_url(&self) -> (r: String)
        requires
            self@.port < 65535,
        ensures
            r@ == spec_probe_url(self@),
    {
        if crate::metadata::is_openai_api(&self.metadata) {
            let base = crate::strutil::http_url(self.host.as_str(), self.port + 1);
            crate::strutil::concat2(base.as_str(), "/health")
        } else {
            crate::strutil::concat2(self.url.as_str(), "/health")
        }
    }
}

/// Whether a record passes the list filters.
pub open spec fn spec_passes(
    r: RecordModel,
    status_f: Option<Seq<char>>,
    healthy_f: Option<bool>,
    now: u64,
) -> bool {
    (match status_f {
        Some(st) => r.status == st,
        None => true,
    }) && (match healthy_f {
        Some(h) => spec_record_healthy(r, now) == h,
        None => true,
    })
}

impl Directory {
    /// The indices of the records that pass the list filters, in order.
    pub fn list(&self, status_f: Option<&String>, healthy_f: Option<bool>, now: u64) -> (r: Vec<
        usize,
    >)
        ensures
            forall|k: int|
                0 <= k < r@.len() ==> (#[trigger] r@[k]) < self@.len() && spec_passes(
                    self@[r@[k] as int],
                    match status_f {
                        Some(st) => Some(st@),
                        None => None,
                    },
                    healthy_f,
                    now,
                ),
            forall|k1: int, k2: int| 0 <= k1 < k2 < r@.len() ==> r@[k1] < r@[k2],
            forall|i: int|
                0 <= i < self@.len() && spec_passes(
                    #[trigger] self@[i],
                    match status_f {
                        Some(st) => Some(st@),
                        None => None,
                    },
                    healthy_f,
                    now,
                ) ==> exists|k: int| 0 <= k < r@.len() && r@[k] == i,
    {
        let ghost stf: Option<Seq<char>> = match status_f {
            Some(st) => Some(st@),
            None => None,
        };
        let mut out: Vec<usize> = Vec::new();
        let mut i: usize = 0;
        while i < self.services.len()
            invariant
                0 <= i <= self.services@.len(),
                self@.len() == self.services@.len(),
                stf == (match status_f {
                    Some(st) => Some(st@),
                    None => None,
                }),
                forall|k: int|
                    0 <= k < out@.len() ==> (#[trigger] out@[k]) < i && spec_passes(
                        self@[out@[k] as int],
                        stf,
                        healthy_f,
                        now,
                    ),
                forall|k1: int, k2: int| 0 <= k1 < k2 < out@.len() ==> out@[k1] < out@[k2],
                forall|j: int|
                    0 <= j < i && spec_passes(#[trigger] self@[j], stf, healthy_f, now)
                        ==> exists|k: int| 0 <= k < out@.len() && out@[k] == j,
            decreases self.services@.len() - i,
        {
            let rec = &self.services[i];
            let status_ok = match status_f {
                Some(st) => rec.status.eq(st),
                None => true,
            };
            let healthy_ok = match healthy_f {
                Some(h) => rec.is_healthy(now) == h,
                None => true,
            };
            if status_ok && healthy_ok {
                let ghost old_out = out@;
                out.push(i);
                proof {
                    assert(out@[out@.len() - 1] == i);
                    assert forall|j: int|
                        0 <= j < i + 1 && spec_passes(
                            #[trigger] self@[j],
                            stf,
                            healthy_f,
                            now,
                        ) implies exists|k: int| 0 <= k < out@.len() && out@[k] == j by {
                        if j < i {
                            let k = choose|k: int| 0 <= k < old_out.len() && old_out[k] == j;
                            assert(out@[k] == j);
                        } else {
                            assert(out@[out@.len() - 1] == j);
                        }
                    }
                }
            }
            i += 1;
        }
        out
    }
}

/// Registering a record and looking its name up yields the registered body.
pub proof fn lemma_register_then_get(recs: Seq<RecordModel>, rec: RecordModel)
    ensures
        spec_get(spec_register(recs, rec), rec.name) == Some(rec),
{
    lemma_find_characterizes(recs, rec.name);
    let after = spec_register(recs, rec);
    lemma_find_characterizes(after, rec.name);
    match spec_find(recs, rec.name) {
        Some(i) => {
            assert(after[i].name == rec.name);
            match spec_find(after, rec.name) {
                Some(k) => {
                    assert(after[k].name == rec.name);
                    if k < i {
                        assert(after[k] == recs[k]);
                        assert(false);
                    }
                    if k > i {
                        assert(after[i].name != rec.name);
                        assert(false);
                    }
                },
                None => {
                    assert(after[i].name != rec.name);
                    assert(false);
                },
            }
        },
        None => {
            let n = recs.len() as int;
            assert(after[n] == rec);
            match spec_find(after, rec.name) {
                Some(k) => {
                    assert(after[k].name == rec.name);
                    if k < n {
                        assert(after[k] == recs[k]);
                        assert(false);
                    }
                },
                None => {
                    assert(after[n].name != rec.name);
                    assert(false);
                },
            }
        },
    }
}

/// Unregistering a name and looking it up finds nothing.
pub proof fn lemma_unregister_then_get(recs: Seq<RecordModel>, name: Seq<char>)
    requires
        spec_wf(recs),
    ensures
        spec_get(spec_unregister(recs, name), name) is None,
{
    lemma_find_characterizes(recs, name);
    let after = spec_unregister(recs, name);
    lemma_find_characterizes(after, name);
    match spec_find(recs, name) {
        Some(i) => {
            match spec_find(after, name) {
                Some(k) => {
                    assert(after[k].name == name);
                    if k < i {
                        assert(after[k] == recs[k]);
                    } else {
                        assert(after[k] == recs[k + 1]);
                    }
                    assert(false);
                },
                None => {},
            }
        },
        None => {},
    }
}

/// A heartbeat pins the record's heartbeat to `now`; with the clock
/// unmoved, repeating it changes nothing more.
pub proof fn lemma_heartbeat_advances(
    recs: Seq<RecordModel>,
    name: Seq<char>,
    now: u64,
    st: Option<Seq<char>>,
)
    ensures
        match spec_find(recs, name) {
            Some(i) => {
                let after = spec_heartbeat(recs, name, now, st);
                after[i].last_heartbeat == now && (recs[i].last_heartbeat <= now
                    ==> after[i].last_heartbeat >= recs[i].last_heartbeat) && (
                recs[i].last_heartbeat < now ==> after[i].last_heartbeat
                    > recs[i].last_heartbeat)
            },
            None => spec_heartbeat(recs, name, now, st) == recs,
        },
{
    lemma_find_characterizes(recs, name);
    match spec_find(recs, name) {
        Some(i) => {},
        None => {
            assert(spec_heartbeat(recs, name, now, st) =~= recs);
        },
    }
}

/// Heartbeats at one instant collapse: a second one at the same `now`
/// leaves the directory exactly as the first left it.
pub proof fn lemma_heartbeat_idempotent(
    recs: Seq<RecordModel>,
    name: Seq<char>,
    now: u64,
    st: Option<Seq<char>>,
)
    ensures
        spec_heartbeat(spec_heartbeat(recs, name, now, st), name, now, st) == spec_heartbeat(
            recs,
            name,
            now,
            st,
        ),
{
    lemma_find_characterizes(recs, name);
    let once = spec_heartbeat(recs, name, now, st);
    lemma_find_characterizes(once, name);
    match spec_find(recs, name) {
        Some(i) => {
            assert(once[i].name == name);
            match spec_find(once, name) {
                Some(k) => {
                    assert(once[k].name == name);
                    if k < i {
                        assert(once[k] == recs[k]);
                        assert(false);
                    }
                    if k > i {
                        assert(once[i].name != name);
                        assert(false);
                    }
                    assert(spec_heartbeat(once, name, now, st) =~= once.update(
                        i,
                        spec_heartbeat_one(once[i], now, st),
                    ));
                    assert(spec_heartbeat_one(once[i], now, st) == once[i]);
                    assert(once.update(i, once[i]) =~= once);
                },
                None => {
                    assert(once[i].name != name);
                    assert(false);
                },
            }
        },
        None => {
            assert(once =~= recs);
            assert(spec_heartbeat(once, name, now, st) =~= recs);
        },
    }
}

} // verus!

verus! {

/// How many records are healthy at `now`.
pub open spec fn spec_count_healthy(recs: Seq<RecordModel>, now: u64) -> int
    decreases recs.len(),
{
    if recs.len() == 0 {
        0
    } else {
        spec_count_healthy(recs.drop_last(), now) + (if spec_record_healthy(recs.last(), now) {
            1int
        } else {
            0int
        })
    }
}

/// How many of the given values equal a key.
pub open spec fn spec_count_val(vals: Seq<Seq<char>>, key: Seq<char>) -> int
    decreases vals.len(),
{
    if vals.len() == 0 {
        0
    } else {
        spec_count_val(vals.drop_last(), key) + (if vals.last() == key {
            1int
        } else {
            0int
        })
    }
}

/// Counts the values equal to a key.
fn count_matching(values: &Vec<String>, key: &String) -> (r: u64)
    ensures
        r as int == spec_count_val(values.deep_view(), key@),
        r as int <= values.deep_view().len(),
{
    let mut c: u64 = 0;
    let mut j: usize = 0;
    proof {
        assert(values.deep_view().subrange(0, 0) =~= Seq::<Seq<char>>::empty());
    }
    while j < values.len()
        invariant
            0 <= j <= values@.len(),
            values.deep_view().len() == values@.len(),
            forall|k: int| 0 <= k < values@.len() ==> values.deep_view()[k] == (
            #[trigger] values@[k])@,
            c as int == spec_count_val(values.deep_view().subrange(0, j as int), key@),
            c as int <= j as int,
        decreases values@.len() - j,
    {
        proof {
            assert(values.deep_view().subrange(0, j as int + 1).drop_last() =~= values.deep_view()
                .subrange(0, j as int));
            assert(values.deep_view().subrange(0, j as int + 1).last() == values.deep_view()[
                j as int]);
        }
        if values[j].eq(key) {
            c = c + 1;
        }
        j += 1;
    }
    proof {
        assert(values.deep_view().subrange(0, values@.len() as int) =~= values.deep_view());
    }
    c
}

/// A row bearing a key among histogram rows.
pub open spec fn spec_row_with(rows: Seq<(String, u64)>, key: Seq<char>) -> bool {
    exists|k: int| 0 <= k < rows.len() && (#[trigger] rows[k]).0@ == key
}

/// A histogram over string values: each distinct value once, with how often
/// it occurs; a value occurring at all has its row.
pub fn histogram(values: &Vec<String>) -> (r: Vec<(String, u64)>)
    ensures
        forall|a: int, b: int|
            0 <= a < b < r@.len() ==> (#[trigger] r@[a]).0@ != (#[trigger] r@[b]).0@,
        forall|k: int|
            0 <= k < r@.len() ==> (#[trigger] r@[k]).1 as int == spec_count_val(
                values.deep_view(),
                r@[k].0@,
            ),
        forall|vi: int| 0 <= vi < values@.len() ==> spec_row_with(r@, (#[trigger] values@[vi])@),
{
    let mut out: Vec<(String, u64)> = Vec::new();
    let mut vi: usize = 0;
    while vi < values.len()
        invariant
            0 <= vi <= values@.len(),
            values.deep_view().len() == values@.len(),
            forall|k: int| 0 <= k < values@.len() ==> values.deep_view()[k] == (
            #[trigger] values@[k])@,
            forall|a: int, b: int|
                0 <= a < b < out@.len() ==> (#[trigger] out@[a]).0@ != (#[trigger] out@[b]).0@,
            forall|k: int|
                0 <= k < out@.len() ==> (#[trigger] out@[k]).1 as int == spec_count_val(
                    values.deep_view(),
                    out@[k].0@,
                ),
            forall|jj: int| 0 <= jj < vi ==> spec_row_with(out@, (#[trigger] values@[jj])@),
        decreases values@.len() - vi,
    {
        let mut seen = false;
        let mut k: usize = 0;
        while k < out.len()
            invariant
                0 <= k <= out@.len(),
                vi < values@.len(),
                seen ==> exists|kk: int|
                    0 <= kk < out@.len() && (#[trigger] out@[kk]).0@ == values@[vi as int]@,
                !seen ==> forall|kk: int| 0 <= kk < k ==> (#[trigger] out@[kk]).0@ != values@[
                    vi as int]@,
            decreases out@.len() - k,
        {
            if out[k].0.eq(&values[vi]) {
                seen = true;
            }
            k += 1;
        }
        if !seen {
            let c = count_matching(values, &values[vi]);
            let ghost before = out@;
            out.push((values[vi].clone(), c));
            proof {
                assert(out@[out@.len() - 1].0@ == values@[vi as int]@);
                assert forall|jj: int|
                    0 <= jj < vi + 1 implies spec_row_with(out@, (#[trigger] values@[jj])@) by {
                    if jj < vi {
                        let kk = choose|kk: int|
                            0 <= kk < before.len() && (#[trigger] before[kk]).0@ == values@[jj]@;
                        assert(out@[kk].0@ == values@[jj]@);
                    } else {
                        assert(out@[out@.len() - 1].0@ == values@[jj]@);
                    }
                }
            }
        } else {
            proof {
                let w = choose|kk: int|
                    0 <= kk < out@.len() && (#[trigger] out@[kk]).0@ == values@[vi as int]@;
                assert forall|jj: int|
                    0 <= jj < vi + 1 implies spec_row_with(out@, (#[trigger] values@[jj])@) by {
                    if jj == vi as int {
                        assert(out@[w].0@ == values@[jj]@);
                    }
                }
            }
        }
        vi += 1;
    }
    out
}

impl Directory {
    /// How many records are healthy at `now`.
    pub fn healthy_count(&self, now: u64) -> (r: usize)
        ensures
            r as int == spec_count_healthy(self@, now),
    {
        let mut c: usize = 0;
        let mut i: usize = 0;
        proof {
            assert(self@.subrange(0, 0) =~= Seq::<RecordModel>::empty());
        }
        while i < self.services.len()
            invariant
                0 <= i <= self.services@.len(),
                self@.len() == self.services@.len(),
                c as int == spec_count_healthy(self@.subrange(0, i as int), now),
                c <= i,
            decreases self.services@.len() - i,
        {
            proof {
                assert(self@.subrange(0, i as int + 1).drop_last() =~= self@.subrange(0, i as int));
                assert(self@.subrange(0, i as int + 1).last() == self@[i as int]);
            }
            if self.services[i].is_healthy(now) {
                c = c + 1;
            }
            i += 1;
        }
        proof {
            assert(self@.subrange(0, self@.len() as int) =~= self@);
        }
        c
    }

    /// The records' statuses, in order.
    pub fn status_values(&self) -> (r: Vec<String>)
        ensures
            r.deep_view() =~= Seq::new(self@.len(), |i: int| self@[i].status),
    {
        let mut out: Vec<String> = Vec::new();
        let mut i: usize = 0;
        while i < self.services.len()
            invariant
                0 <= i <= self.services@.len(),
                self@.len() == self.services@.len(),
                out@.len() == i,
                forall|k: int| 0 <= k < i ==> (#[trigger] out@[k])@ == self@[k].status,
            decreases self.services@.len() - i,
        {
            out.push(self.services[i].status.clone());
            i += 1;
        }
        out
    }

    /// The records' hosts, in order.
    pub fn host_values(&self) -> (r: Vec<String>)
        ensures
            r.deep_view() =~= Seq::new(self@.len(), |i: int| self@[i].host),
    {
        let mut out: Vec<String> = Vec::new();
        let mut i: usize = 0;
        while i < self.services.len()
            invariant
                0 <= i <= self.services@.len(),
                self@.len() == self.services@.len(),
                out@.len() == i,
                forall|k: int| 0 <= k < i ==> (#[trigger] out@[k])@ == self@[k].host,
            decreases self.services@.len() - i,
        {
            out.push(self.services[i].host.clone());
            i += 1;
        }
        out
    }
}

} // verus!
