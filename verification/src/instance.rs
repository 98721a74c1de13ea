//! The router's view of one worker: identity, derived endpoints, health,
//! served models, counters and timing.

use vstd::prelude::*;

use crate::json::{JModel, Json};
use crate::metadata::{meta_models, spec_meta_models};
use crate::strutil::{http_url, spec_http_url};

verus! {

/// One live instance in the router's pool.
pub struct ServiceInstance {
    pub name: String,
    pub host: String,
    pub port: u16,
    /// Always `http://{host}:{port}`: derived, never stored independently.
    pub url: String,
    /// Always `http://{host}:{port+1}`: the worker's supervisor.
    pub babysitter_url: String,
    pub healthy: bool,
    pub models: Vec<String>,
    pub metadata: Json,
    pub request_count: u64,
    pub error_count: u32,
    pub weight: u32,
    /// Seconds since the epoch of the last registry sync that named it.
    pub last_seen: u64,
    /// Seconds since the epoch of the last health probe against it.
    pub last_check: u64,
    /// Milliseconds the last successful probe took.
    pub response_time_ms: u64,
}

/// The mathematical shape of one instance.
pub ghost struct InstanceModel {
    pub name: Seq<char>,
    pub host: Seq<char>,
    pub port: u16,
    pub url: Seq<char>,
    pub babysitter_url: Seq<char>,
    pub healthy: bool,
    pub models: Seq<Seq<char>>,
    pub metadata: JModel,
    pub request_count: u64,
    pub error_count: u32,
    pub weight: u32,
    pub last_seen: u64,
    pub last_check: u64,
    pub response_time_ms: u64,
}

impl View for ServiceInstance {
    type V = InstanceModel;

    open spec fn view(&self) -> InstanceModel {
        InstanceModel {
            name: self.name@,
            host: self.host@,
            port: self.port,
            url: self.url@,
            babysitter_url: self.babysitter_url@,
            healthy: self.healthy,
            models: self.models.deep_view(),
            metadata: self.metadata@,
            request_count: self.request_count,
            error_count: self.error_count,
            weight: self.weight,
            last_seen: self.last_seen,
            last_check: self.last_check,
            response_time_ms: self.response_time_ms,
        }
    }
}

/// Both endpoints are derived from host and port; the supervisor sits one
/// port up.
pub open spec fn spec_instance_wf(m: InstanceModel) -> bool {
    &&& m.port < 65535
    &&& m.url == spec_http_url(m.host, m.port)
    &&& m.babysitter_url == spec_http_url(m.host, (m.port + 1) as u16)
}

impl ServiceInstance {
    /// A fresh instance: endpoints derived, models read from the metadata,
    /// optimistically healthy, seen now, counters at zero.
    pub fn new(name: String, host: String, port: u16, weight: u32, metadata: Json, now: u64) -> (r:
        ServiceInstance)
        requires
            port < 65535,
        ensures
            r@ == (InstanceModel {
                name: name@,
                host: host@,
                port,
                url: spec_http_url(host@, port),
                babysitter_url: spec_http_url(host@, (port + 1) as u16),
                healthy: true,
                models: spec_meta_models(metadata@),
                metadata: metadata@,
                request_count: 0,
                error_count: 0,
                weight,
                last_seen: now,
                last_check: 0,
                response_time_ms: 0,
            }),
            spec_instance_wf(r@),
    {
        let url = http_url(host.as_str(), port);
        let babysitter_url = http_url(host.as_str(), port + 1);
        let models = meta_models(&metadata);
        ServiceInstance {
            name,
            host,
            port,
            url,
            babysitter_url,
            healthy: true,
            models,
            metadata,
            request_count: 0,
            error_count: 0,
            weight,
            last_seen: now,
            last_check: 0,
            response_time_ms: 0,
        }
    }

    /// Whether the instance is currently believed healthy.
    pub fn is_healthy(&self) -> (r: bool)
        ensures
            r == self@.healthy,
    {
        self.healthy
    }

    /// Counts one proxied request; the counter stops at its ceiling rather
    /// than wrap.
    pub fn increment_request_count(&mut self)
        ensures
            final(self)@ == (InstanceModel {
                request_count: if old(self)@.request_count < u64::MAX {
                    (old(self)@.request_count + 1) as u64
                } else {
                    u64::MAX
                },
                ..old(self)@
            }),
    {
        self.request_count = self.request_count.saturating_add(1);
    }

    /// Counts one failure; the counter stops at its ceiling rather than wrap.
    pub fn increment_error_count(&mut self)
        ensures
            final(self)@ == (InstanceModel {
                error_count: if old(self)@.error_count < u32::MAX {
                    (old(self)@.error_count + 1) as u32
                } else {
                    u32::MAX
                },
                ..old(self)@
            }),
    {
        self.error_count = self.error_count.saturating_add(1);
    }

    /// Marks the instance healthy or unhealthy.
    pub fn set_healthy(&mut self, healthy: bool)
        ensures
            final(self)@ == (InstanceModel { healthy, ..old(self)@ }),
    {
        self.healthy = healthy;
    }

    /// Notes that a registry sync named this instance at `now`.
    pub fn update_last_seen(&mut self, now: u64)
        ensures
            final(self)@ == (InstanceModel { last_seen: now, ..old(self)@ }),
    {
        self.last_seen = now;
    }

    /// Whether the instance serves a model.
    pub fn supports_model(&self, model_id: &str) -> (r: bool)
        ensures
            r == self@.models.contains(model_id@),
    {
        let key: String = model_id.to_owned();
        let mut i: usize = 0;
        while i < self.models.len()
            invariant
                0 <= i <= self.models@.len(),
                key@ == model_id@,
                self@.models.len() == self.models@.len(),
                forall|k: int| 0 <= k < self.models@.len() ==> self@.models[k] == self.models@[k]@,
                forall|j: int| 0 <= j < i ==> self@.models[j] != model_id@,
            decreases self.models@.len() - i,
        {
            if self.models[i].eq(&key) {
                proof {
                    assert(self@.models[i as int] == model_id@);
                }
                return true;
            }
            i += 1;
        }
        false
    }
}

} // verus!
