//! The router's configuration and the static services file: a JSON file
//! accepted in any of three shapes — a bare array, `{services: [...]}`, or
//! `{static_services: {services: [...]}}` — each entry naming a service,
//! its endpoint, an optional weight and opaque metadata.

use vstd::prelude::*;

use crate::json::{
    jm_as_arr, jm_as_u64, jm_get, jm_get_str, jview_items, parse_json_chars, spec_parse_json,
    JModel, Json,
};
use crate::bindings::str_to_chars;

verus! {

/// The router's knobs, as its command line carries them.
pub struct Config {
    pub router_port: u16,
    pub registry_url: Option<String>,
    pub static_services: Option<Vec<StaticService>>,
    pub health_check_interval: u64,
    pub health_check_timeout: u64,
    pub max_errors: u32,
    pub registry_sync_interval: u64,
    pub service_removal_grace_period: u64,
}

/// One statically configured service.
pub struct StaticService {
    pub name: String,
    pub host: String,
    pub port: u16,
    pub weight: u32,
    pub metadata: Json,
}

/// The mathematical shape of a static entry.
pub ghost struct StaticModel {
    pub name: Seq<char>,
    pub host: Seq<char>,
    pub port: u16,
    pub weight: u32,
    pub metadata: JModel,
}

impl View for StaticService {
    type V = StaticModel;

    open spec fn view(&self) -> StaticModel {
        StaticModel {
            name: self.name@,
            host: self.host@,
            port: self.port,
            weight: self.weight,
            metadata: self.metadata@,
        }
    }
}

/// The weight of a service that names none.
pub fn default_weight() -> (r: u32)
    ensures
        r == 1,
{
    1
}

/// The entries array of a static services file, whichever of the three
/// accepted shapes carries it.
pub open spec fn spec_static_shape(m: JModel) -> Option<Seq<JModel>> {
    let nested = match jm_get(m, "static_services"@) {
        Some(v) => match jm_get(v, "services"@) {
            Some(w) => jm_as_arr(w),
            None => None,
        },
        None => None,
    };
    match nested {
        Some(items) => Some(items),
        None => match jm_get(m, "services"@) {
            Some(v) => match jm_as_arr(v) {
                Some(items) => Some(items),
                None => spec_bare_array(m),
            },
            None => spec_bare_array(m),
        },
    }
}

pub open spec fn spec_bare_array(m: JModel) -> Option<Seq<JModel>> {
    match m {
        JModel::Arr(items) => Some(items),
        _ => None,
    }
}

/// One entry's reading: its name, host, a port that fits, a weight that
/// fits (one when absent), and its metadata (null when absent).
pub open spec fn spec_static_entry(m: JModel) -> Option<StaticModel> {
    match jm_get_str(m, "name"@) {
        None => None,
        Some(name) => match jm_get_str(m, "host"@) {
            None => None,
            Some(host) => match jm_get(m, "port"@) {
                None => None,
                Some(pv) => match jm_as_u64(pv) {
                    None => None,
                    Some(p) => if p <= 65535 {
                        let weight = match jm_get(m, "weight"@) {
                            None => Some(1u32),
                            Some(wv) => match jm_as_u64(wv) {
                                Some(w) => if w <= u32::MAX {
                                    Some(w as u32)
                                } else {
                                    None
                                },
                                None => None,
                            },
                        };
                        match weight {
                            None => None,
                            Some(w) => Some(
                                StaticModel {
                                    name,
                                    host,
                                    port: p as u16,
                                    weight: w,
                                    metadata: match jm_get(m, "metadata"@) {
                                        Some(md) => md,
                                        None => JModel::Null,
                                    },
                                },
                            ),
                        }
                    } else {
                        None
                    },
                },
            },
        },
    }
}

/// All entries' readings; one bad entry spoils the file.
pub open spec fn spec_static_entries(items: Seq<JModel>) -> Option<Seq<StaticModel>>
    decreases items.len(),
{
    if items.len() == 0 {
        Some(Seq::empty())
    } else {
        match spec_static_entries(items.drop_last()) {
            None => None,
            Some(rest) => match spec_static_entry(items.last()) {
                None => None,
                Some(e) => Some(rest.push(e)),
            },
        }
    }
}

/// The reading of a whole static services file.
pub open spec fn spec_parse_static_services(s: Seq<char>) -> Option<Seq<StaticModel>> {
    match spec_parse_json(s) {
        None => None,
        Some(m) => match spec_static_shape(m) {
            None => None,
            Some(items) => spec_static_entries(items),
        },
    }
}

fn static_entry(m: &Json) -> (r: Option<StaticService>)
    ensures
        match r {
            Some(e) => spec_static_entry(m@) == Some(e@),
            None => spec_static_entry(m@) is None,
        },
{
    let name_key = str_to_chars("name");
    let host_key = str_to_chars("host");
    let port_key = str_to_chars("port");
    let weight_key = str_to_chars("weight");
    let metadata_key = str_to_chars("metadata");
    let name = match m.get_str_field(name_key.as_slice()) {
        Some(n) => n,
        None => {
            return None;
        },
    };
    let host = match m.get_str_field(host_key.as_slice()) {
        Some(h) => h,
        None => {
            return None;
        },
    };
    let port: u16 = match m.obj_get(port_key.as_slice()) {
        Some(pv) => match pv.as_u64() {
            Some(p) => if p <= 65535 {
                p as u16
            } else {
                return None;
            },
            None => {
                return None;
            },
        },
        None => {
            return None;
        },
    };
    let weight: u32 = match m.obj_get(weight_key.as_slice()) {
        Some(wv) => match wv.as_u64() {
            Some(w) => if w <= (u32::MAX as u64) {
                w as u32
            } else {
                return None;
            },
            None => {
                return None;
            },
        },
        None => 1,
    };
    let metadata = match m.obj_get(metadata_key.as_slice()) {
        Some(md) => md.deep_clone(),
        None => Json::Null,
    };
    Some(StaticService { name, host, port, weight, metadata })
}

/// A bad prefix spoils the whole list of entries.
proof fn lemma_entries_none_extend(items: Seq<JModel>, n: int)
    requires
        0 <= n <= items.len(),
        spec_static_entries(items.subrange(0, n)) is None,
    ensures
        spec_static_entries(items) is None,
    decreases items.len() - n,
{
    if n == items.len() {
        assert(items.subrange(0, n) =~= items);
    } else {
        assert(items.subrange(0, n + 1).drop_last() =~= items.subrange(0, n));
        lemma_entries_none_extend(items, n + 1);
    }
}

/// Reads a static services file: any of the three accepted shapes, every
/// entry well-formed; otherwise an error naming what went wrong.
pub fn parse_static_services(text: &str) -> (r: Result<Vec<StaticService>, String>)
    ensures
        match r {
            Ok(v) => spec_parse_static_services(text@) == Some(
                Seq::new(v@.len(), |i: int| v@[i]@),
            ),
            Err(_) => spec_parse_static_services(text@) is None,
        },
{
    let chars = str_to_chars(text);
    let doc = match parse_json_chars(chars.as_slice()) {
        Some(j) => j,
        None => {
            return Err(String::from_str("Failed to parse static services JSON"));
        },
    };
    let ss_key = str_to_chars("static_services");
    let services_key = str_to_chars("services");
    let items: &Vec<Json> = match doc.obj_get(ss_key.as_slice()) {
        Some(v) => match v.obj_get(services_key.as_slice()) {
            Some(w) => match w.as_arr() {
                Some(items) => items,
                None => match fallback_shape(&doc, &services_key) {
                    Some(items) => items,
                    None => {
                        return Err(invalid_shape_message());
                    },
                },
            },
            None => match fallback_shape(&doc, &services_key) {
                Some(items) => items,
                None => {
                    return Err(invalid_shape_message());
                },
            },
        },
        None => match fallback_shape(&doc, &services_key) {
            Some(items) => items,
            None => {
                return Err(invalid_shape_message());
            },
        },
    };
    let mut out: Vec<StaticService> = Vec::new();
    let mut i: usize = 0;
    proof {
        crate::json::lemma_jview_items_len(items@);
        assert(spec_static_entries(jview_items(items@).subrange(0, 0)) == Some(
            Seq::<StaticModel>::empty(),
        ));
        assert(Seq::new(out@.len(), |k: int| out@[k]@) =~= Seq::<StaticModel>::empty());
    }
    while i < items.len()
        invariant
            0 <= i <= items@.len(),
            jview_items(items@).len() == items@.len(),
            spec_parse_json(text@) == Some(doc@),
            spec_static_shape(doc@) == Some(jview_items(items@)),
            spec_static_entries(jview_items(items@).subrange(0, i as int)) == Some(
                Seq::new(out@.len(), |k: int| out@[k]@),
            ),
        decreases items@.len() - i,
    {
        proof {
            crate::json::lemma_jview_items_index(items@, i as int);
            assert(jview_items(items@).subrange(0, i as int + 1).drop_last() =~= jview_items(
                items@,
            ).subrange(0, i as int));
            assert(jview_items(items@).subrange(0, i as int + 1).last() == jview_items(items@)[
                i as int]);
        }
        match static_entry(&items[i]) {
            Some(e) => {
                let ghost before = Seq::new(out@.len(), |k: int| out@[k]@);
                let ghost ev = e@;
                out.push(e);
                proof {
                    assert(Seq::new(out@.len(), |k: int| out@[k]@) =~= before.push(ev));
                }
            },
            None => {
                proof {
                    assert(spec_static_entries(jview_items(items@).subrange(0, i as int + 1))
                        is None);
                    lemma_entries_none_extend(jview_items(items@), i as int + 1);
                }
                return Err(String::from_str("Failed to deserialize static services"));
            },
        }
        i += 1;
    }
    proof {
        assert(jview_items(items@).subrange(0, items@.len() as int) =~= jview_items(items@));
    }
    Ok(out)
}

/// The second and third accepted shapes: a `services` array, or the whole
/// document as a bare array.
fn fallback_shape<'a>(doc: &'a Json, services_key: &Vec<char>) -> (r: Option<&'a Vec<Json>>)
    requires
        services_key@ == "services"@,
    ensures
        ({
            let expected = match jm_get(doc@, "services"@) {
                Some(v) => match jm_as_arr(v) {
                    Some(items) => Some(items),
                    None => spec_bare_array(doc@),
                },
                None => spec_bare_array(doc@),
            };
            match r {
                Some(items) => expected == Some(jview_items(items@)),
                None => expected is None,
            }
        }),
{
    match doc.obj_get(services_key.as_slice()) {
        Some(v) => match v.as_arr() {
            Some(items) => Some(items),
            None => doc.as_arr(),
        },
        None => doc.as_arr(),
    }
}

fn invalid_shape_message() -> (r: String)
    ensures
        true,
{
    String::from_str(
        "Invalid static services format: expected array or object with services key",
    )
}

impl Config {
    /// Assembles the router's configuration from its already-read pieces.
    pub fn new(
        router_port: u16,
        registry_url: Option<String>,
        static_services: Option<Vec<StaticService>>,
        health_check_interval: u64,
        health_check_timeout: u64,
        max_errors: u32,
        registry_sync_interval: u64,
        service_removal_grace_period: u64,
    ) -> (r: Config)
        ensures
            r.router_port == router_port,
            r.health_check_interval == health_check_interval,
            r.health_check_timeout == health_check_timeout,
            r.max_errors == max_errors,
            r.registry_sync_interval == registry_sync_interval,
            r.service_removal_grace_period == service_removal_grace_period,
            r.registry_url == registry_url,
            match r.static_services {
                Some(ref v) => static_services is Some && v@ == static_services->0@,
                None => static_services is None,
            },
    {
        Config {
            router_port,
            registry_url,
            static_services,
            health_check_interval,
            health_check_timeout,
            max_errors,
            registry_sync_interval,
            service_removal_grace_period,
        }
    }
}

} // verus!
