//! The babysitter: a per-worker supervisor. This module holds its verified
//! decisions — configuration shapes and defaults, generated service names,
//! the command built for each backend kind, readiness and restart policy,
//! and the registration and heartbeat payloads — while the process, socket
//! and timer plumbing stays outside.

use vstd::prelude::*;

use crate::json::{jview_fields, jview_items, JModel, Json};
use crate::strutil::{
    http_url, join_strings, name_fold, spec_decimal, spec_http_url, spec_join, spec_name_fold,
    spec_split_ws, split_whitespace_words, u64_to_string,
};

verus! {

/// The babysitter's configuration, as its command line carries it.
pub struct BabysitterConfig {
    pub name: Option<String>,
    pub host: String,
    /// The worker's port; the babysitter listens one above it.
    pub port: Option<u16>,
    pub service_type: String,
    pub path: Option<String>,
    pub command: Option<String>,
    pub args: Option<String>,
    pub work_dir: Option<String>,
    pub registry_url: Option<String>,
    pub router_url: Option<String>,
    pub max_restarts: u32,
    pub restart_delay: u64,
    pub heartbeat_interval: u64,
    pub config_file: Option<String>,
    pub dev: Option<String>,
    pub ndev: Option<u32>,
    pub max_batch: Option<u32>,
    pub env: Vec<String>,
}

/// The generated service name: the given one, or the folded service type
/// and the port (or `unknown` without one), joined by a dash.
pub open spec fn spec_service_name(c: BabysitterConfig) -> Seq<char> {
    match c.name {
        Some(n) => n@,
        None => spec_name_fold(c.service_type@) + "-"@ + (match c.port {
            Some(p) => spec_decimal(p as nat),
            None => "unknown"@,
        }),
    }
}

impl BabysitterConfig {
    /// The service's name in the registry.
    pub fn service_name(&self) -> (r: String)
        ensures
            r@ == spec_service_name(*self),
    {
        match &self.name {
            Some(n) => n.clone(),
            None => {
                let mut out = name_fold(self.service_type.as_str());
                out.append("-");
                match self.port {
                    Some(p) => {
                        let ps = u64_to_string(p as u64);
                        out.append(ps.as_str());
                    },
                    None => {
                        out.append("unknown");
                    },
                }
                out
            },
        }
    }

    /// Whether the backend runs as a plain command.
    pub fn is_command_based(&self) -> (r: bool)
        ensures
            r == (self.service_type@ == "command"@ || self.command is Some),
    {
        let tag: String = String::from_str("command");
        self.service_type.eq(&tag) || match &self.command {
            Some(_) => true,
            None => false,
        }
    }
}

/// The default host a babysitter binds and advertises.
pub fn default_host() -> (r: String)
    ensures
        r@ == "localhost"@,
{
    String::from_str("localhost")
}

/// The default ceiling on restarts.
pub fn default_max_restarts() -> (r: u32)
    ensures
        r == 10000,
{
    10000
}

/// The default pause between restarts, in seconds.
pub fn default_restart_delay() -> (r: u64)
    ensures
        r == 5,
{
    5
}

/// The default pause between heartbeats, in seconds.
pub fn default_heartbeat_interval() -> (r: u64)
    ensures
        r == 30,
{
    30
}

/// The babysitter's own knobs in a configuration file.
pub struct BabysitterSettings {
    pub max_restarts: u32,
    pub restart_delay: u64,
    pub heartbeat_interval: u64,
}

impl Default for BabysitterSettings {
    /// All three knobs at their defaults.
    fn default() -> (r: BabysitterSettings)
        ensures
            r.max_restarts == 10000,
            r.restart_delay == 5,
            r.heartbeat_interval == 30,
    {
        BabysitterSettings { max_restarts: 10000, restart_delay: 5, heartbeat_interval: 30 }
    }
}

/// A backend's construction rules, tagged by kind.
pub enum BackendConfig {
    Command { command: String, args: Vec<String>, work_dir: Option<String>, env: Vec<(String, String)> },
    VLLM { model: String, args: Vec<String>, work_dir: Option<String>, env: Vec<(String, String)> },
    Mock { models: Vec<String> },
    InfiniLMRust { config_file: String, work_dir: Option<String> },
    InfiniLM { model_path: String, args: Vec<String>, work_dir: Option<String>, env: Vec<(String, String)> },
}

/// The kind's name as the command line spells it.
pub open spec fn spec_backend_type_name(b: BackendConfig) -> Seq<char> {
    match b {
        BackendConfig::Command { .. } => "command"@,
        BackendConfig::VLLM { .. } => "vLLM"@,
        BackendConfig::Mock { .. } => "mock"@,
        BackendConfig::InfiniLMRust { .. } => "InfiniLM-Rust"@,
        BackendConfig::InfiniLM { .. } => "InfiniLM"@,
    }
}

/// The path a kind carries: a model, or a nested configuration file.
pub open spec fn spec_backend_path(b: BackendConfig) -> Option<Seq<char>> {
    match b {
        BackendConfig::VLLM { model, .. } => Some(model@),
        BackendConfig::InfiniLMRust { config_file, .. } => Some(config_file@),
        BackendConfig::InfiniLM { model_path, .. } => Some(model_path@),
        _ => None,
    }
}

/// The command of a command-based kind.
pub open spec fn spec_backend_command(b: BackendConfig) -> Option<Seq<char>> {
    match b {
        BackendConfig::Command { command, .. } => Some(command@),
        _ => None,
    }
}

/// The kind's arguments as one string: space-joined, or comma-joined model
/// names for a mock; nothing when there are none.
pub open spec fn spec_backend_args(b: BackendConfig) -> Option<Seq<char>> {
    match b {
        BackendConfig::Command { args, .. } => if args.deep_view().len() == 0 {
            None
        } else {
            Some(spec_join(args.deep_view(), " "@))
        },
        BackendConfig::VLLM { args, .. } => if args.deep_view().len() == 0 {
            None
        } else {
            Some(spec_join(args.deep_view(), " "@))
        },
        BackendConfig::InfiniLM { args, .. } => if args.deep_view().len() == 0 {
            None
        } else {
            Some(spec_join(args.deep_view(), " "@))
        },
        BackendConfig::Mock { models } => Some(spec_join(models.deep_view(), ","@)),
        BackendConfig::InfiniLMRust { .. } => None,
    }
}

/// The working directory a kind asks for.
pub open spec fn spec_backend_work_dir(b: BackendConfig) -> Option<Seq<char>> {
    match b {
        BackendConfig::Command { work_dir, .. } => match work_dir {
            Some(w) => Some(w@),
            None => None,
        },
        BackendConfig::VLLM { work_dir, .. } => match work_dir {
            Some(w) => Some(w@),
            None => None,
        },
        BackendConfig::InfiniLMRust { work_dir, .. } => match work_dir {
            Some(w) => Some(w@),
            None => None,
        },
        BackendConfig::InfiniLM { work_dir, .. } => match work_dir {
            Some(w) => Some(w@),
            None => None,
        },
        BackendConfig::Mock { .. } => None,
    }
}

impl BackendConfig {
    /// The kind's name as the command line spells it.
    pub fn service_type_name(&self) -> (r: &'static str)
        ensures
            r@ == spec_backend_type_name(*self),
    {
        match self {
            BackendConfig::Command { .. } => "command",
            BackendConfig::VLLM { .. } => "vLLM",
            BackendConfig::Mock { .. } => "mock",
            BackendConfig::InfiniLMRust { .. } => "InfiniLM-Rust",
            BackendConfig::InfiniLM { .. } => "InfiniLM",
        }
    }

    /// The path the kind carries: a model, or a nested configuration file.
    pub fn path(&self) -> (r: Option<String>)
        ensures
            match r {
                Some(p) => spec_backend_path(*self) == Some(p@),
                None => spec_backend_path(*self) is None,
            },
    {
        match self {
            BackendConfig::VLLM { model, .. } => Some(model.clone()),
            BackendConfig::InfiniLMRust { config_file, .. } => Some(config_file.clone()),
            BackendConfig::InfiniLM { model_path, .. } => Some(model_path.clone()),
            _ => None,
        }
    }

    /// The command of a command-based kind.
    pub fn command(&self) -> (r: Option<String>)
        ensures
            match r {
                Some(c) => spec_backend_command(*self) == Some(c@),
                None => spec_backend_command(*self) is None,
            },
    {
        match self {
            BackendConfig::Command { command, .. } => Some(command.clone()),
            _ => None,
        }
    }

    /// The kind's arguments as one string: space-joined, or comma-joined
    /// model names for a mock; nothing when there are none.
    pub fn args_string(&self) -> (r: Option<String>)
        ensures
            match r {
                Some(s) => spec_backend_args(*self) == Some(s@),
                None => spec_backend_args(*self) is None,
            },
    {
        match self {
            BackendConfig::Command { args, .. } => if args.len() == 0 {
                None
            } else {
                Some(join_strings(args, " "))
            },
            BackendConfig::VLLM { args, .. } => if args.len() == 0 {
                None
            } else {
                Some(join_strings(args, " "))
            },
            BackendConfig::InfiniLM { args, .. } => if args.len() == 0 {
                None
            } else {
                Some(join_strings(args, " "))
            },
            BackendConfig::Mock { models } => Some(join_strings(models, ",")),
            BackendConfig::InfiniLMRust { .. } => None,
        }
    }

    /// The working directory the kind asks for.
    pub fn work_dir(&self) -> (r: Option<String>)
        ensures
            match r {
                Some(w) => spec_backend_work_dir(*self) == Some(w@),
                None => spec_backend_work_dir(*self) is None,
            },
    {
        match self {
            BackendConfig::Command { work_dir, .. } => match work_dir {
                Some(w) => Some(w.clone()),
                None => None,
            },
            BackendConfig::VLLM { work_dir, .. } => match work_dir {
                Some(w) => Some(w.clone()),
                None => None,
            },
            BackendConfig::InfiniLMRust { work_dir, .. } => match work_dir {
                Some(w) => Some(w.clone()),
                None => None,
            },
            BackendConfig::InfiniLM { work_dir, .. } => match work_dir {
                Some(w) => Some(w.clone()),
                None => None,
            },
            BackendConfig::Mock { .. } => None,
        }
    }

    /// The environment the kind sets for its child, as given pairs.
    pub fn env(&self) -> (r: Vec<(String, String)>)
        ensures
            ({
                let expected: Seq<(Seq<char>, Seq<char>)> = match self {
                    BackendConfig::Command { env, .. } => Seq::new(
                        env@.len(),
                        |i: int| (env@[i].0@, env@[i].1@),
                    ),
                    BackendConfig::VLLM { env, .. } => Seq::new(
                        env@.len(),
                        |i: int| (env@[i].0@, env@[i].1@),
                    ),
                    BackendConfig::InfiniLM { env, .. } => Seq::new(
                        env@.len(),
                        |i: int| (env@[i].0@, env@[i].1@),
                    ),
                    _ => Seq::empty(),
                };
                Seq::new(r@.len(), |i: int| (r@[i].0@, r@[i].1@)) =~= expected
            }),
    {
        match self {
            BackendConfig::Command { env, .. } => clone_pairs(env),
            BackendConfig::VLLM { env, .. } => clone_pairs(env),
            BackendConfig::InfiniLM { env, .. } => clone_pairs(env),
            _ => Vec::new(),
        }
    }
}

/// Copies a list of string pairs.
fn clone_pairs(pairs: &Vec<(String, String)>) -> (r: Vec<(String, String)>)
    ensures
        Seq::new(r@.len(), |i: int| (r@[i].0@, r@[i].1@)) =~= Seq::new(
            pairs@.len(),
            |i: int| (pairs@[i].0@, pairs@[i].1@),
        ),
{
    let mut out: Vec<(String, String)> = Vec::new();
    let mut i: usize = 0;
    while i < pairs.len()
        invariant
            0 <= i <= pairs@.len(),
            out@.len() == i,
            forall|k: int|
                0 <= k < i ==> ((#[trigger] out@[k]).0@ == pairs@[k].0@ && out@[k].1@
                    == pairs@[k].1@),
        decreases pairs@.len() - i,
    {
        let p = &pairs[i];
        out.push((p.0.clone(), p.1.clone()));
        i += 1;
    }
    out
}

/// A babysitter configuration file: identity, endpoints, knobs, and the
/// backend's construction rules.
pub struct BabysitterConfigFile {
    pub name: Option<String>,
    pub host: String,
    pub port: u16,
    pub registry_url: Option<String>,
    pub router_url: Option<String>,
    /// Extra metadata laid over the managed worker's registration record.
    pub metadata: Option<Json>,
    pub babysitter: BabysitterSettings,
    pub backend: BackendConfig,
}

impl BabysitterConfigFile {
    /// The command-line shape of this file: every field carried over, the
    /// backend flattened into its kind's name, path, command and arguments.
    pub fn to_cli_config(&self) -> (r: BabysitterConfig)
        ensures
            ({
                &&& (match r.name {
                    Some(ref n) => self.name is Some && n@ == self.name->0@,
                    None => self.name is None,
                })
                &&& r.host@ == self.host@
                &&& r.port == Some(self.port)
                &&& r.service_type@ == spec_backend_type_name(self.backend)
                &&& (match r.path {
                    Some(ref p) => spec_backend_path(self.backend) == Some(p@),
                    None => spec_backend_path(self.backend) is None,
                })
                &&& (match r.command {
                    Some(ref c) => spec_backend_command(self.backend) == Some(c@),
                    None => spec_backend_command(self.backend) is None,
                })
                &&& (match r.args {
                    Some(ref a) => spec_backend_args(self.backend) == Some(a@),
                    None => spec_backend_args(self.backend) is None,
                })
                &&& (match r.work_dir {
                    Some(ref w) => spec_backend_work_dir(self.backend) == Some(w@),
                    None => spec_backend_work_dir(self.backend) is None,
                })
                &&& (match r.registry_url {
                    Some(ref u) => self.registry_url is Some && u@ == self.registry_url->0@,
                    None => self.registry_url is None,
                })
                &&& (match r.router_url {
                    Some(ref u) => self.router_url is Some && u@ == self.router_url->0@,
                    None => self.router_url is None,
                })
                &&& r.max_restarts == self.babysitter.max_restarts
                &&& r.restart_delay == self.babysitter.restart_delay
                &&& r.heartbeat_interval == self.babysitter.heartbeat_interval
                &&& r.config_file is None
                &&& r.env@.len() == 0
            }),
    {
        let name = match &self.name {
            Some(n) => Some(n.clone()),
            None => None,
        };
        let registry_url = match &self.registry_url {
            Some(u) => Some(u.clone()),
            None => None,
        };
        let router_url = match &self.router_url {
            Some(u) => Some(u.clone()),
            None => None,
        };
        BabysitterConfig {
            name,
            host: self.host.clone(),
            port: Some(self.port),
            service_type: self.backend.service_type_name().to_owned(),
            path: self.backend.path(),
            command: self.backend.command(),
            args: self.backend.args_string(),
            work_dir: self.backend.work_dir(),
            registry_url,
            router_url,
            max_restarts: self.babysitter.max_restarts,
            restart_delay: self.babysitter.restart_delay,
            heartbeat_interval: self.babysitter.heartbeat_interval,
            config_file: None,
            dev: None,
            ndev: None,
            max_batch: None,
            env: Vec::new(),
        }
    }

    /// The environment the backend sets for its child.
    pub fn backend_env(&self) -> (r: Vec<(String, String)>)
        ensures
            ({
                let expected: Seq<(Seq<char>, Seq<char>)> = match self.backend {
                    BackendConfig::Command { ref env, .. } => Seq::new(
                        env@.len(),
                        |i: int| (env@[i].0@, env@[i].1@),
                    ),
                    BackendConfig::VLLM { ref env, .. } => Seq::new(
                        env@.len(),
                        |i: int| (env@[i].0@, env@[i].1@),
                    ),
                    BackendConfig::InfiniLM { ref env, .. } => Seq::new(
                        env@.len(),
                        |i: int| (env@[i].0@, env@[i].1@),
                    ),
                    _ => Seq::empty(),
                };
                Seq::new(r@.len(), |i: int| (r@[i].0@, r@[i].1@)) =~= expected
            }),
    {
        self.backend.env()
    }
}

} // verus!

verus! {

/// The babysitter's mutable state: its configuration, the managed worker's
/// detected port (set once readiness detection concludes), its start time,
/// and the restart tally.
pub struct BabysitterState {
    pub config: BabysitterConfig,
    pub service_port: Option<u16>,
    pub start_time_secs: u64,
    pub restart_count: u32,
}

impl BabysitterState {
    /// The port the babysitter's own HTTP surface listens on: one above
    /// the worker's.
    pub fn babysitter_port(&self) -> (r: u16)
        requires
            self.config.port is Some,
            self.config.port->0 < 65535,
        ensures
            r == self.config.port->0 + 1,
    {
        match self.config.port {
            Some(p) => p + 1,
            None => 0,
        }
    }

    /// The port the managed worker is told to take.
    pub fn service_target_port(&self) -> (r: u16)
        requires
            self.config.port is Some,
        ensures
            r == self.config.port->0,
    {
        match self.config.port {
            Some(p) => p,
            None => 0,
        }
    }
}

/// A command ready to spawn: a program and its arguments.
pub struct CommandSpec {
    pub program: String,
    pub args: Vec<String>,
}

/// The deep view of a command.
pub open spec fn spec_cmd(c: CommandSpec) -> (Seq<char>, Seq<Seq<char>>) {
    (c.program@, c.args.deep_view())
}

/// Builds the command of a command-based backend: the command line cut on
/// whitespace, followed by the cut extra arguments. Errors when no command
/// was given or it holds no words.
pub fn build_command_based(config: &BabysitterConfig) -> (r: Result<CommandSpec, String>)
    ensures
        match r {
            Ok(c) => {
                &&& config.command is Some
                &&& spec_split_ws(config.command->0@).len() > 0
                &&& c.program@ == spec_split_ws(config.command->0@)[0]
                &&& c.args.deep_view() =~= spec_split_ws(config.command->0@).drop_first() + (
                match config.args {
                    Some(ref a) => spec_split_ws(a@),
                    None => Seq::empty(),
                })
            },
            Err(_) => config.command is None || spec_split_ws(config.command->0@).len() == 0,
        },
{
    let command = match &config.command {
        Some(c) => c,
        None => {
            return Err(
                String::from_str(
                    "Command not specified. Use --command to specify the command to run",
                ),
            );
        },
    };
    let mut parts = split_whitespace_words(command.as_str());
    if parts.len() == 0 {
        return Err(String::from_str("Empty command"));
    }
    let ghost whole = parts.deep_view();
    let program = parts.remove(0);
    proof {
        assert(parts.deep_view() =~= whole.drop_first());
    }
    let mut args = parts;
    match &config.args {
        Some(extra) => {
            let ghost base = args.deep_view();
            let more = split_whitespace_words(extra.as_str());
            let mut k: usize = 0;
            while k < more.len()
                invariant
                    0 <= k <= more@.len(),
                    more.deep_view().len() == more@.len(),
                    forall|j: int|
                        0 <= j < more@.len() ==> more.deep_view()[j] == (#[trigger] more@[j])@,
                    args.deep_view() =~= base + more.deep_view().subrange(0, k as int),
                decreases more@.len() - k,
            {
                let ghost before = args.deep_view();
                args.push(more[k].clone());
                proof {
                    assert(args.deep_view() =~= before.push(more@[k as int]@));
                    assert(base + more.deep_view().subrange(0, k as int + 1) =~= (base
                        + more.deep_view().subrange(0, k as int)).push(more.deep_view()[k as int]));
                }
                k += 1;
            }
            proof {
                assert(more.deep_view().subrange(0, more@.len() as int) =~= more.deep_view());
            }
        },
        None => {
            proof {
                assert(args.deep_view() + Seq::<Seq<char>>::empty() =~= args.deep_view());
            }
        },
    }
    Ok(CommandSpec { program, args })
}

/// Builds the command that serves a model through the Rust toolchain's
/// task runner. Errors when no configuration path was given.
pub fn build_rust_command(config: &BabysitterConfig) -> (r: Result<CommandSpec, String>)
    requires
        config.port is Some,
    ensures
        match r {
            Ok(c) => {
                &&& config.path is Some
                &&& config.port is Some
                &&& c.program@ == "xtask"@
                &&& c.args.deep_view() =~= seq![
                    "service"@,
                    config.path->0@,
                    "-p"@,
                    spec_decimal(config.port->0 as nat),
                ]
            },
            Err(_) => config.path is None,
        },
{
    let path = match &config.path {
        Some(p) => p,
        None => {
            return Err(String::from_str("Path not specified for InfiniLM-Rust service"));
        },
    };
    let port = match config.port {
        Some(p) => p,
        None => 0,
    };
    let mut args: Vec<String> = Vec::new();
    args.push(String::from_str("service"));
    args.push(path.clone());
    args.push(String::from_str("-p"));
    args.push(u64_to_string(port as u64));
    proof {
        assert(args.deep_view() =~= seq![
            "service"@,
            config.path->0@,
            "-p"@,
            spec_decimal(config.port->0 as nat),
        ]);
    }
    Ok(CommandSpec { program: String::from_str("xtask"), args })
}

/// Builds the command of the Python-served backend.
pub fn build_python_command(config: &BabysitterConfig) -> (r: CommandSpec)
    requires
        config.port is Some,
    ensures
        r.program@ == "python3"@,
        r.args.deep_view() =~= seq![
            "launch_server.py"@,
            "--port"@,
            spec_decimal(config.port->0 as nat),
            "--host"@,
            config.host@,
        ],
{
    let port = match config.port {
        Some(p) => p,
        None => 0,
    };
    let mut args: Vec<String> = Vec::new();
    args.push(String::from_str("launch_server.py"));
    args.push(String::from_str("--port"));
    args.push(u64_to_string(port as u64));
    args.push(String::from_str("--host"));
    args.push(config.host.clone());
    proof {
        assert(args.deep_view() =~= seq![
            "launch_server.py"@,
            "--port"@,
            spec_decimal(config.port->0 as nat),
            "--host"@,
            config.host@,
        ]);
    }
    CommandSpec { program: String::from_str("python3"), args }
}

/// Builds the vLLM serving command. Errors when no model path was given.
pub fn build_vllm_command(config: &BabysitterConfig) -> (r: Result<CommandSpec, String>)
    requires
        config.port is Some,
    ensures
        match r {
            Ok(c) => {
                &&& config.path is Some
                &&& c.program@ == "python3"@
                &&& c.args.deep_view() =~= seq![
                    "-m"@,
                    "vllm.entrypoints.openai.api_server"@,
                    "--model"@,
                    config.path->0@,
                    "--port"@,
                    spec_decimal(config.port->0 as nat),
                    "--host"@,
                    config.host@,
                ] + (match config.args {
                    Some(ref a) => spec_split_ws(a@),
                    None => Seq::empty(),
                })
            },
            Err(_) => config.path is None,
        },
{
    let path = match &config.path {
        Some(p) => p,
        None => {
            return Err(String::from_str("Model path not specified for vLLM service"));
        },
    };
    let port = match config.port {
        Some(p) => p,
        None => 0,
    };
    let mut args: Vec<String> = Vec::new();
    args.push(String::from_str("-m"));
    args.push(String::from_str("vllm.entrypoints.openai.api_server"));
    args.push(String::from_str("--model"));
    args.push(path.clone());
    args.push(String::from_str("--port"));
    args.push(u64_to_string(port as u64));
    args.push(String::from_str("--host"));
    args.push(config.host.clone());
    let ghost base = args.deep_view();
    proof {
        assert(base =~= seq![
            "-m"@,
            "vllm.entrypoints.openai.api_server"@,
            "--model"@,
            config.path->0@,
            "--port"@,
            spec_decimal(config.port->0 as nat),
            "--host"@,
            config.host@,
        ]);
    }
    match &config.args {
        Some(extra) => {
            let more = split_whitespace_words(extra.as_str());
            let mut k: usize = 0;
            while k < more.len()
                invariant
                    0 <= k <= more@.len(),
                    more.deep_view().len() == more@.len(),
                    forall|j: int|
                        0 <= j < more@.len() ==> more.deep_view()[j] == (#[trigger] more@[j])@,
                    args.deep_view() =~= base + more.deep_view().subrange(0, k as int),
                decreases more@.len() - k,
            {
                let ghost before = args.deep_view();
                args.push(more[k].clone());
                proof {
                    assert(args.deep_view() =~= before.push(more@[k as int]@));
                    assert(base + more.deep_view().subrange(0, k as int + 1) =~= (base
                        + more.deep_view().subrange(0, k as int)).push(more.deep_view()[k as int]));
                }
                k += 1;
            }
            proof {
                assert(more.deep_view().subrange(0, more@.len() as int) =~= more.deep_view());
            }
        },
        None => {
            proof {
                assert(args.deep_view() + Seq::<Seq<char>>::empty() =~= args.deep_view());
            }
        },
    }
    Ok(CommandSpec { program: String::from_str("python3"), args })
}

/// Builds the mock backend's command around a mock worker script, when one
/// was found; without one the command-based rules take over.
pub fn build_mock_command(config: &BabysitterConfig, mock_script: Option<&String>) -> (r: Result<
    CommandSpec,
    String,
>)
    requires
        config.port is Some,
    ensures
        match mock_script {
            Some(script) => match r {
                Ok(c) => {
                    &&& c.program@ == "python3"@
                    &&& c.args.deep_view() =~= seq![
                        script@,
                        "--name"@,
                        (match config.name {
                            Some(ref n) => n@,
                            None => spec_service_name(*config),
                        }),
                        "--port"@,
                        spec_decimal(config.port->0 as nat),
                        "--models"@,
                        (match config.args {
                            Some(ref a) => a@,
                            None => "test-model"@,
                        }),
                    ] + (match config.registry_url {
                        Some(ref u) => seq!["--registry-url"@, u@],
                        None => Seq::empty(),
                    })
                },
                Err(_) => false,
            },
            None => (match r {
                Ok(c) => {
                    &&& config.command is Some
                    &&& spec_split_ws(config.command->0@).len() > 0
                    &&& c.program@ == spec_split_ws(config.command->0@)[0]
                    &&& c.args.deep_view() =~= spec_split_ws(config.command->0@).drop_first() + (
                    match config.args {
                        Some(ref a) => spec_split_ws(a@),
                        None => Seq::empty(),
                    })
                },
                Err(_) => config.command is None || spec_split_ws(config.command->0@).len() == 0,
            }),
        },
{
    let script = match mock_script {
        Some(s) => s,
        None => {
            return build_command_based(config);
        },
    };
    let port = match config.port {
        Some(p) => p,
        None => 0,
    };
    let mut args: Vec<String> = Vec::new();
    args.push(script.clone());
    args.push(String::from_str("--name"));
    match &config.name {
        Some(n) => args.push(n.clone()),
        None => args.push(config.service_name()),
    }
    args.push(String::from_str("--port"));
    args.push(u64_to_string(port as u64));
    args.push(String::from_str("--models"));
    match &config.args {
        Some(a) => args.push(a.clone()),
        None => args.push(String::from_str("test-model")),
    }
    let ghost base = args.deep_view();
    match &config.registry_url {
        Some(u) => {
            args.push(String::from_str("--registry-url"));
            args.push(u.clone());
            proof {
                assert(args.deep_view() =~= base + seq!["--registry-url"@, u@]);
            }
        },
        None => {
            proof {
                assert(args.deep_view() + Seq::<Seq<char>>::empty() =~= args.deep_view());
            }
        },
    }
    proof {
        assert(base =~= seq![
            script@,
            "--name"@,
            (match config.name {
                Some(ref n) => n@,
                None => spec_service_name(*config),
            }),
            "--port"@,
            spec_decimal(config.port->0 as nat),
            "--models"@,
            (match config.args {
                Some(ref a) => a@,
                None => "test-model"@,
            }),
        ]);
    }
    Ok(CommandSpec { program: String::from_str("python3"), args })
}

/// Whether a crashed worker is restarted: only below the restart ceiling.
pub fn should_restart(restart_count: u32, max_restarts: u32) -> (r: bool)
    ensures
        r == (restart_count < max_restarts),
{
    restart_count < max_restarts
}

/// Readiness probing backs off by doubling, capped at one second.
pub fn next_backoff_ms(cur: u64) -> (r: u64)
    ensures
        r == (if 2 * cur < 1000 {
            (2 * cur) as u64
        } else {
            1000u64
        }),
{
    if cur < 500 {
        2 * cur
    } else {
        1000
    }
}

/// Readiness detection gives up after thirty seconds of wall time and
/// pessimistically adopts the target port.
pub fn readiness_expired(elapsed_ms: u64) -> (r: bool)
    ensures
        r == (elapsed_ms > 30000),
{
    elapsed_ms > 30000
}

/// A probe answer means the worker is ready when it is a success or tells
/// us the endpoint merely does not exist.
pub fn probe_indicates_ready(status: u16) -> (r: bool)
    ensures
        r == (200 <= status < 300 || status == 404),
{
    (status >= 200 && status < 300) || status == 404
}

} // verus!

verus! {

/// A key among environment pairs.
pub open spec fn spec_env_has_key(pairs: Seq<(Seq<char>, Seq<char>)>, key: Seq<char>) -> bool
    decreases pairs.len(),
{
    pairs.len() > 0 && (pairs[0].0 == key || spec_env_has_key(pairs.drop_first(), key))
}

/// The parent pairs that the configuration does not override, in order.
pub open spec fn spec_env_keep(
    parent: Seq<(Seq<char>, Seq<char>)>,
    over: Seq<(Seq<char>, Seq<char>)>,
) -> Seq<(Seq<char>, Seq<char>)>
    decreases parent.len(),
{
    if parent.len() == 0 {
        Seq::empty()
    } else {
        let rest = spec_env_keep(parent.drop_first(), over);
        if spec_env_has_key(over, parent[0].0) {
            rest
        } else {
            seq![parent[0]] + rest
        }
    }
}

/// The child's environment: the parent's variables with the configured
/// ones laid over them — on a name conflict the configuration wins.
pub open spec fn spec_merged_env(
    parent: Seq<(Seq<char>, Seq<char>)>,
    over: Seq<(Seq<char>, Seq<char>)>,
) -> Seq<(Seq<char>, Seq<char>)> {
    spec_env_keep(parent, over) + over
}

/// Merges the parent environment with the configured one; the
/// configuration wins on a name conflict.
pub fn merged_env(parent: Vec<(String, String)>, overrides: &Vec<(String, String)>) -> (r: Vec<
    (String, String),
>)
    ensures
        Seq::new(r@.len(), |i: int| ((r@[i]).0@, r@[i].1@)) =~= spec_merged_env(
            Seq::new(parent@.len(), |i: int| ((parent@[i]).0@, parent@[i].1@)),
            Seq::new(overrides@.len(), |i: int| ((overrides@[i]).0@, overrides@[i].1@)),
        ),
{
    let ghost pview = Seq::new(parent@.len(), |i: int| ((parent@[i]).0@, parent@[i].1@));
    let ghost oview = Seq::new(overrides@.len(), |i: int| ((overrides@[i]).0@, overrides@[i].1@));
    let mut out: Vec<(String, String)> = Vec::new();
    let mut rest = parent;
    proof {
        assert(Seq::new(rest@.len(), |i: int| ((rest@[i]).0@, rest@[i].1@)) =~= pview);
        assert(Seq::new(out@.len(), |i: int| ((out@[i]).0@, out@[i].1@)) + spec_env_keep(
            pview,
            oview,
        ) =~= spec_env_keep(pview, oview));
    }
    while rest.len() > 0
        invariant
            oview == Seq::new(overrides@.len(), |i: int| ((overrides@[i]).0@, overrides@[i].1@)),
            spec_env_keep(pview, oview) =~= Seq::new(
                out@.len(),
                |i: int| ((out@[i]).0@, out@[i].1@),
            ) + spec_env_keep(Seq::new(rest@.len(), |i: int| ((rest@[i]).0@, rest@[i].1@)), oview),
        decreases rest@.len(),
    {
        let ghost rview = Seq::new(rest@.len(), |i: int| ((rest@[i]).0@, rest@[i].1@));
        let ghost before_out = Seq::new(out@.len(), |i: int| ((out@[i]).0@, out@[i].1@));
        let ghost old_rest = rest@;
        let p = rest.remove(0);
        proof {
            assert(rest@ =~= old_rest.drop_first());
            assert(Seq::new(rest@.len(), |i: int| ((rest@[i]).0@, rest@[i].1@))
                =~= rview.drop_first());
            assert(rview[0] == (p.0@, p.1@));
        }
        let overridden = env_has_key(overrides, &p.0);
        proof {
            lemma_env_has_key_index(oview, p.0@);
        }
        if !overridden {
            let ghost pv = (p.0@, p.1@);
            out.push(p);
            proof {
                assert(Seq::new(out@.len(), |i: int| ((out@[i]).0@, out@[i].1@))
                    =~= before_out.push(pv));
                assert(before_out + (seq![pv] + spec_env_keep(rview.drop_first(), oview))
                    =~= before_out.push(pv) + spec_env_keep(rview.drop_first(), oview));
            }
        }
    }
    proof {
        assert(spec_env_keep(Seq::new(rest@.len(), |i: int| ((rest@[i]).0@, rest@[i].1@)), oview)
            =~= Seq::<(Seq<char>, Seq<char>)>::empty());
        assert(Seq::new(out@.len(), |i: int| ((out@[i]).0@, out@[i].1@)) + Seq::<(
            Seq<char>,
            Seq<char>,
        )>::empty() =~= Seq::new(out@.len(), |i: int| ((out@[i]).0@, out@[i].1@)));
    }
    let mut k: usize = 0;
    let ghost kept = Seq::new(out@.len(), |i: int| ((out@[i]).0@, out@[i].1@));
    while k < overrides.len()
        invariant
            0 <= k <= overrides@.len(),
            oview == Seq::new(overrides@.len(), |i: int| ((overrides@[i]).0@, overrides@[i].1@)),
            Seq::new(out@.len(), |i: int| ((out@[i]).0@, out@[i].1@)) =~= kept + oview.subrange(
                0,
                k as int,
            ),
        decreases overrides@.len() - k,
    {
        let ghost before_out = Seq::new(out@.len(), |i: int| ((out@[i]).0@, out@[i].1@));
        let p = &overrides[k];
        out.push((p.0.clone(), p.1.clone()));
        proof {
            assert(Seq::new(out@.len(), |i: int| ((out@[i]).0@, out@[i].1@)) =~= before_out.push(
                oview[k as int],
            ));
            assert(kept + oview.subrange(0, k as int + 1) =~= (kept + oview.subrange(
                0,
                k as int,
            )).push(oview[k as int]));
        }
        k += 1;
    }
    proof {
        assert(oview.subrange(0, oview.len() as int) =~= oview);
    }
    out
}

/// A key is among pairs exactly when some pair bears it.
proof fn lemma_env_has_key_index(pairs: Seq<(Seq<char>, Seq<char>)>, key: Seq<char>)
    ensures
        spec_env_has_key(pairs, key) <==> exists|i: int|
            0 <= i < pairs.len() && (#[trigger] pairs[i]).0 == key,
    decreases pairs.len(),
{
    if pairs.len() > 0 {
        lemma_env_has_key_index(pairs.drop_first(), key);
        if pairs[0].0 == key {
        } else if spec_env_has_key(pairs.drop_first(), key) {
            let i = choose|i: int|
                0 <= i < pairs.drop_first().len() && (#[trigger] pairs.drop_first()[i]).0 == key;
            assert(pairs[i + 1] == pairs.drop_first()[i]);
        } else {
            assert forall|i: int| 0 <= i < pairs.len() implies (#[trigger] pairs[i]).0 != key by {
                if i > 0 {
                    assert(pairs.drop_first()[i - 1] == pairs[i]);
                }
            }
        }
    }
}

/// Whether a name stands among environment pairs.
fn env_has_key(pairs: &Vec<(String, String)>, key: &String) -> (r: bool)
    ensures
        r == spec_env_has_key(
            Seq::new(pairs@.len(), |i: int| ((pairs@[i]).0@, pairs@[i].1@)),
            key@,
        ),
{
    let ghost pview = Seq::new(pairs@.len(), |i: int| ((pairs@[i]).0@, pairs@[i].1@));
    proof {
        lemma_env_has_key_index(pview, key@);
    }
    let mut m: usize = 0;
    while m < pairs.len()
        invariant
            0 <= m <= pairs@.len(),
            pview == Seq::new(pairs@.len(), |i: int| ((pairs@[i]).0@, pairs@[i].1@)),
            forall|j: int| 0 <= j < m ==> (#[trigger] pview[j]).0 != key@,
        decreases pairs@.len() - m,
    {
        if pairs[m].0.eq(key) {
            proof {
                lemma_env_has_key_index(pview, key@);
                assert(pview[m as int].0 == key@);
            }
            return true;
        }
        proof {
            assert(pview[m as int].0 != key@);
        }
        m += 1;
    }
    proof {
        lemma_env_has_key_index(pview, key@);
    }
    false
}

/// What a babysitter or its worker announces to the registry.
pub struct Registration {
    pub name: String,
    pub host: String,
    pub hostname: String,
    pub port: u16,
    pub url: String,
    pub status: String,
    pub metadata: Json,
}

/// The babysitter's own announcement: it answers on the worker's port plus
/// one, reports `running`, and tags itself with the backend kind.
pub fn babysitter_registration(config: &BabysitterConfig) -> (r: Registration)
    requires
        config.port is Some,
        config.port->0 < 65535,
    ensures
        r.name@ == spec_service_name(*config),
        r.host@ == config.host@,
        r.hostname@ == config.host@,
        r.port == config.port->0 + 1,
        r.url@ == spec_http_url(config.host@, (config.port->0 + 1) as u16),
        r.status@ == "running"@,
        r.metadata@ == JModel::Obj(
            seq![
                ("type"@, JModel::Str(config.service_type@)),
                ("babysitter"@, JModel::Str("enhanced"@)),
            ],
        ),
{
    let port = match config.port {
        Some(p) => p + 1,
        None => 0,
    };
    let url = http_url(config.host.as_str(), port);
    let mut fields: Vec<(Vec<char>, Json)> = Vec::new();
    fields.push(
        (
            crate::bindings::str_to_chars("type"),
            Json::Str(crate::bindings::str_to_chars(config.service_type.as_str())),
        ),
    );
    fields.push(
        (
            crate::bindings::str_to_chars("babysitter"),
            Json::Str(crate::bindings::str_to_chars("enhanced")),
        ),
    );
    let ghost fv = fields@;
    let metadata = Json::Obj(fields);
    proof {
        assert(fv.len() == 2);
        assert(crate::json::jview(fv[0].1) == JModel::Str(config.service_type@));
        assert(crate::json::jview(fv[1].1) == JModel::Str("enhanced"@));
        assert(fv.drop_first().drop_first() =~= Seq::<(Vec<char>, Json)>::empty());
        assert(jview_fields(fv.drop_first().drop_first()) =~= Seq::<(Seq<char>, JModel)>::empty())
            by {
            reveal_with_fuel(jview_fields, 1);
        }
        assert(fv.drop_first()[0] == fv[1]);
        assert(jview_fields(fv.drop_first()) =~= seq![("babysitter"@, JModel::Str("enhanced"@))]);
        assert(jview_fields(fv) =~= seq![
            ("type"@, JModel::Str(config.service_type@)),
            ("babysitter"@, JModel::Str("enhanced"@)),
        ]);
        assert(metadata@ == JModel::Obj(jview_fields(fv)));
    }
    Registration {
        name: config.service_name(),
        host: config.host.clone(),
        hostname: config.host.clone(),
        port,
        url,
        status: String::from_str("running"),
        metadata,
    }
}

} // verus!

verus! {

/// The ids of model objects, as string values: each object's `id` member,
/// or the empty string where one is missing.
pub open spec fn spec_model_ids(items: Seq<JModel>) -> Seq<JModel>
    decreases items.len(),
{
    if items.len() == 0 {
        Seq::empty()
    } else {
        spec_model_ids(items.drop_last()).push(
            JModel::Str(
                match crate::json::jm_get_str(items.last(), "id"@) {
                    Some(t) => t,
                    None => Seq::empty(),
                },
            ),
        )
    }
}

/// The members the configuration file lays over the worker's registration
/// record: its metadata object's members, in order; nothing when there is
/// no metadata or it is not an object. A later member wins a lookup, so on
/// a name conflict the configuration's value is the one read.
pub open spec fn spec_extra_fields(extra: Option<Json>) -> Seq<(Seq<char>, JModel)> {
    match extra {
        Some(j) => match crate::json::jview(j) {
            JModel::Obj(fields) => fields,
            _ => Seq::empty(),
        },
        None => Seq::empty(),
    }
}

/// The managed worker's announcement: named `{service}-server` on the
/// worker's port, reporting `running`, tagged as an OpenAI surface with its
/// parent, its model ids, the full model objects, and the configuration
/// file's metadata laid over it all.
pub fn managed_registration(
    config: &BabysitterConfig,
    service_port: u16,
    models: Vec<Json>,
    extra_metadata: Option<Json>,
) -> (r: Registration)
    ensures
        r.name@ == spec_service_name(*config) + "-server"@,
        r.host@ == config.host@,
        r.hostname@ == config.host@,
        r.port == service_port,
        r.url@ == spec_http_url(config.host@, service_port),
        r.status@ == "running"@,
        r.metadata@ == JModel::Obj(
            seq![
                ("type"@, JModel::Str("openai-api"@)),
                ("parent_service"@, JModel::Str(spec_service_name(*config))),
                ("babysitter"@, JModel::Str("enhanced"@)),
                ("models"@, JModel::Arr(spec_model_ids(jview_items(models@)))),
                ("models_list"@, JModel::Arr(jview_items(models@))),
            ] + spec_extra_fields(extra_metadata),
        ),
{
    let service_name = config.service_name();
    let server_name = crate::strutil::concat2(service_name.as_str(), "-server");
    let url = http_url(config.host.as_str(), service_port);

    // Pull the ids out before the objects move into the metadata.
    let id_key = crate::bindings::str_to_chars("id");
    let mut ids: Vec<Json> = Vec::new();
    let mut i: usize = 0;
    proof {
        crate::json::lemma_jview_items_len(models@);
        assert(jview_items(ids@) =~= Seq::<JModel>::empty());
        assert(spec_model_ids(jview_items(models@).subrange(0, 0)) =~= Seq::<JModel>::empty());
    }
    while i < models.len()
        invariant
            0 <= i <= models@.len(),
            jview_items(models@).len() == models@.len(),
            id_key@ == "id"@,
            jview_items(ids@) =~= spec_model_ids(jview_items(models@).subrange(0, i as int)),
        decreases models@.len() - i,
    {
        proof {
            crate::json::lemma_jview_items_index(models@, i as int);
            assert(jview_items(models@).subrange(0, i as int + 1).drop_last() =~= jview_items(
                models@,
            ).subrange(0, i as int));
            assert(jview_items(models@).subrange(0, i as int + 1).last() == jview_items(models@)[
                i as int]);
        }
        let idv: Vec<char> = match models[i].obj_get(id_key.as_slice()) {
            Some(v) => match v.as_str_chars() {
                Some(t) => vstd::slice::slice_to_vec(t.as_slice()),
                None => Vec::new(),
            },
            None => Vec::new(),
        };
        let ghost old_ids = ids@;
        ids.push(Json::Str(idv));
        proof {
            crate::json::lemma_jview_items_len(ids@);
            assert forall|k: int|
                0 <= k < ids@.len() implies #[trigger] jview_items(ids@)[k] == (if k < old_ids.len() {
                jview_items(old_ids)[k]
            } else {
                crate::json::jview(ids@[k])
            }) by {
                crate::json::lemma_jview_items_index(ids@, k);
                if k < old_ids.len() {
                    crate::json::lemma_jview_items_index(old_ids, k);
                }
            }
            crate::json::lemma_jview_items_len(old_ids);
            assert(jview_items(ids@) =~= spec_model_ids(
                jview_items(models@).subrange(0, i as int + 1),
            ));
        }
        i += 1;
    }
    proof {
        assert(jview_items(models@).subrange(0, models@.len() as int) =~= jview_items(models@));
    }

    let mut fields: Vec<(Vec<char>, Json)> = Vec::new();
    fields.push(
        (
            crate::bindings::str_to_chars("type"),
            Json::Str(crate::bindings::str_to_chars("openai-api")),
        ),
    );
    fields.push(
        (
            crate::bindings::str_to_chars("parent_service"),
            Json::Str(crate::bindings::str_to_chars(service_name.as_str())),
        ),
    );
    fields.push(
        (
            crate::bindings::str_to_chars("babysitter"),
            Json::Str(crate::bindings::str_to_chars("enhanced")),
        ),
    );
    fields.push((crate::bindings::str_to_chars("models"), Json::Arr(ids)));
    fields.push((crate::bindings::str_to_chars("models_list"), Json::Arr(models)));
    let ghost base = fields@;
    let ghost target = seq![
        ("type"@, JModel::Str("openai-api"@)),
        ("parent_service"@, JModel::Str(spec_service_name(*config))),
        ("babysitter"@, JModel::Str("enhanced"@)),
        ("models"@, JModel::Arr(spec_model_ids(jview_items(models@)))),
        ("models_list"@, JModel::Arr(jview_items(models@))),
    ];
    proof {
        assert(base.len() == 5);
        assert(jview_fields(base) =~= target) by {
            reveal_with_fuel(jview_fields, 7);
            assert(base.drop_first()[0] == base[1]);
            assert(base.drop_first().drop_first()[0] == base[2]);
            assert(base.drop_first().drop_first().drop_first()[0] == base[3]);
            assert(base.drop_first().drop_first().drop_first().drop_first()[0] == base[4]);
            assert(base.drop_first().drop_first().drop_first().drop_first().drop_first()
                =~= Seq::<(Vec<char>, Json)>::empty());
        }
    }

    // Lay the configuration file's metadata over the base record.
    let ghost extra_view = spec_extra_fields(extra_metadata);
    match extra_metadata {
        Some(extra) => match extra {
            Json::Obj(extra_fields) => {
                let ghost eview = jview_fields(extra_fields@);
                proof {
                    assert(extra_view =~= eview);
                    crate::json::lemma_jview_fields_len(extra_fields@);
                    assert(jview_fields(fields@) =~= target + eview.subrange(0, 0));
                }
                let mut rest = extra_fields;
                let ghost mut done: int = 0;
                proof {
                    assert(jview_fields(rest@) =~= eview.subrange(0, eview.len() as int));
                    assert(eview.subrange(0, eview.len() as int) =~= eview);
                }
                while rest.len() > 0
                    invariant
                        0 <= done,
                        done + rest@.len() == eview.len(),
                        jview_fields(rest@) =~= eview.subrange(done, eview.len() as int),
                        jview_fields(fields@) =~= target + eview.subrange(0, done),
                    decreases rest@.len(),
                {
                    let ghost old_rest = rest@;
                    proof {
                        crate::json::lemma_jview_fields_len(old_rest);
                    }
                    let p = rest.remove(0);
                    proof {
                        assert(rest@ =~= old_rest.drop_first());
                        crate::json::lemma_jview_fields_index(old_rest, 0);
                        assert((p.0@, crate::json::jview(p.1)) == eview.subrange(
                            done,
                            eview.len() as int,
                        )[0]);
                        assert forall|kk: int|
                            0 <= kk < rest@.len() implies #[trigger] jview_fields(rest@)[kk]
                            == eview.subrange(done + 1, eview.len() as int)[kk] by {
                            crate::json::lemma_jview_fields_index(rest@, kk);
                            crate::json::lemma_jview_fields_index(old_rest, kk + 1);
                            assert(old_rest[kk + 1] == rest@[kk]);
                        }
                        crate::json::lemma_jview_fields_len(rest@);
                        assert(jview_fields(rest@) =~= eview.subrange(done + 1, eview.len() as int));
                    }
                    let ghost before = fields@;
                    fields.push(p);
                    proof {
                        crate::json::lemma_jview_fields_push(before, fields@.last());
                        assert(fields@.drop_last() =~= before);
                        done = done + 1;
                        assert((target + eview.subrange(0, done - 1)).push(eview[done - 1])
                            =~= target + eview.subrange(0, done));
                        assert(jview_fields(fields@) =~= target + eview.subrange(0, done));
                    }
                }
                proof {
                    assert(eview.subrange(0, eview.len() as int) =~= eview);
                    assert(jview_fields(fields@) =~= target + extra_view);
                }
            },
            _ => {
                proof {
                    assert(extra_view =~= Seq::<(Seq<char>, JModel)>::empty());
                    assert(jview_fields(fields@) =~= target + extra_view);
                }
            },
        },
        None => {
            proof {
                assert(extra_view =~= Seq::<(Seq<char>, JModel)>::empty());
                assert(jview_fields(fields@) =~= target + extra_view);
            }
        },
    }
    let ghost fv = fields@;
    let metadata = Json::Obj(fields);
    proof {
        assert(metadata@ == JModel::Obj(jview_fields(fv)));
        assert(jview_fields(fv) =~= target + spec_extra_fields(extra_metadata));
    }
    Registration {
        name: server_name,
        host: config.host.clone(),
        hostname: config.host.clone(),
        port: service_port,
        url,
        status: String::from_str("running"),
        metadata,
    }
}

/// Whom the heartbeat loop beats for: always the babysitter itself, and
/// the managed worker once its port is known.
pub fn heartbeat_targets(config: &BabysitterConfig, service_port: Option<u16>) -> (r: Vec<String>)
    ensures
        service_port is Some ==> r.deep_view() =~= seq![
            spec_service_name(*config),
            spec_service_name(*config) + "-server"@,
        ],
        service_port is None ==> r.deep_view() =~= seq![spec_service_name(*config)],
{
    let name = config.service_name();
    let mut out: Vec<String> = Vec::new();
    match service_port {
        Some(_) => {
            let server = crate::strutil::concat2(name.as_str(), "-server");
            out.push(name);
            out.push(server);
        },
        None => {
            out.push(name);
        },
    }
    out
}

/// The model objects of a worker's reply: the `data` array of an object,
/// or a bare array; anything else is no model list.
pub open spec fn spec_models_of_response(m: JModel) -> Option<Seq<JModel>> {
    match m {
        JModel::Arr(items) => Some(items),
        JModel::Obj(_) => match crate::json::jm_get(m, "data"@) {
            Some(v) => match v {
                JModel::Arr(items) => Some(items),
                _ => None,
            },
            None => None,
        },
        _ => None,
    }
}

/// Takes the model objects out of a worker's reply.
pub fn models_from_response(j: Json) -> (r: Option<Vec<Json>>)
    ensures
        match r {
            Some(items) => spec_models_of_response(j@) == Some(jview_items(items@)),
            None => spec_models_of_response(j@) is None,
        },
{
    let data_key = crate::bindings::str_to_chars("data");
    match j {
        Json::Arr(items) => Some(items),
        Json::Obj(fields) => {
            let ghost whole = jview_fields(fields@);
            let mut rest = fields;
            proof {
                assert(jview_fields(rest@) =~= whole);
            }
            loop
                invariant
                    data_key@ == "data"@,
                    j@ == JModel::Obj(whole),
                    crate::json::jm_fields_get(whole, "data"@) == crate::json::jm_fields_get(
                        jview_fields(rest@),
                        "data"@,
                    ),
                decreases rest@.len(),
            {
                let ghost rv = rest@;
                proof {
                    crate::json::lemma_jview_fields_len(rv);
                }
                match rest.pop() {
                    Some((k, v)) => {
                        proof {
                            assert(rv.drop_last() =~= rest@);
                            crate::json::lemma_jview_fields_index(rv, rv.len() - 1);
                            assert forall|a: int|
                                0 <= a < rest@.len() implies #[trigger] jview_fields(rest@)[a]
                                == jview_fields(rv)[a] by {
                                crate::json::lemma_jview_fields_index(rest@, a);
                                crate::json::lemma_jview_fields_index(rv, a);
                                assert(rv[a] == rest@[a]);
                            }
                            crate::json::lemma_jview_fields_len(rest@);
                            assert(jview_fields(rv).drop_last() =~= jview_fields(rest@));
                        }
                        if crate::strutil::chars_eq(k.as_slice(), data_key.as_slice()) {
                            match v {
                                Json::Arr(items) => {
                                    return Some(items);
                                },
                                _ => {
                                    return None;
                                },
                            }
                        }
                    },
                    None => {
                        proof {
                            assert(jview_fields(rest@) =~= Seq::<(Seq<char>, JModel)>::empty());
                        }
                        return None;
                    },
                }
            }
        },
        _ => None,
    }
}

/// An empty model list is not accepted: registration retries instead.
pub fn models_acceptable(models: &Vec<Json>) -> (r: bool)
    ensures
        r == (models@.len() > 0),
{
    models.len() > 0
}

/// How long model fetching waits between attempts: brisk at first, then
/// one second.
pub fn fetch_models_delay_ms(attempt: u32) -> (r: u64)
    ensures
        r == (if attempt < 19 {
            300u64
        } else {
            1000u64
        }),
{
    if attempt < 19 {
        300
    } else {
        1000
    }
}

/// Model fetching gives up after fifty attempts.
pub fn should_retry_fetch(attempt: u32) -> (r: bool)
    ensures
        r == (attempt < 50),
{
    attempt < 50
}

} // verus!
