//! The container that serves the transcription model: how it is started, watched
//! and removed.

use crate::text;
use vstd::prelude::*;

verus! {

/// How to serve the model.
pub struct ServeSpec {
    pub image: String,
    /// Directory of the model files on the host, mounted read-only at
    /// `container_model`.
    pub host_model_dir: String,
    /// Directory on the host that holds the compile caches of the engines, each in
    /// a directory of its own, so that they outlive the container.
    pub host_cache_dir: String,
    /// Path of the model in the container, which is also the name it is served
    /// under.
    pub container_model: String,
    pub host_port: u16,
    pub container_name: String,
    pub dtype: String,
    /// Type of the key-value cache; the native type of the model if there is none.
    pub kv_cache_dtype: Option<String>,
    /// Share of the GPU memory to use, in decimal.
    pub gpu_memory_utilization: String,
    pub max_model_len: u32,
    /// Most sequences at a time; the default of the server if there is none.
    pub max_num_seqs: Option<u32>,
    /// Size of the preprocessing cache in GiB, in decimal.
    pub mm_processor_cache_gb: String,
    /// Whether to do without compiled graphs.
    pub enforce_eager: bool,
    /// Seconds to wait until the server is healthy, per attempt.
    pub health_timeout: u64,
    /// How often to try to start; 1 means no second try.
    pub launch_retries: u32,
}

/// The host port, and the port of the server in the container.
pub open spec fn port_mapping(spec: ServeSpec) -> Seq<char> {
    text::decimal(spec.host_port as nat) + ":8000"@
}

/// The model directory, mounted read-only.
pub open spec fn model_mount(spec: ServeSpec) -> Seq<char> {
    (spec.host_model_dir@ + ":"@) + (spec.container_model@ + ":ro"@)
}

/// The flags of `docker run` that name the container, publish its port and mount
/// the model.
pub open spec fn container_flags(spec: ServeSpec) -> Seq<Seq<char>> {
    seq![
        "-d"@,
        "--runtime=nvidia"@,
        "--name"@,
        spec.container_name@,
        "-p"@,
        port_mapping(spec),
        "--shm-size"@,
        "1g"@,
        "-v"@,
        model_mount(spec),
    ]
}

/// The flags of `docker run` that mount the compile caches.
pub open spec fn cache_flags(host_cache_dir: Seq<char>) -> Seq<Seq<char>> {
    let base = text::without_trailing(host_cache_dir, '/');
    seq![
        "-v"@,
        base + "/triton:/root/.triton"@,
        "-v"@,
        base + "/flashinfer:/root/.cache/flashinfer"@,
        "-v"@,
        base + "/torchinductor:/root/.cache/torchinductor"@,
        "-v"@,
        base + "/vllm:/root/.cache/vllm"@,
    ]
}

/// The flags of `docker run` that set the environment and the program to run.
pub open spec fn environment_flags() -> Seq<Seq<char>> {
    seq![
        "-e"@,
        "VLLM_CONFIGURE_LOGGING=0"@,
        "-e"@,
        "VLLM_DO_NOT_TRACK=1"@,
        "-e"@,
        "VLLM_NO_USAGE_STATS=1"@,
        "-e"@,
        "VLLM_CACHE_ROOT=/root/.cache/vllm"@,
        "-e"@,
        "TRITON_CACHE_DIR=/root/.triton"@,
        "-e"@,
        "TORCHINDUCTOR_CACHE_DIR=/root/.cache/torchinductor"@,
        "--entrypoint"@,
        "vllm"@,
    ]
}

/// All flags of `docker run`.
pub open spec fn docker_flags(spec: ServeSpec) -> Seq<Seq<char>> {
    container_flags(spec) + cache_flags(spec.host_cache_dir@) + environment_flags()
}

/// The flags of `vllm serve` that are always given.
pub open spec fn server_flags(spec: ServeSpec) -> Seq<Seq<char>> {
    seq![
        "--host"@,
        "0.0.0.0"@,
        "--port"@,
        "8000"@,
        "--dtype"@,
        spec.dtype@,
        "--max-model-len"@,
        text::decimal(spec.max_model_len as nat),
        "--gpu-memory-utilization"@,
        spec.gpu_memory_utilization@,
        "--mm-processor-cache-gb"@,
        spec.mm_processor_cache_gb@,
        "--enable-prefix-caching"@,
    ]
}

/// A flag, if it is set.
pub open spec fn switch(flag: Seq<char>, on: bool) -> Seq<Seq<char>> {
    if on {
        seq![flag]
    } else {
        seq![]
    }
}

/// A flag with its value, if there is one.
pub open spec fn option(flag: Seq<char>, value: Option<Seq<char>>) -> Seq<Seq<char>> {
    match value {
        Some(v) => seq![flag, v],
        None => seq![],
    }
}

/// All flags of `vllm serve`.
pub open spec fn serve_flags(spec: ServeSpec) -> Seq<Seq<char>> {
    server_flags(spec) + switch("--enforce-eager"@, spec.enforce_eager) + option(
        "--max-num-seqs"@,
        match spec.max_num_seqs {
            Some(n) => Some(text::decimal(n as nat)),
            None => None,
        },
    ) + option(
        "--kv-cache-dtype"@,
        match spec.kv_cache_dtype {
            Some(t) => Some(t@),
            None => None,
        },
    )
}

/// What docker is asked to do: run the image, with the flags for docker before it
/// and the flags for the server after it.
pub open spec fn docker_run(spec: ServeSpec) -> Seq<Seq<char>> {
    seq!["run"@] + docker_flags(spec) + seq![spec.image@, "serve"@, spec.container_model@]
        + serve_flags(spec)
}

fn container_args(spec: &ServeSpec) -> (args: Vec<String>)
    ensures
        text::views(args@) == container_flags(*spec),
{
    let mut args: Vec<String> = Vec::new();
    assert(text::views(args@) =~= Seq::<Seq<char>>::empty());
    text::push_text(&mut args, "-d");
    text::push_text(&mut args, "--runtime=nvidia");
    text::push_text(&mut args, "--name");
    text::push_text(&mut args, spec.container_name.as_str());
    text::push_text(&mut args, "-p");
    let port = text::to_decimal(spec.host_port as u64);
    text::push_text(&mut args, text::concat(port.as_str(), ":8000").as_str());
    text::push_text(&mut args, "--shm-size");
    text::push_text(&mut args, "1g");
    text::push_text(&mut args, "-v");
    let to = text::concat(spec.container_model.as_str(), ":ro");
    let from = text::concat(spec.host_model_dir.as_str(), ":");
    text::push_text(&mut args, text::concat(from.as_str(), to.as_str()).as_str());
    args
}

fn cache_args(host_cache_dir: &str) -> (args: Vec<String>)
    ensures
        text::views(args@) == cache_flags(host_cache_dir@),
{
    let mut args: Vec<String> = Vec::new();
    assert(text::views(args@) =~= Seq::<Seq<char>>::empty());
    let base = text::strip_trailing(host_cache_dir, '/');
    text::push_text(&mut args, "-v");
    text::push_text(&mut args, text::concat(base.as_str(), "/triton:/root/.triton").as_str());
    text::push_text(&mut args, "-v");
    let flashinfer = text::concat(base.as_str(), "/flashinfer:/root/.cache/flashinfer");
    text::push_text(&mut args, flashinfer.as_str());
    text::push_text(&mut args, "-v");
    let inductor = text::concat(base.as_str(), "/torchinductor:/root/.cache/torchinductor");
    text::push_text(&mut args, inductor.as_str());
    text::push_text(&mut args, "-v");
    text::push_text(&mut args, text::concat(base.as_str(), "/vllm:/root/.cache/vllm").as_str());
    args
}

fn environment_args() -> (args: Vec<String>)
    ensures
        text::views(args@) == environment_flags(),
{
    let mut args: Vec<String> = Vec::new();
    assert(text::views(args@) =~= Seq::<Seq<char>>::empty());
    text::push_text(&mut args, "-e");
    text::push_text(&mut args, "VLLM_CONFIGURE_LOGGING=0");
    text::push_text(&mut args, "-e");
    text::push_text(&mut args, "VLLM_DO_NOT_TRACK=1");
    text::push_text(&mut args, "-e");
    text::push_text(&mut args, "VLLM_NO_USAGE_STATS=1");
    text::push_text(&mut args, "-e");
    text::push_text(&mut args, "VLLM_CACHE_ROOT=/root/.cache/vllm");
    text::push_text(&mut args, "-e");
    text::push_text(&mut args, "TRITON_CACHE_DIR=/root/.triton");
    text::push_text(&mut args, "-e");
    text::push_text(&mut args, "TORCHINDUCTOR_CACHE_DIR=/root/.cache/torchinductor");
    text::push_text(&mut args, "--entrypoint");
    text::push_text(&mut args, "vllm");
    args
}

fn server_args(spec: &ServeSpec) -> (args: Vec<String>)
    ensures
        text::views(args@) == server_flags(*spec),
{
    let mut args: Vec<String> = Vec::new();
    assert(text::views(args@) =~= Seq::<Seq<char>>::empty());
    text::push_text(&mut args, "--host");
    text::push_text(&mut args, "0.0.0.0");
    text::push_text(&mut args, "--port");
    text::push_text(&mut args, "8000");
    text::push_text(&mut args, "--dtype");
    text::push_text(&mut args, spec.dtype.as_str());
    text::push_text(&mut args, "--max-model-len");
    text::push_text(&mut args, text::to_decimal(spec.max_model_len as u64).as_str());
    text::push_text(&mut args, "--gpu-memory-utilization");
    text::push_text(&mut args, spec.gpu_memory_utilization.as_str());
    text::push_text(&mut args, "--mm-processor-cache-gb");
    text::push_text(&mut args, spec.mm_processor_cache_gb.as_str());
    text::push_text(&mut args, "--enable-prefix-caching");
    args
}

fn serve_args(spec: &ServeSpec) -> (args: Vec<String>)
    ensures
        text::views(args@) == serve_flags(*spec),
{
    let mut args = server_args(spec);
    if spec.enforce_eager {
        text::push_text(&mut args, "--enforce-eager");
    }
    let ghost eager = server_flags(*spec) + switch("--enforce-eager"@, spec.enforce_eager);
    assert(text::views(args@) =~= eager);
    let ghost mut seqs: Option<Seq<char>> = None;
    if let Some(n) = spec.max_num_seqs {
        text::push_text(&mut args, "--max-num-seqs");
        text::push_text(&mut args, text::to_decimal(n as u64).as_str());
        proof {
            seqs = Some(text::decimal(n as nat));
        }
    }
    let ghost counted = eager + option("--max-num-seqs"@, seqs);
    assert(text::views(args@) =~= counted);
    let ghost mut kind: Option<Seq<char>> = None;
    if let Some(t) = &spec.kv_cache_dtype {
        text::push_text(&mut args, "--kv-cache-dtype");
        text::push_text(&mut args, t.as_str());
        proof {
            kind = Some(t@);
        }
    }
    assert(text::views(args@) =~= counted + option("--kv-cache-dtype"@, kind));
    args
}

/// The arguments that make docker serve the model.
pub fn docker_run_args(spec: &ServeSpec) -> (args: Vec<String>)
    ensures
        text::views(args@) == docker_run(*spec),
{
    let mut args: Vec<String> = Vec::new();
    assert(text::views(args@) =~= Seq::<Seq<char>>::empty());
    text::push_text(&mut args, "run");
    let mut container = container_args(spec);
    let mut caches = cache_args(spec.host_cache_dir.as_str());
    let mut environment = environment_args();
    let mut serve = serve_args(spec);
    text::append_texts(&mut args, &mut container);
    text::append_texts(&mut args, &mut caches);
    text::append_texts(&mut args, &mut environment);
    text::push_text(&mut args, spec.image.as_str());
    text::push_text(&mut args, "serve");
    text::push_text(&mut args, spec.container_model.as_str());
    text::append_texts(&mut args, &mut serve);
    assert(text::views(args@) =~= docker_run(*spec));
    args
}

/// All flags for docker come before the image, and all flags for the server after
/// it and the model.
pub proof fn law_flags_around_image(spec: ServeSpec)
    ensures
        ({
            let args = docker_run(spec);
            let at = 1 + docker_flags(spec).len() as int;
            &&& args[at] == spec.image@
            &&& args.subrange(1, at) == docker_flags(spec)
            &&& args.skip(at + 3) == serve_flags(spec)
        }),
{
    let args = docker_run(spec);
    let at = 1 + docker_flags(spec).len() as int;
    assert(args.subrange(1, at) =~= docker_flags(spec));
    assert(args.skip(at + 3) =~= serve_flags(spec));
}

/// The caches are mounted from the same places whether or not the directory is
/// written with a slash at its end.
pub proof fn law_cache_dir_slash(host_cache_dir: Seq<char>)
    ensures
        cache_flags(host_cache_dir.push('/')) == cache_flags(host_cache_dir),
{
    assert(host_cache_dir.push('/').drop_last() =~= host_cache_dir);
}

/// The address of the server on the host.
pub open spec fn endpoint_at(port: u16) -> Seq<char> {
    "http://127.0.0.1:"@ + text::decimal(port as nat)
}

/// What docker is asked to do to remove a container, running or not.
pub open spec fn docker_remove(name: Seq<char>) -> Seq<Seq<char>> {
    seq!["rm"@, "-f"@, name]
}

/// What docker is asked to do to show what a container printed.
pub open spec fn docker_logs(name: Seq<char>) -> Seq<Seq<char>> {
    seq!["logs"@, name]
}

/// What docker is asked to do to say whether a container runs.
pub open spec fn docker_inspect(name: Seq<char>) -> Seq<Seq<char>> {
    seq!["inspect"@, "-f"@, "{{.State.Running}}"@, name]
}

/// The arguments that make docker remove a container.
pub fn docker_remove_args(name: &str) -> (args: Vec<String>)
    ensures
        text::views(args@) == docker_remove(name@),
{
    let mut args: Vec<String> = Vec::new();
    text::push_text(&mut args, "rm");
    text::push_text(&mut args, "-f");
    text::push_text(&mut args, name);
    assert(text::views(args@) =~= docker_remove(name@));
    args
}

/// The arguments that make docker show what a container printed.
pub fn docker_logs_args(name: &str) -> (args: Vec<String>)
    ensures
        text::views(args@) == docker_logs(name@),
{
    let mut args: Vec<String> = Vec::new();
    text::push_text(&mut args, "logs");
    text::push_text(&mut args, name);
    assert(text::views(args@) =~= docker_logs(name@));
    args
}

/// The arguments that make docker say whether a container runs.
pub fn docker_inspect_args(name: &str) -> (args: Vec<String>)
    ensures
        text::views(args@) == docker_inspect(name@),
{
    let mut args: Vec<String> = Vec::new();
    text::push_text(&mut args, "inspect");
    text::push_text(&mut args, "-f");
    text::push_text(&mut args, "{{.State.Running}}");
    text::push_text(&mut args, name);
    assert(text::views(args@) =~= docker_inspect(name@));
    args
}

/// Whether an answer of docker says that a container runs.
pub open spec fn answers_running(answer: Seq<char>) -> bool {
    text::trimmed(answer) == "true"@
}

/// Whether an answer of docker says that a container runs.
pub fn says_running(answer: &str) -> (running: bool)
    ensures
        running == answers_running(answer@),
{
    let word = text::trim(answer);
    text::same(word.as_str(), "true")
}

/// Whether a container runs, by the answer of docker.
pub fn is_running(answer: &[u8]) -> (running: bool)
    ensures
        running == answers_running(text::lossy_text(answer@)),
{
    let answer = text::decode_lossy(answer);
    says_running(answer.as_str())
}

/// The address that tells whether the server is healthy.
pub fn health_url(endpoint: &str) -> (url: String)
    ensures
        url@ == endpoint@ + "/health"@,
{
    text::concat(endpoint, "/health")
}

/// What to report when docker could not start the container, for the reason given.
pub open spec fn start_report(reason: Seq<char>) -> Seq<char> {
    "docker run failed: "@ + text::trimmed(reason)
}

/// What to report when docker could not start the container, for the reason given.
pub fn run_failure_for(reason: &str) -> (message: String)
    ensures
        message@ == start_report(reason@),
{
    let reason = text::trim(reason);
    text::concat("docker run failed: ", reason.as_str())
}

/// What to report when docker could not start the container.
pub fn run_failure(stderr: &[u8]) -> (message: String)
    ensures
        message@ == start_report(text::lossy_text(stderr@)),
{
    let stderr = text::decode_lossy(stderr);
    run_failure_for(stderr.as_str())
}

/// What to report when the server did not become healthy.
pub open spec fn unhealthy_report(name: Seq<char>, timeout: u64) -> Seq<char> {
    "ASR container '"@ + name + "' did not become healthy within "@ + text::decimal(timeout as nat)
        + "s"@
}

/// What to report when the server did not become healthy.
pub fn health_failure(spec: &ServeSpec) -> (message: String)
    ensures
        message@ == unhealthy_report(spec.container_name@, spec.health_timeout),
{
    let mut message = "ASR container '".to_owned();
    message.append(spec.container_name.as_str());
    message.append("' did not become healthy within ");
    message.append(text::to_decimal(spec.health_timeout).as_str());
    message.append("s");
    message
}

/// A container that serves the model, to be removed when it is no longer needed.
pub struct ContainerGuard {
    name: String,
    endpoint: String,
    active: bool,
}

impl ContainerGuard {
    /// The name of the container.
    pub closed spec fn container(&self) -> Seq<char> {
        self.name@
    }

    /// The address of the server.
    pub closed spec fn address(&self) -> Seq<char> {
        self.endpoint@
    }

    /// Whether the container is still to be removed.
    pub closed spec fn is_active(&self) -> bool {
        self.active
    }

    /// The guard of a container that was started.
    pub fn new(spec: &ServeSpec) -> (guard: Self)
        ensures
            guard.container() == spec.container_name@,
            guard.address() == endpoint_at(spec.host_port),
            guard.is_active(),
    {
        let port = text::to_decimal(spec.host_port as u64);
        ContainerGuard {
            name: spec.container_name.clone(),
            endpoint: text::concat("http://127.0.0.1:", port.as_str()),
            active: true,
        }
    }

    /// The address of the server.
    pub fn endpoint(&self) -> (endpoint: &str)
        ensures
            endpoint@ == self.address(),
    {
        self.endpoint.as_str()
    }

    /// The name of the container.
    pub fn name(&self) -> (name: &str)
        ensures
            name@ == self.container(),
    {
        self.name.as_str()
    }

    /// The arguments that make docker remove the container, if that is still to be
    /// done.
    pub fn removal(&self) -> (args: Option<Vec<String>>)
        ensures
            match args {
                Some(args) => self.is_active() && text::views(args@) == docker_remove(
                    self.container(),
                ),
                None => !self.is_active(),
            },
    {
        if self.active {
            Some(docker_remove_args(self.name.as_str()))
        } else {
            None
        }
    }
}

/// Seconds to wait before the health of the server is looked at again.
pub const HEALTH_INTERVAL_S: u64 = 4;

/// Seconds to wait before the container is started again.
pub const RETRY_INTERVAL_S: u64 = 8;

/// Why an attempt to start the container failed.
#[derive(Clone, Copy, PartialEq, Eq, Structural, Debug)]
pub enum LaunchFailure {
    /// Docker did not start it.
    NotStarted,
    /// It stopped, or the server in it did not become healthy in time.
    NotHealthy,
}

/// What is to be done next to start the container.
#[derive(Clone, Copy, PartialEq, Eq, Structural, Debug)]
pub enum LaunchStep {
    /// Remove a container of the same name.
    Clear,
    /// Run the container; it succeeds if docker does.
    Run,
    /// Ask docker about the container; it succeeds if the container runs.
    Inspect,
    /// Ask the server for its health; it succeeds if the server is healthy.
    Probe,
    /// Look at the clock; it succeeds if there is time left.
    Clock,
    /// Wait before the container is looked at again.
    Wait,
    /// Show what the container of the last attempt printed, while it is still there.
    Logs(LaunchFailure),
    /// Remove the container that failed.
    Remove(LaunchFailure),
    /// Wait before the container is started again.
    Pause,
    /// Nothing: the server is healthy.
    Ready,
    /// Nothing: the last attempt failed.
    Failed(LaunchFailure),
}

/// How far the start of the container has come.
#[derive(Clone, Copy, PartialEq, Eq, Structural, Debug)]
pub struct Launch {
    pub step: LaunchStep,
    /// The number of the attempt, from 1.
    pub attempt: u32,
    /// How many attempts there are.
    pub attempts: u32,
}

impl Launch {
    /// The first step of the first attempt.
    pub open spec fn initial(retries: u32) -> Launch {
        Launch {
            step: LaunchStep::Clear,
            attempt: 1,
            attempts: if retries < 1 {
                1
            } else {
                retries
            },
        }
    }

    /// Attempts are counted from 1, and only the last one is final.
    pub open spec fn wf(self) -> bool {
        &&& 1 <= self.attempt <= self.attempts
        &&& self.step is Logs || self.step is Failed ==> self.attempt == self.attempts
        &&& self.step is Pause ==> self.attempt < self.attempts
    }

    /// What follows when an attempt fails: its container is removed, but the last one
    /// shows first what it printed.
    pub open spec fn failing(self, why: LaunchFailure) -> LaunchStep {
        if self.attempt == self.attempts {
            LaunchStep::Logs(why)
        } else {
            LaunchStep::Remove(why)
        }
    }

    /// What follows the current step, given whether it succeeded.
    pub open spec fn next(self, ok: bool) -> Launch {
        let step = match self.step {
            LaunchStep::Clear => LaunchStep::Run,
            LaunchStep::Run => if ok {
                LaunchStep::Inspect
            } else {
                self.failing(LaunchFailure::NotStarted)
            },
            LaunchStep::Inspect => if ok {
                LaunchStep::Probe
            } else {
                self.failing(LaunchFailure::NotHealthy)
            },
            LaunchStep::Probe => if ok {
                LaunchStep::Ready
            } else {
                LaunchStep::Clock
            },
            LaunchStep::Clock => if ok {
                LaunchStep::Wait
            } else {
                self.failing(LaunchFailure::NotHealthy)
            },
            LaunchStep::Wait => LaunchStep::Inspect,
            LaunchStep::Logs(why) => LaunchStep::Remove(why),
            LaunchStep::Remove(why) => if self.attempt == self.attempts {
                LaunchStep::Failed(why)
            } else {
                LaunchStep::Pause
            },
            LaunchStep::Pause => LaunchStep::Clear,
            LaunchStep::Ready => LaunchStep::Ready,
            LaunchStep::Failed(why) => LaunchStep::Failed(why),
        };
        Launch {
            step,
            attempt: if self.step is Pause {
                (self.attempt + 1) as u32
            } else {
                self.attempt
            },
            attempts: self.attempts,
        }
    }

    /// The start of a container that is to be tried `retries` times, but at least
    /// once.
    pub fn new(retries: u32) -> (launch: Self)
        ensures
            launch == Launch::initial(retries),
            launch.wf(),
    {
        Launch {
            step: LaunchStep::Clear,
            attempt: 1,
            attempts: if retries < 1 {
                1
            } else {
                retries
            },
        }
    }

    fn failed_step(&self, why: LaunchFailure) -> (step: LaunchStep)
        ensures
            step == self.failing(why),
    {
        if self.attempt == self.attempts {
            LaunchStep::Logs(why)
        } else {
            LaunchStep::Remove(why)
        }
    }

    /// Goes on, given whether the current step succeeded.
    pub fn advance(&mut self, ok: bool)
        requires
            old(self).wf(),
        ensures
            *final(self) == old(self).next(ok),
            final(self).wf(),
    {
        let step = self.step;
        self.step = match step {
            LaunchStep::Clear => LaunchStep::Run,
            LaunchStep::Run => if ok {
                LaunchStep::Inspect
            } else {
                self.failed_step(LaunchFailure::NotStarted)
            },
            LaunchStep::Inspect => if ok {
                LaunchStep::Probe
            } else {
                self.failed_step(LaunchFailure::NotHealthy)
            },
            LaunchStep::Probe => if ok {
                LaunchStep::Ready
            } else {
                LaunchStep::Clock
            },
            LaunchStep::Clock => if ok {
                LaunchStep::Wait
            } else {
                self.failed_step(LaunchFailure::NotHealthy)
            },
            LaunchStep::Wait => LaunchStep::Inspect,
            LaunchStep::Logs(why) => LaunchStep::Remove(why),
            LaunchStep::Remove(why) => if self.attempt == self.attempts {
                LaunchStep::Failed(why)
            } else {
                LaunchStep::Pause
            },
            LaunchStep::Pause => {
                self.attempt = self.attempt + 1;
                LaunchStep::Clear
            },
            LaunchStep::Ready => LaunchStep::Ready,
            LaunchStep::Failed(why) => LaunchStep::Failed(why),
        };
    }
}

/// How far the start has come after steps that succeeded or not.
pub open spec fn launched(retries: u32, oks: Seq<bool>) -> Launch
    decreases oks.len(),
{
    if oks.len() == 0 {
        Launch::initial(retries)
    } else {
        launched(retries, oks.drop_last()).next(oks.last())
    }
}

/// How often the container was run in steps that succeeded or not.
pub open spec fn runs(retries: u32, oks: Seq<bool>) -> nat
    decreases oks.len(),
{
    if oks.len() == 0 {
        0
    } else {
        runs(retries, oks.drop_last()) + if launched(retries, oks.drop_last()).step is Run {
            1nat
        } else {
            0nat
        }
    }
}

/// The container is never run more often than the attempts there are, and the start
/// fails only after all of them.
pub proof fn law_attempts(retries: u32, oks: Seq<bool>)
    ensures
        launched(retries, oks).wf(),
        runs(retries, oks) <= launched(retries, oks).attempts,
        launched(retries, oks).attempts == Launch::initial(retries).attempts,
        launched(retries, oks).step is Failed ==> runs(retries, oks) == launched(
            retries,
            oks,
        ).attempts,
{
    lemma_runs(retries, oks);
}

proof fn lemma_runs(retries: u32, oks: Seq<bool>)
    ensures
        ({
            let l = launched(retries, oks);
            &&& l.wf()
            &&& l.attempts == Launch::initial(retries).attempts
            &&& runs(retries, oks) == if l.step is Clear || l.step is Run {
                l.attempt - 1
            } else {
                l.attempt as int
            }
        }),
    decreases oks.len(),
{
    if oks.len() > 0 {
        lemma_runs(retries, oks.drop_last());
    }
}

/// The server counts as ready only once it answered that it is healthy.
pub proof fn law_ready_is_healthy(retries: u32, oks: Seq<bool>)
    requires
        launched(retries, oks).step is Ready,
    ensures
        exists|i: int|
            0 <= i < oks.len() && #[trigger] oks[i] && launched(retries, oks.take(i)).step is Probe,
    decreases oks.len(),
{
    let last = oks.len() - 1;
    assert(oks.drop_last() =~= oks.take(last));
    if launched(retries, oks.drop_last()).step is Ready {
        law_ready_is_healthy(retries, oks.drop_last());
        let i = choose|i: int|
            0 <= i < last && #[trigger] oks.drop_last()[i] && launched(
                retries,
                oks.drop_last().take(i),
            ).step is Probe;
        assert(oks.drop_last().take(i) =~= oks.take(i));
        assert(oks[i]);
    } else {
        assert(oks[last]);
    }
}

/// A container that failed is removed before it is started again and before the start
/// is given up.
pub proof fn law_failure_is_removed(launch: Launch, ok: bool)
    requires
        launch.wf(),
    ensures
        launch.next(ok).step is Pause || launch.next(ok).step is Failed ==> launch.step is Remove
            || launch.step is Failed,
        launch.next(ok).step is Clear ==> launch.step is Pause,
{
}

/// The container of the last attempt is removed only after what it printed was shown.
pub proof fn law_logs_before_removal(launch: Launch, ok: bool)
    requires
        launch.wf(),
        launch.attempt == launch.attempts,
        launch.next(ok).step is Remove,
    ensures
        launch.step is Logs,
{
}

/// How often the container of a failed attempt was removed in steps that succeeded or
/// not.
pub open spec fn removals(retries: u32, oks: Seq<bool>) -> nat
    decreases oks.len(),
{
    if oks.len() == 0 {
        0
    } else {
        removals(retries, oks.drop_last()) + if launched(retries, oks.drop_last()).step is Remove {
            1nat
        } else {
            0nat
        }
    }
}

/// Each failed attempt has its container removed once: all attempts but the current
/// one, and the current one too once it is over.
pub proof fn law_one_removal_per_failure(retries: u32, oks: Seq<bool>)
    ensures
        ({
            let l = launched(retries, oks);
            removals(retries, oks) == if l.step is Pause || l.step is Failed {
                l.attempt as int
            } else {
                l.attempt - 1
            }
        }),
    decreases oks.len(),
{
    if oks.len() > 0 {
        law_one_removal_per_failure(retries, oks.drop_last());
        lemma_runs(retries, oks.drop_last());
    }
}

} // verus!
