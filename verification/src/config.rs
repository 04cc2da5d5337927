//! The options of the service and their defaults.

use vstd::prelude::*;

verus! {

/// Everything the service can be configured with.
pub struct Config {
    pub rpc: RpcConfig,
    pub psm: PsmConfig,
    pub journal_storage: JournalStorageConfig,
    pub snapshot_storage: SnapshotStorageConfig,
    pub logging: LoggingConfig,
    pub metrics: MetricsConfig,
}

impl Default for Config {
    fn default() -> (config: Self)
        ensures
            config.rpc.is_default(),
            config.psm.is_default(),
            config.journal_storage.is_default(),
            config.snapshot_storage.is_default(),
            config.logging.is_default(),
            config.metrics.is_default(),
    {
        Self {
            rpc: RpcConfig::default(),
            psm: PsmConfig::default(),
            journal_storage: JournalStorageConfig::default(),
            snapshot_storage: SnapshotStorageConfig::default(),
            logging: LoggingConfig::default(),
            metrics: MetricsConfig::default(),
        }
    }
}

/// Where requests are accepted. Zero `threads` stands for one worker per
/// processor.
pub struct RpcConfig {
    pub threads: u16,
    pub address: String,
    pub port: u16,
}

impl RpcConfig {
    /// Whether every option has its default value.
    pub open spec fn is_default(&self) -> bool {
        &&& self.threads == 0
        &&& self.address@ == "127.0.0.1"@
        &&& self.port == 39172
    }

    /// The number of workers to start on a host with `cpus` processors.
    pub fn worker_threads(&self, cpus: usize) -> (count: usize)
        ensures
            count == if self.threads > 0 {
                self.threads as usize
            } else {
                cpus
            },
    {
        if self.threads > 0 {
            self.threads as usize
        } else {
            cpus
        }
    }
}

impl Default for RpcConfig {
    fn default() -> (config: Self)
        ensures
            config.is_default(),
    {
        Self { threads: 0, address: "127.0.0.1".to_owned(), port: 39172 }
    }
}

/// The options of the three services of the persistent state machine.
pub struct PsmConfig {
    pub machine_service: MachineServiceConfig,
    pub journal_service: JournalServiceConfig,
    pub snapshot_service: SnapshotServiceConfig,
}

impl PsmConfig {
    /// Whether every option has its default value.
    pub open spec fn is_default(&self) -> bool {
        &&& self.machine_service.is_default()
        &&& self.journal_service.is_default()
        &&& self.snapshot_service.is_default()
    }
}

impl Default for PsmConfig {
    fn default() -> (config: Self)
        ensures
            config.is_default(),
    {
        Self {
            machine_service: MachineServiceConfig::default(),
            journal_service: JournalServiceConfig::default(),
            snapshot_service: SnapshotServiceConfig::default(),
        }
    }
}

/// How many requests and how many proposals may wait for the machine
/// service.
pub struct MachineServiceConfig {
    pub request_queue_size: usize,
    pub mutation_queue_size: usize,
}

impl MachineServiceConfig {
    /// Whether every option has its default value.
    pub open spec fn is_default(&self) -> bool {
        &&& self.request_queue_size == 10000
        &&& self.mutation_queue_size == 10000
    }
}

impl Default for MachineServiceConfig {
    fn default() -> (config: Self)
        ensures
            config.is_default(),
    {
        Self { request_queue_size: 10000, mutation_queue_size: 10000 }
    }
}

/// How many requests may wait for the journal service, and how many of them
/// it makes durable at once.
pub struct JournalServiceConfig {
    pub request_queue_size: usize,
    pub batch_size: usize,
}

impl JournalServiceConfig {
    /// Whether every option has its default value.
    pub open spec fn is_default(&self) -> bool {
        &&& self.request_queue_size == 10000
        &&& self.batch_size == 100
    }
}

impl Default for JournalServiceConfig {
    fn default() -> (config: Self)
        ensures
            config.is_default(),
    {
        Self { request_queue_size: 10000, batch_size: 100 }
    }
}

/// After how many mutations a snapshot is taken, and how many proposals the
/// snapshot service applies at once.
pub struct SnapshotServiceConfig {
    pub snapshot_interval: u64,
    pub batch_size: usize,
}

impl SnapshotServiceConfig {
    /// Whether every option has its default value.
    pub open spec fn is_default(&self) -> bool {
        &&& self.snapshot_interval == 10000
        &&& self.batch_size == 100_000
    }
}

impl Default for SnapshotServiceConfig {
    fn default() -> (config: Self)
        ensures
            config.is_default(),
    {
        Self { snapshot_interval: 10000, batch_size: 100_000 }
    }
}

/// The directory of the journal and the size after which a journal file is
/// closed.
pub struct JournalStorageConfig {
    pub path: String,
    pub file_size_soft_limit: usize,
}

impl JournalStorageConfig {
    /// Whether every option has its default value.
    pub open spec fn is_default(&self) -> bool {
        &&& self.path@ == "./journal"@
        &&& self.file_size_soft_limit == 100_000_000
    }
}

impl Default for JournalStorageConfig {
    fn default() -> (config: Self)
        ensures
            config.is_default(),
    {
        Self { path: "./journal".to_owned(), file_size_soft_limit: 100_000_000 }
    }
}

/// The directory of the snapshots.
pub struct SnapshotStorageConfig {
    pub path: String,
}

impl SnapshotStorageConfig {
    /// Whether every option has its default value.
    pub open spec fn is_default(&self) -> bool {
        self.path@ == "./snapshots"@
    }
}

impl Default for SnapshotStorageConfig {
    fn default() -> (config: Self)
        ensures
            config.is_default(),
    {
        Self { path: "./snapshots".to_owned() }
    }
}

/// What is logged and where it goes.
pub struct LoggingConfig {
    pub buffer_size: usize,
    pub modules: Vec<String>,
    pub targets: Vec<LoggingTargetConfig>,
}

impl LoggingConfig {
    /// Whether every option has its default value.
    pub open spec fn is_default(&self) -> bool {
        &&& self.buffer_size == 1_000_000
        &&& self.modules@.len() == 2
        &&& self.modules@[0]@ == "ray"@
        &&& self.modules@[1]@ == "panic"@
        &&& self.targets@.len() == 1
        &&& self.targets@[0].target == LoggingTarget::Stderr
        &&& self.targets@[0].level == LogLevel::Info
    }
}

impl Default for LoggingConfig {
    fn default() -> (config: Self)
        ensures
            config.is_default(),
    {
        let mut modules: Vec<String> = Vec::new();
        modules.push("ray".to_owned());
        modules.push("panic".to_owned());
        let mut targets: Vec<LoggingTargetConfig> = Vec::new();
        targets.push(LoggingTargetConfig { target: LoggingTarget::Stderr, level: LogLevel::Info });
        Self { buffer_size: 1_000_000, modules, targets }
    }
}

/// One destination of log messages and the least severe level it takes.
pub struct LoggingTargetConfig {
    pub target: LoggingTarget,
    pub level: LogLevel,
}

/// A destination of log messages.
pub enum LoggingTarget {
    Stderr,
    File { path: String },
}

/// The severity of a log message, from the least severe to the most severe.
#[derive(Clone, Copy, Debug, PartialEq, Eq, Structural)]
pub enum LogLevel {
    Debug,
    Info,
    Warn,
    Error,
}

/// Whether metrics are exported, and where.
pub struct MetricsConfig {
    pub enable: bool,
    pub address: String,
    pub port: u16,
}

impl MetricsConfig {
    /// Whether every option has its default value.
    pub open spec fn is_default(&self) -> bool {
        &&& self.enable
        &&& self.address@ == "127.0.0.1"@
        &&& self.port == 40000
    }
}

impl Default for MetricsConfig {
    fn default() -> (config: Self)
        ensures
            config.is_default(),
    {
        Self { enable: true, address: "127.0.0.1".to_owned(), port: 40000 }
    }
}

} // verus!
