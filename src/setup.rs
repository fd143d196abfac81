//! The choice of a node's run mode from its subcommand and loaded
//! configuration.
use vstd::prelude::*;

use crate::consensus::Consensus;
use crate::types::{Block, H256};

verus! {

/// How the process ends when setup fails.
#[derive(Clone, Copy, Debug, PartialEq, Eq, Structural)]
pub enum ExitCode {
    Cli,
    Config,
    IO,
    Failure,
}

/// The proof-of-work engine that a chain uses.
#[derive(Clone, Copy, Debug, PartialEq, Eq, Structural)]
pub enum PowEngineKind {
    Dummy,
    Cuckoo,
}

/// A chain specification: its name, its proof-of-work engine, its genesis
/// block and, when pinned, the fingerprint that the genesis must have.
#[derive(Clone, Debug)]
pub struct ChainSpec {
    pub name: String,
    pub pow: PowEngineKind,
    pub genesis: Block,
    pub genesis_hash: Option<H256>,
}

impl ChainSpec {
    /// The consensus parameters of the chain: the defaults over its genesis,
    /// unless the genesis differs from the pinned fingerprint.
    pub fn build_consensus(&self) -> (r: Result<Consensus, ExitCode>)
        ensures
            (self.genesis_hash is Some && self.genesis_hash.unwrap() != self.genesis.header.hash)
                <==> r is Err,
            r is Err ==> r == Err::<Consensus, ExitCode>(ExitCode::Config),
            r is Ok ==> r.unwrap() == Consensus::new_spec(r.unwrap().genesis_block)
                && r.unwrap().genesis_block.model() == self.genesis.model(),
    {
        if let Some(h) = self.genesis_hash {
            if h != self.genesis.header.hash {
                return Err(ExitCode::Config);
            }
        }
        Ok(Consensus::new(self.genesis.duplicate()))
    }
}

/// What the miner process is configured with.
#[derive(Clone, Debug)]
pub struct MinerConfig {
    pub rpc_url: String,
    pub poll_interval: u64,
    pub block_on_submit: bool,
}

/// The configuration of the node process.
#[derive(Clone, Debug)]
pub struct CKBAppConfig {
    pub data_dir: String,
    pub chain_spec: ChainSpec,
}

/// The configuration of the miner process.
#[derive(Clone, Debug)]
pub struct MinerAppConfig {
    pub data_dir: String,
    pub chain_spec: ChainSpec,
    pub miner: MinerConfig,
}

/// A loaded configuration, of the node or of the miner.
#[derive(Clone, Debug)]
pub enum AppConfig {
    CKB(CKBAppConfig),
    Miner(MinerAppConfig),
}

impl AppConfig {
    pub fn into_ckb(self) -> (r: Result<CKBAppConfig, ExitCode>)
        ensures
            match self {
                AppConfig::CKB(c) => r == Ok::<CKBAppConfig, ExitCode>(c),
                AppConfig::Miner(_) => r == Err::<CKBAppConfig, ExitCode>(ExitCode::Config),
            },
    {
        match self {
            AppConfig::CKB(c) => Ok(c),
            AppConfig::Miner(_) => Err(ExitCode::Config),
        }
    }

    pub fn into_miner(self) -> (r: Result<MinerAppConfig, ExitCode>)
        ensures
            match self {
                AppConfig::Miner(c) => r == Ok::<MinerAppConfig, ExitCode>(c),
                AppConfig::CKB(_) => r == Err::<MinerAppConfig, ExitCode>(ExitCode::Config),
            },
    {
        match self {
            AppConfig::Miner(c) => Ok(c),
            AppConfig::CKB(_) => Err(ExitCode::Config),
        }
    }

    /// The chain specification of either configuration.
    pub fn spec_chain_ref(&self) -> (r: &ChainSpec)
        ensures
            *r == self.spec_chain(),
    {
        match self {
            AppConfig::CKB(c) => &c.chain_spec,
            AppConfig::Miner(c) => &c.chain_spec,
        }
    }

    pub open spec fn spec_chain(&self) -> ChainSpec {
        match self {
            AppConfig::CKB(c) => c.chain_spec,
            AppConfig::Miner(c) => c.chain_spec,
        }
    }
}

/// What the node process runs with.
#[derive(Clone, Debug)]
pub struct RunArgs {
    pub config: CKBAppConfig,
    pub consensus: Consensus,
}

/// What the miner process runs with.
#[derive(Clone, Debug)]
pub struct MinerArgs {
    pub pow_engine: PowEngineKind,
    pub config: MinerConfig,
}

/// The subcommand names of the long-running processes.
pub open spec fn daemon_name(b: Seq<u8>) -> bool {
    b == seq![0x72u8, 0x75, 0x6e] || b == seq![0x6du8, 0x69, 0x6e, 0x65, 0x72]
}

/// Whether the subcommand `name` starts a long-running process: `run` or
/// `miner`.
pub fn is_daemon(name: &str) -> (r: bool)
    ensures
        r == daemon_name(vstd::utf8::encode_utf8(name@)),
{
    let b = name.as_bytes();
    if b.len() == 3 {
        let r = b[0] == 0x72 && b[1] == 0x75 && b[2] == 0x6e;
        proof {
            if r {
                assert(b@ =~= seq![0x72u8, 0x75, 0x6e]);
            }
        }
        r
    } else if b.len() == 5 {
        let r = b[0] == 0x6d && b[1] == 0x69 && b[2] == 0x6e && b[3] == 0x65 && b[4] == 0x72;
        proof {
            if r {
                assert(b@ =~= seq![0x6du8, 0x69, 0x6e, 0x65, 0x72]);
            }
        }
        r
    } else {
        false
    }
}

/// A subcommand with its loaded configuration.
pub struct Setup {
    subcommand_name: String,
    config: AppConfig,
    is_sentry_enabled: bool,
}

impl Setup {
    pub closed spec fn spec_config(&self) -> AppConfig {
        self.config
    }

    pub closed spec fn spec_sentry(&self) -> bool {
        self.is_sentry_enabled
    }

    pub closed spec fn spec_name(&self) -> String {
        self.subcommand_name
    }

    /// Error reporting is on for a long-running subcommand whose
    /// configuration enables it.
    pub fn new(subcommand_name: String, config: AppConfig, sentry_enabled: bool) -> (r: Setup)
        ensures
            r.spec_name() == subcommand_name,
            r.spec_config() == config,
            r.spec_sentry() == (daemon_name(vstd::utf8::encode_utf8(subcommand_name@)) && sentry_enabled),
    {
        let is_sentry_enabled = is_daemon(subcommand_name.as_str()) && sentry_enabled;
        Setup { subcommand_name, config, is_sentry_enabled }
    }

    pub fn subcommand_name(&self) -> (r: &String)
        ensures
            *r == self.spec_name(),
    {
        &self.subcommand_name
    }

    pub fn is_sentry_enabled(&self) -> (r: bool)
        ensures
            r == self.spec_sentry(),
    {
        self.is_sentry_enabled
    }

    /// The arguments of the node process: its configuration and the
    /// consensus of its chain. A miner configuration, or a chain whose
    /// genesis differs from the pinned one, is a configuration error.
    pub fn run(self) -> (r: Result<RunArgs, ExitCode>)
        ensures
            match self.spec_config() {
                AppConfig::CKB(c) => {
                    let spec = c.chain_spec;
                    if spec.genesis_hash is Some && spec.genesis_hash.unwrap() != spec.genesis.header.hash {
                        r == Err::<RunArgs, ExitCode>(ExitCode::Config)
                    } else {
                        &&& r is Ok
                        &&& r.unwrap().config == c
                        &&& r.unwrap().consensus == Consensus::new_spec(r.unwrap().consensus.genesis_block)
                        &&& r.unwrap().consensus.genesis_block.model() == spec.genesis.model()
                    }
                },
                AppConfig::Miner(_) => r == Err::<RunArgs, ExitCode>(ExitCode::Config),
            },
    {
        let consensus = match self.config.spec_chain_ref().build_consensus() {
            Ok(c) => c,
            Err(e) => {
                return Err(e);
            },
        };
        match self.config.into_ckb() {
            Ok(config) => Ok(RunArgs { config, consensus }),
            Err(e) => Err(e),
        }
    }

    /// The arguments of the miner process: the proof-of-work engine of its
    /// chain and its miner settings. A node configuration is a
    /// configuration error.
    pub fn miner(self) -> (r: Result<MinerArgs, ExitCode>)
        ensures
            match self.spec_config() {
                AppConfig::Miner(c) => r == Ok::<MinerArgs, ExitCode>(
                    MinerArgs { pow_engine: c.chain_spec.pow, config: c.miner },
                ),
                AppConfig::CKB(_) => r == Err::<MinerArgs, ExitCode>(ExitCode::Config),
            },
    {
        let pow_engine = match &self.config {
            AppConfig::CKB(c) => c.chain_spec.pow,
            AppConfig::Miner(c) => c.chain_spec.pow,
        };
        match self.config.into_miner() {
            Ok(c) => Ok(MinerArgs { pow_engine, config: c.miner }),
            Err(e) => Err(e),
        }
    }
}

} // verus!
