use ckb_chain_index::setup::{
    is_daemon, AppConfig, CKBAppConfig, ChainSpec, ExitCode, MinerAppConfig, MinerConfig, PowEngineKind, Setup,
};
use ckb_chain_index::types::{Block, H256, Header};

fn genesis() -> Block {
    Block {
        header: Header {
            hash: H256 { w0: 7, w1: 0, w2: 0, w3: 0 },
            parent_hash: H256::zero(),
            number: 0,
            timestamp: 0,
            difficulty: 1,
            nonce: 0,
            proposals_root: H256::zero(),
            txs_root: H256::zero(),
        },
        transactions: vec![],
        proposals: vec![],
        uncles: vec![],
    }
}

fn spec(pinned: Option<H256>) -> ChainSpec {
    ChainSpec { name: "dev".to_string(), pow: PowEngineKind::Cuckoo, genesis: genesis(), genesis_hash: pinned }
}

fn miner_config() -> MinerConfig {
    MinerConfig { rpc_url: "http://127.0.0.1:8114".to_string(), poll_interval: 1000, block_on_submit: true }
}

#[test]
fn daemon_subcommands() {
    assert!(is_daemon("run"));
    assert!(is_daemon("miner"));
    assert!(!is_daemon("init"));
    assert!(!is_daemon("runs"));
    assert!(!is_daemon(""));
}

#[test]
fn run_arguments() {
    let config = AppConfig::CKB(CKBAppConfig { data_dir: "data".to_string(), chain_spec: spec(None) });
    let setup = Setup::new("run".to_string(), config, true);
    assert!(setup.is_sentry_enabled());
    let args = setup.run().unwrap();
    assert_eq!(args.consensus.genesis_block.header, genesis().header);
    assert_eq!(args.config.data_dir, "data");

    let pinned = AppConfig::CKB(CKBAppConfig {
        data_dir: "data".to_string(),
        chain_spec: spec(Some(H256 { w0: 8, w1: 0, w2: 0, w3: 0 })),
    });
    assert_eq!(Setup::new("run".to_string(), pinned, false).run().err().map(|e| e), Some(ExitCode::Config));

    let miner = AppConfig::Miner(MinerAppConfig { data_dir: "m".to_string(), chain_spec: spec(None), miner: miner_config() });
    assert_eq!(Setup::new("run".to_string(), miner, false).run().err(), Some(ExitCode::Config));
}

#[test]
fn miner_arguments() {
    let miner = AppConfig::Miner(MinerAppConfig { data_dir: "m".to_string(), chain_spec: spec(None), miner: miner_config() });
    let setup = Setup::new("export".to_string(), miner, true);
    assert!(!setup.is_sentry_enabled());
    let args = setup.miner().unwrap();
    assert_eq!(args.pow_engine, PowEngineKind::Cuckoo);
    assert_eq!(args.config.poll_interval, 1000);
    let node = AppConfig::CKB(CKBAppConfig { data_dir: "data".to_string(), chain_spec: spec(None) });
    assert_eq!(Setup::new("miner".to_string(), node, true).miner().err(), Some(ExitCode::Config));
}
