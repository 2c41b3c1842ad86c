use parity_scale_codec::Encode;
use para_router::configuration::HostConfiguration;
use para_router::error::Error;
use para_router::primitives::{BlockNumber, DownwardMessage, ParaId};
use para_router::router::{Module, SessionChangeNotification};

type Router = Module<()>;

/// A chain with a router, for the tests to drive block by block.
struct TestChain {
    router: Router,
    block_number: BlockNumber,
    config: HostConfiguration,
}

fn default_genesis_config() -> HostConfiguration {
    HostConfiguration { critical_downward_message_size: 1024, ..Default::default() }
}

fn new_test_ext(config: HostConfiguration) -> TestChain {
    TestChain { router: Router::new(), block_number: 0, config }
}

fn run_to_block(chain: &mut TestChain, to: BlockNumber, new_session: Option<Vec<BlockNumber>>) {
    while chain.block_number < to {
        let b = chain.block_number;
        chain.router.initializer_finalize();
        chain.block_number = b + 1;
        if new_session.as_ref().map_or(false, |v| v.contains(&(b + 1))) {
            chain.router.initializer_on_new_session(&SessionChangeNotification::default());
        }
        chain.router.initializer_initialize(b + 1);
    }
}

fn queue_downward_message(
    chain: &mut TestChain,
    para_id: ParaId,
    msg: DownwardMessage,
) -> Result<(), Error> {
    let config = chain.config;
    let now = chain.block_number;
    chain.router.queue_downward_message(&config, para_id, msg, now)
}

#[test]
fn scheduled_cleanup_performed() {
    let a = ParaId::from(1312);
    let b = ParaId::from(228);
    let c = ParaId::from(123);

    let mut chain = new_test_ext(default_genesis_config());
    run_to_block(&mut chain, 1, None);

    // enqueue downward messages to A, B and C.
    queue_downward_message(&mut chain, a, vec![1, 2, 3]).unwrap();
    queue_downward_message(&mut chain, b, vec![4, 5, 6]).unwrap();
    queue_downward_message(&mut chain, c, vec![7, 8, 9]).unwrap();

    chain.router.schedule_para_cleanup(a);

    // run to block without session change.
    run_to_block(&mut chain, 2, None);

    assert!(chain.router.dmq_length(a) != 0);
    assert!(chain.router.dmq_length(b) != 0);
    assert!(chain.router.dmq_length(c) != 0);

    chain.router.schedule_para_cleanup(b);

    // run to block changing the session.
    run_to_block(&mut chain, 3, Some(vec![3]));

    assert!(chain.router.dmq_length(a) == 0);
    assert!(chain.router.dmq_length(b) == 0);
    assert!(chain.router.dmq_length(c) != 0);

    // verify that the outgoing paras are emptied.
    assert!(chain.router.outgoing_paras().is_empty())
}

#[test]
fn dmq_length_and_head_updated_properly() {
    let a = ParaId::from(1312);
    let b = ParaId::from(228);

    let mut chain = new_test_ext(default_genesis_config());
    assert_eq!(chain.router.dmq_length(a), 0);
    assert_eq!(chain.router.dmq_length(b), 0);

    queue_downward_message(&mut chain, a, vec![1, 2, 3]).unwrap();

    assert_eq!(chain.router.dmq_length(a), 1);
    assert_eq!(chain.router.dmq_length(b), 0);
    assert!(chain.router.dmq_mqc_head(a).is_some());
    assert!(chain.router.dmq_mqc_head(b).is_none());
}

#[test]
fn check_processed_downward_messages() {
    let a = ParaId::from(1312);

    let mut chain = new_test_ext(default_genesis_config());
    // processed_downward_messages=0 is allowed when the DMQ is empty.
    assert!(chain.router.check_processed_downward_messages(a, 0));

    queue_downward_message(&mut chain, a, vec![1, 2, 3]).unwrap();
    queue_downward_message(&mut chain, a, vec![4, 5, 6]).unwrap();
    queue_downward_message(&mut chain, a, vec![7, 8, 9]).unwrap();

    // 0 doesn't pass if the DMQ has msgs.
    assert!(!chain.router.check_processed_downward_messages(a, 0));
    // a candidate can consume up to 3 messages
    assert!(chain.router.check_processed_downward_messages(a, 1));
    assert!(chain.router.check_processed_downward_messages(a, 2));
    assert!(chain.router.check_processed_downward_messages(a, 3));
    // there is no 4 messages in the queue
    assert!(!chain.router.check_processed_downward_messages(a, 4));
}

#[test]
fn dmq_pruning() {
    let a = ParaId::from(1312);

    let mut chain = new_test_ext(default_genesis_config());
    assert_eq!(chain.router.dmq_length(a), 0);

    queue_downward_message(&mut chain, a, vec![1, 2, 3]).unwrap();
    queue_downward_message(&mut chain, a, vec![4, 5, 6]).unwrap();
    queue_downward_message(&mut chain, a, vec![7, 8, 9]).unwrap();
    assert_eq!(chain.router.dmq_length(a), 3);

    // pruning 0 elements shouldn't change anything.
    chain.router.prune_dmq(a, 0);
    assert_eq!(chain.router.dmq_length(a), 3);

    chain.router.prune_dmq(a, 2);
    assert_eq!(chain.router.dmq_length(a), 1);
}

#[test]
fn queue_downward_message_critical() {
    let a = ParaId::from(1312);

    let mut genesis = default_genesis_config();
    genesis.critical_downward_message_size = 7;

    let mut chain = new_test_ext(genesis);
    let smol = [0; 3].to_vec();
    let big = [0; 8].to_vec();

    // still within limits
    assert_eq!(smol.encode().len(), 4);
    assert!(queue_downward_message(&mut chain, a, smol).is_ok());

    // that's too big
    assert_eq!(big.encode().len(), 9);
    assert!(queue_downward_message(&mut chain, a, big).is_err());
}

#[test]
fn ump_dispatch_empty() {
    let mut chain = new_test_ext(default_genesis_config());
    // make sure that the case with empty queues is handled properly
    let config = chain.config;
    chain.router.process_pending_upward_messages(&config);
}
