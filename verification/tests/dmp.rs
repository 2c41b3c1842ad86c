use para_router::configuration::HostConfiguration;
use para_router::error::Error;
use para_router::primitives::ParaId;
use para_router::router::{Module, SessionChangeNotification};

fn config_with_critical_size(size: u32) -> HostConfiguration {
    HostConfiguration { critical_downward_message_size: size, ..Default::default() }
}

#[test]
fn message_of_exactly_the_critical_size_is_accepted() {
    let a = ParaId::from(1);
    let mut router: Module<()> = Module::new();
    // three bytes encode to four
    assert_eq!(router.queue_downward_message(&config_with_critical_size(4), a, vec![0; 3], 1), Ok(()));
    assert_eq!(
        router.queue_downward_message(&config_with_critical_size(3), a, vec![0; 3], 1),
        Err(Error::DownwardMessageTooLarge)
    );
    assert_eq!(router.dmq_length(a), 1);
}

#[test]
fn encoded_size_counts_the_length_prefix() {
    let a = ParaId::from(1);
    let mut router: Module<()> = Module::new();
    // up to 63 bytes the prefix takes one byte
    assert!(router.queue_downward_message(&config_with_critical_size(64), a, vec![0; 63], 1).is_ok());
    // from 64 bytes on it takes two
    assert!(router.queue_downward_message(&config_with_critical_size(65), a, vec![0; 64], 1).is_err());
    assert!(router.queue_downward_message(&config_with_critical_size(66), a, vec![0; 64], 1).is_ok());
    assert!(router.queue_downward_message(&config_with_critical_size(16385), a, vec![0; 16383], 1).is_ok());
    // from 16384 bytes on it takes four
    assert!(router.queue_downward_message(&config_with_critical_size(16387), a, vec![0; 16384], 1).is_err());
    assert!(router.queue_downward_message(&config_with_critical_size(16388), a, vec![0; 16384], 1).is_ok());
    assert_eq!(router.dmq_length(a), 4);
}

#[test]
fn empty_message_needs_one_byte() {
    let a = ParaId::from(1);
    let mut router: Module<()> = Module::new();
    assert!(router.queue_downward_message(&config_with_critical_size(0), a, vec![], 1).is_err());
    assert_eq!(router.dmq_length(a), 0);
    assert!(router.dmq_mqc_head(a).is_none());
    assert!(router.queue_downward_message(&config_with_critical_size(1), a, vec![], 1).is_ok());
    assert_eq!(router.dmq_length(a), 1);
}

#[test]
fn pruning_more_than_waits_clears_the_queue() {
    let a = ParaId::from(1);
    let b = ParaId::from(2);
    let config = config_with_critical_size(100);
    let mut router: Module<()> = Module::new();
    router.queue_downward_message(&config, a, vec![1], 1).unwrap();
    router.queue_downward_message(&config, a, vec![2], 1).unwrap();
    router.queue_downward_message(&config, b, vec![3], 1).unwrap();
    router.prune_dmq(a, 5);
    assert_eq!(router.dmq_length(a), 0);
    assert_eq!(router.dmq_length(b), 1);
    assert!(router.dmq_mqc_head(a).is_some());
    // pruning a para without queue does nothing
    router.prune_dmq(ParaId::from(3), 1);
    assert_eq!(router.dmq_length(ParaId::from(3)), 0);
}

#[test]
fn pruning_what_the_check_allows_shortens_by_that_number() {
    let a = ParaId::from(1);
    let config = config_with_critical_size(100);
    for n in 1..=4u32 {
        let mut router: Module<()> = Module::new();
        for i in 0..4u8 {
            router.queue_downward_message(&config, a, vec![i], 1).unwrap();
        }
        assert!(router.check_processed_downward_messages(a, n));
        router.prune_dmq(a, n);
        assert_eq!(router.dmq_length(a), 4 - n);
    }
}

#[test]
fn pruning_costs_one_read_and_one_write_in_a_free_host() {
    let mut router: Module<()> = Module::new();
    assert_eq!(router.prune_dmq(ParaId::from(1), 0), 0);
}

#[test]
fn cleanup_removes_the_chain_head() {
    let a = ParaId::from(1);
    let config = config_with_critical_size(100);
    let mut router: Module<()> = Module::new();
    router.queue_downward_message(&config, a, vec![1], 1).unwrap();
    router.schedule_para_cleanup(a);
    router.initializer_on_new_session(&SessionChangeNotification::default());
    assert_eq!(router.dmq_length(a), 0);
    assert!(router.dmq_mqc_head(a).is_none());
    assert!(router.check_processed_downward_messages(a, 0));
}

#[test]
fn scheduling_twice_is_scheduling_once() {
    let mut router: Module<()> = Module::new();
    router.schedule_para_cleanup(ParaId::from(5));
    router.schedule_para_cleanup(ParaId::from(3));
    router.schedule_para_cleanup(ParaId::from(9));
    let once = router.outgoing_paras().clone();
    router.schedule_para_cleanup(ParaId::from(5));
    router.schedule_para_cleanup(ParaId::from(3));
    assert_eq!(router.outgoing_paras(), &once);
    assert_eq!(once, vec![ParaId::from(3), ParaId::from(5), ParaId::from(9)]);
}

#[test]
fn block_hooks_change_nothing() {
    let a = ParaId::from(1);
    let config = config_with_critical_size(100);
    let mut router: Module<()> = Module::new();
    router.queue_downward_message(&config, a, vec![1], 1).unwrap();
    let head = router.dmq_mqc_head(a);
    assert_eq!(router.initializer_initialize(2), 0);
    router.initializer_finalize();
    assert_eq!(router.dmq_length(a), 1);
    assert_eq!(router.dmq_mqc_head(a), head);
}
