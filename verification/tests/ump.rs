use para_router::configuration::HostConfiguration;
use para_router::primitives::ParaId;
use para_router::router::{Module, SessionChangeNotification, Trait};
use para_router::weights::RuntimeDbWeight;
use para_router::xcm::Xcm;

fn ump_config() -> HostConfiguration {
    HostConfiguration {
        max_upward_message_num_per_candidate: 3,
        max_upward_queue_count: 4,
        max_upward_queue_size: 10,
        preferred_dispatchable_upward_messages_step_weight: 1000,
        dispatchable_upward_message_critical_weight: 100,
        ..Default::default()
    }
}

/// A host in which a read costs 2 and a write costs 3.
struct MeteredHost;

impl Trait for MeteredHost {
    fn db_weight() -> RuntimeDbWeight {
        RuntimeDbWeight { read: 2, write: 3 }
    }
}

/// A host in which storage access is as dear as can be.
struct DearHost;

impl Trait for DearHost {
    fn db_weight() -> RuntimeDbWeight {
        RuntimeDbWeight { read: u64::MAX, write: 1 }
    }
}

#[test]
fn candidate_may_not_send_more_messages_than_allowed() {
    let a = ParaId::from(1);
    let router: Module<()> = Module::new();
    let config = ump_config();
    assert!(router.check_upward_messages(&config, a, &[]));
    assert!(router.check_upward_messages(&config, a, &[vec![1], vec![2], vec![3]]));
    assert!(!router.check_upward_messages(&config, a, &[vec![1], vec![2], vec![3], vec![4]]));
}

#[test]
fn queue_count_exactly_at_the_limit_is_accepted() {
    let a = ParaId::from(1);
    let mut router: Module<()> = Module::new();
    let config = ump_config();
    router.enact_upward_messages(a, &[vec![1], vec![2]]);
    assert_eq!(router.relay_dispatch_queue_size(a), (2, 2));
    // two more land exactly on the limit of four
    assert!(router.check_upward_messages(&config, a, &[vec![3], vec![4]]));
    // three more are one too many
    assert!(!router.check_upward_messages(&config, a, &[vec![3], vec![4], vec![5]]));
    router.enact_upward_messages(a, &[vec![3], vec![4]]);
    assert_eq!(router.relay_dispatch_queue_size(a), (4, 4));
    assert!(!router.check_upward_messages(&config, a, &[vec![5]]));
    assert!(router.check_upward_messages(&config, a, &[]));
}

#[test]
fn queue_size_exactly_at_the_limit_is_accepted() {
    let a = ParaId::from(1);
    let mut router: Module<()> = Module::new();
    let config = ump_config();
    router.enact_upward_messages(a, &[vec![0; 6]]);
    assert!(router.check_upward_messages(&config, a, &[vec![0; 4]]));
    assert!(router.check_upward_messages(&config, a, &[vec![0; 3], vec![0; 1]]));
    assert!(!router.check_upward_messages(&config, a, &[vec![0; 5]]));
    assert!(!router.check_upward_messages(&config, a, &[vec![0; 4], vec![0; 1]]));
    // another para has its own queue
    assert!(router.check_upward_messages(&config, ParaId::from(2), &[vec![0; 10]]));
    assert!(!router.check_upward_messages(&config, ParaId::from(2), &[vec![0; 11]]));
}

#[test]
fn enacting_keeps_sizes_and_dispatch_list() {
    let a = ParaId::from(30);
    let b = ParaId::from(10);
    let c = ParaId::from(20);
    let mut router: Module<()> = Module::new();
    router.enact_upward_messages(a, &[vec![1, 2, 3]]);
    router.enact_upward_messages(b, &[vec![], vec![4]]);
    router.enact_upward_messages(c, &[]);
    router.enact_upward_messages(a, &[vec![5, 6]]);
    assert_eq!(router.relay_dispatch_queue_size(a), (2, 5));
    assert_eq!(router.relay_dispatch_queue_size(b), (2, 1));
    assert_eq!(router.relay_dispatch_queue_size(c), (0, 0));
    assert_eq!(router.needs_dispatch(), &vec![b, a]);
    assert_eq!(router.next_dispatch_round_start_with(), None);
}

#[test]
fn enacting_costs_three_reads_and_three_writes() {
    let a = ParaId::from(1);
    let mut free: Module<()> = Module::new();
    assert_eq!(free.enact_upward_messages(a, &[vec![1]]), 0);

    let mut metered: Module<MeteredHost> = Module::new();
    assert_eq!(metered.enact_upward_messages(a, &[]), 0);
    assert_eq!(metered.enact_upward_messages(a, &[vec![1]]), 15);
    assert_eq!(metered.prune_dmq(a, 0), 5);

    let mut dear: Module<DearHost> = Module::new();
    assert_eq!(dear.enact_upward_messages(a, &[vec![1]]), u64::MAX);
    assert_eq!(dear.prune_dmq(a, 0), u64::MAX);
}

#[test]
fn dispatcher_without_work_changes_nothing() {
    let a = ParaId::from(1);
    let mut router: Module<()> = Module::new();
    router.process_pending_upward_messages(&ump_config());
    assert!(router.needs_dispatch().is_empty());
    assert_eq!(router.next_dispatch_round_start_with(), None);
    assert_eq!(router.relay_dispatch_queue_size(a), (0, 0));
    router.process_pending_upward_messages(&HostConfiguration::default());
    assert!(router.needs_dispatch().is_empty());
    assert_eq!(router.next_dispatch_round_start_with(), None);
}

#[test]
fn dispatcher_with_budget_serves_every_para() {
    let a = ParaId::from(1);
    let b = ParaId::from(2);
    let c = ParaId::from(3);
    let mut router: Module<()> = Module::new();
    router.enact_upward_messages(a, &[vec![1], vec![2], vec![3]]);
    router.enact_upward_messages(b, &[vec![4]]);
    router.enact_upward_messages(c, &[vec![5], vec![6]]);
    router.process_pending_upward_messages(&ump_config());
    assert!(router.needs_dispatch().is_empty());
    assert_eq!(router.next_dispatch_round_start_with(), None);
    assert_eq!(router.relay_dispatch_queue_size(a), (0, 0));
    assert_eq!(router.relay_dispatch_queue_size(b), (0, 0));
    assert_eq!(router.relay_dispatch_queue_size(c), (0, 0));
    // the queues can be filled again up to the limits
    assert!(router.check_upward_messages(&ump_config(), a, &[vec![0; 10]]));
}

#[test]
fn dispatcher_without_budget_only_moves_the_cursor() {
    let a = ParaId::from(1);
    let b = ParaId::from(2);
    let c = ParaId::from(3);
    let config = HostConfiguration {
        preferred_dispatchable_upward_messages_step_weight: 0,
        ..ump_config()
    };
    let mut router: Module<()> = Module::new();
    router.enact_upward_messages(a, &[vec![1]]);
    router.enact_upward_messages(b, &[vec![2]]);
    router.enact_upward_messages(c, &[vec![3]]);
    router.process_pending_upward_messages(&config);
    assert_eq!(router.next_dispatch_round_start_with(), Some(b));
    router.process_pending_upward_messages(&config);
    assert_eq!(router.next_dispatch_round_start_with(), Some(c));
    router.process_pending_upward_messages(&config);
    assert_eq!(router.next_dispatch_round_start_with(), Some(a));
    assert_eq!(router.needs_dispatch(), &vec![a, b, c]);
    assert_eq!(router.relay_dispatch_queue_size(a), (1, 1));
    assert_eq!(router.relay_dispatch_queue_size(b), (1, 1));
    assert_eq!(router.relay_dispatch_queue_size(c), (1, 1));
}

#[test]
fn cleanup_clears_the_cursor_that_names_the_para() {
    let a = ParaId::from(1);
    let b = ParaId::from(2);
    let config = HostConfiguration {
        preferred_dispatchable_upward_messages_step_weight: 0,
        ..ump_config()
    };
    let mut router: Module<()> = Module::new();
    router.enact_upward_messages(a, &[vec![1]]);
    router.enact_upward_messages(b, &[vec![2, 3]]);
    router.process_pending_upward_messages(&config);
    assert_eq!(router.next_dispatch_round_start_with(), Some(b));

    router.schedule_para_cleanup(a);
    router.initializer_on_new_session(&SessionChangeNotification::default());
    assert_eq!(router.next_dispatch_round_start_with(), Some(b));
    assert_eq!(router.needs_dispatch(), &vec![b]);
    assert_eq!(router.relay_dispatch_queue_size(a), (0, 0));
    assert_eq!(router.relay_dispatch_queue_size(b), (1, 2));

    router.schedule_para_cleanup(b);
    router.initializer_on_new_session(&SessionChangeNotification::default());
    assert_eq!(router.next_dispatch_round_start_with(), None);
    assert!(router.needs_dispatch().is_empty());
    assert_eq!(router.relay_dispatch_queue_size(b), (0, 0));
    assert!(router.outgoing_paras().is_empty());
}

#[test]
fn no_upward_message_decodes() {
    assert!(Xcm::decode(&[]).is_none());
    assert!(Xcm::decode(&[0]).is_none());
    assert!(Xcm::decode(&[1, 2, 3]).is_none());
}
