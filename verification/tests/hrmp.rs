use para_router::configuration::HostConfiguration;
use para_router::error::Error;
use para_router::hrmp::ProposedLimits;
use para_router::mqc;
use para_router::primitives::{HrmpChannelId, ParaId};
use para_router::router::{Module, SessionChangeNotification};

type Router = Module<()>;

fn hrmp_config() -> HostConfiguration {
    HostConfiguration {
        hrmp_open_request_ttl: 3,
        hrmp_sender_deposit: 100,
        hrmp_recipient_deposit: 50,
        hrmp_max_parachain_inbound_channels: 2,
        hrmp_max_parachain_outbound_channels: 2,
        hrmp_channel_max_places: 4,
        hrmp_channel_max_bytes: 16,
        hrmp_channel_max_message_size: 8,
        ..Default::default()
    }
}

fn limits(places: u32, bytes: u32, size: u32) -> ProposedLimits {
    ProposedLimits { limit_used_places: places, limit_used_bytes: bytes, limit_message_size: size }
}

fn session_end(router: &mut Router) {
    let notification = SessionChangeNotification {
        prev_config: hrmp_config(),
        new_config: hrmp_config(),
        session_index: 1,
    };
    router.initializer_on_new_session(&notification);
}

/// A router with an open channel from `sender` to `recipient`.
fn with_channel(sender: ParaId, recipient: ParaId, proposed: ProposedLimits) -> Router {
    let mut router = Router::new();
    router.hrmp_init_open_channel(&hrmp_config(), sender, recipient, proposed, 100).unwrap();
    router.hrmp_accept_open_channel(&hrmp_config(), recipient, sender, 50).unwrap();
    session_end(&mut router);
    router
}

#[test]
fn request_is_recorded_unconfirmed_and_counted() {
    let a = ParaId::from(1);
    let b = ParaId::from(2);
    let mut router = Router::new();
    assert_eq!(router.hrmp_init_open_channel(&hrmp_config(), a, b, limits(4, 16, 8), 100), Ok(()));
    let request = router.hrmp().open_request(a, b).unwrap();
    assert!(!request.confirmed);
    assert_eq!(request.age, 0);
    assert_eq!(request.sender_deposit, 100);
    assert_eq!(request.limit_used_places, 4);
    assert_eq!(request.limit_used_bytes, 16);
    assert_eq!(request.limit_message_size, 8);
    assert_eq!(router.hrmp().open_request_count(a), 1);
    assert_eq!(router.hrmp().open_request_count(b), 0);
    assert_eq!(router.hrmp().accepted_request_count(b), 0);
    assert!(router.hrmp().channel(a, b).is_none());
    assert!(router.hrmp().open_request(b, a).is_none());
}

#[test]
fn request_is_refused_for_each_reason() {
    let a = ParaId::from(1);
    let b = ParaId::from(2);
    let c = ParaId::from(3);
    let d = ParaId::from(4);
    let config = hrmp_config();
    let refused = Err(Error::HrmpOpenRequestInvalid);

    // limits above those of the configuration
    let mut router = Router::new();
    assert_eq!(router.hrmp_init_open_channel(&config, a, b, limits(5, 16, 8), 1), refused);
    assert_eq!(router.hrmp_init_open_channel(&config, a, b, limits(4, 17, 8), 1), refused);
    assert_eq!(router.hrmp_init_open_channel(&config, a, b, limits(4, 16, 9), 1), refused);
    assert_eq!(router.hrmp().open_request_count(a), 0);

    // asked for already
    assert_eq!(router.hrmp_init_open_channel(&config, a, b, limits(4, 16, 8), 1), Ok(()));
    assert_eq!(router.hrmp_init_open_channel(&config, a, b, limits(1, 1, 1), 1), refused);
    assert_eq!(router.hrmp().open_request_count(a), 1);

    // as many requests pending as the sender may have
    assert_eq!(router.hrmp_init_open_channel(&config, a, c, limits(0, 0, 0), 1), Ok(()));
    assert_eq!(router.hrmp_init_open_channel(&config, a, d, limits(1, 1, 1), 1), refused);
    assert_eq!(router.hrmp().open_request_count(a), 2);
    // another sender is free to ask
    assert_eq!(router.hrmp_init_open_channel(&config, b, a, limits(1, 1, 1), 1), Ok(()));

    // open already
    let mut router = with_channel(a, b, limits(4, 16, 8));
    assert_eq!(router.hrmp_init_open_channel(&config, a, b, limits(1, 1, 1), 1), refused);
    assert_eq!(router.hrmp_init_open_channel(&config, b, a, limits(1, 1, 1), 1), Ok(()));
}

#[test]
fn confirmation_is_recorded_and_counted() {
    let a = ParaId::from(1);
    let b = ParaId::from(2);
    let config = hrmp_config();
    let mut router = Router::new();
    router.hrmp_init_open_channel(&config, a, b, limits(4, 16, 8), 100).unwrap();
    assert_eq!(router.hrmp_accept_open_channel(&config, b, a, 50), Ok(()));
    let request = router.hrmp().open_request(a, b).unwrap();
    assert!(request.confirmed);
    assert_eq!(request.recipient_deposit, 50);
    assert_eq!(request.sender_deposit, 100);
    assert_eq!(router.hrmp().accepted_request_count(b), 1);
    assert_eq!(router.hrmp().accepted_request_count(a), 0);
    assert_eq!(router.hrmp().open_request_count(a), 1);
}

#[test]
fn confirmation_is_refused_for_each_reason() {
    let a = ParaId::from(1);
    let b = ParaId::from(2);
    let c = ParaId::from(3);
    let d = ParaId::from(4);
    let config = hrmp_config();
    let refused = Err(Error::HrmpAcceptInvalid);
    let mut router = Router::new();

    // no request
    assert_eq!(router.hrmp_accept_open_channel(&config, b, a, 50), refused);
    router.hrmp_init_open_channel(&config, a, b, limits(4, 16, 8), 100).unwrap();
    // the request is for the other direction
    assert_eq!(router.hrmp_accept_open_channel(&config, a, b, 50), refused);
    assert_eq!(router.hrmp_accept_open_channel(&config, b, a, 50), Ok(()));
    // confirmed already
    assert_eq!(router.hrmp_accept_open_channel(&config, b, a, 60), refused);
    assert_eq!(router.hrmp().open_request(a, b).unwrap().recipient_deposit, 50);
    assert_eq!(router.hrmp().accepted_request_count(b), 1);

    // as many confirmations as the recipient may have
    router.hrmp_init_open_channel(&config, c, b, limits(1, 1, 1), 100).unwrap();
    router.hrmp_init_open_channel(&config, d, b, limits(1, 1, 1), 100).unwrap();
    assert_eq!(router.hrmp_accept_open_channel(&config, b, c, 50), Ok(()));
    assert_eq!(router.hrmp_accept_open_channel(&config, b, d, 50), refused);
    assert_eq!(router.hrmp().accepted_request_count(b), 2);
    assert!(!router.hrmp().open_request(d, b).unwrap().confirmed);
}

#[test]
fn confirmed_request_becomes_a_channel_when_the_session_ends() {
    let a = ParaId::from(7);
    let b = ParaId::from(3);
    let c = ParaId::from(5);
    let config = hrmp_config();
    let mut router = Router::new();
    router.hrmp_init_open_channel(&config, a, b, limits(4, 16, 8), 100).unwrap();
    router.hrmp_init_open_channel(&config, c, b, limits(2, 3, 1), 10).unwrap();
    router.hrmp_init_open_channel(&config, a, c, limits(1, 1, 1), 1).unwrap();
    router.hrmp_accept_open_channel(&config, b, a, 50).unwrap();
    router.hrmp_accept_open_channel(&config, b, c, 5).unwrap();
    session_end(&mut router);

    let channel = router.hrmp().channel(a, b).unwrap();
    assert_eq!(channel.sender_deposit, 100);
    assert_eq!(channel.recipient_deposit, 50);
    assert_eq!(channel.limit_used_places, 4);
    assert_eq!(channel.limit_used_bytes, 16);
    assert_eq!(channel.limit_message_size, 8);
    assert_eq!(channel.used_places, 0);
    assert_eq!(channel.used_bytes, 0);
    assert_eq!(channel.mqc_head, None);
    let channel = router.hrmp().channel(c, b).unwrap();
    assert_eq!(channel.sender_deposit, 10);
    assert_eq!(channel.recipient_deposit, 5);
    assert_eq!(channel.limit_used_places, 2);

    // the indexes list the channels, ascending
    assert_eq!(router.hrmp().ingress_channels(b), vec![c, a]);
    assert_eq!(router.hrmp().egress_channels(a), vec![b]);
    assert_eq!(router.hrmp().egress_channels(c), vec![b]);
    assert!(router.hrmp().ingress_channels(a).is_empty());
    assert!(router.hrmp().egress_channels(b).is_empty());

    // the requests are gone and the counters are down
    assert!(router.hrmp().open_request(a, b).is_none());
    assert!(router.hrmp().open_request(c, b).is_none());
    assert_eq!(router.hrmp().accepted_request_count(b), 0);
    assert_eq!(router.hrmp().open_request_count(c), 0);

    // the unconfirmed request stays and has aged
    assert!(router.hrmp().channel(a, c).is_none());
    let request = router.hrmp().open_request(a, c).unwrap();
    assert_eq!(request.age, 1);
    assert!(!request.confirmed);
    assert_eq!(router.hrmp().open_request_count(a), 1);
}

#[test]
fn request_is_dropped_when_it_reaches_its_time_to_live() {
    let a = ParaId::from(1);
    let b = ParaId::from(2);
    let config = hrmp_config();
    let mut router = Router::new();
    router.hrmp_init_open_channel(&config, a, b, limits(4, 16, 8), 100).unwrap();
    session_end(&mut router);
    assert_eq!(router.hrmp().open_request(a, b).unwrap().age, 1);
    session_end(&mut router);
    assert_eq!(router.hrmp().open_request(a, b).unwrap().age, 2);
    assert_eq!(router.hrmp().open_request_count(a), 1);
    // the third session end brings the age to the time to live
    session_end(&mut router);
    assert!(router.hrmp().open_request(a, b).is_none());
    assert_eq!(router.hrmp().open_request_count(a), 0);
    assert!(router.hrmp().channel(a, b).is_none());
    // the channel can be asked for again
    assert_eq!(router.hrmp_init_open_channel(&config, a, b, limits(4, 16, 8), 100), Ok(()));
}

#[test]
fn confirmed_request_at_its_time_to_live_is_dropped_too() {
    let a = ParaId::from(1);
    let b = ParaId::from(2);
    let config = hrmp_config();
    let mut router = Router::new();
    router.hrmp_init_open_channel(&config, a, b, limits(4, 16, 8), 100).unwrap();
    session_end(&mut router);
    session_end(&mut router);
    router.hrmp_accept_open_channel(&config, b, a, 50).unwrap();
    assert_eq!(router.hrmp().accepted_request_count(b), 1);
    session_end(&mut router);
    assert!(router.hrmp().open_request(a, b).is_none());
    assert!(router.hrmp().channel(a, b).is_none());
    assert_eq!(router.hrmp().accepted_request_count(b), 0);
    assert_eq!(router.hrmp().open_request_count(a), 0);
}

#[test]
fn default_notification_drops_every_request() {
    let a = ParaId::from(1);
    let b = ParaId::from(2);
    let config = hrmp_config();
    let mut router = Router::new();
    router.hrmp_init_open_channel(&config, a, b, limits(4, 16, 8), 100).unwrap();
    router.hrmp_accept_open_channel(&config, b, a, 50).unwrap();
    // a time to live of zero leaves no request alive
    router.initializer_on_new_session(&SessionChangeNotification::default());
    assert!(router.hrmp().open_request(a, b).is_none());
    assert!(router.hrmp().channel(a, b).is_none());
}

#[test]
fn message_is_stored_counted_and_chained() {
    let a = ParaId::from(1);
    let b = ParaId::from(2);
    let mut router = with_channel(a, b, limits(4, 16, 8));
    assert_eq!(router.check_outbound_hrmp(a, b, &[1, 2, 3]), Ok(()));
    assert_eq!(router.queue_outbound_hrmp(a, b, vec![1, 2, 3], 5), Ok(()));
    let channel = router.hrmp().channel(a, b).unwrap();
    assert_eq!(channel.used_places, 1);
    assert_eq!(channel.used_bytes, 3);
    let first = mqc::append(&None, 5, &vec![1, 2, 3]);
    assert_eq!(channel.mqc_head, Some(first));
    assert_eq!(router.hrmp().channel_pending(a, b), 1);

    assert_eq!(router.queue_outbound_hrmp(a, b, vec![4, 5], 6), Ok(()));
    let channel = router.hrmp().channel(a, b).unwrap();
    assert_eq!(channel.used_places, 2);
    assert_eq!(channel.used_bytes, 5);
    assert_eq!(channel.mqc_head, Some(mqc::append(&Some(first), 6, &vec![4, 5])));
    assert_eq!(router.hrmp().channel_pending(a, b), 2);
}

#[test]
fn message_is_refused_for_each_reason() {
    let a = ParaId::from(1);
    let b = ParaId::from(2);
    let refused = Err(Error::HrmpMessageRejected);

    // no channel, also not in the other direction
    let mut router = with_channel(a, b, limits(2, 5, 4));
    assert_eq!(router.check_outbound_hrmp(b, a, &[1]), refused);
    assert_eq!(router.queue_outbound_hrmp(b, a, vec![1], 1), refused);

    // larger than the channel allows: four bytes pass, five do not
    assert_eq!(router.check_outbound_hrmp(a, b, &[0; 5]), refused);
    assert_eq!(router.queue_outbound_hrmp(a, b, vec![0; 5], 1), refused);
    assert_eq!(router.queue_outbound_hrmp(a, b, vec![0; 4], 1), Ok(()));

    // no bytes left: one more byte lands on the limit, two do not
    assert_eq!(router.check_outbound_hrmp(a, b, &[0; 2]), refused);
    assert_eq!(router.queue_outbound_hrmp(a, b, vec![0; 2], 1), refused);
    assert_eq!(router.queue_outbound_hrmp(a, b, vec![0; 1], 1), Ok(()));

    // no place left
    assert_eq!(router.check_outbound_hrmp(a, b, &[]), refused);
    assert_eq!(router.queue_outbound_hrmp(a, b, vec![], 1), refused);
    let channel = router.hrmp().channel(a, b).unwrap();
    assert_eq!(channel.used_places, 2);
    assert_eq!(channel.used_bytes, 5);
    assert_eq!(router.hrmp().channel_pending(a, b), 2);
}

#[test]
fn watermark_must_land_on_a_block_with_a_message() {
    let a = ParaId::from(1);
    let b = ParaId::from(2);
    let refused = Err(Error::HrmpWatermarkInvalid);
    let mut router = with_channel(a, b, limits(4, 16, 8));

    // without messages any block up to the current one will do
    assert_eq!(router.check_hrmp_watermark(b, 10, 7), Ok(()));
    assert_eq!(router.check_hrmp_watermark(b, 10, 10), Ok(()));
    assert_eq!(router.check_hrmp_watermark(b, 10, 11), refused);

    router.queue_outbound_hrmp(a, b, vec![1], 5).unwrap();
    router.queue_outbound_hrmp(a, b, vec![2], 8).unwrap();
    // before the first message
    assert_eq!(router.check_hrmp_watermark(b, 10, 4), Ok(()));
    // on a block with a message
    assert_eq!(router.check_hrmp_watermark(b, 10, 5), Ok(()));
    assert_eq!(router.check_hrmp_watermark(b, 10, 8), Ok(()));
    // on a block without a message, with messages before it
    assert_eq!(router.check_hrmp_watermark(b, 10, 6), refused);
    assert_eq!(router.check_hrmp_watermark(b, 10, 9), refused);
    // on the current block: only where a message arrived in it
    assert_eq!(router.check_hrmp_watermark(b, 10, 10), refused);
    assert_eq!(router.check_hrmp_watermark(b, 8, 8), Ok(()));
    // beyond the current block
    assert_eq!(router.check_hrmp_watermark(b, 7, 8), refused);
    // the sender has no inbound activity
    assert_eq!(router.check_hrmp_watermark(a, 10, 10), Ok(()));
}

#[test]
fn watermark_does_not_go_back() {
    let a = ParaId::from(1);
    let b = ParaId::from(2);
    let refused = Err(Error::HrmpWatermarkInvalid);
    let mut router = with_channel(a, b, limits(4, 16, 8));
    router.queue_outbound_hrmp(a, b, vec![1], 5).unwrap();
    router.queue_outbound_hrmp(a, b, vec![2], 8).unwrap();
    assert_eq!(router.hrmp().watermark(b), None);
    assert_eq!(router.prune_hrmp(b, 10, 5), Ok(()));
    assert_eq!(router.hrmp().watermark(b), Some(5));
    assert_eq!(router.check_hrmp_watermark(b, 10, 4), refused);
    assert_eq!(router.prune_hrmp(b, 10, 4), refused);
    assert_eq!(router.hrmp().watermark(b), Some(5));
    // staying is allowed: nothing up to there is left
    assert_eq!(router.check_hrmp_watermark(b, 10, 5), Ok(()));
    assert_eq!(router.check_hrmp_watermark(b, 10, 7), Ok(()));
    assert_eq!(router.check_hrmp_watermark(b, 10, 8), Ok(()));
    assert_eq!(router.check_hrmp_watermark(b, 10, 9), refused);
}

#[test]
fn moving_the_watermark_drops_what_was_acknowledged() {
    let a = ParaId::from(1);
    let b = ParaId::from(2);
    let c = ParaId::from(3);
    let config = hrmp_config();
    let mut router = Router::new();
    router.hrmp_init_open_channel(&config, a, b, limits(4, 16, 8), 1).unwrap();
    router.hrmp_init_open_channel(&config, c, b, limits(4, 16, 8), 1).unwrap();
    router.hrmp_accept_open_channel(&config, b, a, 1).unwrap();
    router.hrmp_accept_open_channel(&config, b, c, 1).unwrap();
    session_end(&mut router);

    router.queue_outbound_hrmp(a, b, vec![1, 1], 5).unwrap();
    router.queue_outbound_hrmp(c, b, vec![2], 5).unwrap();
    router.queue_outbound_hrmp(a, b, vec![3, 3, 3], 6).unwrap();
    router.queue_outbound_hrmp(c, b, vec![4, 4, 4, 4], 8).unwrap();
    let head_before = router.hrmp().channel(a, b).unwrap().mqc_head;

    assert_eq!(router.prune_hrmp(b, 9, 6), Ok(()));
    let from_a = router.hrmp().channel(a, b).unwrap();
    assert_eq!(from_a.used_places, 0);
    assert_eq!(from_a.used_bytes, 0);
    assert_eq!(from_a.mqc_head, head_before);
    assert_eq!(router.hrmp().channel_pending(a, b), 0);
    let from_c = router.hrmp().channel(c, b).unwrap();
    assert_eq!(from_c.used_places, 1);
    assert_eq!(from_c.used_bytes, 4);
    assert_eq!(router.hrmp().channel_pending(c, b), 1);
    assert_eq!(router.hrmp().watermark(b), Some(6));

    // the digest has lost the blocks up to 6: 7 is free, 8 has a message
    assert_eq!(router.check_hrmp_watermark(b, 9, 7), Ok(()));
    assert_eq!(router.check_hrmp_watermark(b, 9, 8), Ok(()));
    assert_eq!(router.check_hrmp_watermark(b, 9, 9), Err(Error::HrmpWatermarkInvalid));
    // the places are free again
    assert_eq!(router.queue_outbound_hrmp(a, b, vec![0; 8], 9), Ok(()));
}

#[test]
fn channel_is_closed_when_the_session_ends() {
    let a = ParaId::from(1);
    let b = ParaId::from(2);
    let c = ParaId::from(3);
    let id = HrmpChannelId { sender: a, recipient: b };
    let mut router = with_channel(a, b, limits(4, 16, 8));
    router.queue_outbound_hrmp(a, b, vec![1], 5).unwrap();

    // a para that is no end of the channel cannot close it
    router.hrmp_close_channel(c, id);
    session_end(&mut router);
    assert!(router.hrmp().channel(a, b).is_some());

    // either end can, and asking twice is asking once
    router.hrmp_close_channel(b, id);
    router.hrmp_close_channel(a, id);
    assert!(router.hrmp().channel(a, b).is_some());
    assert_eq!(router.queue_outbound_hrmp(a, b, vec![2], 5), Ok(()));
    session_end(&mut router);
    assert!(router.hrmp().channel(a, b).is_none());
    assert_eq!(router.hrmp().channel_pending(a, b), 0);
    assert!(router.hrmp().ingress_channels(b).is_empty());
    assert!(router.hrmp().egress_channels(a).is_empty());
    assert_eq!(router.queue_outbound_hrmp(a, b, vec![2], 6), Err(Error::HrmpMessageRejected));
    // a closed channel can be asked for again
    assert_eq!(router.hrmp_init_open_channel(&hrmp_config(), a, b, limits(1, 1, 1), 1), Ok(()));
}

#[test]
fn cleanup_removes_every_trace_of_a_para() {
    let a = ParaId::from(1);
    let b = ParaId::from(2);
    let c = ParaId::from(3);
    let config = hrmp_config();
    let mut router = Router::new();
    router.hrmp_init_open_channel(&config, a, b, limits(4, 16, 8), 1).unwrap();
    router.hrmp_init_open_channel(&config, b, c, limits(4, 16, 8), 1).unwrap();
    router.hrmp_init_open_channel(&config, c, a, limits(4, 16, 8), 1).unwrap();
    router.hrmp_accept_open_channel(&config, b, a, 1).unwrap();
    router.hrmp_accept_open_channel(&config, c, b, 1).unwrap();
    router.hrmp_accept_open_channel(&config, a, c, 1).unwrap();
    session_end(&mut router);
    router.queue_outbound_hrmp(a, b, vec![1], 5).unwrap();
    router.queue_outbound_hrmp(b, c, vec![2], 5).unwrap();
    router.queue_outbound_hrmp(c, a, vec![3], 5).unwrap();
    router.prune_hrmp(b, 5, 5).unwrap();
    // pending requests that name b, one of them confirmed
    router.hrmp_init_open_channel(&config, b, a, limits(1, 1, 1), 1).unwrap();
    router.hrmp_init_open_channel(&config, c, b, limits(1, 1, 1), 1).unwrap();
    router.hrmp_init_open_channel(&config, a, c, limits(1, 1, 1), 1).unwrap();
    router.hrmp_accept_open_channel(&config, b, c, 1).unwrap();
    assert_eq!(router.hrmp().accepted_request_count(b), 1);

    router.schedule_para_cleanup(b);
    session_end(&mut router);

    assert!(router.hrmp().channel(a, b).is_none());
    assert!(router.hrmp().channel(b, c).is_none());
    assert_eq!(router.hrmp().channel_pending(a, b), 0);
    assert_eq!(router.hrmp().channel_pending(b, c), 0);
    assert!(router.hrmp().ingress_channels(b).is_empty());
    assert!(router.hrmp().egress_channels(b).is_empty());
    assert!(router.hrmp().egress_channels(a).is_empty());
    assert!(router.hrmp().ingress_channels(c).is_empty());
    assert!(router.hrmp().open_request(b, a).is_none());
    assert!(router.hrmp().open_request(c, b).is_none());
    assert_eq!(router.hrmp().open_request_count(b), 0);
    assert_eq!(router.hrmp().accepted_request_count(b), 0);
    assert_eq!(router.hrmp().open_request_count(c), 0);
    assert_eq!(router.hrmp().watermark(b), None);
    assert_eq!(router.check_hrmp_watermark(b, 9, 9), Ok(()));

    // what does not name b stays
    let kept = router.hrmp().channel(c, a).unwrap();
    assert_eq!(kept.used_places, 1);
    assert_eq!(router.hrmp().ingress_channels(a), vec![c]);
    assert_eq!(router.hrmp().egress_channels(c), vec![a]);
    assert_eq!(router.hrmp().open_request(a, c).unwrap().age, 1);
    assert_eq!(router.hrmp().open_request_count(a), 1);
    assert!(router.outgoing_paras().is_empty());
}

#[test]
fn senders_of_one_block_share_a_digest_entry() {
    let a = ParaId::from(9);
    let b = ParaId::from(2);
    let c = ParaId::from(3);
    let config = hrmp_config();
    let mut router = Router::new();
    router.hrmp_init_open_channel(&config, a, b, limits(4, 16, 8), 1).unwrap();
    router.hrmp_init_open_channel(&config, c, b, limits(4, 16, 8), 1).unwrap();
    router.hrmp_accept_open_channel(&config, b, a, 1).unwrap();
    router.hrmp_accept_open_channel(&config, b, c, 1).unwrap();
    session_end(&mut router);
    router.queue_outbound_hrmp(a, b, vec![1], 5).unwrap();
    router.queue_outbound_hrmp(c, b, vec![2], 5).unwrap();
    router.queue_outbound_hrmp(a, b, vec![3], 5).unwrap();
    // one block had messages: only that block can be acknowledged
    assert_eq!(router.check_hrmp_watermark(b, 6, 5), Ok(()));
    assert_eq!(router.check_hrmp_watermark(b, 6, 6), Err(Error::HrmpWatermarkInvalid));
    assert_eq!(router.prune_hrmp(b, 6, 5), Ok(()));
    assert_eq!(router.hrmp().channel_pending(a, b), 0);
    assert_eq!(router.hrmp().channel_pending(c, b), 0);
    assert_eq!(router.check_hrmp_watermark(b, 6, 6), Ok(()));
}
