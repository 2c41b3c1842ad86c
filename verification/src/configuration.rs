//! The options of the host that bound the router's work.

use vstd::prelude::*;
use crate::primitives::{Balance, SessionIndex, Weight};

verus! {

/// The configuration that the host hands to the router.
#[derive(Clone, Copy, Debug)]
pub struct HostConfiguration {
    /// The largest encoded size that a downward message may have.
    pub critical_downward_message_size: u32,
    /// The number of upward messages that one candidate may send.
    pub max_upward_message_num_per_candidate: u32,
    /// The number of messages that the upward queue of one para may hold.
    pub max_upward_queue_count: u32,
    /// The number of payload bytes that the upward queue of one para may hold.
    pub max_upward_queue_size: u32,
    /// The weight at which the dispatcher stops for the block. The budget is
    /// soft: the message that reaches it is still dispatched in full.
    pub preferred_dispatchable_upward_messages_step_weight: Weight,
    /// The largest weight that one upward message may be estimated at;
    /// heavier messages are dropped.
    pub dispatchable_upward_message_critical_weight: Weight,
    /// The number of sessions after which a pending request to open a
    /// channel is dropped.
    pub hrmp_open_request_ttl: SessionIndex,
    /// The deposit that the sender of a channel puts down.
    pub hrmp_sender_deposit: Balance,
    /// The deposit that the recipient of a channel puts down.
    pub hrmp_recipient_deposit: Balance,
    /// The number of channels that may lead to one para.
    pub hrmp_max_parachain_inbound_channels: u32,
    /// The number of channels that may lead from one para.
    pub hrmp_max_parachain_outbound_channels: u32,
    /// The largest number of messages that a channel may be opened for.
    pub hrmp_channel_max_places: u32,
    /// The largest number of payload bytes that a channel may be opened for.
    pub hrmp_channel_max_bytes: u32,
    /// The largest message size that a channel may be opened for.
    pub hrmp_channel_max_message_size: u32,
}

impl HostConfiguration {
    /// The configuration in which every option is zero.
    pub open spec fn zero() -> HostConfiguration {
        HostConfiguration {
            critical_downward_message_size: 0,
            max_upward_message_num_per_candidate: 0,
            max_upward_queue_count: 0,
            max_upward_queue_size: 0,
            preferred_dispatchable_upward_messages_step_weight: 0,
            dispatchable_upward_message_critical_weight: 0,
            hrmp_open_request_ttl: 0,
            hrmp_sender_deposit: 0,
            hrmp_recipient_deposit: 0,
            hrmp_max_parachain_inbound_channels: 0,
            hrmp_max_parachain_outbound_channels: 0,
            hrmp_channel_max_places: 0,
            hrmp_channel_max_bytes: 0,
            hrmp_channel_max_message_size: 0,
        }
    }
}

impl Default for HostConfiguration {
    fn default() -> (config: HostConfiguration)
        ensures
            config == HostConfiguration::zero(),
    {
        HostConfiguration {
            critical_downward_message_size: 0,
            max_upward_message_num_per_candidate: 0,
            max_upward_queue_count: 0,
            max_upward_queue_size: 0,
            preferred_dispatchable_upward_messages_step_weight: 0,
            dispatchable_upward_message_critical_weight: 0,
            hrmp_open_request_ttl: 0,
            hrmp_sender_deposit: 0,
            hrmp_recipient_deposit: 0,
            hrmp_max_parachain_inbound_channels: 0,
            hrmp_max_parachain_outbound_channels: 0,
            hrmp_channel_max_places: 0,
            hrmp_channel_max_bytes: 0,
            hrmp_channel_max_message_size: 0,
        }
    }
}

} // verus!
