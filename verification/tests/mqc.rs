use parity_scale_codec::Encode;
use para_router::configuration::HostConfiguration;
use para_router::mqc;
use para_router::primitives::{ParaId, H256};
use para_router::router::Module;
use sp_runtime::traits::BlakeTwo256;

fn expected_head(prev: [u8; 32], block: u32, msg: &Vec<u8>) -> H256 {
    let msg_hash = <BlakeTwo256 as sp_runtime::traits::Hash>::hash_of(msg);
    <BlakeTwo256 as sp_runtime::traits::Hash>::hash_of(&(sp_core::H256(prev), block, msg_hash)).0
}

#[test]
fn first_link_starts_from_zero_head() {
    let msg = vec![1u8, 2, 3];
    let head = mqc::append(&None, 1, &msg);
    assert_eq!(head, expected_head([0u8; 32], 1, &msg));
    assert_ne!(head, [0u8; 32]);
}

#[test]
fn link_is_hash_of_previous_head_block_and_message_hash() {
    let prev = [7u8; 32];
    let msg = vec![9u8; 70];
    let head = mqc::append(&Some(prev), 0x0102_0304, &msg);

    let mut encoded_msg = vec![0x19u8, 0x01];
    encoded_msg.extend_from_slice(&msg);
    assert_eq!(msg.encode(), encoded_msg);
    let msg_hash = sp_crypto_hash(&encoded_msg);

    let mut link = Vec::new();
    link.extend_from_slice(&prev);
    link.extend_from_slice(&[0x04, 0x03, 0x02, 0x01]);
    link.extend_from_slice(&msg_hash);
    assert_eq!(head, sp_crypto_hash(&link));
}

fn sp_crypto_hash(data: &[u8]) -> [u8; 32] {
    <BlakeTwo256 as sp_runtime::traits::Hash>::hash(data).0
}

#[test]
fn head_depends_on_block_message_and_previous_head() {
    let msg = vec![1u8, 2, 3];
    let a = mqc::append(&None, 1, &msg);
    assert_ne!(a, mqc::append(&None, 2, &msg));
    assert_ne!(a, mqc::append(&None, 1, &vec![1u8, 2, 4]));
    assert_ne!(a, mqc::append(&Some(a), 1, &msg));
}

#[test]
fn same_links_from_same_head_give_same_head() {
    let links: Vec<(u32, Vec<u8>)> = vec![(1, vec![1]), (1, vec![]), (5, vec![2, 3]), (9, vec![0; 100])];
    let mut first = None;
    let mut second = None;
    for (block, msg) in links.iter() {
        first = Some(mqc::append(&first, *block, msg));
    }
    for (block, msg) in links.iter() {
        second = Some(mqc::append(&second, *block, msg));
    }
    assert_eq!(first, second);

    // resuming from a head reached on the way gives the same final head
    let mut prefix = None;
    for (block, msg) in links[..2].iter() {
        prefix = Some(mqc::append(&prefix, *block, msg));
    }
    let mut resumed = prefix;
    for (block, msg) in links[2..].iter() {
        resumed = Some(mqc::append(&resumed, *block, msg));
    }
    assert_eq!(first, resumed);
}

#[test]
fn downward_queue_head_follows_the_chain() {
    let a = ParaId::from(1312);
    let config = HostConfiguration { critical_downward_message_size: 1024, ..Default::default() };
    let mut router: Module<()> = Module::new();
    router.queue_downward_message(&config, a, vec![1, 2, 3], 4).unwrap();
    let first = expected_head([0u8; 32], 4, &vec![1, 2, 3]);
    assert_eq!(router.dmq_mqc_head(a), Some(first));
    router.queue_downward_message(&config, a, vec![4, 5], 6).unwrap();
    let second = expected_head(first, 6, &vec![4, 5]);
    assert_eq!(router.dmq_mqc_head(a), Some(second));

    // pruning leaves the head alone
    router.prune_dmq(a, 2);
    assert_eq!(router.dmq_length(a), 0);
    assert_eq!(router.dmq_mqc_head(a), Some(second));
}

#[test]
fn long_message_is_hashed_with_a_four_byte_prefix() {
    let msg = vec![5u8; 16384];
    let head = mqc::append(&None, 3, &msg);

    // 16384 * 4 + 2, least significant byte first
    let mut encoded_msg = vec![0x02u8, 0x00, 0x01, 0x00];
    encoded_msg.extend_from_slice(&msg);
    let msg_hash = sp_crypto_hash(&encoded_msg);

    let mut link = vec![0u8; 32];
    link.extend_from_slice(&[3, 0, 0, 0]);
    link.extend_from_slice(&msg_hash);
    assert_eq!(head, sp_crypto_hash(&link));
}

#[test]
fn short_message_is_hashed_with_a_one_byte_prefix() {
    let msg = vec![5u8; 63];
    let head = mqc::append(&None, 0, &msg);

    let mut encoded_msg = vec![63u8 * 4];
    encoded_msg.extend_from_slice(&msg);
    let msg_hash = sp_crypto_hash(&encoded_msg);

    let mut link = vec![0u8; 32];
    link.extend_from_slice(&[0, 0, 0, 0]);
    link.extend_from_slice(&msg_hash);
    assert_eq!(head, sp_crypto_hash(&link));
}
