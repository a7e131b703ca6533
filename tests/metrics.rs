use mempool_core::metrics::{
    on_network_message_received, on_network_message_sent, on_network_message_sent_all_target,
    on_network_message_sent_multi_target, parse_route, MessageDirection, MessageRoute,
    MessageTarget, NetworkMetrics,
};

fn route(t: &str, m: &str, a: &str) -> MessageRoute {
    MessageRoute { network_type: t.to_string(), module: m.to_string(), action: a.to_string() }
}

#[test]
fn parse_route_takes_second_to_fourth_pieces() {
    let r = parse_route("/gossip/mempool/new_txs").unwrap();
    assert_eq!(r.network_type, "gossip");
    assert_eq!(r.module, "mempool");
    assert_eq!(r.action, "new_txs");
}

#[test]
fn parse_route_ignores_pieces_after_the_fourth() {
    let r = parse_route("/rpc/consensus/pull/extra/more").unwrap();
    assert_eq!(r.network_type, "rpc");
    assert_eq!(r.module, "consensus");
    assert_eq!(r.action, "pull");
}

#[test]
fn parse_route_keeps_empty_pieces() {
    let r = parse_route("a//b/").unwrap();
    assert_eq!(r.network_type, "");
    assert_eq!(r.module, "b");
    assert_eq!(r.action, "");
}

#[test]
fn parse_route_needs_four_pieces() {
    assert!(parse_route("/gossip/mempool").is_none());
    assert!(parse_route("").is_none());
    assert!(parse_route("no-slashes").is_none());
}

#[test]
fn sent_message_is_counted_once() {
    let mut m = NetworkMetrics::new();
    on_network_message_sent(&mut m, "/gossip/mempool/new_txs");
    let r = route("gossip", "mempool", "new_txs");
    assert_eq!(m.total(MessageDirection::Sent, MessageTarget::Single, &r), 1);
    assert_eq!(m.total(MessageDirection::Received, MessageTarget::Single, &r), 0);
    on_network_message_sent(&mut m, "/gossip/mempool/new_txs");
    assert_eq!(m.total(MessageDirection::Sent, MessageTarget::Single, &r), 2);
}

#[test]
fn received_and_all_target_have_their_own_counters() {
    let mut m = NetworkMetrics::new();
    on_network_message_received(&mut m, "/rpc/sync/pull_blocks");
    on_network_message_sent_all_target(&mut m, "/rpc/sync/pull_blocks");
    on_network_message_sent_all_target(&mut m, "/rpc/sync/pull_blocks");
    let r = route("rpc", "sync", "pull_blocks");
    assert_eq!(m.total(MessageDirection::Received, MessageTarget::Single, &r), 1);
    assert_eq!(m.total(MessageDirection::Sent, MessageTarget::All, &r), 2);
    assert_eq!(m.total(MessageDirection::Sent, MessageTarget::Single, &r), 0);
}

#[test]
fn multi_target_counts_each_target() {
    let mut m = NetworkMetrics::new();
    on_network_message_sent_multi_target(&mut m, "/gossip/consensus/vote", 5);
    on_network_message_sent_multi_target(&mut m, "/gossip/consensus/vote", 3);
    let r = route("gossip", "consensus", "vote");
    assert_eq!(m.total(MessageDirection::Sent, MessageTarget::Multi, &r), 8);
}

#[test]
fn url_without_route_is_not_counted() {
    let mut m = NetworkMetrics::new();
    on_network_message_sent(&mut m, "/gossip/mempool");
    let r = route("gossip", "mempool", "");
    assert_eq!(m.total(MessageDirection::Sent, MessageTarget::Single, &r), 0);
}

#[test]
fn counter_saturates_at_max() {
    let mut m = NetworkMetrics::new();
    on_network_message_sent_multi_target(&mut m, "/a/b/c", u64::MAX - 1);
    on_network_message_sent_multi_target(&mut m, "/a/b/c", 5);
    let r = route("a", "b", "c");
    assert_eq!(m.total(MessageDirection::Sent, MessageTarget::Multi, &r), u64::MAX);
}
