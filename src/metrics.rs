//! Network message counters, keyed by direction, target cardinality and the
//! route (network type / module / action) taken from a message's url.

use vstd::prelude::*;

verus! {

/// Direction of a network message.
#[derive(Clone, Copy, Debug, PartialEq, Eq, Structural)]
pub enum MessageDirection {
    Sent,
    Received,
}

/// How many peers a sent message was addressed to.
#[derive(Clone, Copy, Debug, PartialEq, Eq, Structural)]
pub enum MessageTarget {
    Single,
    Multi,
    All,
}

/// The pieces of `url` between the `/` separators, in order; a url without
/// a separator is one piece, and the empty url is one empty piece.
pub open spec fn url_segments(url: Seq<char>) -> Seq<Seq<char>>
    decreases url.len(),
{
    if url.len() == 0 {
        seq![Seq::<char>::empty()]
    } else {
        let prev = url_segments(url.drop_last());
        if url.last() == '/' {
            prev.push(Seq::<char>::empty())
        } else {
            prev.update(prev.len() - 1, prev.last().push(url.last()))
        }
    }
}

/// Network type, module and action of a message route.
#[derive(Clone, Debug)]
pub struct MessageRoute {
    pub network_type: String,
    pub module: String,
    pub action: String,
}

/// A url names a route when it has at least four pieces; the route is the
/// second, third and fourth of them.
pub open spec fn route_of(url: Seq<char>) -> Option<(Seq<char>, Seq<char>, Seq<char>)> {
    let segs = url_segments(url);
    if segs.len() < 4 {
        None
    } else {
        Some((segs[1], segs[2], segs[3]))
    }
}

/// Start of the piece that follows the slash at `k - 1` (or of the url).
spec fn piece_start(slashes: Seq<usize>, k: int) -> int {
    if k == 0 {
        0
    } else {
        slashes[k - 1] + 1
    }
}

/// End of piece `k` of the first `n` characters.
spec fn piece_end(slashes: Seq<usize>, k: int, n: int) -> int {
    if k < slashes.len() {
        slashes[k] as int
    } else {
        n
    }
}

/// Splits `url` at its `/` separators the way `url_segments` does and
/// returns the second to fourth pieces, or `None` when there are fewer than
/// four.
pub fn parse_route(url: &str) -> (r: Option<MessageRoute>)
    ensures
        match route_of(url@) {
            None => r.is_none(),
            Some((t, m, a)) => r.is_some() && r.unwrap().network_type@ == t
                && r.unwrap().module@ == m && r.unwrap().action@ == a,
        },
{
    let n = url.unicode_len();
    let mut slashes: Vec<usize> = Vec::new();
    let mut i: usize = 0;
    while i < n
        invariant
            n == url@.len(),
            i <= n,
            url_segments(url@.take(i as int)).len() == slashes@.len() + 1,
            forall|k: int|
                0 <= k < slashes@.len() ==> piece_start(slashes@, k) <= #[trigger] slashes@[k] < i,
            forall|k: int|
                #![trigger url_segments(url@.take(i as int))[k]]
                0 <= k <= slashes@.len() ==> piece_start(slashes@, k) <= piece_end(
                    slashes@,
                    k,
                    i as int,
                ) && url_segments(url@.take(i as int))[k] == url@.subrange(
                    piece_start(slashes@, k),
                    piece_end(slashes@, k, i as int),
                ),
        decreases n - i,
    {
        let c = url.get_char(i);
        let ghost pre = url@.take(i as int);
        let ghost old_slashes = slashes@;
        assert(url@.take(i + 1).drop_last() == pre);
        assert(url@.take(i + 1).last() == c);
        if c == '/' {
            slashes.push(i);
        }
        i = i + 1;
        proof {
            let segs = url_segments(url@.take(i as int));
            let prev = url_segments(pre);
            assert forall|k: int| 0 <= k <= slashes@.len() implies piece_start(slashes@, k)
                <= piece_end(slashes@, k, i as int) && #[trigger] segs[k] == url@.subrange(
                piece_start(slashes@, k),
                piece_end(slashes@, k, i as int),
            ) by {
                assert(piece_start(slashes@, k) == piece_start(old_slashes, k) || k
                    == old_slashes.len() + 1);
                if c == '/' {
                    if k < old_slashes.len() {
                        assert(segs[k] == prev[k]);
                    } else if k == old_slashes.len() {
                        assert(segs[k] == prev[k]);
                    } else {
                        assert(segs[k] == Seq::<char>::empty());
                        assert(url@.subrange(i as int, i as int) =~= Seq::<char>::empty());
                    }
                } else {
                    if k < old_slashes.len() {
                        assert(segs[k] == prev[k]);
                    } else {
                        assert(segs[k] == prev[k].push(c));
                        assert(url@.subrange(piece_start(slashes@, k), i as int) =~= url@.subrange(
                            piece_start(slashes@, k),
                            i - 1,
                        ).push(c));
                    }
                }
            }
        }
    }
    assert(url@.take(n as int) =~= url@);
    if slashes.len() < 3 {
        None
    } else {
        let end3 = if slashes.len() > 3 {
            slashes[3]
        } else {
            n
        };
        let network_type = String::from_str(url.substring_char(slashes[0] + 1, slashes[1]));
        let module = String::from_str(url.substring_char(slashes[1] + 1, slashes[2]));
        let action = String::from_str(url.substring_char(slashes[2] + 1, end3));
        Some(MessageRoute { network_type, module, action })
    }
}

/// What a counter is keyed by: direction, target and route.
pub type MessageKey = (MessageDirection, MessageTarget, Seq<char>, Seq<char>, Seq<char>);

/// One counter: the messages seen under one key.
#[derive(Clone, Debug)]
pub struct MessageCount {
    pub direction: MessageDirection,
    pub target: MessageTarget,
    pub route: MessageRoute,
    pub total: u64,
}

/// Whether `c` counts messages under the given key.
fn has_key(c: &MessageCount, direction: MessageDirection, target: MessageTarget, route: &MessageRoute) -> (r: bool)
    ensures
        r == (c.key() == (direction, target, route.network_type@, route.module@, route.action@)),
{
    let d = c.direction == direction;
    let t = c.target == target;
    let n = c.route.network_type == route.network_type;
    let m = c.route.module == route.module;
    let a = c.route.action == route.action;
    d && t && n && m && a
}

impl MessageCount {
    pub open spec fn key(&self) -> MessageKey {
        (
            self.direction,
            self.target,
            self.route.network_type@,
            self.route.module@,
            self.route.action@,
        )
    }
}

/// Message counters of a node, created empty and handed to whatever records
/// traffic. Counters saturate at `u64::MAX`.
pub struct NetworkMetrics {
    counts: Vec<MessageCount>,
}

impl View for NetworkMetrics {
    type V = Map<MessageKey, nat>;

    /// The total recorded under each key that has been recorded at all.
    closed spec fn view(&self) -> Map<MessageKey, nat> {
        Map::new(
            |k: MessageKey| exists|i: int| 0 <= i < self.counts@.len() && self.counts@[i].key() == k,
            |k: MessageKey|
                self.counts@[choose|i: int|
                    0 <= i < self.counts@.len() && self.counts@[i].key() == k].total as nat,
        )
    }
}

/// The counter for `k` in `m`, zero when nothing was recorded under it.
pub open spec fn count_of(m: Map<MessageKey, nat>, k: MessageKey) -> nat {
    if m.contains_key(k) {
        m[k]
    } else {
        0
    }
}

/// `m` with `inc` more messages under `k`, saturating at `u64::MAX`.
pub open spec fn counted(m: Map<MessageKey, nat>, k: MessageKey, inc: nat) -> Map<MessageKey, nat> {
    let sum = count_of(m, k) + inc;
    m.insert(
        k,
        if sum > u64::MAX {
            u64::MAX as nat
        } else {
            sum
        },
    )
}

/// The counters after a message on `url`: one more key is counted when the
/// url names a route, and nothing changes when it does not.
pub open spec fn after_message(
    m: Map<MessageKey, nat>,
    direction: MessageDirection,
    target: MessageTarget,
    url: Seq<char>,
    inc: nat,
) -> Map<MessageKey, nat> {
    match route_of(url) {
        None => m,
        Some((t, md, a)) => counted(m, (direction, target, t, md, a), inc),
    }
}

impl NetworkMetrics {
    /// Counters are told apart by their keys.
    pub closed spec fn wf(&self) -> bool {
        forall|i: int, j: int|
            0 <= i < j < self.counts@.len() ==> #[trigger] self.counts@[i].key()
                != #[trigger] self.counts@[j].key()
    }

    /// An empty set of counters.
    pub fn new() -> (r: NetworkMetrics)
        ensures
            r.wf(),
            r@ == Map::<MessageKey, nat>::empty(),
    {
        let r = NetworkMetrics { counts: Vec::new() };
        assert(r@ =~= Map::<MessageKey, nat>::empty());
        r
    }

    /// The counter for a key, zero when nothing was recorded under it.
    pub fn total(&self, direction: MessageDirection, target: MessageTarget, route: &MessageRoute) -> (r: u64)
        requires
            self.wf(),
        ensures
            r == count_of(self@, (direction, target, route.network_type@, route.module@, route.action@)),
    {
        let ghost k = (direction, target, route.network_type@, route.module@, route.action@);
        let mut i: usize = 0;
        while i < self.counts.len()
            invariant
                self.wf(),
                i <= self.counts@.len(),
                k == (direction, target, route.network_type@, route.module@, route.action@),
                forall|j: int| 0 <= j < i ==> #[trigger] self.counts@[j].key() != k,
            decreases self.counts@.len() - i,
        {
            let c = &self.counts[i];
            if has_key(c, direction, target, route) {
                proof {
                    assert(self.counts@[i as int].key() == k);
                    assert(self@.contains_key(k));
                    let ci = choose|ci: int| 0 <= ci < self.counts@.len() && self.counts@[ci].key() == k;
                    assert(ci == i);
                }
                return c.total;
            }
            i = i + 1;
        }
        assert(!self@.contains_key(k));
        0
    }

    /// Adds `inc` to the counter of the key, creating it when absent.
    pub fn record(
        &mut self,
        direction: MessageDirection,
        target: MessageTarget,
        route: MessageRoute,
        inc: u64,
    )
        requires
            old(self).wf(),
        ensures
            final(self).wf(),
            final(self)@ == counted(
                old(self)@,
                (direction, target, route.network_type@, route.module@, route.action@),
                inc as nat,
            ),
    {
        let ghost k = (direction, target, route.network_type@, route.module@, route.action@);
        let ghost before = self@;
        let mut i: usize = 0;
        while i < self.counts.len()
            invariant
                self.wf(),
                self@ == before,
                before == old(self)@,
                i <= self.counts@.len(),
                k == (direction, target, route.network_type@, route.module@, route.action@),
                forall|j: int| 0 <= j < i ==> #[trigger] self.counts@[j].key() != k,
            decreases self.counts@.len() - i,
        {
            let c = &self.counts[i];
            if has_key(c, direction, target, &route) {
                let ghost old_counts = self.counts@;
                proof {
                    assert(old_counts[i as int].key() == k);
                    assert(before.contains_key(k));
                    let ci = choose|ci: int| 0 <= ci < old_counts.len() && old_counts[ci].key() == k;
                    assert(ci == i);
                }
                let total = self.counts[i].total.saturating_add(inc);
                let entry = MessageCount {
                    direction: self.counts[i].direction,
                    target: self.counts[i].target,
                    route: route,
                    total,
                };
                self.counts.set(i, entry);
                proof {
                    assert(self.counts@ == old_counts.update(i as int, entry));
                    assert(self.wf());
                    assert forall|k2: MessageKey| #[trigger] self@.contains_key(k2) == counted(before, k, inc as nat).contains_key(k2)
                        by {
                        if k2 != k && self@.contains_key(k2) {
                            let w = choose|w: int| 0 <= w < self.counts@.len() && self.counts@[w].key() == k2;
                            assert(old_counts[w].key() == k2);
                        }
                        if k2 != k && before.contains_key(k2) {
                            let w = choose|w: int| 0 <= w < old_counts.len() && old_counts[w].key() == k2;
                            assert(self.counts@[w].key() == k2);
                        }
                        if k2 == k {
                            assert(self.counts@[i as int].key() == k2);
                        }
                    }
                    assert forall|k2: MessageKey| #[trigger] self@.contains_key(k2) implies self@[k2] == counted(before, k, inc as nat)[k2]
                        by {
                        let w = choose|w: int| 0 <= w < self.counts@.len() && self.counts@[w].key() == k2;
                        if k2 == k {
                            assert(w == i);
                        } else {
                            assert(old_counts[w].key() == k2);
                            let w2 = choose|w2: int| 0 <= w2 < old_counts.len() && old_counts[w2].key() == k2;
                            assert(w2 == w);
                        }
                    }
                    assert(self@ =~= counted(before, k, inc as nat));
                }
                return;
            }
            i = i + 1;
        }
        assert(!before.contains_key(k));
        let ghost old_counts = self.counts@;
        let entry = MessageCount { direction, target, route, total: inc };
        self.counts.push(entry);
        proof {
            assert(self.counts@ == old_counts.push(entry));
            assert(self.counts@[old_counts.len() as int].key() == k);
            assert forall|k2: MessageKey| #[trigger] self@.contains_key(k2) == counted(before, k, inc as nat).contains_key(k2)
                by {
                if k2 != k && self@.contains_key(k2) {
                    let w = choose|w: int| 0 <= w < self.counts@.len() && self.counts@[w].key() == k2;
                    assert(old_counts[w].key() == k2);
                }
                if k2 != k && before.contains_key(k2) {
                    let w = choose|w: int| 0 <= w < old_counts.len() && old_counts[w].key() == k2;
                    assert(self.counts@[w].key() == k2);
                }
                if k2 == k {
                    assert(self.counts@[old_counts.len() as int].key() == k2);
                }
            }
            assert forall|k2: MessageKey| #[trigger] self@.contains_key(k2) implies self@[k2] == counted(before, k, inc as nat)[k2]
                by {
                let w = choose|w: int| 0 <= w < self.counts@.len() && self.counts@[w].key() == k2;
                if k2 == k {
                    assert(w == old_counts.len());
                } else {
                    assert(old_counts[w].key() == k2);
                    let w2 = choose|w2: int| 0 <= w2 < old_counts.len() && old_counts[w2].key() == k2;
                    assert(w2 == w);
                }
            }
            assert(self@ =~= counted(before, k, inc as nat));
        }
    }
}

/// Counts `inc` messages on `url` under `direction` and `target`; a url
/// that names no route is not counted.
fn on_network_message(
    metrics: &mut NetworkMetrics,
    direction: MessageDirection,
    target: MessageTarget,
    url: &str,
    inc: u64,
)
    requires
        old(metrics).wf(),
    ensures
        final(metrics).wf(),
        final(metrics)@ == after_message(old(metrics)@, direction, target, url@, inc as nat),
{
    match parse_route(url) {
        None => {},
        Some(route) => metrics.record(direction, target, route, inc),
    }
}

/// Counts one message on `url` sent to all peers.
pub fn on_network_message_sent_all_target(metrics: &mut NetworkMetrics, url: &str)
    requires
        old(metrics).wf(),
    ensures
        final(metrics).wf(),
        final(metrics)@ == after_message(
            old(metrics)@,
            MessageDirection::Sent,
            MessageTarget::All,
            url@,
            1,
        ),
{
    on_network_message(metrics, MessageDirection::Sent, MessageTarget::All, url, 1)
}

/// Counts one message on `url` sent to `target_count` peers.
pub fn on_network_message_sent_multi_target(metrics: &mut NetworkMetrics, url: &str, target_count: u64)
    requires
        old(metrics).wf(),
    ensures
        final(metrics).wf(),
        final(metrics)@ == after_message(
            old(metrics)@,
            MessageDirection::Sent,
            MessageTarget::Multi,
            url@,
            target_count as nat,
        ),
{
    on_network_message(metrics, MessageDirection::Sent, MessageTarget::Multi, url, target_count)
}

/// Counts one message on `url` sent to a single peer.
pub fn on_network_message_sent(metrics: &mut NetworkMetrics, url: &str)
    requires
        old(metrics).wf(),
    ensures
        final(metrics).wf(),
        final(metrics)@ == after_message(
            old(metrics)@,
            MessageDirection::Sent,
            MessageTarget::Single,
            url@,
            1,
        ),
{
    on_network_message(metrics, MessageDirection::Sent, MessageTarget::Single, url, 1)
}

/// Counts one message received on `url`.
pub fn on_network_message_received(metrics: &mut NetworkMetrics, url: &str)
    requires
        old(metrics).wf(),
    ensures
        final(metrics).wf(),
        final(metrics)@ == after_message(
            old(metrics)@,
            MessageDirection::Received,
            MessageTarget::Single,
            url@,
            1,
        ),
{
    on_network_message(metrics, MessageDirection::Received, MessageTarget::Single, url, 1)
}

} // verus!
