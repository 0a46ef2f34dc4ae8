//! MQTT publishing rules: topics, quality of service, broker endpoints, and
//! the exporter's loop as a step function (connect and announce itself,
//! retry with a doubling wait, publish every interval, go offline on
//! cancellation).

use vstd::prelude::*;

use crate::collector::{doubled_backoff, INITIAL_BACKOFF_MS};
use crate::labels::labels_map;
use crate::poll::{backoff_wait, doubled};
use crate::store::MetricValue;
use crate::text::{
    chars_of, has_prefix, last_index_of, parse_u16, push_chars, rfind_char, spec_parse_u16,
    starts_with_chars,
};

verus! {

/// `{prefix}/{collector}/{metric}`.
pub open spec fn topic(prefix: Seq<char>, collector: Seq<char>, metric: Seq<char>) -> Seq<char> {
    prefix + "/"@ + collector + "/"@ + metric
}

/// The topic a metric of a collector is published on.
pub fn build_topic(prefix: &str, collector: &str, metric: &str) -> (t: String)
    ensures
        t@ == topic(prefix@, collector@, metric@),
{
    let mut t = String::new();
    t.append(prefix);
    t.append("/");
    t.append(collector);
    t.append("/");
    t.append(metric);
    t
}

/// `{prefix}/status`: where `online` and the last will `offline` go.
pub fn status_topic(prefix: &str) -> (t: String)
    ensures
        t@ == prefix@ + "/status"@,
{
    let mut t = String::new();
    t.append(prefix);
    t.append("/status");
    t
}

/// The client id used when none is configured.
pub fn client_id_or_default(client_id: &Option<String>) -> (id: String)
    ensures
        client_id is Some ==> id@ == client_id->0@,
        client_id is None ==> id@ == "modbus-exporter"@,
{
    match client_id {
        Some(c) => c.clone(),
        None => String::from_str("modbus-exporter"),
    }
}

/// The collector a published metric came from: its `collector` label, or
/// `unknown`.
pub open spec fn collector_of(m: MetricValue) -> Seq<char> {
    if labels_map(m.labels@).contains_key("collector"@) {
        labels_map(m.labels@)["collector"@]
    } else {
        "unknown"@
    }
}

/// The value of the last pair with key `key`, if any.
fn label_value(ls: &Vec<(String, String)>, key: &str) -> (r: Option<String>)
    ensures
        labels_map(ls@).contains_key(key@) ==> r is Some && r->0@ == labels_map(ls@)[key@],
        !labels_map(ls@).contains_key(key@) ==> r is None,
{
    let k = String::from_str(key);
    let mut i: usize = ls.len();
    assert(ls@.take(i as int) =~= ls@);
    while i > 0
        invariant
            i <= ls@.len(),
            k@ == key@,
            labels_map(ls@).contains_key(key@) <==> labels_map(ls@.take(i as int)).contains_key(
                key@,
            ),
            labels_map(ls@).contains_key(key@) ==> labels_map(ls@)[key@] == labels_map(
                ls@.take(i as int),
            )[key@],
        decreases i,
    {
        assert(ls@.take(i as int).drop_last() =~= ls@.take(i - 1));
        if ls[i - 1].0 == k {
            return Some(ls[i - 1].1.clone());
        }
        i = i - 1;
    }
    assert(labels_map(ls@.take(0)) =~= Map::<Seq<char>, Seq<char>>::empty());
    None
}

/// The topic of a published metric: prefix, its collector, its name.
pub fn metric_topic(prefix: &str, m: &MetricValue) -> (t: String)
    ensures
        t@ == topic(prefix@, collector_of(*m), m.name@),
{
    match label_value(&m.labels, "collector") {
        Some(c) => build_topic(prefix, c.as_str(), m.name.as_str()),
        None => build_topic(prefix, "unknown", m.name.as_str()),
    }
}

/// MQTT quality of service.
#[derive(Debug, Clone, Copy, PartialEq, Eq, Structural)]
pub enum QosLevel {
    AtMostOnce,
    AtLeastOnce,
    ExactlyOnce,
}

/// QoS 0 and 1 as such; anything else is treated as 2.
pub fn qos_from_u8(q: u8) -> (r: QosLevel)
    ensures
        q == 0 ==> r == QosLevel::AtMostOnce,
        q == 1 ==> r == QosLevel::AtLeastOnce,
        q >= 2 ==> r == QosLevel::ExactlyOnce,
{
    match q {
        0 => QosLevel::AtMostOnce,
        1 => QosLevel::AtLeastOnce,
        _ => QosLevel::ExactlyOnce,
    }
}

/// The port used when an endpoint names none: 8883 with TLS, 1883 without.
pub open spec fn default_port(tls: bool) -> u16 {
    if tls {
        8883
    } else {
        1883
    }
}

/// The endpoint without its scheme, and whether the scheme asks for TLS.
/// Text without `mqtt://` or `mqtts://` is taken as it is, without TLS.
pub open spec fn strip_scheme(e: Seq<char>) -> (Seq<char>, bool) {
    if has_prefix(e, "mqtts://"@) {
        (e.skip("mqtts://"@.len() as int), true)
    } else if has_prefix(e, "mqtt://"@) {
        (e.skip("mqtt://"@.len() as int), false)
    } else {
        (e, false)
    }
}

/// Index of the first occurrence of `c` in `s`, if any.
pub open spec fn first_index_of(s: Seq<char>, c: char) -> Option<int> {
    if exists|i: int| 0 <= i < s.len() && s[i] == c {
        Some(choose|i: int| 0 <= i < s.len() && s[i] == c && forall|j: int| 0 <= j < i ==> s[j] != c)
    } else {
        None
    }
}

/// A port given as text: its number, or 1883 when it does not parse.
pub open spec fn port_or_1883(p: Seq<char>) -> u16 {
    match spec_parse_u16(p) {
        Some(n) => n,
        None => 1883,
    }
}

/// Host and port of an endpoint without its scheme.  A host in square
/// brackets (an IPv6 address) is taken from between them; otherwise the port
/// follows the last `:`.
pub open spec fn host_port(rest: Seq<char>, tls: bool) -> (Seq<char>, u16) {
    if rest.len() > 0 && rest[0] == '[' && first_index_of(rest, ']') is Some {
        let j = first_index_of(rest, ']')->0;
        let after = rest.skip(j + 1);
        let port = if after.len() > 0 && after[0] == ':' {
            port_or_1883(after.skip(1))
        } else {
            default_port(tls)
        };
        (rest.subrange(1, j), port)
    } else {
        match last_index_of(rest, ':') {
            Some(i) => (rest.take(i), port_or_1883(rest.skip(i + 1))),
            None => (rest, default_port(tls)),
        }
    }
}

/// Host, port and TLS flag of a broker endpoint.
pub open spec fn endpoint_parts(e: Seq<char>) -> (Seq<char>, u16, bool) {
    let (rest, tls) = strip_scheme(e);
    (host_port(rest, tls).0, host_port(rest, tls).1, tls)
}

fn find_char(s: &[char], c: char) -> (r: Option<usize>)
    ensures
        r is Some <==> first_index_of(s@, c) is Some,
        r matches Some(i) ==> first_index_of(s@, c) == Some(i as int),
        r matches Some(i) ==> i < s@.len() && s@[i as int] == c && forall|j: int|
            0 <= j < i ==> s@[j] != c,
{
    let mut i: usize = 0;
    while i < s.len()
        invariant
            i <= s@.len(),
            forall|j: int| 0 <= j < i ==> s@[j] != c,
        decreases s@.len() - i,
    {
        if s[i] == c {
            proof {
                let w = choose|w: int|
                    0 <= w < s@.len() && s@[w] == c && forall|j: int| 0 <= j < w ==> s@[j] != c;
                assert(0 <= i < s@.len() && s@[i as int] == c && forall|j: int|
                    0 <= j < i ==> s@[j] != c);
                assert(w == i) by {
                    if w < i {
                        assert(s@[w] != c);
                    } else if w > i {
                        assert(s@[i as int] != c);
                    }
                }
            }
            return Some(i);
        }
        i = i + 1;
    }
    None
}

fn slice_chars(s: &Vec<char>, from: usize, to: usize) -> (r: Vec<char>)
    requires
        from <= to <= s@.len(),
    ensures
        r@ == s@.subrange(from as int, to as int),
{
    let mut r: Vec<char> = Vec::new();
    let mut i: usize = from;
    while i < to
        invariant
            from <= i <= to <= s@.len(),
            r@ =~= s@.subrange(from as int, i as int),
        decreases to - i,
    {
        r.push(s[i]);
        i = i + 1;
        assert(r@ =~= s@.subrange(from as int, i as int));
    }
    r
}

fn string_from(cs: &Vec<char>) -> (s: String)
    ensures
        s@ == cs@,
{
    let mut s = String::new();
    push_chars(&mut s, cs.as_slice());
    s
}

fn split_scheme(e: &Vec<char>) -> (r: (Vec<char>, bool))
    ensures
        (r.0@, r.1) == strip_scheme(e@),
{
    let tls_prefix = chars_of("mqtts://");
    let plain_prefix = chars_of("mqtt://");
    if starts_with_chars(e.as_slice(), tls_prefix.as_slice()) {
        let r = slice_chars(e, tls_prefix.len(), e.len());
        assert(r@ =~= e@.skip(tls_prefix@.len() as int));
        (r, true)
    } else if starts_with_chars(e.as_slice(), plain_prefix.as_slice()) {
        let r = slice_chars(e, plain_prefix.len(), e.len());
        assert(r@ =~= e@.skip(plain_prefix@.len() as int));
        (r, false)
    } else {
        let r = slice_chars(e, 0, e.len());
        assert(r@ =~= e@);
        (r, false)
    }
}

fn port_text(digits: &Vec<char>) -> (p: u16)
    ensures
        p == port_or_1883(digits@),
{
    match parse_u16(digits.as_slice()) {
        Some(p) => p,
        None => 1883,
    }
}

fn split_host_port(rest: &Vec<char>, tls: bool) -> (r: (String, u16))
    ensures
        (r.0@, r.1) == host_port(rest@, tls),
{
    let default: u16 = if tls {
        8883
    } else {
        1883
    };
    if rest.len() > 0 && rest[0] == '[' {
        if let Some(j) = find_char(rest.as_slice(), ']') {
            let host = string_from(&slice_chars(rest, 1, j));
            let after = slice_chars(rest, j + 1, rest.len());
            assert(after@ =~= rest@.skip(j + 1));
            let port = if after.len() > 0 && after[0] == ':' {
                let digits = slice_chars(&after, 1, after.len());
                assert(digits@ =~= after@.skip(1));
                port_text(&digits)
            } else {
                default
            };
            return (host, port);
        }
    }
    match rfind_char(rest.as_slice(), ':') {
        Some(i) => {
            let host = string_from(&slice_chars(rest, 0, i));
            assert(rest@.subrange(0, i as int) =~= rest@.take(i as int));
            let digits = slice_chars(rest, i + 1, rest.len());
            assert(digits@ =~= rest@.skip(i + 1));
            (host, port_text(&digits))
        },
        None => (string_from(rest), default),
    }
}

/// Splits an `mqtt://` or `mqtts://` endpoint into host, port and TLS flag.
pub fn parse_endpoint(endpoint: &str) -> (r: (String, u16, bool))
    ensures
        (r.0@, r.1, r.2) == endpoint_parts(endpoint@),
{
    let e = chars_of(endpoint);
    let (rest, tls) = split_scheme(&e);
    let (host, port) = split_host_port(&rest, tls);
    (host, port, tls)
}


// ── The exporter's loop ─────────────────────────────────────────────

/// Where the MQTT exporter stands.
#[derive(Debug, Clone, Copy, PartialEq, Eq, Structural)]
pub enum MqttPhase {
    /// Connecting and announcing itself online.
    Connecting,
    /// Online, publishing every interval.
    Publishing,
    /// Cancelled.
    Stopped,
}

/// The exporter's state: its phase and the wait before the next retry.
#[derive(Debug, Clone, Copy, PartialEq, Eq, Structural)]
pub struct MqttState {
    pub phase: MqttPhase,
    pub backoff_ms: u64,
}

/// What the program reports back.
#[derive(Debug, Clone, Copy, PartialEq, Eq, Structural)]
pub enum MqttEvent {
    /// The retained "online" status was published.
    OnlineOk,
    /// Publishing the "online" status failed.
    OnlineFailed,
    /// A retry wait ended.
    Woke,
    /// The publish interval elapsed.
    Tick,
    /// The exporter was cancelled.
    Cancelled,
}

/// What the program does next.
#[derive(Debug, Clone, Copy, PartialEq, Eq, Structural)]
pub enum MqttAction {
    /// Open a client and publish the retained "online" status.
    Connect,
    /// Wait this many milliseconds before retrying (cancellation may interrupt).
    Sleep(u64),
    /// Wait one publish interval (cancellation may interrupt).
    WaitTick,
    /// Publish every stored metric, then wait one publish interval.
    PublishAll,
    /// Publish the retained "offline" status, disconnect and stop.
    GoOffline,
    /// Stop.
    Stop,
}

/// The state the exporter starts in: connecting, with the first wait.
pub open spec fn initial_mqtt_state() -> MqttState {
    MqttState { phase: MqttPhase::Connecting, backoff_ms: INITIAL_BACKOFF_MS }
}

/// One step of the exporter's loop.
pub open spec fn spec_mqtt_step(s: MqttState, e: MqttEvent) -> (MqttState, MqttAction) {
    let b = s.backoff_ms;
    if s.phase == MqttPhase::Stopped {
        (s, MqttAction::Stop)
    } else if e == MqttEvent::Cancelled {
        (
            MqttState { phase: MqttPhase::Stopped, backoff_ms: b },
            if s.phase == MqttPhase::Publishing {
                MqttAction::GoOffline
            } else {
                MqttAction::Stop
            },
        )
    } else if s.phase == MqttPhase::Connecting {
        match e {
            MqttEvent::OnlineOk => (
                MqttState { phase: MqttPhase::Publishing, backoff_ms: INITIAL_BACKOFF_MS },
                MqttAction::WaitTick,
            ),
            MqttEvent::OnlineFailed => (
                MqttState { phase: MqttPhase::Connecting, backoff_ms: doubled_backoff(b) },
                MqttAction::Sleep(b),
            ),
            _ => (s, MqttAction::Connect),
        }
    } else {
        match e {
            MqttEvent::Tick => (s, MqttAction::PublishAll),
            _ => (s, MqttAction::WaitTick),
        }
    }
}

impl MqttState {
    /// The state the exporter starts in; its first action is to connect.
    pub fn new() -> (s: Self)
        ensures
            s == initial_mqtt_state(),
    {
        MqttState { phase: MqttPhase::Connecting, backoff_ms: INITIAL_BACKOFF_MS }
    }
}

/// One step of the MQTT exporter's loop: the next state and action after `event`.
pub fn mqtt_step(state: &MqttState, event: MqttEvent) -> (r: (MqttState, MqttAction))
    ensures
        r == spec_mqtt_step(*state, event),
        (state.phase == MqttPhase::Connecting && event == MqttEvent::OnlineFailed) ==> r.1
            == MqttAction::Sleep(state.backoff_ms) && r.0.backoff_ms == doubled_backoff(
            state.backoff_ms,
        ),
        (state.phase == MqttPhase::Connecting && event == MqttEvent::OnlineOk) ==> r.0
            == (MqttState { phase: MqttPhase::Publishing, backoff_ms: INITIAL_BACKOFF_MS }),
        (state.phase == MqttPhase::Publishing && event == MqttEvent::Cancelled) ==> r.1
            == MqttAction::GoOffline && r.0.phase == MqttPhase::Stopped,
        (state.phase == MqttPhase::Publishing && event == MqttEvent::Tick) ==> r == (
            *state,
            MqttAction::PublishAll,
        ),
{
    let b = state.backoff_ms;
    if state.phase == MqttPhase::Stopped {
        return (*state, MqttAction::Stop);
    }
    if event == MqttEvent::Cancelled {
        let action = if state.phase == MqttPhase::Publishing {
            MqttAction::GoOffline
        } else {
            MqttAction::Stop
        };
        return (MqttState { phase: MqttPhase::Stopped, backoff_ms: b }, action);
    }
    if state.phase == MqttPhase::Connecting {
        match event {
            MqttEvent::OnlineOk => (
                MqttState { phase: MqttPhase::Publishing, backoff_ms: INITIAL_BACKOFF_MS },
                MqttAction::WaitTick,
            ),
            MqttEvent::OnlineFailed => (
                MqttState { phase: MqttPhase::Connecting, backoff_ms: doubled(b) },
                MqttAction::Sleep(b),
            ),
            _ => (*state, MqttAction::Connect),
        }
    } else {
        match event {
            MqttEvent::Tick => (*state, MqttAction::PublishAll),
            _ => (*state, MqttAction::WaitTick),
        }
    }
}

/// The state after `events` and the action each of them gave.
pub open spec fn mqtt_run(s: MqttState, events: Seq<MqttEvent>) -> (MqttState, Seq<MqttAction>)
    decreases events.len(),
{
    if events.len() == 0 {
        (s, Seq::empty())
    } else {
        let prev = mqtt_run(s, events.drop_last());
        let next = spec_mqtt_step(prev.0, events.last());
        (next.0, prev.1.push(next.1))
    }
}

/// `k` failed attempts to go online, each followed by the end of its wait.
pub open spec fn failed_onlines(k: nat) -> Seq<MqttEvent>
    decreases k,
{
    if k == 0 {
        Seq::empty()
    } else {
        failed_onlines((k - 1) as nat).push(MqttEvent::OnlineFailed).push(MqttEvent::Woke)
    }
}

proof fn lemma_failed_onlines(k: nat)
    ensures
        ({
            let r = mqtt_run(initial_mqtt_state(), failed_onlines(k));
            &&& r.0 == MqttState { phase: MqttPhase::Connecting, backoff_ms: backoff_wait(k) }
            &&& r.1.len() == 2 * k
            &&& forall|j: int|
                0 <= j < k ==> #[trigger] r.1[2 * j] == MqttAction::Sleep(backoff_wait(j as nat))
                    && r.1[2 * j + 1] == MqttAction::Connect
        }),
    decreases k,
{
    if k > 0 {
        let k1 = (k - 1) as nat;
        lemma_failed_onlines(k1);
        let evs = failed_onlines(k);
        assert(evs.drop_last() == failed_onlines(k1).push(MqttEvent::OnlineFailed));
        assert(evs.drop_last().drop_last() == failed_onlines(k1));
        let prev = mqtt_run(initial_mqtt_state(), failed_onlines(k1));
        let mid = mqtt_run(initial_mqtt_state(), evs.drop_last());
        assert(mid.0 == MqttState { phase: MqttPhase::Connecting, backoff_ms: backoff_wait(k) });
        assert(mid.1 == prev.1.push(MqttAction::Sleep(backoff_wait(k1))));
        let r = mqtt_run(initial_mqtt_state(), evs);
        assert(r.1 == mid.1.push(MqttAction::Connect));
        assert forall|j: int| 0 <= j < k implies #[trigger] r.1[2 * j] == MqttAction::Sleep(
            backoff_wait(j as nat),
        ) && r.1[2 * j + 1] == MqttAction::Connect by {
            if j < k1 {
                assert(r.1[2 * j] == prev.1[2 * j]);
                assert(r.1[2 * j + 1] == prev.1[2 * j + 1]);
            }
        }
    }
}

/// Alternating waits and connects, `k` of each, hold `k` connects.
proof fn lemma_mqtt_connect_count(acts: Seq<MqttAction>, k: nat)
    requires
        acts.len() == 2 * k,
        forall|j: int|
            0 <= j < k ==> #[trigger] acts[2 * j] != MqttAction::Connect && acts[2 * j + 1]
                == MqttAction::Connect,
    ensures
        acts.filter(|a: MqttAction| a == MqttAction::Connect).len() == k,
    decreases k,
{
    if k > 0 {
        let k1 = (k - 1) as nat;
        let front = acts.subrange(0, 2 * (k1 as int));
        assert forall|j: int| 0 <= j < k1 implies #[trigger] front[2 * j] != MqttAction::Connect
            && front[2 * j + 1] == MqttAction::Connect by {
            assert(front[2 * j] == acts[2 * j]);
            assert(front[2 * j + 1] == acts[2 * j + 1]);
        }
        lemma_mqtt_connect_count(front, k1);
        let tail = acts.subrange(2 * (k1 as int), 2 * (k as int));
        assert(acts =~= front + tail);
        assert(tail =~= seq![acts[2 * (k1 as int)], MqttAction::Connect]) by {
            assert(acts[2 * (k1 as int) + 1] == MqttAction::Connect);
        }
        assert(acts[2 * (k1 as int)] != MqttAction::Connect);
        Seq::filter_distributes_over_add(front, tail, |x: MqttAction| x == MqttAction::Connect);
        assert(tail.filter(|a: MqttAction| a == MqttAction::Connect).len() == 1) by {
            reveal_with_fuel(Seq::filter, 3);
        }
    }
}

/// Going online after `k` failed attempts: the exporter opens a client
/// `k + 1` times (its first action, then once after each wait), waits
/// `backoff_wait(0)`, …, `backoff_wait(k - 1)` (`min(2^i s, 60 s)`) in
/// between, then waits for its first publish interval with the retry wait
/// reset to one second.
pub proof fn law_mqtt_connect_retries(k: nat)
    ensures
        ({
            let evs = failed_onlines(k).push(MqttEvent::OnlineOk);
            let r = mqtt_run(initial_mqtt_state(), evs);
            let acts = seq![MqttAction::Connect] + r.1;
            &&& acts.len() == 2 * k + 2
            &&& acts.filter(|a: MqttAction| a == MqttAction::Connect).len() == k + 1
            &&& forall|j: int|
                0 <= j < k ==> #[trigger] acts[2 * j + 1] == MqttAction::Sleep(backoff_wait(j as nat))
            &&& acts.last() == MqttAction::WaitTick
            &&& r.0 == MqttState { phase: MqttPhase::Publishing, backoff_ms: INITIAL_BACKOFF_MS }
        }),
{
    lemma_failed_onlines(k);
    let evs = failed_onlines(k).push(MqttEvent::OnlineOk);
    assert(evs.drop_last() == failed_onlines(k));
    let pre = mqtt_run(initial_mqtt_state(), failed_onlines(k));
    let r = mqtt_run(initial_mqtt_state(), evs);
    assert(r.1 == pre.1.push(MqttAction::WaitTick));
    let acts = seq![MqttAction::Connect] + r.1;
    assert forall|j: int| 0 <= j < k implies #[trigger] acts[2 * j + 1] == MqttAction::Sleep(
        backoff_wait(j as nat),
    ) by {
        assert(acts[2 * j + 1] == pre.1[2 * j]);
    }
    lemma_mqtt_connect_count(pre.1, k);
    assert(acts =~= seq![MqttAction::Connect] + pre.1 + seq![MqttAction::WaitTick]);
    Seq::filter_distributes_over_add(seq![MqttAction::Connect], pre.1, |x: MqttAction| x == MqttAction::Connect);
    Seq::filter_distributes_over_add(
        seq![MqttAction::Connect] + pre.1,
        seq![MqttAction::WaitTick],
        |x: MqttAction| x == MqttAction::Connect,
    );
    assert(seq![MqttAction::Connect].filter(|a: MqttAction| a == MqttAction::Connect).len() == 1) by {
        reveal_with_fuel(Seq::filter, 2);
    }
    assert(seq![MqttAction::WaitTick].filter(|a: MqttAction| a == MqttAction::Connect).len() == 0) by {
        reveal_with_fuel(Seq::filter, 2);
    }
}

/// Once online, the exporter publishes at every interval until it is
/// cancelled, and then announces itself offline before it stops.
pub proof fn law_mqtt_publishes_until_cancelled(s: MqttState)
    requires
        s.phase == MqttPhase::Publishing,
    ensures
        spec_mqtt_step(s, MqttEvent::Tick) == (s, MqttAction::PublishAll),
        spec_mqtt_step(s, MqttEvent::Cancelled) == (
            MqttState { phase: MqttPhase::Stopped, backoff_ms: s.backoff_ms },
            MqttAction::GoOffline,
        ),
        forall|e: MqttEvent| #[trigger] spec_mqtt_step(
            MqttState { phase: MqttPhase::Stopped, backoff_ms: s.backoff_ms },
            e,
        ).1 == MqttAction::Stop,
{
}


/// An endpoint names its broker's host and, after a last `:`, its port:
/// `mqtt://host` is port 1883 without TLS, `mqtts://host` port 8883 with
/// TLS, and `mqtt://host:port` / `mqtts://host:port` the given port.
pub proof fn law_endpoint_parts(host: Seq<char>, port: Seq<char>, n: u16)
    requires
        forall|i: int| 0 <= i < host.len() ==> host[i] != ':',
        host.len() == 0 || host[0] != '[',
        forall|i: int| 0 <= i < port.len() ==> port[i] != ':',
        spec_parse_u16(port) == Some(n),
    ensures
        endpoint_parts("mqtt://"@ + host) == (host, 1883u16, false),
        endpoint_parts("mqtts://"@ + host) == (host, 8883u16, true),
        endpoint_parts("mqtt://"@ + host + ":"@ + port) == (host, n, false),
        endpoint_parts("mqtts://"@ + host + ":"@ + port) == (host, n, true),
{
    reveal_strlit("mqtt://");
    reveal_strlit("mqtts://");
    reveal_strlit(":");
    let a = "mqtt://"@ + host;
    let b = "mqtts://"@ + host;
    assert(a.take(7) =~= "mqtt://"@);
    assert(a.skip(7) =~= host);
    assert(b.take(8) =~= "mqtts://"@);
    assert(b.skip(8) =~= host);
    assert(!has_prefix(a, "mqtts://"@)) by {
        if a.len() >= 8 {
            assert(a.take(8)[4] == a[4] && a[4] == ':');
            assert("mqtts://"@[4] == 's');
        }
    }
    assert(last_index_of(host, ':') is None);
    let hp = host + ":"@ + port;
    let c = "mqtt://"@ + hp;
    let d = "mqtts://"@ + hp;
    assert(c =~= "mqtt://"@ + host + ":"@ + port);
    assert(d =~= "mqtts://"@ + host + ":"@ + port);
    assert(c.take(7) =~= "mqtt://"@);
    assert(c.skip(7) =~= hp);
    assert(d.take(8) =~= "mqtts://"@);
    assert(d.skip(8) =~= hp);
    assert(!has_prefix(c, "mqtts://"@)) by {
        if c.len() >= 8 {
            assert(c.take(8)[4] == c[4] && c[4] == ':');
            assert("mqtts://"@[4] == 's');
        }
    }
    assert(hp[host.len() as int] == ':');
    let li = last_index_of(hp, ':');
    assert(li == Some(host.len() as int)) by {
        assert(hp[host.len() as int] == ':');
        let w = choose|i: int| 0 <= i < hp.len() && hp[i] == ':' && forall|j: int| i < j < hp.len() ==> hp[j] != ':';
        if w < host.len() {
            assert(hp[w] == host[w]);
        } else if w > host.len() {
            assert(hp[w] == port[w - host.len() - 1]);
        }
    }
    assert(hp.take(host.len() as int) =~= host);
    assert(hp.skip(host.len() as int + 1) =~= port);
    if hp.len() > 0 && hp[0] == '[' {
        assert(host.len() > 0 ==> hp[0] == host[0]);
        assert(host.len() == 0 ==> hp[0] == ':');
    }
}

} // verus!
