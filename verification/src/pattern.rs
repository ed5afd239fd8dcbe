use vstd::prelude::*;
use vstd::pervasive::VecAdditionalExecFns;
use vstd::arithmetic::div_mod::lemma_div_is_ordered;
use vstd::relations::{sorted_by, total_ordering};
use vstd::seq_lib::{group_to_multiset_ensures, lemma_sorted_unique, seq_to_set_is_finite};
use vstd::string::*;
use vstd::utf8::encode_utf8;

use crate::error::SdkError;
use crate::ontology::{lemma_encode_injective, option_view, ConceptKind};
use crate::order::{
    bytes_lt, compare_bytes, lemma_bytes_lt_asymmetric, lemma_bytes_lt_irreflexive,
    lemma_bytes_lt_total, lemma_bytes_lt_transitive, Order,
};
use crate::sorting::{
    lemma_rearranged_map, lemma_rearranged_positions, ordered_by, positions, sort_positions, within, PositionOrder,
};
use crate::text::{text_error, text_ok, validate_text};

verus! {

pub const DEFAULT_MAX_EVENTS: usize = 1_000_000;
pub const DEFAULT_MAX_SEQUENCE_LEN: usize = 16;
pub const MAX_SYMBOL_BYTES: usize = 512;

// ---------------------------------------------------------------- tokens

#[verifier::ext_equal]
pub struct TokenView {
    pub concept: ConceptKind,
    pub symbol: Seq<char>,
    pub cluster: Option<Seq<char>>,
}

/// A symbol observed in a stream of events, optionally tagged with the
/// embedding cluster it fell into.
#[derive(Debug)]
pub struct PatternToken {
    concept: ConceptKind,
    symbol: String,
    embedding_cluster: Option<String>,
}

impl View for PatternToken {
    type V = TokenView;

    closed spec fn view(&self) -> TokenView {
        TokenView {
            concept: self.concept,
            symbol: self.symbol@,
            cluster: option_view(self.embedding_cluster),
        }
    }
}

/// A token's texts are acceptable: the symbol, and the cluster if present,
/// are not blank and hold at most 512 bytes.
pub open spec fn token_ok(t: TokenView) -> bool {
    &&& text_ok(t.symbol, MAX_SYMBOL_BYTES as nat)
    &&& (t.cluster matches Some(c) ==> text_ok(c, MAX_SYMBOL_BYTES as nat))
}

/// The error reported for a token that is not acceptable.
pub open spec fn token_error(t: TokenView, e: SdkError) -> bool {
    if !text_ok(t.symbol, MAX_SYMBOL_BYTES as nat) {
        text_error("pattern symbol"@, t.symbol, MAX_SYMBOL_BYTES, e)
    } else {
        text_error("embedding cluster"@, t.cluster->0, MAX_SYMBOL_BYTES, e)
    }
}

fn validate_token(token: &PatternToken) -> (r: Result<(), SdkError>)
    ensures
        r is Ok <==> token_ok(token@),
        r matches Err(e) ==> token_error(token@, e),
{
    validate_text("pattern symbol", token.symbol.as_str(), MAX_SYMBOL_BYTES)?;
    if let Some(cluster) = &token.embedding_cluster {
        validate_text("embedding cluster", cluster.as_str(), MAX_SYMBOL_BYTES)?;
    }
    Ok(())
}

impl PatternToken {
    /// A token whose symbol, and cluster if any, are not blank and hold at
    /// most 512 bytes.
    pub fn new(concept: ConceptKind, symbol: String, embedding_cluster: Option<String>) -> (r:
        Result<Self, SdkError>)
        ensures
            ({
                let t = TokenView {
                    concept,
                    symbol: symbol@,
                    cluster: option_view(embedding_cluster),
                };
                &&& r is Ok <==> token_ok(t)
                &&& r matches Ok(v) ==> v@ == t
                &&& r matches Err(e) ==> token_error(t, e)
            }),
    {
        let token = PatternToken { concept, symbol, embedding_cluster };
        validate_token(&token)?;
        Ok(token)
    }

    pub fn concept(&self) -> (r: ConceptKind)
        ensures
            r == self@.concept,
    {
        self.concept
    }

    pub fn symbol(&self) -> (r: &str)
        ensures
            r@ == self@.symbol,
    {
        self.symbol.as_str()
    }

    pub fn embedding_cluster(&self) -> (r: Option<&str>)
        ensures
            match r {
                Some(c) => self@.cluster == Some(c@),
                None => self@.cluster is None,
            },
    {
        match &self.embedding_cluster {
            Some(c) => Some(c.as_str()),
            None => None,
        }
    }

    /// A copy of the token.
    pub fn clone_token(&self) -> (r: Self)
        ensures
            r@ == self@,
    {
        let embedding_cluster = match &self.embedding_cluster {
            Some(c) => Some(c.clone()),
            None => None,
        };
        PatternToken { concept: self.concept, symbol: self.symbol.clone(), embedding_cluster }
    }
}

// ------------------------------------------------------------ token order

/// The position of a concept in declaration order.
pub open spec fn concept_rank(k: ConceptKind) -> int {
    match k {
        ConceptKind::Observation => 0,
        ConceptKind::FeatureSet => 1,
        ConceptKind::SignalEvent => 2,
        ConceptKind::SignalClass => 3,
        ConceptKind::Embedding => 4,
        ConceptKind::Pattern => 5,
        ConceptKind::Evidence => 6,
    }
}

fn concept_position(k: ConceptKind) -> (r: u8)
    ensures
        r == concept_rank(k),
{
    match k {
        ConceptKind::Observation => 0,
        ConceptKind::FeatureSet => 1,
        ConceptKind::SignalEvent => 2,
        ConceptKind::SignalClass => 3,
        ConceptKind::Embedding => 4,
        ConceptKind::Pattern => 5,
        ConceptKind::Evidence => 6,
    }
}

/// Texts are ordered by their UTF-8 bytes.
pub open spec fn text_lt(a: Seq<char>, b: Seq<char>) -> bool {
    bytes_lt(encode_utf8(a), encode_utf8(b))
}

/// An absent cluster comes before any present one.
pub open spec fn cluster_lt(a: Option<Seq<char>>, b: Option<Seq<char>>) -> bool {
    match (a, b) {
        (None, Some(_)) => true,
        (Some(x), Some(y)) => text_lt(x, y),
        _ => false,
    }
}

/// Tokens are ordered by concept, then symbol, then cluster.
pub open spec fn token_lt(a: TokenView, b: TokenView) -> bool {
    if a.concept != b.concept {
        concept_rank(a.concept) < concept_rank(b.concept)
    } else if a.symbol != b.symbol {
        text_lt(a.symbol, b.symbol)
    } else {
        cluster_lt(a.cluster, b.cluster)
    }
}

proof fn lemma_text_lt_facts(a: Seq<char>, b: Seq<char>, c: Seq<char>)
    ensures
        !text_lt(a, a),
        !(text_lt(a, b) && text_lt(b, a)),
        text_lt(a, b) && text_lt(b, c) ==> text_lt(a, c),
        a == b || text_lt(a, b) || text_lt(b, a),
{
    let (x, y, z) = (encode_utf8(a), encode_utf8(b), encode_utf8(c));
    lemma_bytes_lt_irreflexive(x);
    lemma_bytes_lt_asymmetric(x, y);
    lemma_bytes_lt_total(x, y);
    if bytes_lt(x, y) && bytes_lt(y, z) {
        lemma_bytes_lt_transitive(x, y, z);
    }
    if x == y {
        lemma_encode_injective(a, b);
    }
}

pub proof fn lemma_token_lt_facts(a: TokenView, b: TokenView, c: TokenView)
    ensures
        !token_lt(a, a),
        !(token_lt(a, b) && token_lt(b, a)),
        token_lt(a, b) && token_lt(b, c) ==> token_lt(a, c),
        a == b || token_lt(a, b) || token_lt(b, a),
{
    lemma_text_lt_facts(a.symbol, b.symbol, c.symbol);
    match (a.cluster, b.cluster, c.cluster) {
        (Some(x), Some(y), Some(z)) => lemma_text_lt_facts(x, y, z),
        (Some(x), Some(y), None) => lemma_text_lt_facts(x, y, y),
        (Some(x), None, Some(z)) => lemma_text_lt_facts(x, z, z),
        (None, Some(y), Some(z)) => lemma_text_lt_facts(y, z, z),
        (Some(x), None, None) => lemma_text_lt_facts(x, x, x),
        (None, Some(y), None) => lemma_text_lt_facts(y, y, y),
        (None, None, Some(z)) => lemma_text_lt_facts(z, z, z),
        (None, None, None) => {},
    }
    if a.concept == b.concept && a.symbol == b.symbol && a.cluster == b.cluster {
        assert(a =~= b);
    }
}

fn compare_text(a: &str, b: &str) -> (r: Order)
    ensures
        (r == Order::Less) == text_lt(a@, b@),
        (r == Order::Equal) == (a@ == b@),
        (r == Order::Greater) == text_lt(b@, a@),
{
    proof {
        lemma_text_lt_facts(a@, b@, b@);
    }
    let r = compare_bytes(a.as_bytes(), b.as_bytes());
    proof {
        if r == Order::Equal {
            lemma_encode_injective(a@, b@);
        }
    }
    r
}

/// Three-way comparison of tokens in the token order.
pub fn compare_tokens(a: &PatternToken, b: &PatternToken) -> (r: Order)
    ensures
        (r == Order::Less) == token_lt(a@, b@),
        (r == Order::Equal) == (a@ == b@),
        (r == Order::Greater) == token_lt(b@, a@),
{
    proof {
        lemma_token_lt_facts(a@, b@, b@);
    }
    let ka = concept_position(a.concept);
    let kb = concept_position(b.concept);
    if ka < kb {
        return Order::Less;
    }
    if ka > kb {
        return Order::Greater;
    }
    assert(a.concept == b.concept);
    let s = compare_text(a.symbol.as_str(), b.symbol.as_str());
    match s {
        Order::Less => { return Order::Less; },
        Order::Greater => { return Order::Greater; },
        Order::Equal => {},
    }
    let r = match (&a.embedding_cluster, &b.embedding_cluster) {
        (None, None) => Order::Equal,
        (None, Some(_)) => Order::Less,
        (Some(_), None) => Order::Greater,
        (Some(x), Some(y)) => compare_text(x.as_str(), y.as_str()),
    };
    proof {
        if r == Order::Equal {
            assert(a@ =~= b@);
        }
    }
    r
}

// ----------------------------------------------------------------- events

#[verifier::ext_equal]
pub struct EventView {
    pub timestamp_ms: u64,
    pub token: TokenView,
}

/// A token observed at a point in time.
#[derive(Debug)]
pub struct PatternEvent {
    timestamp_ms: u64,
    token: PatternToken,
}

impl View for PatternEvent {
    type V = EventView;

    closed spec fn view(&self) -> EventView {
        EventView { timestamp_ms: self.timestamp_ms, token: self.token@ }
    }
}

impl PatternEvent {
    pub fn new(timestamp_ms: u64, token: PatternToken) -> (r: Self)
        ensures
            r@ == (EventView { timestamp_ms, token: token@ }),
    {
        PatternEvent { timestamp_ms, token }
    }

    pub fn timestamp_ms(&self) -> (r: u64)
        ensures
            r == self@.timestamp_ms,
    {
        self.timestamp_ms
    }

    pub fn token(&self) -> (r: &PatternToken)
        ensures
            r@ == self@.token,
    {
        &self.token
    }

    /// A copy of the event.
    pub fn clone_event(&self) -> (r: Self)
        ensures
            r@ == self@,
    {
        PatternEvent { timestamp_ms: self.timestamp_ms, token: self.token.clone_token() }
    }
}

/// The event for the top class of a prediction: a signal-event token named
/// by the class label. `None` stands for a prediction without classes.
pub fn pattern_event_from_prediction(
    timestamp_ms: u64,
    top_label: Option<String>,
    embedding_cluster: Option<String>,
) -> (r: Result<PatternEvent, SdkError>)
    ensures
        match top_label {
            None => r matches Err(SdkError::InvalidArgument(m)) && m@ == "prediction has no top class"@,
            Some(label) => {
                let t = TokenView {
                    concept: ConceptKind::SignalEvent,
                    symbol: label@,
                    cluster: option_view(embedding_cluster),
                };
                &&& r is Ok <==> token_ok(t)
                &&& r matches Ok(e) ==> e@ == (EventView { timestamp_ms, token: t })
                &&& r matches Err(e) ==> token_error(t, e)
            },
        },
{
    let label = match top_label {
        Some(label) => label,
        None => {
            return Err(SdkError::InvalidArgument(String::from_str("prediction has no top class")));
        },
    };
    let token = PatternToken::new(ConceptKind::SignalEvent, label, embedding_cluster)?;
    Ok(PatternEvent::new(timestamp_ms, token))
}

pub open spec fn event_views(s: Seq<PatternEvent>) -> Seq<EventView> {
    s.map_values(|e: PatternEvent| e@)
}

/// Events are ordered by time, then by token.
pub open spec fn event_le(a: EventView, b: EventView) -> bool {
    a.timestamp_ms < b.timestamp_ms || (a.timestamp_ms == b.timestamp_ms && (a.token == b.token
        || token_lt(a.token, b.token)))
}

pub open spec fn event_order() -> spec_fn(EventView, EventView) -> bool {
    |a: EventView, b: EventView| event_le(a, b)
}

/// The events in time order, ties broken by the token order.
pub open spec fn ordered_views(events: Seq<EventView>) -> Seq<EventView> {
    events.sort_by(event_order())
}

pub proof fn lemma_event_order_total()
    ensures
        total_ordering(event_order()),
{
    let f = event_order();
    assert forall|a: EventView| #[trigger] f(a, a) by {}
    assert forall|a: EventView, b: EventView| #[trigger] f(a, b) && #[trigger] f(b, a) implies a == b by {
        lemma_token_lt_facts(a.token, b.token, b.token);
        assert(a =~= b);
    }
    assert forall|a: EventView, b: EventView, c: EventView|
        #[trigger] f(a, b) && #[trigger] f(b, c) implies f(a, c) by {
        lemma_token_lt_facts(a.token, b.token, c.token);
    }
    assert forall|a: EventView, b: EventView| #[trigger] f(a, b) || #[trigger] f(b, a) by {
        lemma_token_lt_facts(a.token, b.token, b.token);
    }
}

fn event_precedes(a: &PatternEvent, b: &PatternEvent) -> (r: bool)
    ensures
        r == event_le(a@, b@),
{
    if a.timestamp_ms != b.timestamp_ms {
        return a.timestamp_ms < b.timestamp_ms;
    }
    match compare_tokens(&a.token, &b.token) {
        Order::Greater => false,
        _ => true,
    }
}

struct EventOrder<'a> {
    events: &'a [PatternEvent],
}

impl<'a> PositionOrder for EventOrder<'a> {
    closed spec fn domain(&self) -> nat {
        self.events@.len()
    }

    closed spec fn before(&self, i: int, j: int) -> bool {
        event_le(self.events@[i]@, self.events@[j]@)
    }

    proof fn lemma_total_preorder(&self) {
        lemma_event_order_total();
        let f = event_order();
        assert forall|i: int, j: int, k: int|
            0 <= i < self.domain() && 0 <= j < self.domain() && 0 <= k < self.domain()
                && #[trigger] self.before(i, j) && #[trigger] self.before(j, k) implies self.before(
            i,
            k,
        ) by {
            assert(f(self.events@[i]@, self.events@[j]@));
            assert(f(self.events@[j]@, self.events@[k]@));
        }
        assert forall|i: int, j: int|
            0 <= i < self.domain() && 0 <= j < self.domain() implies #[trigger] self.before(i, j)
            || self.before(j, i) by {
            assert(f(self.events@[i]@, self.events@[j]@) || f(self.events@[j]@, self.events@[i]@));
        }
    }

    fn precedes(&self, i: usize, j: usize) -> (r: bool) {
        event_precedes(&self.events[i], &self.events[j])
    }
}

/// The positions of `events` in the event order.
fn order_events(events: &[PatternEvent]) -> (p: Vec<usize>)
    ensures
        p.len() == events.len(),
        within(p@, 0, events.len() as int),
        p@.map_values(|k: usize| events@[k as int]@) == ordered_views(event_views(events@)),
{
    let o = EventOrder { events };
    let p = sort_positions(&o, 0, events.len());
    proof {
        let f = |k: usize| events@[k as int]@;
        let s = p@.map_values(f);
        let views = event_views(events@);
        lemma_rearranged_map(p@, positions(0, events.len() as int), f);
        assert(positions(0, events.len() as int).map_values(f) =~= views);
        assert forall|a: int, b: int| 0 <= a < b < s.len() implies #[trigger] event_order()(
            s[a],
            s[b],
        ) by {
            assert(o.before(p@[a] as int, p@[b] as int));
        }
        assert(sorted_by(s, event_order()));
        lemma_event_order_total();
        views.lemma_sort_by_ensures(event_order());
        lemma_sorted_unique(s, ordered_views(views), event_order());
    }
    p
}

// ---------------------------------------------------------------- windows

/// Token sequences are ordered lexicographically by the token order.
pub open spec fn tokens_lt(a: Seq<TokenView>, b: Seq<TokenView>) -> bool
    decreases a.len(),
{
    if a.len() == 0 {
        b.len() > 0
    } else if b.len() == 0 {
        false
    } else if a[0] != b[0] {
        token_lt(a[0], b[0])
    } else {
        tokens_lt(a.drop_first(), b.drop_first())
    }
}

pub proof fn lemma_tokens_lt_facts(a: Seq<TokenView>, b: Seq<TokenView>, c: Seq<TokenView>)
    ensures
        !tokens_lt(a, a),
        !(tokens_lt(a, b) && tokens_lt(b, a)),
        tokens_lt(a, b) && tokens_lt(b, c) ==> tokens_lt(a, c),
        a == b || tokens_lt(a, b) || tokens_lt(b, a),
    decreases a.len(),
{
    if a.len() > 0 && b.len() > 0 && c.len() > 0 {
        lemma_token_lt_facts(a[0], b[0], c[0]);
        lemma_tokens_lt_facts(a.drop_first(), b.drop_first(), c.drop_first());
        if a.drop_first() == b.drop_first() && a[0] == b[0] {
            assert(a =~= seq![a[0]] + a.drop_first());
            assert(b =~= seq![b[0]] + b.drop_first());
        }
    } else if a.len() > 0 && b.len() > 0 {
        lemma_token_lt_facts(a[0], b[0], b[0]);
        lemma_tokens_lt_facts(a.drop_first(), b.drop_first(), b.drop_first());
        if a.drop_first() == b.drop_first() && a[0] == b[0] {
            assert(a =~= seq![a[0]] + a.drop_first());
            assert(b =~= seq![b[0]] + b.drop_first());
        }
    } else if a.len() > 0 && c.len() > 0 {
        lemma_tokens_lt_facts(a.drop_first(), a.drop_first(), a.drop_first());
    } else if a.len() > 0 {
        lemma_tokens_lt_facts(a.drop_first(), a.drop_first(), a.drop_first());
    } else if a.len() == 0 && b.len() == 0 {
        assert(a =~= b);
    }
}

proof fn lemma_tokens_lt_skip(a: Seq<TokenView>, b: Seq<TokenView>, i: int)
    requires
        0 <= i < a.len(),
        i < b.len(),
        a[i] == b[i],
    ensures
        tokens_lt(a.skip(i), b.skip(i)) == tokens_lt(a.skip(i + 1), b.skip(i + 1)),
{
    assert(a.skip(i).drop_first() =~= a.skip(i + 1));
    assert(b.skip(i).drop_first() =~= b.skip(i + 1));
}

/// The tokens of the `len` events from position `k` of `ord`.
pub open spec fn window(ord: Seq<EventView>, len: int, k: int) -> Seq<TokenView> {
    ord.subrange(k, k + len).map_values(|e: EventView| e.token)
}

/// How many windows of `len` events a sequence of `n` events has.
pub open spec fn window_total(n: int, len: int) -> int {
    if n >= len {
        n - len + 1
    } else {
        0
    }
}

/// How many of the first `m` windows hold the tokens `key`.
pub open spec fn window_count(ord: Seq<EventView>, len: int, key: Seq<TokenView>, m: nat) -> nat
    decreases m,
{
    if m == 0 {
        0
    } else {
        window_count(ord, len, key, (m - 1) as nat) + if window(ord, len, m - 1) == key {
            1nat
        } else {
            0nat
        }
    }
}

/// The start times of those of the first `m` windows that hold `key`, in
/// order.
pub open spec fn window_starts(ord: Seq<EventView>, len: int, key: Seq<TokenView>, m: nat) -> Seq<
    u64,
>
    decreases m,
{
    if m == 0 {
        Seq::empty()
    } else {
        let s = window_starts(ord, len, key, (m - 1) as nat);
        if window(ord, len, m - 1) == key {
            s.push(ord[m - 1].timestamp_ms)
        } else {
            s
        }
    }
}

/// The window at position `k` of the events `events`, read in the
/// arrangement `order`.
spec fn window_in(events: Seq<PatternEvent>, order: Seq<usize>, len: int, k: int) -> Seq<
    TokenView,
> {
    Seq::new(len as nat, |j: int| events[order[k + j] as int]@.token)
}

spec fn windows_readable(events: Seq<PatternEvent>, order: Seq<usize>, len: int, total: int) -> bool {
    &&& within(order, 0, events.len() as int)
    &&& 0 <= total
    &&& total + len <= order.len() + 1
    &&& len >= 1
}

/// Three-way lexicographic comparison of the windows at `a` and `b`.
fn compare_windows(events: &[PatternEvent], order: &[usize], len: usize, total: usize, a: usize, b: usize) -> (r:
    Order)
    requires
        windows_readable(events@, order@, len as int, total as int),
        a < total,
        b < total,
    ensures
        ({
            let wa = window_in(events@, order@, len as int, a as int);
            let wb = window_in(events@, order@, len as int, b as int);
            &&& (r == Order::Less) == tokens_lt(wa, wb)
            &&& (r == Order::Equal) == (wa == wb)
            &&& (r == Order::Greater) == tokens_lt(wb, wa)
        }),
{
    let ghost wa = window_in(events@, order@, len as int, a as int);
    let ghost wb = window_in(events@, order@, len as int, b as int);
    proof {
        lemma_tokens_lt_facts(wa, wb, wb);
        lemma_tokens_lt_facts(wb, wa, wa);
        assert(wa.skip(0) =~= wa);
        assert(wb.skip(0) =~= wb);
    }
    let mut j: usize = 0;
    while j < len
        invariant
            windows_readable(events@, order@, len as int, total as int),
            a < total,
            b < total,
            wa == window_in(events@, order@, len as int, a as int),
            wb == window_in(events@, order@, len as int, b as int),
            j <= len,
            wa.take(j as int) =~= wb.take(j as int),
            tokens_lt(wa, wb) == tokens_lt(wa.skip(j as int), wb.skip(j as int)),
            tokens_lt(wb, wa) == tokens_lt(wb.skip(j as int), wa.skip(j as int)),
        decreases len - j,
    {
        assert(a + j < order@.len());
        assert(b + j < order@.len());
        assert(order@.len() == order.len());
        let ea = &events[order[a + j]];
        let eb = &events[order[b + j]];
        assert(ea@.token == wa[j as int]);
        assert(eb@.token == wb[j as int]);
        match compare_tokens(&ea.token, &eb.token) {
            Order::Less => {
                proof {
                    assert(wa.skip(j as int)[0] == wa[j as int]);
                    assert(wb.skip(j as int)[0] == wb[j as int]);
                }
                return Order::Less;
            },
            Order::Greater => {
                proof {
                    assert(wa.skip(j as int)[0] == wa[j as int]);
                    assert(wb.skip(j as int)[0] == wb[j as int]);
                }
                return Order::Greater;
            },
            Order::Equal => {},
        }
        proof {
            lemma_tokens_lt_skip(wa, wb, j as int);
            lemma_tokens_lt_skip(wb, wa, j as int);
            assert(wa.take(j + 1) =~= wa.take(j as int).push(wa[j as int]));
            assert(wb.take(j + 1) =~= wb.take(j as int).push(wb[j as int]));
        }
        j += 1;
    }
    proof {
        assert(wa =~= wa.take(j as int));
        assert(wb =~= wb.take(j as int));
    }
    Order::Equal
}

/// Windows ordered by their tokens, then by position.
struct WindowOrder<'a> {
    events: &'a [PatternEvent],
    order: &'a [usize],
    len: usize,
    total: usize,
}

impl<'a> WindowOrder<'a> {
    spec fn key(&self, k: int) -> Seq<TokenView> {
        window_in(self.events@, self.order@, self.len as int, k)
    }
}

impl<'a> PositionOrder for WindowOrder<'a> {
    closed spec fn domain(&self) -> nat {
        if windows_readable(self.events@, self.order@, self.len as int, self.total as int) {
            self.total as nat
        } else {
            0
        }
    }

    closed spec fn before(&self, i: int, j: int) -> bool {
        tokens_lt(self.key(i), self.key(j)) || (self.key(i) == self.key(j) && i <= j)
    }

    proof fn lemma_total_preorder(&self) {
        assert forall|i: int, j: int, k: int|
            0 <= i < self.domain() && 0 <= j < self.domain() && 0 <= k < self.domain()
                && #[trigger] self.before(i, j) && #[trigger] self.before(j, k) implies self.before(
            i,
            k,
        ) by {
            lemma_tokens_lt_facts(self.key(i), self.key(j), self.key(k));
        }
        assert forall|i: int, j: int|
            0 <= i < self.domain() && 0 <= j < self.domain() implies #[trigger] self.before(i, j)
            || self.before(j, i) by {
            lemma_tokens_lt_facts(self.key(i), self.key(j), self.key(j));
        }
    }

    fn precedes(&self, i: usize, j: usize) -> (r: bool) {
        match compare_windows(self.events, self.order, self.len, self.total, i, j) {
            Order::Less => true,
            Order::Greater => false,
            Order::Equal => i <= j,
        }
    }
}

// ----------------------------------------------------------------- engine

/// Finds recurring token sequences and co-occurring tokens in event streams.
#[derive(Debug)]
pub struct PatternEngine {
    max_events: usize,
    max_sequence_len: usize,
}

/// Every token of the events is acceptable up to position `k`, and the
/// token at `k` is not.
pub open spec fn first_bad_event(views: Seq<EventView>, k: int) -> bool {
    &&& 0 <= k < views.len()
    &&& !token_ok(views[k].token)
    &&& forall|j: int| 0 <= j < k ==> token_ok(#[trigger] views[j].token)
}

/// A request over `views` is served: not too many events, a minimum of at
/// least two occurrences, and acceptable tokens.
pub open spec fn request_ok(max_events: usize, views: Seq<EventView>, min_occurrences: usize) -> bool {
    &&& views.len() <= max_events
    &&& min_occurrences >= 2
    &&& forall|j: int| 0 <= j < views.len() ==> token_ok(#[trigger] views[j].token)
}

/// The error with which a request that is not served is refused.
pub open spec fn request_error(max_events: usize, views: Seq<EventView>, min_occurrences: usize, e: SdkError) -> bool {
    if views.len() > max_events {
        e == SdkError::DimensionLimit { actual: views.len() as usize, max: max_events }
    } else if min_occurrences < 2 {
        e matches SdkError::InvalidArgument(m) && m@ == "min_occurrences must be at least 2"@
    } else {
        exists|k: int| first_bad_event(views, k) && token_error(views[k].token, e)
    }
}

impl PatternEngine {
    pub closed spec fn spec_max_events(&self) -> usize {
        self.max_events
    }

    pub closed spec fn spec_max_sequence_len(&self) -> usize {
        self.max_sequence_len
    }

    /// An engine for at most 1,000,000 events and sequences of at most 16.
    pub fn default_engine() -> (r: Self)
        ensures
            r.spec_max_events() == DEFAULT_MAX_EVENTS,
            r.spec_max_sequence_len() == DEFAULT_MAX_SEQUENCE_LEN,
    {
        PatternEngine { max_events: DEFAULT_MAX_EVENTS, max_sequence_len: DEFAULT_MAX_SEQUENCE_LEN }
    }

    /// An engine with the given limits: at least one event, and a longest
    /// sequence between 2 and 16.
    pub fn with_limits(max_events: usize, max_sequence_len: usize) -> (r: Result<Self, SdkError>)
        ensures
            r is Ok <==> max_events != 0 && 2 <= max_sequence_len <= DEFAULT_MAX_SEQUENCE_LEN,
            r matches Ok(engine) ==> engine.spec_max_events() == max_events
                && engine.spec_max_sequence_len() == max_sequence_len,
            r matches Err(e) ==> e matches SdkError::InvalidArgument(m) && m@
                == "invalid pattern engine limits"@,
    {
        if max_events == 0 || max_sequence_len < 2 || max_sequence_len > DEFAULT_MAX_SEQUENCE_LEN {
            return Err(SdkError::InvalidArgument(String::from_str("invalid pattern engine limits")));
        }
        Ok(PatternEngine { max_events, max_sequence_len })
    }

    fn validate_request(&self, events: &[PatternEvent], min_occurrences: usize) -> (r: Result<
        (),
        SdkError,
    >)
        ensures
            r is Ok <==> request_ok(self.max_events, event_views(events@), min_occurrences),
            r matches Err(e) ==> request_error(
                self.max_events,
                event_views(events@),
                min_occurrences,
                e,
            ),
    {
        let ghost views = event_views(events@);
        if events.len() > self.max_events {
            return Err(SdkError::DimensionLimit { actual: events.len(), max: self.max_events });
        }
        if min_occurrences < 2 {
            return Err(
                SdkError::InvalidArgument(String::from_str("min_occurrences must be at least 2")),
            );
        }
        let mut k: usize = 0;
        while k < events.len()
            invariant
                views == event_views(events@),
                events.len() <= self.max_events,
                min_occurrences >= 2,
                k <= events.len(),
                forall|j: int| 0 <= j < k ==> token_ok(#[trigger] views[j].token),
            decreases events.len() - k,
        {
            let checked = validate_token(&events[k].token);
            if let Err(e) = checked {
                proof {
                    assert(views[k as int] == events@[k as int]@);
                    assert(first_bad_event(views, k as int));
                    assert(first_bad_event(views, k as int) && token_error(views[k as int].token, e));
                }
                return Err(e);
            }
            k += 1;
        }
        Ok(())
    }
}

impl Default for PatternEngine {
    fn default() -> (r: Self)
        ensures
            r.spec_max_events() == DEFAULT_MAX_EVENTS,
            r.spec_max_sequence_len() == DEFAULT_MAX_SEQUENCE_LEN,
    {
        PatternEngine::default_engine()
    }
}

// -------------------------------------------------------------- sequences

pub struct SequenceView {
    pub tokens: Seq<TokenView>,
    pub occurrences: nat,
    pub starts: Seq<u64>,
}

/// A token sequence that recurs in an event stream, with the start time of
/// each occurrence.
#[derive(Debug)]
pub struct RecurringPattern {
    tokens: Vec<PatternToken>,
    occurrences: usize,
    occurrence_starts_ms: Vec<u64>,
}

pub open spec fn token_views(s: Seq<PatternToken>) -> Seq<TokenView> {
    s.map_values(|t: PatternToken| t@)
}

impl View for RecurringPattern {
    type V = SequenceView;

    closed spec fn view(&self) -> SequenceView {
        SequenceView {
            tokens: token_views(self.tokens@),
            occurrences: self.occurrences as nat,
            starts: self.occurrence_starts_ms@,
        }
    }
}

impl RecurringPattern {
    pub fn tokens(&self) -> (r: &[PatternToken])
        ensures
            token_views(r@) == self@.tokens,
    {
        self.tokens.as_slice()
    }

    pub fn occurrences(&self) -> (r: usize)
        ensures
            r == self@.occurrences,
    {
        self.occurrences
    }

    pub fn occurrence_starts_ms(&self) -> (r: &[u64])
        ensures
            r@ == self@.starts,
    {
        self.occurrence_starts_ms.as_slice()
    }
}

pub open spec fn sequence_views(s: Seq<RecurringPattern>) -> Seq<SequenceView> {
    s.map_values(|p: RecurringPattern| p@)
}

/// More frequent sequences first, equally frequent ones in token order.
pub open spec fn sequence_before(a: SequenceView, b: SequenceView) -> bool {
    a.occurrences > b.occurrences || (a.occurrences == b.occurrences && tokens_lt(a.tokens, b.tokens))
}

/// `found` lists exactly the windows of `len` events of `ord` that recur at
/// least `min_occurrences` times, each once, with its count and start times,
/// most frequent first and equally frequent ones in token order.
pub open spec fn recurring_sequences(
    ord: Seq<EventView>,
    len: int,
    min_occurrences: nat,
    found: Seq<SequenceView>,
) -> bool {
    let total = window_total(ord.len() as int, len);
    &&& forall|i: int|
        0 <= i < found.len() ==> {
            let f = #[trigger] found[i];
            &&& exists|k: int| 0 <= k < total && window(ord, len, k) == f.tokens
            &&& f.occurrences == window_count(ord, len, f.tokens, total as nat)
            &&& f.occurrences >= min_occurrences
            &&& f.starts == window_starts(ord, len, f.tokens, total as nat)
        }
    &&& forall|k: int|
        0 <= k < total && window_count(ord, len, #[trigger] window(ord, len, k), total as nat)
            >= min_occurrences ==> exists|i: int| 0 <= i < found.len() && found[i].tokens == window(ord, len, k)
    &&& forall|i: int, j: int| 0 <= i < j < found.len() ==> sequence_before(#[trigger] found[i], #[trigger] found[j])
}

/// Positions ordered by decreasing count, then by position.
struct CountOrder<'a> {
    counts: &'a [usize],
}

impl<'a> PositionOrder for CountOrder<'a> {
    closed spec fn domain(&self) -> nat {
        self.counts@.len()
    }

    closed spec fn before(&self, i: int, j: int) -> bool {
        self.counts@[i] > self.counts@[j] || (self.counts@[i] == self.counts@[j] && i <= j)
    }

    proof fn lemma_total_preorder(&self) {
    }

    fn precedes(&self, i: usize, j: usize) -> (r: bool) {
        self.counts[i] > self.counts[j] || (self.counts[i] == self.counts[j] && i <= j)
    }
}

proof fn lemma_window_in(events: Seq<PatternEvent>, order: Seq<usize>, ord: Seq<EventView>, len: int, k: int)
    requires
        order.map_values(|m: usize| events[m as int]@) == ord,
        0 <= k,
        0 <= len,
        k + len <= ord.len(),
    ensures
        window_in(events, order, len, k) == window(ord, len, k),
{
    assert forall|j: int| 0 <= j < len implies window_in(events, order, len, k)[j] == window(
        ord,
        len,
        k,
    )[j] by {
        assert(ord[k + j] == events[order[k + j] as int]@);
    }
    assert(window_in(events, order, len, k) =~= window(ord, len, k));
}

/// Within a run of equal keys in a sorted rearrangement, every position with
/// that key occurs.
proof fn lemma_run_holds_all(
    q: Seq<usize>,
    key: spec_fn(int) -> Seq<TokenView>,
    g0: int,
    g1: int,
    k: int,
)
    requires
        q.len() <= usize::MAX,
        forall|x: int| 0 <= x < q.len() ==> #[trigger] q.contains(x as usize),
        forall|a: int, b: int|
            0 <= a < b < q.len() ==> tokens_lt(key(#[trigger] q[a] as int), key(#[trigger] q[b] as int))
                || key(q[a] as int) == key(q[b] as int),
        0 <= g0 < g1 <= q.len(),
        forall|t: int| g0 <= t < g1 ==> key(#[trigger] q[t] as int) == key(q[g0] as int),
        g0 > 0 ==> key(q[g0 - 1] as int) != key(q[g0] as int),
        g1 < q.len() ==> key(q[g1] as int) != key(q[g0] as int),
        0 <= k < q.len(),
        key(k) == key(q[g0] as int),
    ensures
        exists|t: int| g0 <= t < g1 && q[t] == k as usize,
{
    assert(q.contains(k as usize));
    let t = choose|t: int| 0 <= t < q.len() && q[t] == k as usize;
    let w = key(q[g0] as int);
    if t < g0 {
        let u = key(q[g0 - 1] as int);
        lemma_tokens_lt_facts(w, u, w);
        assert(key(q[t] as int) == w);
        if t < g0 - 1 {
            assert(tokens_lt(key(q[t] as int), key(q[g0 - 1] as int)) || key(q[t] as int) == key(q[g0 - 1] as int));
        }
        assert(tokens_lt(key(q[g0 - 1] as int), key(q[g0] as int)) || key(q[g0 - 1] as int) == key(q[g0] as int));
        assert(false);
    } else if t >= g1 {
        let u = key(q[g1] as int);
        lemma_tokens_lt_facts(w, u, w);
        assert(key(q[t] as int) == w);
        if t > g1 {
            assert(tokens_lt(key(q[g1] as int), key(q[t] as int)) || key(q[g1] as int) == key(q[t] as int));
        }
        assert(tokens_lt(key(q[g0] as int), key(q[g1] as int)) || key(q[g0] as int) == key(q[g1] as int));
        assert(false);
    }
}

/// The increasing positions of the windows holding `key` give its count and
/// its start times.
proof fn lemma_run_starts(ord: Seq<EventView>, len: int, key: Seq<TokenView>, s: Seq<usize>, m: nat)
    requires
        m <= usize::MAX,
        forall|a: int, b: int| 0 <= a < b < s.len() ==> #[trigger] s[a] < #[trigger] s[b],
        forall|t: int| 0 <= t < s.len() ==> #[trigger] s[t] < m,
        forall|k: int| 0 <= k < m ==> (window(ord, len, k) == key <==> #[trigger] s.contains(k as usize)),
    ensures
        s.len() == window_count(ord, len, key, m),
        s.map_values(|k: usize| ord[k as int].timestamp_ms) == window_starts(ord, len, key, m),
    decreases m,
{
    let f = |k: usize| ord[k as int].timestamp_ms;
    if m == 0 {
        if s.len() > 0 {
            assert(s[0] < 0);
        }
        assert(s.map_values(f) =~= Seq::<u64>::empty());
    } else {
        let last = (m - 1) as usize;
        if window(ord, len, m - 1) == key {
            assert(s.contains(last));
            let t = choose|t: int| 0 <= t < s.len() && s[t] == last;
            if t < s.len() - 1 {
                assert(s[t] < s[t + 1]);
                assert(s[t + 1] < m);
            }
            assert(t == s.len() - 1);
            let s1 = s.drop_last();
            assert forall|k: int| 0 <= k < m - 1 implies (window(ord, len, k) == key <==> #[trigger] s1.contains(
                k as usize,
            )) by {
                if s.contains(k as usize) {
                    let u = choose|u: int| 0 <= u < s.len() && s[u] == k as usize;
                    assert(u != s.len() - 1);
                    assert(s1[u] == k as usize);
                }
                if s1.contains(k as usize) {
                    let u = choose|u: int| 0 <= u < s1.len() && s1[u] == k as usize;
                    assert(s[u] == k as usize);
                }
            }
            assert forall|u: int| 0 <= u < s1.len() implies #[trigger] s1[u] < m - 1 by {
                assert(s[u] < s[s.len() - 1]);
            }
            lemma_run_starts(ord, len, key, s1, (m - 1) as nat);
            assert(s =~= s1.push(last));
            assert(f(last) == ord[m - 1].timestamp_ms);
            assert(s.map_values(f) =~= s1.map_values(f).push(ord[m - 1].timestamp_ms));
        } else {
            assert forall|u: int| 0 <= u < s.len() implies #[trigger] s[u] < m - 1 by {
                assert(s.contains(s[u]));
                if s[u] == m - 1 {
                    assert(s.contains(last));
                }
            }
            lemma_run_starts(ord, len, key, s, (m - 1) as nat);
        }
    }
}

/// The end of the run of windows equal to the one at `q[g0]`.
fn run_end(events: &[PatternEvent], order: &[usize], len: usize, total: usize, q: &Vec<usize>, g0: usize) -> (g1: usize)
    requires
        windows_readable(events@, order@, len as int, total as int),
        q.len() == total,
        within(q@, 0, total as int),
        g0 < total,
    ensures
        g0 < g1 <= total,
        forall|t: int| g0 <= t < g1 ==> window_in(events@, order@, len as int, #[trigger] q@[t] as int)
            == window_in(events@, order@, len as int, q@[g0 as int] as int),
        g1 < total ==> window_in(events@, order@, len as int, q@[g1 as int] as int) != window_in(
            events@,
            order@,
            len as int,
            q@[g0 as int] as int,
        ),
{
    let mut g1 = g0 + 1;
    while g1 < total
        invariant
            windows_readable(events@, order@, len as int, total as int),
            q.len() == total,
            within(q@, 0, total as int),
            g0 < g1 <= total,
            forall|t: int| g0 <= t < g1 ==> window_in(events@, order@, len as int, #[trigger] q@[t] as int)
                == window_in(events@, order@, len as int, q@[g0 as int] as int),
        decreases total - g1,
    {
        assert(q@[g0 as int] < total && q@[g1 as int] < total);
        if compare_windows(events, order, len, total, q[g0], q[g1]) != Order::Equal {
            return g1;
        }
        g1 += 1;
    }
    g1
}

/// The tokens of the window at `k`.
fn window_tokens(events: &[PatternEvent], order: &[usize], len: usize, total: usize, k: usize) -> (r: Vec<PatternToken>)
    requires
        windows_readable(events@, order@, len as int, total as int),
        k < total,
    ensures
        token_views(r@) == window_in(events@, order@, len as int, k as int),
{
    let mut r: Vec<PatternToken> = Vec::new();
    let mut j: usize = 0;
    while j < len
        invariant
            windows_readable(events@, order@, len as int, total as int),
            k < total,
            j <= len,
            token_views(r@) =~= window_in(events@, order@, len as int, k as int).take(j as int),
        decreases len - j,
    {
        assert(k + j < order@.len());
        assert(order@.len() == order.len());
        let ghost before = r@;
        let t = events[order[k + j]].token.clone_token();
        assert(t@ == window_in(events@, order@, len as int, k as int)[j as int]);
        r.push(t);
        proof {
            assert(r@ =~= before.push(t));
            assert(token_views(r@) =~= token_views(before).push(t@));
            assert(token_views(r@) =~= window_in(events@, order@, len as int, k as int).take(j + 1));
        }
        j += 1;
    }
    r
}

/// The positions of the windows, sorted by tokens and then by position.
spec fn sorted_windows(q: Seq<usize>, ord: Seq<EventView>, len: int, total: int) -> bool {
    &&& q.len() == total
    &&& within(q, 0, total)
    &&& q.no_duplicates()
    &&& forall|x: int| 0 <= x < total ==> #[trigger] q.contains(x as usize)
    &&& forall|a: int, b: int|
        0 <= a < b < q.len() ==> tokens_lt(
            window(ord, len, #[trigger] q[a] as int),
            window(ord, len, #[trigger] q[b] as int),
        ) || (window(ord, len, q[a] as int) == window(ord, len, q[b] as int) && q[a] <= q[b])
}

fn copy_times(v: &Vec<u64>) -> (r: Vec<u64>)
    ensures
        r@ == v@,
{
    let mut r: Vec<u64> = Vec::new();
    let mut i: usize = 0;
    while i < v.len()
        invariant
            i <= v.len(),
            r@ =~= v@.take(i as int),
        decreases v.len() - i,
    {
        r.push(v[i]);
        i += 1;
        proof {
            assert(r@ =~= v@.take(i as int));
        }
    }
    proof {
        assert(v@.take(i as int) =~= v@);
    }
    r
}

impl PatternEngine {
    /// The token sequences of `sequence_len` consecutive events (in time
    /// order, ties broken by token) that occur at least `min_occurrences`
    /// times, with their counts and start times: most frequent first, equally
    /// frequent ones in token order.
    pub fn detect_sequences(&self, events: &[PatternEvent], sequence_len: usize, min_occurrences: usize) -> (r:
        Result<Vec<RecurringPattern>, SdkError>)
        ensures
            ({
                let views = event_views(events@);
                let served = request_ok(self.spec_max_events(), views, min_occurrences);
                let len_ok = 2 <= sequence_len <= self.spec_max_sequence_len();
                &&& r is Ok <==> served && len_ok
                &&& r matches Err(e) ==> if !served {
                    request_error(self.spec_max_events(), views, min_occurrences, e)
                } else {
                    e matches SdkError::InvalidArgument(m) && m@
                        == "sequence_len is outside configured limits"@
                }
                &&& r matches Ok(found) ==> recurring_sequences(
                    ordered_views(views),
                    sequence_len as int,
                    min_occurrences as nat,
                    sequence_views(found@),
                )
            }),
    {
        broadcast use group_to_multiset_ensures;

        self.validate_request(events, min_occurrences)?;
        if sequence_len < 2 || sequence_len > self.max_sequence_len {
            return Err(
                SdkError::InvalidArgument(
                    String::from_str("sequence_len is outside configured limits"),
                ),
            );
        }
        let ghost views = event_views(events@);
        let ghost ord = ordered_views(views);
        let n = events.len();
        if n < sequence_len {
            let found: Vec<RecurringPattern> = Vec::new();
            proof {
                lemma_event_order_total();
                views.lemma_sort_by_ensures(event_order());
                assert(ord.to_multiset().len() == views.to_multiset().len());
                assert(ord.len() == views.len());
                assert(sequence_views(found@) =~= Seq::<SequenceView>::empty());
            }
            return Ok(found);
        }
        let p = order_events(events);
        let len = sequence_len;
        let total = n - len + 1;
        let order = p.as_slice();
        let wo = WindowOrder { events, order, len, total };
        proof {
            assert(ord.len() == n);
            assert(windows_readable(events@, order@, len as int, total as int));
            assert(wo.domain() == total);
        }
        let q = sort_positions(&wo, 0, total);
        proof {
            lemma_rearranged_positions(q@, 0, total as int);
            assert forall|k: int| 0 <= k < total implies #[trigger] window_in(
                events@,
                order@,
                len as int,
                k,
            ) == window(ord, len as int, k) by {
                lemma_window_in(events@, order@, ord, len as int, k);
            }
            assert forall|a: int, b: int| 0 <= a < b < q@.len() implies tokens_lt(
                window(ord, len as int, #[trigger] q@[a] as int),
                window(ord, len as int, #[trigger] q@[b] as int),
            ) || (window(ord, len as int, q@[a] as int) == window(ord, len as int, q@[b] as int)
                && q@[a] <= q@[b]) by {
                assert(wo.before(q@[a] as int, q@[b] as int));
                assert(wo.key(q@[a] as int) == window_in(events@, order@, len as int, q@[a] as int));
                assert(wo.key(q@[b] as int) == window_in(events@, order@, len as int, q@[b] as int));
            }
            assert(sorted_windows(q@, ord, len as int, total as int));
        }
        let mut reps: Vec<usize> = Vec::new();
        let mut counts: Vec<usize> = Vec::new();
        let mut starts: Vec<Vec<u64>> = Vec::new();
        let mut g0: usize = 0;
        while g0 < total
            invariant
                sorted_windows(q@, ord, len as int, total as int),
                windows_readable(events@, order@, len as int, total as int),
                p@.map_values(|k: usize| events@[k as int]@) == ord,
                order@ == p@,
                ord.len() == n,
                n == events.len(),
                total == n - len + 1,
                len >= 2,
                forall|k: int| 0 <= k < total ==> #[trigger] window_in(events@, order@, len as int, k)
                    == window(ord, len as int, k),
                g0 <= total,
                0 < g0 < total ==> window(ord, len as int, q@[g0 - 1] as int) != window(
                    ord,
                    len as int,
                    q@[g0 as int] as int,
                ),
                reps.len() == counts.len(),
                reps.len() == starts.len(),
                forall|i: int|
                    0 <= i < reps.len() ==> {
                        let w = window(ord, len as int, #[trigger] reps@[i] as int);
                        &&& reps@[i] < total
                        &&& counts@[i] == window_count(ord, len as int, w, total as nat)
                        &&& counts@[i] >= min_occurrences
                        &&& starts@[i]@ == window_starts(ord, len as int, w, total as nat)
                    },
                forall|i: int, j: int|
                    0 <= i < j < reps.len() ==> tokens_lt(
                        window(ord, len as int, #[trigger] reps@[i] as int),
                        window(ord, len as int, #[trigger] reps@[j] as int),
                    ),
                g0 < total ==> forall|i: int|
                    0 <= i < reps.len() ==> tokens_lt(
                        window(ord, len as int, #[trigger] reps@[i] as int),
                        window(ord, len as int, q@[g0 as int] as int),
                    ),
                forall|t: int|
                    0 <= t < g0 && window_count(
                        ord,
                        len as int,
                        window(ord, len as int, #[trigger] q@[t] as int),
                        total as nat,
                    ) >= min_occurrences ==> exists|i: int|
                        0 <= i < reps.len() && window(ord, len as int, reps@[i] as int) == window(
                            ord,
                            len as int,
                            q@[t] as int,
                        ),
            decreases total - g0,
        {
            let ghost old_reps = reps@;
            let g1 = run_end(events, order, len, total, &q, g0);
            let ghost w = window(ord, len as int, q@[g0 as int] as int);
            let ghost s = q@.subrange(g0 as int, g1 as int);
            proof {
                assert forall|t: int| g0 <= t < g1 implies window(ord, len as int, #[trigger] q@[t] as int)
                    == w by {
                    assert(window_in(events@, order@, len as int, q@[t] as int) == window_in(
                        events@,
                        order@,
                        len as int,
                        q@[g0 as int] as int,
                    ));
                }
                if g1 < total {
                    assert(window_in(events@, order@, len as int, q@[g1 as int] as int) != window_in(
                        events@,
                        order@,
                        len as int,
                        q@[g0 as int] as int,
                    ));
                    lemma_tokens_lt_facts(w, window(ord, len as int, q@[g1 as int] as int), w);
                }
                assert forall|a: int, b: int| 0 <= a < b < s.len() implies #[trigger] s[a] < #[trigger] s[b] by {
                    assert(window(ord, len as int, q@[g0 + a] as int) == w);
                    assert(window(ord, len as int, q@[g0 + b] as int) == w);
                    lemma_tokens_lt_facts(w, w, w);
                    assert(q@[g0 + a] != q@[g0 + b]);
                }
                assert forall|k: int| 0 <= k < total implies (window(ord, len as int, k) == w
                    <==> #[trigger] s.contains(k as usize)) by {
                    if window(ord, len as int, k) == w {
                        lemma_run_holds_all(q@, |x: int| window(ord, len as int, x), g0 as int, g1 as int, k);
                        let t = choose|t: int| g0 <= t < g1 && q@[t] == k as usize;
                        assert(s[t - g0] == k as usize);
                    }
                    if s.contains(k as usize) {
                        let u = choose|u: int| 0 <= u < s.len() && s[u] == k as usize;
                        assert(q@[g0 + u] == k as usize);
                    }
                }
                assert forall|t: int| 0 <= t < s.len() implies #[trigger] s[t] < total by {
                    assert(q@.contains(q@[g0 + t]));
                }
                lemma_run_starts(ord, len as int, w, s, total as nat);
            }
            let size = g1 - g0;
            if size >= min_occurrences {
                let mut sv: Vec<u64> = Vec::new();
                let mut t = g0;
                while t < g1
                    invariant
                        p@.map_values(|k: usize| events@[k as int]@) == ord,
                        ord.len() == n,
                        p@.len() == n,
                        within(p@, 0, n as int),
                        n == events.len(),
                        within(q@, 0, total as int),
                        q@.len() == total,
                        total <= n,
                        g0 <= t <= g1,
                        g1 <= total,
                        sv@ =~= q@.subrange(g0 as int, t as int).map_values(
                            |k: usize| ord[k as int].timestamp_ms,
                        ),
                    decreases g1 - t,
                {
                    let k = q[t];
                    assert(k < total);
                    let e = &events[p[k]];
                    assert(e@ == ord[k as int]);
                    sv.push(e.timestamp_ms);
                    t += 1;
                    proof {
                        assert(sv@ =~= q@.subrange(g0 as int, t as int).map_values(
                            |k: usize| ord[k as int].timestamp_ms,
                        ));
                    }
                }
                let ghost old_len = reps.len();
                reps.push(q[g0]);
                counts.push(size);
                starts.push(sv);
                proof {
                    assert(window(ord, len as int, reps@[old_len as int] as int) == w);
                }
            }
            proof {
                assert(s.len() == size);
                assert(old_reps.len() <= reps.len());
                assert(forall|i: int| 0 <= i < old_reps.len() ==> reps@[i] == old_reps[i]);
                assert(size >= min_occurrences ==> reps.len() > 0 && window(
                    ord,
                    len as int,
                    reps@[reps.len() - 1] as int,
                ) == w);
                assert forall|t: int|
                    0 <= t < g1 && window_count(
                        ord,
                        len as int,
                        window(ord, len as int, #[trigger] q@[t] as int),
                        total as nat,
                    ) >= min_occurrences implies exists|i: int|
                    0 <= i < reps.len() && window(ord, len as int, reps@[i] as int) == window(
                        ord,
                        len as int,
                        q@[t] as int,
                    ) by {
                    if t >= g0 {
                        assert(window(ord, len as int, q@[t] as int) == w);
                        assert(window(ord, len as int, reps@[reps.len() - 1] as int) == w);
                    } else {
                        let i = choose|i: int|
                            0 <= i < old_reps.len() && window(ord, len as int, old_reps[i] as int)
                                == window(ord, len as int, q@[t] as int);
                        assert(reps@[i] == old_reps[i]);
                    }
                }
                if g1 < total {
                    let next = window(ord, len as int, q@[g1 as int] as int);
                    assert(window(ord, len as int, q@[g1 - 1] as int) == w);
                    assert forall|i: int| 0 <= i < reps.len() implies tokens_lt(
                        window(ord, len as int, #[trigger] reps@[i] as int),
                        next,
                    ) by {
                        let wi = window(ord, len as int, reps@[i] as int);
                        lemma_tokens_lt_facts(wi, w, next);
                    }
                }
            }
            g0 = g1;
        }
        let co = CountOrder { counts: counts.as_slice() };
        let r = sort_positions(&co, 0, counts.len());
        proof {
            lemma_rearranged_positions(r@, 0, counts.len() as int);
        }
        let mut found: Vec<RecurringPattern> = Vec::new();
        let mut t: usize = 0;
        while t < r.len()
            invariant
                r.len() == counts.len(),
                within(r@, 0, counts.len() as int),
                reps.len() == counts.len(),
                reps.len() == starts.len(),
                windows_readable(events@, order@, len as int, total as int),
                forall|k: int| 0 <= k < total ==> #[trigger] window_in(events@, order@, len as int, k)
                    == window(ord, len as int, k),
                forall|i: int| 0 <= i < reps.len() ==> #[trigger] reps@[i] < total,
                t <= r.len(),
                found.len() == t,
                forall|u: int|
                    0 <= u < t ==> #[trigger] found@[u]@ == (SequenceView {
                        tokens: window(ord, len as int, reps@[r@[u] as int] as int),
                        occurrences: counts@[r@[u] as int] as nat,
                        starts: starts@[r@[u] as int]@,
                    }),
            decreases r.len() - t,
        {
            let i = r[t];
            let tokens = window_tokens(events, order, len, total, reps[i]);
            let times = copy_times(&starts[i]);
            found.push(
                RecurringPattern { tokens, occurrences: counts[i], occurrence_starts_ms: times },
            );
            t += 1;
        }
        proof {
            let fv = sequence_views(found@);
            let tw = window_total(ord.len() as int, len as int);
            assert(tw == total);
            assert forall|u: int| 0 <= u < fv.len() implies {
                let f = #[trigger] fv[u];
                &&& exists|k: int| 0 <= k < tw && window(ord, len as int, k) == f.tokens
                &&& f.occurrences == window_count(ord, len as int, f.tokens, tw as nat)
                &&& f.occurrences >= min_occurrences
                &&& f.starts == window_starts(ord, len as int, f.tokens, tw as nat)
            } by {
                assert(fv[u] == found@[u]@);
                let i = r@[u] as int;
                assert(0 <= i < reps.len());
                assert(reps@[i] < total);
            }
            assert forall|k: int|
                0 <= k < tw && window_count(ord, len as int, #[trigger] window(ord, len as int, k), tw as nat)
                    >= min_occurrences implies exists|u: int|
                0 <= u < fv.len() && fv[u].tokens == window(ord, len as int, k) by {
                assert(q@.contains(k as usize));
                let t0 = choose|t0: int| 0 <= t0 < q@.len() && q@[t0] == k as usize;
                assert(window_count(ord, len as int, window(ord, len as int, q@[t0] as int), total as nat) >= min_occurrences);
                let i = choose|i: int|
                    0 <= i < reps.len() && window(ord, len as int, reps@[i] as int) == window(
                        ord,
                        len as int,
                        q@[t0] as int,
                    );
                assert(r@.contains(i as usize));
                let u = choose|u: int| 0 <= u < r@.len() && r@[u] == i as usize;
                assert(fv[u] == found@[u]@);
            }
            assert forall|a: int, b: int| 0 <= a < b < fv.len() implies sequence_before(
                #[trigger] fv[a],
                #[trigger] fv[b],
            ) by {
                assert(fv[a] == found@[a]@);
                assert(fv[b] == found@[b]@);
                assert(co.before(r@[a] as int, r@[b] as int));
                assert(r@[a] != r@[b]);
                if r@[a] < r@[b] {
                    assert(tokens_lt(
                        window(ord, len as int, reps@[r@[a] as int] as int),
                        window(ord, len as int, reps@[r@[b] as int] as int),
                    ));
                }
            }
        }
        Ok(found)
    }
}

// ---------------------------------------------------------- co-occurrence

/// The time bucket of an event: its timestamp divided by the bucket width.
pub open spec fn bucket_of(e: EventView, bucket_ms: u64) -> int {
    (e.timestamp_ms / bucket_ms) as int
}

/// Some event of `ord` in bucket `b` carries the token `t`.
pub open spec fn bucket_has(ord: Seq<EventView>, bucket_ms: u64, b: int, t: TokenView) -> bool {
    exists|i: int| 0 <= i < ord.len() && bucket_of(#[trigger] ord[i], bucket_ms) == b && ord[i].token == t
}

/// The event at `k` is the first of its bucket.
pub open spec fn opens_bucket(ord: Seq<EventView>, bucket_ms: u64, k: int) -> bool {
    k == 0 || bucket_of(ord[k - 1], bucket_ms) != bucket_of(ord[k], bucket_ms)
}

/// Of the buckets opened among the first `m` events, how many hold both `l`
/// and `r`.
pub open spec fn pair_count(ord: Seq<EventView>, bucket_ms: u64, l: TokenView, r: TokenView, m: nat) -> nat
    decreases m,
{
    if m == 0 {
        0
    } else {
        let b = bucket_of(ord[m - 1], bucket_ms);
        pair_count(ord, bucket_ms, l, r, (m - 1) as nat) + if opens_bucket(ord, bucket_ms, m - 1)
            && bucket_has(ord, bucket_ms, b, l) && bucket_has(ord, bucket_ms, b, r) {
            1nat
        } else {
            0nat
        }
    }
}

proof fn lemma_pair_count_bound(ord: Seq<EventView>, bucket_ms: u64, l: TokenView, r: TokenView, m: nat)
    ensures
        pair_count(ord, bucket_ms, l, r, m) <= m,
    decreases m,
{
    if m > 0 {
        lemma_pair_count_bound(ord, bucket_ms, l, r, (m - 1) as nat);
    }
}

/// Inside a bucket no new bucket opens, so the count stays.
proof fn lemma_pair_count_flat(ord: Seq<EventView>, bucket_ms: u64, l: TokenView, r: TokenView, lo: nat, hi: nat)
    requires
        lo <= hi <= ord.len(),
        forall|k: int| lo <= k < hi ==> !opens_bucket(ord, bucket_ms, k),
    ensures
        pair_count(ord, bucket_ms, l, r, hi) == pair_count(ord, bucket_ms, l, r, lo),
    decreases hi - lo,
{
    if hi > lo {
        lemma_pair_count_flat(ord, bucket_ms, l, r, lo, (hi - 1) as nat);
    }
}

/// Pairs of tokens are ordered by their left token, then their right one.
pub open spec fn pair_lt(a: (TokenView, TokenView), b: (TokenView, TokenView)) -> bool {
    token_lt(a.0, b.0) || (a.0 == b.0 && token_lt(a.1, b.1))
}

proof fn lemma_pair_lt_facts(a: (TokenView, TokenView), b: (TokenView, TokenView), c: (TokenView, TokenView))
    ensures
        !pair_lt(a, a),
        !(pair_lt(a, b) && pair_lt(b, a)),
        pair_lt(a, b) && pair_lt(b, c) ==> pair_lt(a, c),
        a == b || pair_lt(a, b) || pair_lt(b, a),
{
    lemma_token_lt_facts(a.0, b.0, c.0);
    lemma_token_lt_facts(a.1, b.1, c.1);
}

/// Positions of the ordered events, ordered by their tokens.
struct TokenOrder<'a> {
    events: &'a [PatternEvent],
    order: &'a [usize],
}

impl<'a> TokenOrder<'a> {
    spec fn tok(&self, k: int) -> TokenView {
        self.events@[self.order@[k] as int]@.token
    }
}

impl<'a> PositionOrder for TokenOrder<'a> {
    closed spec fn domain(&self) -> nat {
        if within(self.order@, 0, self.events@.len() as int) {
            self.order@.len()
        } else {
            0
        }
    }

    closed spec fn before(&self, i: int, j: int) -> bool {
        self.tok(i) == self.tok(j) || token_lt(self.tok(i), self.tok(j))
    }

    proof fn lemma_total_preorder(&self) {
        assert forall|i: int, j: int, k: int|
            0 <= i < self.domain() && 0 <= j < self.domain() && 0 <= k < self.domain()
                && #[trigger] self.before(i, j) && #[trigger] self.before(j, k) implies self.before(
            i,
            k,
        ) by {
            lemma_token_lt_facts(self.tok(i), self.tok(j), self.tok(k));
        }
        assert forall|i: int, j: int|
            0 <= i < self.domain() && 0 <= j < self.domain() implies #[trigger] self.before(i, j)
            || self.before(j, i) by {
            lemma_token_lt_facts(self.tok(i), self.tok(j), self.tok(j));
        }
    }

    fn precedes(&self, i: usize, j: usize) -> (r: bool) {
        match compare_tokens(&self.events[self.order[i]].token, &self.events[self.order[j]].token) {
            Order::Greater => false,
            _ => true,
        }
    }
}

/// Some event at positions `lo..hi` of `ord` carries `t`.
pub open spec fn occurs_between(ord: Seq<EventView>, lo: int, hi: int, t: TokenView) -> bool {
    exists|k: int| lo <= k < hi && #[trigger] ord[k].token == t
}

/// Some position listed in `d` holds an event of `ord` that carries `t`.
pub open spec fn listed(ord: Seq<EventView>, d: Seq<usize>, t: TokenView) -> bool {
    exists|a: int| 0 <= a < d.len() && #[trigger] ord[d[a] as int].token == t
}

/// The distinct tokens of the ordered events at positions `lo..hi`, each
/// given by one position, in increasing token order.
fn distinct_tokens(events: &[PatternEvent], order: &[usize], lo: usize, hi: usize, Ghost(ord): Ghost<Seq<EventView>>) -> (d: Vec<usize>)
    requires
        within(order@, 0, events@.len() as int),
        order@.map_values(|m: usize| events@[m as int]@) == ord,
        lo < hi <= order@.len(),
    ensures
        within(d@, lo as int, hi as int),
        strictly_by_token(ord, d@),
        forall|t: TokenView|
            #![trigger occurs_between(ord, lo as int, hi as int, t)]
            #![trigger listed(ord, d@, t)]
            occurs_between(ord, lo as int, hi as int, t) == listed(ord, d@, t),
{
    let o = TokenOrder { events, order };
    let s = sort_positions(&o, lo, hi);
    proof {
        lemma_rearranged_positions(s@, lo as int, hi as int);
        assert forall|k: int| 0 <= k < order@.len() implies #[trigger] o.tok(k) == ord[k].token by {}
        assert forall|a: int, b: int| 0 <= a < b < s@.len() implies #[trigger] token_le(
            ord[s@[a] as int].token,
            ord[s@[b] as int].token,
        ) by {
            assert(o.before(s@[a] as int, s@[b] as int));
        }
    }
    let mut d: Vec<usize> = Vec::new();
    d.push(s[0]);
    proof {
        assert forall|tk: TokenView| #[trigger] listed(ord, d@, tk) == seen_in(ord, s@, 1, tk) by {
            if listed(ord, d@, tk) {
                assert(ord[s@[0] as int].token == tk);
            }
            if seen_in(ord, s@, 1, tk) {
                assert(ord[d@[0] as int].token == tk);
            }
        }
    }
    let mut t: usize = 1;
    while t < s.len()
        invariant
            within(order@, 0, events@.len() as int),
            order@.map_values(|m: usize| events@[m as int]@) == ord,
            lo < hi <= order@.len(),
            s.len() == hi - lo,
            within(s@, lo as int, hi as int),
            forall|a: int, b: int| 0 <= a < b < s@.len() ==> #[trigger] token_le(
                ord[s@[a] as int].token,
                ord[s@[b] as int].token,
            ),
            1 <= t <= s.len(),
            d.len() >= 1,
            within(d@, lo as int, hi as int),
            strictly_by_token(ord, d@),
            ord[d@.last() as int].token == ord[s@[t - 1] as int].token,
            forall|tk: TokenView| #[trigger] listed(ord, d@, tk) == seen_in(ord, s@, t as int, tk),
        decreases s.len() - t,
    {
        let prev = s[t - 1];
        let cur = s[t];
        assert(order@.len() == order.len());
        let c = compare_tokens(&events[order[prev]].token, &events[order[cur]].token);
        proof {
            assert(ord[prev as int] == events@[order@[prev as int] as int]@);
            assert(ord[cur as int] == events@[order@[cur as int] as int]@);
            assert(token_le(ord[s@[t - 1] as int].token, ord[s@[t as int] as int].token));
        }
        if c != Order::Equal {
            let ghost old_d = d@;
            d.push(cur);
            proof {
                lemma_push_distinct(ord, old_d, cur, s@, t as int);
            }
        } else {
            proof {
                assert forall|tk: TokenView| #[trigger] listed(ord, d@, tk) == seen_in(ord, s@, t + 1, tk) by {
                    if seen_in(ord, s@, t + 1, tk) && !seen_in(ord, s@, t as int, tk) {
                        assert(ord[s@[t as int] as int].token == tk);
                        assert(ord[d@[d.len() - 1] as int].token == tk);
                    }
                    if seen_in(ord, s@, t as int, tk) {
                        let u = choose|u: int| 0 <= u < t && #[trigger] ord[s@[u] as int].token == tk;
                        assert(0 <= u < t + 1 && ord[s@[u] as int].token == tk);
                    }
                }
            }
        }
        t += 1;
    }
    proof {
        assert forall|tk: TokenView|
            occurs_between(ord, lo as int, hi as int, tk) == listed(ord, d@, tk) by {
            if occurs_between(ord, lo as int, hi as int, tk) {
                let k = choose|k: int| lo <= k < hi && #[trigger] ord[k].token == tk;
                assert(s@.contains(k as usize));
                let u = choose|u: int| 0 <= u < s@.len() && s@[u] == k as usize;
                assert(ord[s@[u] as int].token == tk);
                assert(seen_in(ord, s@, t as int, tk));
            }
            if listed(ord, d@, tk) {
                assert(seen_in(ord, s@, t as int, tk));
                let u = choose|u: int| 0 <= u < t && #[trigger] ord[s@[u] as int].token == tk;
                assert(lo <= s@[u] < hi);
                assert(ord[s@[u] as int].token == tk);
            }
        }
    }
    d
}

pub open spec fn token_le(a: TokenView, b: TokenView) -> bool {
    a == b || token_lt(a, b)
}

/// The positions in `d` carry strictly increasing tokens.
pub open spec fn strictly_by_token(ord: Seq<EventView>, d: Seq<usize>) -> bool {
    forall|a: int, b: int|
        0 <= a < b < d.len() ==> token_lt(ord[#[trigger] d[a] as int].token, ord[#[trigger] d[b] as int].token)
}

/// One of the first `t` positions of `s` carries `tk`.
pub open spec fn seen_in(ord: Seq<EventView>, s: Seq<usize>, t: int, tk: TokenView) -> bool {
    exists|u: int| 0 <= u < t && #[trigger] ord[s[u] as int].token == tk
}

proof fn lemma_push_distinct(ord: Seq<EventView>, d: Seq<usize>, cur: usize, s: Seq<usize>, t: int)
    requires
        0 < t < s.len(),
        d.len() >= 1,
        strictly_by_token(ord, d),
        ord[d.last() as int].token == ord[s[t - 1] as int].token,
        token_le(ord[s[t - 1] as int].token, ord[s[t] as int].token),
        ord[s[t - 1] as int].token != ord[s[t] as int].token,
        cur == s[t],
        forall|tk: TokenView| #[trigger] listed(ord, d, tk) == seen_in(ord, s, t, tk),
    ensures
        strictly_by_token(ord, d.push(cur)),
        ord[d.push(cur).last() as int].token == ord[s[t] as int].token,
        forall|tk: TokenView| #[trigger] listed(ord, d.push(cur), tk) == seen_in(ord, s, t + 1, tk),
{
    let e = d.push(cur);
    let top = ord[cur as int].token;
    assert forall|a: int, b: int| 0 <= a < b < e.len() implies token_lt(
        ord[#[trigger] e[a] as int].token,
        ord[#[trigger] e[b] as int].token,
    ) by {
        if b == e.len() - 1 {
            if a < d.len() - 1 {
                assert(token_lt(ord[d[a] as int].token, ord[d[d.len() - 1] as int].token));
                lemma_token_lt_facts(ord[d[a] as int].token, ord[d.last() as int].token, top);
            }
        } else {
            assert(e[a] == d[a] && e[b] == d[b]);
        }
    }
    assert forall|tk: TokenView| #[trigger] listed(ord, e, tk) == seen_in(ord, s, t + 1, tk) by {
        if listed(ord, e, tk) {
            let a = choose|a: int| 0 <= a < e.len() && #[trigger] ord[e[a] as int].token == tk;
            if a < d.len() {
                assert(ord[d[a] as int].token == tk);
                assert(listed(ord, d, tk));
                let u = choose|u: int| 0 <= u < t && #[trigger] ord[s[u] as int].token == tk;
                assert(0 <= u < t + 1);
            } else {
                assert(ord[s[t] as int].token == tk);
            }
        }
        if seen_in(ord, s, t + 1, tk) {
            let u = choose|u: int| 0 <= u < t + 1 && #[trigger] ord[s[u] as int].token == tk;
            if u < t {
                assert(seen_in(ord, s, t, tk));
                assert(listed(ord, d, tk));
                let a = choose|a: int| 0 <= a < d.len() && #[trigger] ord[d[a] as int].token == tk;
                assert(e[a] == d[a]);
            } else {
                assert(e[e.len() - 1] == cur);
            }
        }
    }
}

/// The tokens of an entry of pair counts: its left and right positions.
pub open spec fn entry_key(ord: Seq<EventView>, e: (usize, usize, usize)) -> (TokenView, TokenView) {
    (ord[e.0 as int].token, ord[e.1 as int].token)
}

/// The count recorded for a pair, zero when it has none.
pub open spec fn tally(cnt: Map<(TokenView, TokenView), nat>, k: (TokenView, TokenView)) -> nat {
    if cnt.dom().contains(k) {
        cnt[k]
    } else {
        0
    }
}

/// The entries are strictly increasing by pair and hold exactly the counts
/// of `cnt`.
spec fn synced(ord: Seq<EventView>, entries: Seq<(usize, usize, usize)>, cnt: Map<(TokenView, TokenView), nat>) -> bool {
    &&& forall|i: int| 0 <= i < entries.len() ==> (#[trigger] entries[i]).0 < ord.len() && entries[i].1 < ord.len()
    &&& forall|i: int, j: int|
        0 <= i < j < entries.len() ==> pair_lt(
            entry_key(ord, #[trigger] entries[i]),
            entry_key(ord, #[trigger] entries[j]),
        )
    &&& forall|i: int|
        0 <= i < entries.len() ==> cnt.dom().contains(entry_key(ord, #[trigger] entries[i]))
            && cnt[entry_key(ord, entries[i])] == entries[i].2 && entries[i].2 > 0
    &&& forall|k: (TokenView, TokenView)|
        #[trigger] cnt.dom().contains(k) ==> exists|i: int|
            0 <= i < entries.len() && entry_key(ord, #[trigger] entries[i]) == k
}

fn compare_pairs(events: &[PatternEvent], order: &[usize], a: (usize, usize), b: (usize, usize), Ghost(ord): Ghost<Seq<EventView>>) -> (r: Order)
    requires
        within(order@, 0, events@.len() as int),
        order@.map_values(|m: usize| events@[m as int]@) == ord,
        a.0 < ord.len(),
        a.1 < ord.len(),
        b.0 < ord.len(),
        b.1 < ord.len(),
    ensures
        ({
            let ka = (ord[a.0 as int].token, ord[a.1 as int].token);
            let kb = (ord[b.0 as int].token, ord[b.1 as int].token);
            &&& (r == Order::Less) == pair_lt(ka, kb)
            &&& (r == Order::Equal) == (ka == kb)
            &&& (r == Order::Greater) == pair_lt(kb, ka)
        }),
{
    let ghost ka = (ord[a.0 as int].token, ord[a.1 as int].token);
    let ghost kb = (ord[b.0 as int].token, ord[b.1 as int].token);
    proof {
        lemma_pair_lt_facts(ka, kb, kb);
        assert(order@.len() == ord.len());
        assert(ord[a.0 as int] == events@[order@[a.0 as int] as int]@);
        assert(ord[a.1 as int] == events@[order@[a.1 as int] as int]@);
        assert(ord[b.0 as int] == events@[order@[b.0 as int] as int]@);
        assert(ord[b.1 as int] == events@[order@[b.1 as int] as int]@);
    }
    match compare_tokens(&events[order[a.0]].token, &events[order[b.0]].token) {
        Order::Less => Order::Less,
        Order::Greater => Order::Greater,
        Order::Equal => compare_tokens(&events[order[a.1]].token, &events[order[b.1]].token),
    }
}

/// Adds one to the count of the pair of tokens at positions `l` and `r`.
fn bump(
    events: &[PatternEvent],
    order: &[usize],
    entries: &mut Vec<(usize, usize, usize)>,
    l: usize,
    r: usize,
    Ghost(ord): Ghost<Seq<EventView>>,
    Ghost(cnt): Ghost<Map<(TokenView, TokenView), nat>>,
) -> (next: Ghost<Map<(TokenView, TokenView), nat>>)
    requires
        within(order@, 0, events@.len() as int),
        order@.map_values(|m: usize| events@[m as int]@) == ord,
        l < ord.len(),
        r < ord.len(),
        synced(ord, old(entries)@, cnt),
        tally(cnt, (ord[l as int].token, ord[r as int].token)) < ord.len(),
    ensures
        synced(ord, final(entries)@, next@),
        next@ == cnt.insert(
            (ord[l as int].token, ord[r as int].token),
            tally(cnt, (ord[l as int].token, ord[r as int].token)) + 1,
        ),
{
    let ghost key = (ord[l as int].token, ord[r as int].token);
    let ghost old_entries = entries@;
    let mut lo: usize = 0;
    let mut hi: usize = entries.len();
    while lo < hi
        invariant
            within(order@, 0, events@.len() as int),
            order@.map_values(|m: usize| events@[m as int]@) == ord,
            l < ord.len(),
            r < ord.len(),
            synced(ord, entries@, cnt),
            key == (ord[l as int].token, ord[r as int].token),
            tally(cnt, key) < ord.len(),
            entries@ == old_entries,
            lo <= hi <= entries.len(),
            forall|i: int| 0 <= i < lo ==> pair_lt(entry_key(ord, #[trigger] entries@[i]), key),
            forall|i: int| hi <= i < entries.len() ==> pair_lt(key, entry_key(ord, #[trigger] entries@[i])),
        decreases hi - lo,
    {
        let mid = lo + (hi - lo) / 2;
        let e = entries[mid];
        assert(e == entries@[mid as int]);
        assert(entry_key(ord, e) == (ord[e.0 as int].token, ord[e.1 as int].token));
        let c = compare_pairs(events, order, (e.0, e.1), (l, r), Ghost(ord));
        match c {
            Order::Less => {
                proof {
                    assert forall|i: int| 0 <= i < mid + 1 implies pair_lt(entry_key(ord, #[trigger] entries@[i]), key) by {
                        if i < mid {
                            assert(pair_lt(entry_key(ord, entries@[i]), entry_key(ord, entries@[mid as int])));
                            lemma_pair_lt_facts(entry_key(ord, entries@[i]), entry_key(ord, entries@[mid as int]), key);
                        }
                    }
                }
                lo = mid + 1;
            },
            Order::Greater => {
                proof {
                    assert forall|i: int| mid <= i < entries.len() implies pair_lt(key, entry_key(ord, #[trigger] entries@[i])) by {
                        if i > mid {
                            assert(pair_lt(entry_key(ord, entries@[mid as int]), entry_key(ord, entries@[i])));
                            lemma_pair_lt_facts(key, entry_key(ord, entries@[mid as int]), entry_key(ord, entries@[i]));
                        }
                    }
                }
                hi = mid;
            },
            Order::Equal => {
                let ghost next = cnt.insert(key, tally(cnt, key) + 1);
                proof {
                    assert(cnt.dom().contains(key));
                    assert(e.2 == cnt[key]);
                    assert(ord.len() == order@.len());
                    assert(order@.len() == order.len());
                }
                entries.set(mid, (e.0, e.1, e.2 + 1));
                proof {
                    assert forall|i: int| 0 <= i < entries@.len() implies next.dom().contains(entry_key(ord, #[trigger] entries@[i]))
                        && next[entry_key(ord, entries@[i])] == entries@[i].2 && entries@[i].2 > 0 by {
                        if i != mid {
                            assert(entries@[i] == old_entries[i]);
                            assert(pair_lt(entry_key(ord, old_entries[i]), key) || pair_lt(key, entry_key(ord, old_entries[i]))) by {
                                if i < mid {
                                    assert(pair_lt(entry_key(ord, old_entries[i]), entry_key(ord, old_entries[mid as int])));
                                } else {
                                    assert(pair_lt(entry_key(ord, old_entries[mid as int]), entry_key(ord, old_entries[i])));
                                }
                            }
                            lemma_pair_lt_facts(key, entry_key(ord, old_entries[i]), key);
                        }
                    }
                    assert forall|k: (TokenView, TokenView)| #[trigger] next.dom().contains(k) implies exists|i: int|
                        0 <= i < entries@.len() && entry_key(ord, #[trigger] entries@[i]) == k by {
                        if k == key {
                            assert(entry_key(ord, entries@[mid as int]) == k);
                        } else {
                            let i = choose|i: int| 0 <= i < old_entries.len() && entry_key(ord, #[trigger] old_entries[i]) == k;
                            assert(entry_key(ord, entries@[i]) == k);
                        }
                    }
                    assert forall|i: int, j: int| 0 <= i < j < entries@.len() implies pair_lt(
                        entry_key(ord, #[trigger] entries@[i]),
                        entry_key(ord, #[trigger] entries@[j]),
                    ) by {
                        assert(entry_key(ord, entries@[i]) == entry_key(ord, old_entries[i]));
                        assert(entry_key(ord, entries@[j]) == entry_key(ord, old_entries[j]));
                    }
                }
                return Ghost(next);
            },
        }
    }
    let ghost next = cnt.insert(key, 1);
    proof {
        if cnt.dom().contains(key) {
            let i = choose|i: int| 0 <= i < old_entries.len() && entry_key(ord, #[trigger] old_entries[i]) == key;
            if i < lo {
                lemma_pair_lt_facts(key, key, key);
            } else {
                lemma_pair_lt_facts(key, key, key);
            }
        }
        assert(tally(cnt, key) == 0);
    }
    entries.insert(lo, (l, r, 1));
    proof {
        assert(entry_key(ord, entries@[lo as int]) == key);
        assert forall|i: int| 0 <= i < entries@.len() implies (#[trigger] entries@[i]).0 < ord.len() && entries@[i].1 < ord.len() by {
            if i < lo {
                assert(entries@[i] == old_entries[i]);
            } else if i > lo {
                assert(entries@[i] == old_entries[i - 1]);
            }
        }
        assert forall|i: int| 0 <= i < entries@.len() implies next.dom().contains(entry_key(ord, #[trigger] entries@[i]))
            && next[entry_key(ord, entries@[i])] == entries@[i].2 && entries@[i].2 > 0 by {
            if i < lo {
                assert(entries@[i] == old_entries[i]);
                lemma_pair_lt_facts(key, key, key);
            } else if i > lo {
                assert(entries@[i] == old_entries[i - 1]);
                lemma_pair_lt_facts(key, key, key);
            }
        }
        assert forall|k: (TokenView, TokenView)| #[trigger] next.dom().contains(k) implies exists|i: int|
            0 <= i < entries@.len() && entry_key(ord, #[trigger] entries@[i]) == k by {
            if k == key {
                assert(entry_key(ord, entries@[lo as int]) == k);
            } else {
                let i = choose|i: int| 0 <= i < old_entries.len() && entry_key(ord, #[trigger] old_entries[i]) == k;
                if i < lo {
                    assert(entries@[i] == old_entries[i]);
                } else {
                    assert(entries@[i + 1] == old_entries[i]);
                }
            }
        }
        assert forall|i: int, j: int| 0 <= i < j < entries@.len() implies pair_lt(
            entry_key(ord, #[trigger] entries@[i]),
            entry_key(ord, #[trigger] entries@[j]),
        ) by {
            if i < lo && j < lo {
                assert(entries@[i] == old_entries[i] && entries@[j] == old_entries[j]);
            } else if i < lo && j == lo {
                assert(entries@[i] == old_entries[i]);
            } else if i < lo && j > lo {
                assert(entries@[i] == old_entries[i] && entries@[j] == old_entries[j - 1]);
                lemma_pair_lt_facts(entry_key(ord, old_entries[i]), key, entry_key(ord, old_entries[j - 1]));
            } else if i == lo {
                assert(entries@[j] == old_entries[j - 1]);
            } else {
                assert(entries@[i] == old_entries[i - 1] && entries@[j] == old_entries[j - 1]);
            }
        }
    }
    Ghost(next)
}

/// The end of the bucket that starts at `b0`.
fn bucket_end(events: &[PatternEvent], order: &[usize], bucket_ms: u64, b0: usize, Ghost(ord): Ghost<Seq<EventView>>) -> (b1: usize)
    requires
        within(order@, 0, events@.len() as int),
        order@.map_values(|m: usize| events@[m as int]@) == ord,
        b0 < ord.len(),
        bucket_ms > 0,
    ensures
        b0 < b1 <= ord.len(),
        forall|k: int| b0 <= k < b1 ==> bucket_of(#[trigger] ord[k], bucket_ms) == bucket_of(ord[b0 as int], bucket_ms),
        b1 < ord.len() ==> bucket_of(ord[b1 as int], bucket_ms) != bucket_of(ord[b0 as int], bucket_ms),
{
    assert(ord.len() == order@.len());
    assert(ord[b0 as int] == events@[order@[b0 as int] as int]@);
    let first = events[order[b0]].timestamp_ms / bucket_ms;
    let mut b1 = b0 + 1;
    while b1 < order.len()
        invariant
            within(order@, 0, events@.len() as int),
            order@.map_values(|m: usize| events@[m as int]@) == ord,
            ord.len() == order@.len(),
            b0 < b1 <= ord.len(),
            bucket_ms > 0,
            first == bucket_of(ord[b0 as int], bucket_ms),
            forall|k: int| b0 <= k < b1 ==> bucket_of(#[trigger] ord[k], bucket_ms) == bucket_of(ord[b0 as int], bucket_ms),
        decreases order.len() - b1,
    {
        assert(ord[b1 as int] == events@[order@[b1 as int] as int]@);
        if events[order[b1]].timestamp_ms / bucket_ms != first {
            return b1;
        }
        b1 += 1;
    }
    b1
}

/// Within time-ordered events, the bucket opened at `b0` and ending at `b1`
/// holds exactly the tokens of that range, and no bucket opens inside it.
proof fn lemma_bucket_range(ord: Seq<EventView>, bucket_ms: u64, b0: int, b1: int)
    requires
        forall|i: int, j: int| 0 <= i < j < ord.len() ==> (#[trigger] ord[i]).timestamp_ms <= (#[trigger] ord[j]).timestamp_ms,
        bucket_ms > 0,
        0 <= b0 < b1 <= ord.len(),
        opens_bucket(ord, bucket_ms, b0),
        forall|k: int| b0 <= k < b1 ==> bucket_of(#[trigger] ord[k], bucket_ms) == bucket_of(ord[b0], bucket_ms),
        b1 < ord.len() ==> bucket_of(ord[b1], bucket_ms) != bucket_of(ord[b0], bucket_ms),
    ensures
        forall|t: TokenView|
            #![trigger bucket_has(ord, bucket_ms, bucket_of(ord[b0], bucket_ms), t)]
            #![trigger occurs_between(ord, b0, b1, t)]
            bucket_has(ord, bucket_ms, bucket_of(ord[b0], bucket_ms), t) == occurs_between(ord, b0, b1, t),
        forall|k: int| b0 < k < b1 ==> !#[trigger] opens_bucket(ord, bucket_ms, k),
{
    let bb = bucket_of(ord[b0], bucket_ms);
    assert forall|t: TokenView| bucket_has(ord, bucket_ms, bb, t) == occurs_between(ord, b0, b1, t) by {
        if bucket_has(ord, bucket_ms, bb, t) {
            let i = choose|i: int| 0 <= i < ord.len() && bucket_of(#[trigger] ord[i], bucket_ms) == bb && ord[i].token == t;
            if i < b0 {
                let p = ord[b0 - 1];
                if i < b0 - 1 {
                    assert(ord[i].timestamp_ms <= p.timestamp_ms);
                }
                assert(p.timestamp_ms <= ord[b0].timestamp_ms);
                vstd::arithmetic::div_mod::lemma_div_is_ordered(ord[i].timestamp_ms as int, p.timestamp_ms as int, bucket_ms as int);
                vstd::arithmetic::div_mod::lemma_div_is_ordered(p.timestamp_ms as int, ord[b0].timestamp_ms as int, bucket_ms as int);
                assert(false);
            } else if i >= b1 {
                let p = ord[b1];
                if i > b1 {
                    assert(p.timestamp_ms <= ord[i].timestamp_ms);
                }
                assert(ord[b0].timestamp_ms <= p.timestamp_ms);
                vstd::arithmetic::div_mod::lemma_div_is_ordered(p.timestamp_ms as int, ord[i].timestamp_ms as int, bucket_ms as int);
                vstd::arithmetic::div_mod::lemma_div_is_ordered(ord[b0].timestamp_ms as int, p.timestamp_ms as int, bucket_ms as int);
                assert(false);
            }
            assert(ord[i].token == t);
        }
        if occurs_between(ord, b0, b1, t) {
            let k = choose|k: int| b0 <= k < b1 && #[trigger] ord[k].token == t;
            assert(bucket_of(ord[k], bucket_ms) == bb);
        }
    }
    assert forall|k: int| b0 < k < b1 implies !#[trigger] opens_bucket(ord, bucket_ms, k) by {
        assert(bucket_of(ord[k - 1], bucket_ms) == bb);
        assert(bucket_of(ord[k], bucket_ms) == bb);
    }
}

/// The count a pair of tokens should have after the buckets opened among the
/// first `m` events: pairs are counted in increasing order only.
pub open spec fn counted(ord: Seq<EventView>, bucket_ms: u64, l: TokenView, r: TokenView, m: nat) -> nat {
    if token_lt(l, r) {
        pair_count(ord, bucket_ms, l, r, m)
    } else {
        0
    }
}

/// The pairs of `d` visited before row `i`, column `j`.
spec fn done_pairs(ord: Seq<EventView>, d: Seq<usize>, i: int, j: int, l: TokenView, r: TokenView) -> bool {
    exists|a: int, b: int|
        #![trigger ord[d[a] as int], ord[d[b] as int]]
        0 <= a < b < d.len() && (a < i || (a == i && b < j)) && ord[d[a] as int].token == l
            && ord[d[b] as int].token == r
}

proof fn lemma_done_step(ord: Seq<EventView>, d: Seq<usize>, i: int, j: int)
    requires
        strictly_by_token(ord, d),
        0 <= i < j < d.len(),
    ensures
        !done_pairs(ord, d, i, j, ord[d[i] as int].token, ord[d[j] as int].token),
        forall|l: TokenView, r: TokenView|
            #[trigger] done_pairs(ord, d, i, j + 1, l, r) == (done_pairs(ord, d, i, j, l, r) || (l
                == ord[d[i] as int].token && r == ord[d[j] as int].token)),
{
    let (tl, tr) = (ord[d[i] as int].token, ord[d[j] as int].token);
    if done_pairs(ord, d, i, j, tl, tr) {
        let (a, b) = choose|a: int, b: int|
            #![trigger ord[d[a] as int], ord[d[b] as int]]
            0 <= a < b < d.len() && (a < i || (a == i && b < j)) && ord[d[a] as int].token == tl
                && ord[d[b] as int].token == tr;
        lemma_strict_index(ord, d, a, i);
        lemma_strict_index(ord, d, b, j);
    }
    assert forall|l: TokenView, r: TokenView|
        #[trigger] done_pairs(ord, d, i, j + 1, l, r) == (done_pairs(ord, d, i, j, l, r) || (l == tl
            && r == tr)) by {
        if done_pairs(ord, d, i, j + 1, l, r) && !(l == tl && r == tr) {
            let (a, b) = choose|a: int, b: int|
                #![trigger ord[d[a] as int], ord[d[b] as int]]
                0 <= a < b < d.len() && (a < i || (a == i && b < j + 1)) && ord[d[a] as int].token == l
                    && ord[d[b] as int].token == r;
            assert(!(a == i && b == j));
        }
        if l == tl && r == tr {
            assert(ord[d[i] as int].token == l && ord[d[j] as int].token == r);
        }
        if done_pairs(ord, d, i, j, l, r) {
            let (a, b) = choose|a: int, b: int|
                #![trigger ord[d[a] as int], ord[d[b] as int]]
                0 <= a < b < d.len() && (a < i || (a == i && b < j)) && ord[d[a] as int].token == l
                    && ord[d[b] as int].token == r;
            assert(ord[d[a] as int].token == l && ord[d[b] as int].token == r);
        }
    }
}

/// Strictly increasing tokens pick out their positions.
proof fn lemma_strict_index(ord: Seq<EventView>, d: Seq<usize>, a: int, b: int)
    requires
        strictly_by_token(ord, d),
        0 <= a < d.len(),
        0 <= b < d.len(),
        ord[d[a] as int].token == ord[d[b] as int].token,
    ensures
        a == b,
{
    if a < b {
        lemma_token_lt_facts(ord[d[a] as int].token, ord[d[a] as int].token, ord[d[a] as int].token);
        assert(token_lt(ord[d[a] as int].token, ord[d[b] as int].token));
    } else if b < a {
        lemma_token_lt_facts(ord[d[a] as int].token, ord[d[a] as int].token, ord[d[a] as int].token);
        assert(token_lt(ord[d[b] as int].token, ord[d[a] as int].token));
    }
}

proof fn lemma_done_row(ord: Seq<EventView>, d: Seq<usize>, i: int)
    requires
        0 <= i < d.len(),
    ensures
        forall|l: TokenView, r: TokenView|
            #[trigger] done_pairs(ord, d, i + 1, i + 2, l, r) == done_pairs(ord, d, i, d.len() as int, l, r),
{
    assert forall|l: TokenView, r: TokenView|
        #[trigger] done_pairs(ord, d, i + 1, i + 2, l, r) == done_pairs(ord, d, i, d.len() as int, l, r) by {
        if done_pairs(ord, d, i + 1, i + 2, l, r) {
            let (a, b) = choose|a: int, b: int|
                #![trigger ord[d[a] as int], ord[d[b] as int]]
                0 <= a < b < d.len() && (a < i + 1 || (a == i + 1 && b < i + 2)) && ord[d[a] as int].token == l
                    && ord[d[b] as int].token == r;
            assert(ord[d[a] as int].token == l && ord[d[b] as int].token == r);
        }
        if done_pairs(ord, d, i, d.len() as int, l, r) {
            let (a, b) = choose|a: int, b: int|
                #![trigger ord[d[a] as int], ord[d[b] as int]]
                0 <= a < b < d.len() && (a < i || (a == i && b < d.len())) && ord[d[a] as int].token == l
                    && ord[d[b] as int].token == r;
            assert(ord[d[a] as int].token == l && ord[d[b] as int].token == r);
        }
    }
}

proof fn lemma_done_all(ord: Seq<EventView>, d: Seq<usize>)
    requires
        strictly_by_token(ord, d),
    ensures
        forall|l: TokenView, r: TokenView|
            #[trigger] done_pairs(ord, d, d.len() as int, (d.len() + 1) as int, l, r) == (token_lt(l, r) && listed(ord, d, l)
                && listed(ord, d, r)),
{
    assert forall|l: TokenView, r: TokenView|
        #[trigger] done_pairs(ord, d, d.len() as int, (d.len() + 1) as int, l, r) == (token_lt(l, r) && listed(ord, d, l)
            && listed(ord, d, r)) by {
        if done_pairs(ord, d, d.len() as int, (d.len() + 1) as int, l, r) {
            let (a, b) = choose|a: int, b: int|
                #![trigger ord[d[a] as int], ord[d[b] as int]]
                0 <= a < b < d.len() && (a < d.len() || (a == d.len() && b < d.len() + 1)) && ord[d[a] as int].token == l
                    && ord[d[b] as int].token == r;
            assert(token_lt(ord[d[a] as int].token, ord[d[b] as int].token));
            assert(listed(ord, d, l));
            assert(listed(ord, d, r));
        }
        if token_lt(l, r) && listed(ord, d, l) && listed(ord, d, r) {
            let a = choose|a: int| 0 <= a < d.len() && #[trigger] ord[d[a] as int].token == l;
            let b = choose|b: int| 0 <= b < d.len() && #[trigger] ord[d[b] as int].token == r;
            lemma_token_lt_facts(l, r, l);
            if a == b {
                assert(false);
            } else if b < a {
                assert(token_lt(ord[d[b] as int].token, ord[d[a] as int].token));
                assert(false);
            }
            assert(ord[d[a] as int].token == l && ord[d[b] as int].token == r);
        }
    }
}

pub struct CooccurrenceView {
    pub left: TokenView,
    pub right: TokenView,
    pub occurrences: nat,
}

/// Two tokens that occur together in time buckets, with the number of
/// buckets in which both occur.
#[derive(Debug)]
pub struct CooccurrencePattern {
    left: PatternToken,
    right: PatternToken,
    occurrences: usize,
}

impl View for CooccurrencePattern {
    type V = CooccurrenceView;

    closed spec fn view(&self) -> CooccurrenceView {
        CooccurrenceView {
            left: self.left@,
            right: self.right@,
            occurrences: self.occurrences as nat,
        }
    }
}

impl CooccurrencePattern {
    pub fn left(&self) -> (r: &PatternToken)
        ensures
            r@ == self@.left,
    {
        &self.left
    }

    pub fn right(&self) -> (r: &PatternToken)
        ensures
            r@ == self@.right,
    {
        &self.right
    }

    pub fn occurrences(&self) -> (r: usize)
        ensures
            r == self@.occurrences,
    {
        self.occurrences
    }
}

pub open spec fn cooccurrence_views(s: Seq<CooccurrencePattern>) -> Seq<CooccurrenceView> {
    s.map_values(|p: CooccurrencePattern| p@)
}

/// More frequent pairs first, equally frequent ones in pair order.
pub open spec fn cooccurrence_before(a: CooccurrenceView, b: CooccurrenceView) -> bool {
    a.occurrences > b.occurrences || (a.occurrences == b.occurrences && pair_lt(
        (a.left, a.right),
        (b.left, b.right),
    ))
}

/// `found` lists exactly the pairs of tokens, smaller first, that share at
/// least `min_occurrences` buckets of `ord`, each once with that number,
/// most frequent first and equally frequent ones in pair order.
pub open spec fn cooccurring_pairs(
    ord: Seq<EventView>,
    bucket_ms: u64,
    min_occurrences: nat,
    found: Seq<CooccurrenceView>,
) -> bool {
    &&& forall|i: int|
        0 <= i < found.len() ==> {
            let f = #[trigger] found[i];
            &&& token_lt(f.left, f.right)
            &&& f.occurrences == pair_count(ord, bucket_ms, f.left, f.right, ord.len())
            &&& f.occurrences >= min_occurrences
        }
    &&& forall|l: TokenView, r: TokenView|
        token_lt(l, r) && #[trigger] pair_count(ord, bucket_ms, l, r, ord.len()) >= min_occurrences
            ==> exists|i: int| 0 <= i < found.len() && found[i].left == l && found[i].right == r
    &&& forall|i: int, j: int|
        0 <= i < j < found.len() ==> cooccurrence_before(#[trigger] found[i], #[trigger] found[j])
}

/// One of the first `upto` entries is `k`.
spec fn in_prefix(entries: Seq<(usize, usize, usize)>, upto: int, k: (usize, usize, usize)) -> bool {
    exists|x: int| 0 <= x < upto && #[trigger] entries[x] == k
}

impl PatternEngine {
    /// The pairs of distinct tokens that occur together in at least
    /// `min_occurrences` time buckets of `bucket_ms` milliseconds, with the
    /// number of such buckets: most frequent first, equally frequent ones in
    /// pair order.
    pub fn detect_cooccurrences(&self, events: &[PatternEvent], bucket_ms: u64, min_occurrences: usize) -> (r:
        Result<Vec<CooccurrencePattern>, SdkError>)
        ensures
            ({
                let views = event_views(events@);
                let served = request_ok(self.spec_max_events(), views, min_occurrences);
                &&& r is Ok <==> served && bucket_ms > 0
                &&& r matches Err(e) ==> if !served {
                    request_error(self.spec_max_events(), views, min_occurrences, e)
                } else {
                    e matches SdkError::InvalidArgument(m) && m@ == "bucket_ms must be positive"@
                }
                &&& r matches Ok(found) ==> cooccurring_pairs(
                    ordered_views(views),
                    bucket_ms,
                    min_occurrences as nat,
                    cooccurrence_views(found@),
                )
            }),
    {
        self.validate_request(events, min_occurrences)?;
        if bucket_ms == 0 {
            return Err(SdkError::InvalidArgument(String::from_str("bucket_ms must be positive")));
        }
        let ghost views = event_views(events@);
        let ghost ord = ordered_views(views);
        let p = order_events(events);
        let order = p.as_slice();
        let n = events.len();
        proof {
            assert(ord.len() == n);
            lemma_event_order_total();
            views.lemma_sort_by_ensures(event_order());
            assert forall|i: int, j: int| 0 <= i < j < ord.len() implies (#[trigger] ord[i]).timestamp_ms
                <= (#[trigger] ord[j]).timestamp_ms by {
                assert(event_order()(ord[i], ord[j]));
            }
        }
        let mut entries: Vec<(usize, usize, usize)> = Vec::new();
        let ghost mut cnt: Map<(TokenView, TokenView), nat> = Map::empty();
        let mut b0: usize = 0;
        while b0 < n
            invariant
                within(order@, 0, events@.len() as int),
                order@.map_values(|m: usize| events@[m as int]@) == ord,
                ord.len() == n,
                n == events.len(),
                bucket_ms > 0,
                forall|i: int, j: int| 0 <= i < j < ord.len() ==> (#[trigger] ord[i]).timestamp_ms
                    <= (#[trigger] ord[j]).timestamp_ms,
                b0 <= n,
                b0 < n ==> opens_bucket(ord, bucket_ms, b0 as int),
                synced(ord, entries@, cnt),
                forall|l: TokenView, r: TokenView|
                    #[trigger] tally(cnt, (l, r)) == counted(ord, bucket_ms, l, r, b0 as nat),
            decreases n - b0,
        {
            let b1 = bucket_end(events, order, bucket_ms, b0, Ghost(ord));
            let d = distinct_tokens(events, order, b0, b1, Ghost(ord));
            proof {
                lemma_bucket_range(ord, bucket_ms, b0 as int, b1 as int);
                assert forall|l: TokenView, r: TokenView|
                    #[trigger] tally(cnt, (l, r)) == counted(ord, bucket_ms, l, r, b0 as nat) + if done_pairs(
                        ord,
                        d@,
                        0,
                        1,
                        l,
                        r,
                    ) {
                        1nat
                    } else {
                        0nat
                    } by {}
            }
            let mut i: usize = 0;
            while i < d.len()
                invariant
                    within(order@, 0, events@.len() as int),
                    order@.map_values(|m: usize| events@[m as int]@) == ord,
                    ord.len() == n,
                    b0 < n,
                    within(d@, b0 as int, b1 as int),
                    b1 <= n,
                    strictly_by_token(ord, d@),
                    i <= d.len(),
                    synced(ord, entries@, cnt),
                    forall|l: TokenView, r: TokenView|
                        #[trigger] tally(cnt, (l, r)) == counted(ord, bucket_ms, l, r, b0 as nat) + if done_pairs(
                            ord,
                            d@,
                            i as int,
                            i + 1,
                            l,
                            r,
                        ) {
                            1nat
                        } else {
                            0nat
                        },
                decreases d.len() - i,
            {
                let mut j: usize = i + 1;
                while j < d.len()
                    invariant
                        within(order@, 0, events@.len() as int),
                        order@.map_values(|m: usize| events@[m as int]@) == ord,
                        ord.len() == n,
                        b0 < n,
                        within(d@, b0 as int, b1 as int),
                        b1 <= n,
                        strictly_by_token(ord, d@),
                        i < d.len(),
                        i < j <= d.len(),
                        synced(ord, entries@, cnt),
                        forall|l: TokenView, r: TokenView|
                            #[trigger] tally(cnt, (l, r)) == counted(ord, bucket_ms, l, r, b0 as nat) + if done_pairs(
                                ord,
                                d@,
                                i as int,
                                j as int,
                                l,
                                r,
                            ) {
                                1nat
                            } else {
                                0nat
                            },
                    decreases d.len() - j,
                {
                    let ghost tl = ord[d@[i as int] as int].token;
                    let ghost tr = ord[d@[j as int] as int].token;
                    proof {
                        lemma_done_step(ord, d@, i as int, j as int);
                        lemma_pair_count_bound(ord, bucket_ms, tl, tr, b0 as nat);
                        assert(tally(cnt, (tl, tr)) == counted(ord, bucket_ms, tl, tr, b0 as nat));
                    }
                    let next = bump(events, order, &mut entries, d[i], d[j], Ghost(ord), Ghost(cnt));
                    proof {
                        let old_cnt = cnt;
                        cnt = next@;
                        assert forall|l: TokenView, r: TokenView|
                            #[trigger] tally(cnt, (l, r)) == counted(ord, bucket_ms, l, r, b0 as nat) + if done_pairs(
                                ord,
                                d@,
                                i as int,
                                j + 1,
                                l,
                                r,
                            ) {
                                1nat
                            } else {
                                0nat
                            } by {
                            assert(tally(old_cnt, (l, r)) == counted(ord, bucket_ms, l, r, b0 as nat) + if done_pairs(
                                ord,
                                d@,
                                i as int,
                                j as int,
                                l,
                                r,
                            ) {
                                1nat
                            } else {
                                0nat
                            });
                        }
                    }
                    j += 1;
                }
                proof {
                    lemma_done_row(ord, d@, i as int);
                }
                i += 1;
            }
            proof {
                lemma_done_all(ord, d@);
                let bb = bucket_of(ord[b0 as int], bucket_ms);
                assert forall|l: TokenView, r: TokenView|
                    #[trigger] tally(cnt, (l, r)) == counted(ord, bucket_ms, l, r, b1 as nat) by {
                    assert(done_pairs(ord, d@, d@.len() as int, (d@.len() + 1) as int, l, r) == (token_lt(l, r)
                        && listed(ord, d@, l) && listed(ord, d@, r)));
                    assert(tally(cnt, (l, r)) == counted(ord, bucket_ms, l, r, b0 as nat) + if done_pairs(
                        ord,
                        d@,
                        d@.len() as int,
                        (d@.len() + 1) as int,
                        l,
                        r,
                    ) {
                        1nat
                    } else {
                        0nat
                    });
                    lemma_pair_count_flat(ord, bucket_ms, l, r, (b0 + 1) as nat, b1 as nat);
                    assert(opens_bucket(ord, bucket_ms, b0 as int));
                    assert(pair_count(ord, bucket_ms, l, r, (b0 + 1) as nat) == pair_count(
                        ord,
                        bucket_ms,
                        l,
                        r,
                        b0 as nat,
                    ) + if bucket_has(ord, bucket_ms, bb, l) && bucket_has(ord, bucket_ms, bb, r) {
                        1nat
                    } else {
                        0nat
                    });
                    assert(listed(ord, d@, l) == occurs_between(ord, b0 as int, b1 as int, l));
                    assert(listed(ord, d@, r) == occurs_between(ord, b0 as int, b1 as int, r));
                    assert(bucket_has(ord, bucket_ms, bb, l) == occurs_between(ord, b0 as int, b1 as int, l));
                    assert(bucket_has(ord, bucket_ms, bb, r) == occurs_between(ord, b0 as int, b1 as int, r));
                }
                if b1 < n {
                    assert(bucket_of(ord[b1 - 1], bucket_ms) == bb);
                }
            }
            b0 = b1;
        }
        // keep the pairs seen often enough, in pair order
        let mut kept: Vec<(usize, usize, usize)> = Vec::new();
        let mut kept_counts: Vec<usize> = Vec::new();
        let mut e: usize = 0;
        while e < entries.len()
            invariant
                synced(ord, entries@, cnt),
                e <= entries.len(),
                kept.len() == kept_counts.len(),
                forall|a: int| 0 <= a < kept.len() ==> (#[trigger] kept@[a]).2 == kept_counts@[a],
                forall|a: int| 0 <= a < kept.len() ==> in_prefix(entries@, e as int, #[trigger] kept@[a]),
                forall|x: int|
                    0 <= x < e && (#[trigger] entries@[x]).2 >= min_occurrences ==> exists|a: int|
                        0 <= a < kept.len() && kept@[a] == entries@[x],
                forall|a: int| 0 <= a < kept.len() ==> (#[trigger] kept@[a]).2 >= min_occurrences,
                forall|a: int, b: int|
                    0 <= a < b < kept.len() ==> pair_lt(
                        entry_key(ord, #[trigger] kept@[a]),
                        entry_key(ord, #[trigger] kept@[b]),
                    ),
                forall|a: int| 0 <= a < kept.len() ==> pair_lt(entry_key(ord, #[trigger] kept@[a]), entry_key(ord, entries@[e as int])) || e == entries.len(),
            decreases entries.len() - e,
        {
            let x = entries[e];
            let ghost old_kept = kept@;
            if x.2 >= min_occurrences {
                kept.push(x);
                kept_counts.push(x.2);
            }
            proof {
                assert(forall|a: int| 0 <= a < old_kept.len() ==> kept@[a] == old_kept[a]);
                assert forall|y: int|
                    0 <= y < e + 1 && (#[trigger] entries@[y]).2 >= min_occurrences implies exists|a: int|
                        0 <= a < kept.len() && kept@[a] == entries@[y] by {
                    if y == e {
                        assert(kept@[kept.len() - 1] == entries@[y]);
                    } else {
                        let a = choose|a: int| 0 <= a < old_kept.len() && old_kept[a] == entries@[y];
                        assert(kept@[a] == entries@[y]);
                    }
                }
                if e + 1 < entries.len() {
                    assert(pair_lt(entry_key(ord, entries@[e as int]), entry_key(ord, entries@[e + 1])));
                    assert forall|a: int| 0 <= a < kept.len() implies pair_lt(entry_key(ord, #[trigger] kept@[a]), entry_key(ord, entries@[e + 1])) by {
                        assert(in_prefix(entries@, e + 1, kept@[a]));
                        let y = choose|y: int| 0 <= y < e + 1 && #[trigger] entries@[y] == kept@[a];
                        if y < e {
                            assert(pair_lt(entry_key(ord, entries@[y]), entry_key(ord, entries@[e + 1])));
                        }
                    }
                }
                assert forall|a: int| 0 <= a < kept.len() implies in_prefix(entries@, e + 1, #[trigger] kept@[a]) by {
                    if a == kept.len() - 1 && x.2 >= min_occurrences {
                        assert(entries@[e as int] == kept@[a]);
                    } else {
                        let y = choose|y: int| 0 <= y < e && #[trigger] entries@[y] == kept@[a];
                        assert(0 <= y < e + 1 && entries@[y] == kept@[a]);
                    }
                }
            }
            e += 1;
        }
        let co = CountOrder { counts: kept_counts.as_slice() };
        let rk = sort_positions(&co, 0, kept_counts.len());
        proof {
            lemma_rearranged_positions(rk@, 0, kept_counts.len() as int);
        }
        let mut found: Vec<CooccurrencePattern> = Vec::new();
        let mut t: usize = 0;
        while t < rk.len()
            invariant
                within(order@, 0, events@.len() as int),
                order@.map_values(|m: usize| events@[m as int]@) == ord,
                synced(ord, entries@, cnt),
                rk.len() == kept.len(),
                within(rk@, 0, kept.len() as int),
                kept.len() == kept_counts.len(),
                forall|a: int| 0 <= a < kept.len() ==> in_prefix(entries@, entries.len() as int, #[trigger] kept@[a]),
                t <= rk.len(),
                found.len() == t,
                forall|u: int|
                    0 <= u < t ==> #[trigger] found@[u]@ == (CooccurrenceView {
                        left: entry_key(ord, kept@[rk@[u] as int]).0,
                        right: entry_key(ord, kept@[rk@[u] as int]).1,
                        occurrences: kept@[rk@[u] as int].2 as nat,
                    }),
            decreases rk.len() - t,
        {
            let k = kept[rk[t]];
            proof {
                let x = choose|x: int| 0 <= x < entries.len() && #[trigger] entries@[x] == kept@[rk@[t as int] as int];
                assert(entries@[x].0 < ord.len() && entries@[x].1 < ord.len());
                assert(ord[k.0 as int] == events@[order@[k.0 as int] as int]@);
                assert(ord[k.1 as int] == events@[order@[k.1 as int] as int]@);
                assert(order@.len() == order.len());
            }
            let left = events[order[k.0]].token.clone_token();
            let right = events[order[k.1]].token.clone_token();
            found.push(CooccurrencePattern { left, right, occurrences: k.2 });
            t += 1;
        }
        proof {
            let fv = cooccurrence_views(found@);
            assert forall|u: int| 0 <= u < fv.len() implies {
                let f = #[trigger] fv[u];
                &&& token_lt(f.left, f.right)
                &&& f.occurrences == pair_count(ord, bucket_ms, f.left, f.right, ord.len())
                &&& f.occurrences >= min_occurrences
            } by {
                assert(fv[u] == found@[u]@);
                let a = rk@[u] as int;
                let x = choose|x: int| 0 <= x < entries.len() && #[trigger] entries@[x] == kept@[a];
                let k = entry_key(ord, entries@[x]);
                assert(cnt.dom().contains(k));
                assert(tally(cnt, (k.0, k.1)) == counted(ord, bucket_ms, k.0, k.1, n as nat));
            }
            assert forall|l: TokenView, r: TokenView|
                token_lt(l, r) && #[trigger] pair_count(ord, bucket_ms, l, r, ord.len()) >= min_occurrences
                    implies exists|u: int| 0 <= u < fv.len() && fv[u].left == l && fv[u].right == r by {
                assert(tally(cnt, (l, r)) == counted(ord, bucket_ms, l, r, n as nat));
                assert(cnt.dom().contains((l, r)));
                let x = choose|x: int| 0 <= x < entries.len() && entry_key(ord, #[trigger] entries@[x]) == (l, r);
                assert(entries@[x].2 >= min_occurrences);
                let a = choose|a: int| 0 <= a < kept.len() && kept@[a] == entries@[x];
                assert(rk@.contains(a as usize));
                let u = choose|u: int| 0 <= u < rk@.len() && rk@[u] == a as usize;
                assert(fv[u] == found@[u]@);
            }
            assert forall|a: int, b: int| 0 <= a < b < fv.len() implies cooccurrence_before(
                #[trigger] fv[a],
                #[trigger] fv[b],
            ) by {
                assert(fv[a] == found@[a]@);
                assert(fv[b] == found@[b]@);
                assert(co.before(rk@[a] as int, rk@[b] as int));
                assert(rk@[a] != rk@[b]);
                assert(kept@[rk@[a] as int].2 == kept_counts@[rk@[a] as int]);
                assert(kept@[rk@[b] as int].2 == kept_counts@[rk@[b] as int]);
                if rk@[a] < rk@[b] {
                    assert(pair_lt(entry_key(ord, kept@[rk@[a] as int]), entry_key(ord, kept@[rk@[b] as int])));
                }
            }
        }
        Ok(found)
    }
}

/// The order in which events are handed over does not matter: events that
/// are a rearrangement of one another are put in the same time order, so
/// both detections give the same answer for them.
pub proof fn lemma_arrival_order_irrelevant(a: Seq<EventView>, b: Seq<EventView>)
    requires
        a.to_multiset() == b.to_multiset(),
    ensures
        ordered_views(a) == ordered_views(b),
{
    lemma_event_order_total();
    a.lemma_sort_by_ensures(event_order());
    b.lemma_sort_by_ensures(event_order());
    lemma_sorted_unique(ordered_views(a), ordered_views(b), event_order());
}

/// Every occurrence of a recurring sequence has its start time: the count of
/// a window's occurrences is the number of its recorded starts.
pub proof fn lemma_one_start_per_occurrence(ord: Seq<EventView>, len: int, key: Seq<TokenView>, m: nat)
    ensures
        window_starts(ord, len, key, m).len() == window_count(ord, len, key, m),
    decreases m,
{
    if m > 0 {
        lemma_one_start_per_occurrence(ord, len, key, (m - 1) as nat);
    }
}

/// The time order holds the same events, sorted by time.
proof fn lemma_ordered_facts(events: Seq<EventView>)
    ensures
        ordered_views(events).len() == events.len(),
        forall|a: int, b: int|
            0 <= a < b < events.len() ==> (#[trigger] ordered_views(events)[a]).timestamp_ms
                <= (#[trigger] ordered_views(events)[b]).timestamp_ms,
        forall|k: int| 0 <= k < events.len() ==> events.contains(#[trigger] ordered_views(events)[k]),
{
    broadcast use group_to_multiset_ensures;

    lemma_event_order_total();
    events.lemma_sort_by_ensures(event_order());
    let ord = ordered_views(events);
    assert(ord.len() == events.len()) by {
        assert(ord.to_multiset().len() == events.to_multiset().len());
    }
    assert forall|a: int, b: int| 0 <= a < b < events.len() implies (#[trigger] ord[a]).timestamp_ms
        <= (#[trigger] ord[b]).timestamp_ms by {
        assert(event_order()(ord[a], ord[b]));
    }
    assert forall|k: int| 0 <= k < events.len() implies events.contains(#[trigger] ord[k]) by {
        assert(ord.contains(ord[k]));
    }
}

/// The recorded starts of a window come from events, in time order.
proof fn lemma_window_starts_facts(ord: Seq<EventView>, len: int, key: Seq<TokenView>, m: nat)
    requires
        m <= ord.len(),
        forall|a: int, b: int| 0 <= a < b < ord.len() ==> (#[trigger] ord[a]).timestamp_ms <= (#[trigger] ord[b]).timestamp_ms,
    ensures
        forall|a: int, b: int|
            0 <= a < b < window_starts(ord, len, key, m).len() ==> #[trigger] window_starts(ord, len, key, m)[a]
                <= #[trigger] window_starts(ord, len, key, m)[b],
        forall|a: int|
            0 <= a < window_starts(ord, len, key, m).len() ==> exists|k: int|
                0 <= k < m && #[trigger] window_starts(ord, len, key, m)[a] == ord[k].timestamp_ms,
    decreases m,
{
    if m > 0 {
        let p = (m - 1) as nat;
        lemma_window_starts_facts(ord, len, key, p);
        let prev = window_starts(ord, len, key, p);
        let cur = window_starts(ord, len, key, m);
        if window(ord, len, m - 1) == key {
            assert(cur == prev.push(ord[m - 1].timestamp_ms));
            assert forall|a: int| 0 <= a < prev.len() implies prev[a] <= ord[m - 1].timestamp_ms by {
                let k = choose|k: int| 0 <= k < p && #[trigger] prev[a] == ord[k].timestamp_ms;
                assert(ord[k].timestamp_ms <= ord[m - 1].timestamp_ms);
            }
            assert forall|a: int| 0 <= a < cur.len() implies exists|k: int|
                0 <= k < m && #[trigger] cur[a] == ord[k].timestamp_ms by {
                if a < prev.len() {
                    let k = choose|k: int| 0 <= k < p && #[trigger] prev[a] == ord[k].timestamp_ms;
                    assert(cur[a] == ord[k].timestamp_ms);
                } else {
                    assert(cur[a] == ord[m - 1].timestamp_ms);
                }
            }
        }
    }
}

/// Every recurring sequence found has `len` tokens, recurs at least
/// `min_occurrences` times, and has one start time per occurrence; its start
/// times are in time order and each is the time of one of the events.
pub proof fn lemma_recurring_pattern_facts(
    events: Seq<EventView>,
    len: int,
    min_occurrences: nat,
    found: Seq<SequenceView>,
)
    requires
        len >= 1,
        recurring_sequences(ordered_views(events), len, min_occurrences, found),
    ensures
        forall|i: int|
            0 <= i < found.len() ==> {
                let f = #[trigger] found[i];
                &&& f.tokens.len() == len
                &&& f.occurrences >= min_occurrences
                &&& f.occurrences == f.starts.len()
                &&& forall|a: int, b: int| 0 <= a < b < f.starts.len() ==> f.starts[a] <= f.starts[b]
                &&& forall|a: int|
                    0 <= a < f.starts.len() ==> exists|e: EventView|
                        events.contains(e) && e.timestamp_ms == #[trigger] f.starts[a]
            },
{
    let ord = ordered_views(events);
    lemma_ordered_facts(events);
    let total = window_total(ord.len() as int, len);
    assert forall|i: int| 0 <= i < found.len() implies {
        let f = #[trigger] found[i];
        &&& f.tokens.len() == len
        &&& f.occurrences >= min_occurrences
        &&& f.occurrences == f.starts.len()
        &&& forall|a: int, b: int| 0 <= a < b < f.starts.len() ==> f.starts[a] <= f.starts[b]
        &&& forall|a: int|
            0 <= a < f.starts.len() ==> exists|e: EventView|
                events.contains(e) && e.timestamp_ms == #[trigger] f.starts[a]
    } by {
        let f = found[i];
        let k = choose|k: int| 0 <= k < total && window(ord, len, k) == f.tokens;
        assert(k + len <= ord.len());
        lemma_one_start_per_occurrence(ord, len, f.tokens, total as nat);
        lemma_window_starts_facts(ord, len, f.tokens, total as nat);
        assert forall|a: int| 0 <= a < f.starts.len() implies exists|e: EventView|
            events.contains(e) && e.timestamp_ms == #[trigger] f.starts[a] by {
            let j = choose|j: int| 0 <= j < total && #[trigger] f.starts[a] == ord[j].timestamp_ms;
            assert(events.contains(ord[j]));
        }
    }
}

/// A list strictly ordered by `lt` is fixed by its elements, where `lt` is a
/// strict order that compares any two distinct listed elements.
proof fn lemma_strictly_sorted_unique<A>(a: Seq<A>, b: Seq<A>, lt: spec_fn(A, A) -> bool)
    requires
        forall|x: A| !#[trigger] lt(x, x),
        forall|x: A, y: A, z: A| #[trigger] lt(x, y) && #[trigger] lt(y, z) ==> lt(x, z),
        forall|i: int, j: int| 0 <= i < j < a.len() ==> lt(#[trigger] a[i], #[trigger] a[j]),
        forall|i: int, j: int| 0 <= i < j < b.len() ==> lt(#[trigger] b[i], #[trigger] b[j]),
        forall|x: A| a.contains(x) <==> b.contains(x),
    ensures
        a == b,
    decreases a.len(),
{
    if a.len() == 0 {
        if b.len() > 0 {
            assert(b.contains(b[0]));
        }
        assert(a =~= b);
    } else {
        assert(a.contains(a[0]));
        assert(b.len() > 0);
        assert(b.contains(b[0]));
        let ka = choose|k: int| 0 <= k < a.len() && a[k] == b[0];
        let kb = choose|k: int| 0 <= k < b.len() && b[k] == a[0];
        if a[0] != b[0] {
            assert(ka > 0 && kb > 0);
            assert(lt(a[0], a[ka]));
            assert(lt(b[0], b[kb]));
            assert(lt(a[0], a[0]));
        }
        let ta = a.drop_first();
        let tb = b.drop_first();
        assert forall|x: A| ta.contains(x) <==> tb.contains(x) by {
            if ta.contains(x) {
                let i = choose|i: int| 0 <= i < ta.len() && ta[i] == x;
                assert(a[i + 1] == x);
                assert(lt(a[0], a[i + 1]));
                assert(b.contains(x));
                let j = choose|j: int| 0 <= j < b.len() && b[j] == x;
                assert(j != 0);
                assert(tb[j - 1] == x);
            }
            if tb.contains(x) {
                let i = choose|i: int| 0 <= i < tb.len() && tb[i] == x;
                assert(b[i + 1] == x);
                assert(lt(b[0], b[i + 1]));
                assert(a.contains(x));
                let j = choose|j: int| 0 <= j < a.len() && a[j] == x;
                assert(j != 0);
                assert(ta[j - 1] == x);
            }
        }
        assert forall|i: int, j: int| 0 <= i < j < ta.len() implies lt(#[trigger] ta[i], #[trigger] ta[j]) by {
            assert(lt(a[i + 1], a[j + 1]));
        }
        assert forall|i: int, j: int| 0 <= i < j < tb.len() implies lt(#[trigger] tb[i], #[trigger] tb[j]) by {
            assert(lt(b[i + 1], b[j + 1]));
        }
        lemma_strictly_sorted_unique(ta, tb, lt);
        assert(a =~= seq![a[0]] + ta);
        assert(b =~= seq![b[0]] + tb);
    }
}

/// A sequence found in one answer is found in any other answer for the same
/// events: a found sequence is fixed by its tokens.
proof fn lemma_found_in_both(
    ord: Seq<EventView>,
    len: int,
    min_occurrences: nat,
    f1: Seq<SequenceView>,
    f2: Seq<SequenceView>,
    x: SequenceView,
)
    requires
        f1.contains(x),
        lists_recurring_windows(ord, len, min_occurrences, f1, f2),
    ensures
        f2.contains(x),
{
    reveal(lists_recurring_windows);
    let total = window_total(ord.len() as int, len);
    let i = choose|i: int| 0 <= i < f1.len() && f1[i] == x;
    let f = f1[i];
    let k = choose|k: int| 0 <= k < total && window(ord, len, k) == f.tokens;
    assert(window_count(ord, len, window(ord, len, k), total as nat) >= min_occurrences);
    let j = choose|j: int| 0 <= j < f2.len() && f2[j].tokens == window(ord, len, k);
    let g = f2[j];
    assert(g.tokens == f.tokens);
    assert(g.occurrences == f.occurrences);
    assert(g.starts == f.starts);
    assert(g == x);
}

pub open spec fn sequence_order() -> spec_fn(SequenceView, SequenceView) -> bool {
    |x: SequenceView, y: SequenceView| sequence_before(x, y)
}

proof fn lemma_sequence_order_strict()
    ensures
        forall|x: SequenceView| !#[trigger] sequence_order()(x, x),
        forall|x: SequenceView, y: SequenceView, z: SequenceView|
            #[trigger] sequence_order()(x, y) && #[trigger] sequence_order()(y, z) ==> sequence_order()(x, z),
{
    let lt = sequence_order();
    assert forall|x: SequenceView| !#[trigger] lt(x, x) by {
        lemma_tokens_lt_facts(x.tokens, x.tokens, x.tokens);
    }
    assert forall|x: SequenceView, y: SequenceView, z: SequenceView|
        #[trigger] lt(x, y) && #[trigger] lt(y, z) implies lt(x, z) by {
        lemma_tokens_lt_facts(x.tokens, y.tokens, z.tokens);
    }
}

/// The first two parts of `recurring_sequences`: what each found sequence
/// is, and that every recurring window is found.
#[verifier::opaque]
spec fn lists_recurring_windows(
    ord: Seq<EventView>,
    len: int,
    min_occurrences: nat,
    f1: Seq<SequenceView>,
    f2: Seq<SequenceView>,
) -> bool {
    &&& forall|i: int|
        0 <= i < f1.len() ==> {
            let f = #[trigger] f1[i];
            &&& exists|k: int| 0 <= k < window_total(ord.len() as int, len) && window(ord, len, k) == f.tokens
            &&& f.occurrences == window_count(ord, len, f.tokens, window_total(ord.len() as int, len) as nat)
            &&& f.occurrences >= min_occurrences
            &&& f.starts == window_starts(ord, len, f.tokens, window_total(ord.len() as int, len) as nat)
        }
    &&& forall|i: int|
        0 <= i < f2.len() ==> {
            let f = #[trigger] f2[i];
            &&& f.occurrences == window_count(ord, len, f.tokens, window_total(ord.len() as int, len) as nat)
            &&& f.starts == window_starts(ord, len, f.tokens, window_total(ord.len() as int, len) as nat)
        }
    &&& forall|k: int|
        0 <= k < window_total(ord.len() as int, len) && window_count(
            ord,
            len,
            #[trigger] window(ord, len, k),
            window_total(ord.len() as int, len) as nat,
        ) >= min_occurrences ==> exists|j: int| 0 <= j < f2.len() && f2[j].tokens == window(ord, len, k)
}

proof fn lemma_split_recurring(ord: Seq<EventView>, len: int, min_occurrences: nat, f1: Seq<SequenceView>, f2: Seq<SequenceView>)
    requires
        recurring_sequences(ord, len, min_occurrences, f1),
        recurring_sequences(ord, len, min_occurrences, f2),
    ensures
        lists_recurring_windows(ord, len, min_occurrences, f1, f2),
        lists_recurring_windows(ord, len, min_occurrences, f2, f1),
        forall|i: int, j: int| 0 <= i < j < f1.len() ==> sequence_order()(#[trigger] f1[i], #[trigger] f1[j]),
        forall|i: int, j: int| 0 <= i < j < f2.len() ==> sequence_order()(#[trigger] f2[i], #[trigger] f2[j]),
{
    reveal(lists_recurring_windows);
}

proof fn lemma_unique_from_parts(ord: Seq<EventView>, len: int, min_occurrences: nat, f1: Seq<SequenceView>, f2: Seq<SequenceView>)
    requires
        lists_recurring_windows(ord, len, min_occurrences, f1, f2),
        lists_recurring_windows(ord, len, min_occurrences, f2, f1),
        forall|i: int, j: int| 0 <= i < j < f1.len() ==> sequence_order()(#[trigger] f1[i], #[trigger] f1[j]),
        forall|i: int, j: int| 0 <= i < j < f2.len() ==> sequence_order()(#[trigger] f2[i], #[trigger] f2[j]),
    ensures
        f1 == f2,
{
    assert forall|x: SequenceView| f1.contains(x) implies f2.contains(x) by {
        lemma_found_in_both(ord, len, min_occurrences, f1, f2, x);
    }
    assert forall|x: SequenceView| f2.contains(x) implies f1.contains(x) by {
        lemma_found_in_both(ord, len, min_occurrences, f2, f1, x);
    }
    lemma_sequence_order_strict();
    lemma_strictly_sorted_unique(f1, f2, sequence_order());
}

/// The recurring sequences of an ordered event stream are fixed by it: two
/// answers that both meet `recurring_sequences` are the same list.
pub proof fn lemma_recurring_sequences_unique(
    ord: Seq<EventView>,
    len: int,
    min_occurrences: nat,
    f1: Seq<SequenceView>,
    f2: Seq<SequenceView>,
)
    requires
        recurring_sequences(ord, len, min_occurrences, f1),
        recurring_sequences(ord, len, min_occurrences, f2),
    ensures
        f1 == f2,
{
    lemma_split_recurring(ord, len, min_occurrences, f1, f2);
    lemma_unique_from_parts(ord, len, min_occurrences, f1, f2);
}

/// Detecting recurring sequences does not depend on the order in which the
/// events are handed over: rearranged events give the same sequences.
pub proof fn lemma_sequences_ignore_arrival_order(
    events: Seq<EventView>,
    rearranged: Seq<EventView>,
    len: int,
    min_occurrences: nat,
    found: Seq<SequenceView>,
    found_rearranged: Seq<SequenceView>,
)
    requires
        events.to_multiset() == rearranged.to_multiset(),
        recurring_sequences(ordered_views(events), len, min_occurrences, found),
        recurring_sequences(ordered_views(rearranged), len, min_occurrences, found_rearranged),
    ensures
        found == found_rearranged,
{
    lemma_arrival_order_irrelevant(events, rearranged);
    lemma_recurring_sequences_unique(ordered_views(events), len, min_occurrences, found, found_rearranged);
}

/// The time buckets that the events fall in.
pub open spec fn buckets(events: Seq<EventView>, bucket_ms: u64) -> Set<int> {
    events.map_values(|e: EventView| bucket_of(e, bucket_ms)).to_set()
}

/// How many of the first `m` events open a bucket.
pub open spec fn opened(ord: Seq<EventView>, bucket_ms: u64, m: nat) -> nat
    decreases m,
{
    if m == 0 {
        0
    } else {
        opened(ord, bucket_ms, (m - 1) as nat) + if opens_bucket(ord, bucket_ms, m - 1) {
            1nat
        } else {
            0nat
        }
    }
}

proof fn lemma_pair_count_within_opened(ord: Seq<EventView>, bucket_ms: u64, l: TokenView, r: TokenView, m: nat)
    ensures
        pair_count(ord, bucket_ms, l, r, m) <= opened(ord, bucket_ms, m),
    decreases m,
{
    if m > 0 {
        lemma_pair_count_within_opened(ord, bucket_ms, l, r, (m - 1) as nat);
    }
}

/// In time order, each bucket opens once: the openings among the first `m`
/// events are the distinct buckets of those events, none above the bucket
/// of the last of them.
proof fn lemma_opened_counts_buckets(ord: Seq<EventView>, bucket_ms: u64, m: nat)
    requires
        bucket_ms > 0,
        m <= ord.len(),
        forall|a: int, b: int| 0 <= a < b < ord.len() ==> (#[trigger] ord[a]).timestamp_ms <= (#[trigger] ord[b]).timestamp_ms,
    ensures
        buckets(ord.take(m as int), bucket_ms).finite(),
        opened(ord, bucket_ms, m) == buckets(ord.take(m as int), bucket_ms).len(),
        m > 0 ==> forall|y: int|
            #[trigger] buckets(ord.take(m as int), bucket_ms).contains(y) ==> y <= bucket_of(ord[m - 1], bucket_ms),
    decreases m,
{
    broadcast use seq_to_set_is_finite;
    broadcast use vstd::set::group_set_axioms;

    let f = |e: EventView| bucket_of(e, bucket_ms);
    if m == 0 {
        assert(ord.take(0).map_values(f) =~= Seq::<int>::empty());
        assert(buckets(ord.take(0), bucket_ms) =~= Set::<int>::empty());
    } else {
        let p = (m - 1) as nat;
        lemma_opened_counts_buckets(ord, bucket_ms, p);
        let sp = buckets(ord.take(p as int), bucket_ms);
        let x = bucket_of(ord[p as int], bucket_ms);
        assert(ord.take(m as int).map_values(f) =~= ord.take(p as int).map_values(f).push(x));
        let sm = buckets(ord.take(m as int), bucket_ms);
        assert(sm =~= sp.insert(x)) by {
            let q = ord.take(p as int).map_values(f);
            assert forall|y: int| sm.contains(y) <==> sp.insert(x).contains(y) by {
                if q.push(x).contains(y) && y != x {
                    let k = choose|k: int| 0 <= k < q.push(x).len() && q.push(x)[k] == y;
                    assert(q[k] == y);
                }
                if q.contains(y) {
                    let k = choose|k: int| 0 <= k < q.len() && q[k] == y;
                    assert(q.push(x)[k] == y);
                }
                if y == x {
                    assert(q.push(x)[q.len() as int] == x);
                }
            }
        }
        if p > 0 {
            let prev = bucket_of(ord[p - 1], bucket_ms);
            lemma_div_is_ordered(ord[p - 1].timestamp_ms as int, ord[p as int].timestamp_ms as int, bucket_ms as int);
            assert(prev <= x);
            if opens_bucket(ord, bucket_ms, p as int) {
                assert(!sp.contains(x));
            } else {
                assert(ord.take(p as int).map_values(f)[p - 1] == prev);
                assert(sp.contains(x));
            }
        } else {
            assert(ord.take(0).map_values(f) =~= Seq::<int>::empty());
            assert(!sp.contains(x));
        }
        assert forall|y: int| #[trigger] sm.contains(y) implies y <= x by {
            if y != x {
                assert(sp.contains(y));
            }
        }
    }
}

/// Every co-occurring pair found has its smaller token first, shares at
/// least `min_occurrences` and at most as many buckets as the events span,
/// and no pair is found twice.
pub proof fn lemma_cooccurrence_facts(
    events: Seq<EventView>,
    bucket_ms: u64,
    min_occurrences: nat,
    found: Seq<CooccurrenceView>,
)
    requires
        bucket_ms > 0,
        cooccurring_pairs(ordered_views(events), bucket_ms, min_occurrences, found),
    ensures
        forall|i: int|
            0 <= i < found.len() ==> {
                let f = #[trigger] found[i];
                &&& token_lt(f.left, f.right)
                &&& min_occurrences <= f.occurrences <= buckets(events, bucket_ms).len()
            },
        forall|i: int, j: int|
            0 <= i < j < found.len() ==> (#[trigger] found[i].left, found[i].right) != (
                #[trigger] found[j].left,
                found[j].right,
            ),
{
    broadcast use group_to_multiset_ensures;

    let ord = ordered_views(events);
    lemma_ordered_facts(events);
    lemma_event_order_total();
    events.lemma_sort_by_ensures(event_order());
    lemma_opened_counts_buckets(ord, bucket_ms, ord.len());
    assert(ord.take(ord.len() as int) =~= ord);
    let f = |e: EventView| bucket_of(e, bucket_ms);
    assert(buckets(ord, bucket_ms) =~= buckets(events, bucket_ms)) by {
        assert forall|y: int| buckets(ord, bucket_ms).contains(y) <==> buckets(events, bucket_ms).contains(y) by {
            if ord.map_values(f).contains(y) {
                let k = choose|k: int| 0 <= k < ord.map_values(f).len() && ord.map_values(f)[k] == y;
                assert(events.contains(ord[k]));
                let j = choose|j: int| 0 <= j < events.len() && events[j] == ord[k];
                assert(events.map_values(f)[j] == y);
            }
            if events.map_values(f).contains(y) {
                let k = choose|k: int| 0 <= k < events.map_values(f).len() && events.map_values(f)[k] == y;
                assert(events.contains(events[k]));
                assert(ord.to_multiset().count(events[k]) > 0);
                assert(ord.contains(events[k]));
                let j = choose|j: int| 0 <= j < ord.len() && ord[j] == events[k];
                assert(ord.map_values(f)[j] == y);
            }
        }
    }
    assert forall|i: int| 0 <= i < found.len() implies {
        let f = #[trigger] found[i];
        &&& token_lt(f.left, f.right)
        &&& min_occurrences <= f.occurrences <= buckets(events, bucket_ms).len()
    } by {
        lemma_pair_count_within_opened(ord, bucket_ms, found[i].left, found[i].right, ord.len());
    }
    assert forall|i: int, j: int| 0 <= i < j < found.len() implies (#[trigger] found[i].left, found[i].right) != (
        #[trigger] found[j].left,
        found[j].right,
    ) by {
        lemma_token_lt_facts(found[i].left, found[i].left, found[i].left);
        lemma_token_lt_facts(found[i].right, found[i].right, found[i].right);
    }
}

} // verus!
