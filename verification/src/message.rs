//! The one shape every inbound channel converges to.
//!
//! The field types say who wrote each part. Ids, the instant, the channel and
//! the idempotency key are ours. The sender, the subject, the body and every
//! file name are theirs, and are [`Untrusted`].
use crate::ids;
use crate::ids::{ConversationId, EmployeeId, IdempotencyKey, TenantId};
use crate::ordered::Ordered;
use crate::text;
use crate::time::Timestamp;
use crate::untrusted::{TrustLabel, Untrusted};
use vstd::prelude::*;
use vstd::string::*;

verus! {

/// The transport a message arrived on or will leave by.
#[derive(Debug, Clone, Copy, PartialEq, Eq, Structural, PartialOrd, Ord, Hash)]
pub enum Channel {
    Email,
    Sms,
    Whatsapp,
    /// A phone call.
    Voice,
    /// Agent-to-agent: another AI employee, ours or someone else's.
    A2a,
    /// The operator console, and the channel that permits browsing.
    Web,
    /// One of our employees to another, inside one tenant.
    Internal,
}

impl Channel {
    /// Every channel.
    pub const ALL: [Channel; 7] = [
        Channel::Email,
        Channel::Sms,
        Channel::Whatsapp,
        Channel::Voice,
        Channel::A2a,
        Channel::Web,
        Channel::Internal,
    ];

    /// The wire name of a channel.
    pub open spec fn name(self) -> Seq<char> {
        match self {
            Channel::Email => "email"@,
            Channel::Sms => "sms"@,
            Channel::Whatsapp => "whatsapp"@,
            Channel::Voice => "voice"@,
            Channel::A2a => "a2a"@,
            Channel::Web => "web"@,
            Channel::Internal => "internal"@,
        }
    }

    /// The place of a channel in [`Channel::ALL`].
    pub open spec fn rank(self) -> nat {
        match self {
            Channel::Email => 0,
            Channel::Sms => 1,
            Channel::Whatsapp => 2,
            Channel::Voice => 3,
            Channel::A2a => 4,
            Channel::Web => 5,
            Channel::Internal => 6,
        }
    }

    /// Stable wire name.
    pub fn as_str(self) -> (r: &'static str)
        ensures
            r@ == self.name(),
    {
        match self {
            Channel::Email => "email",
            Channel::Sms => "sms",
            Channel::Whatsapp => "whatsapp",
            Channel::Voice => "voice",
            Channel::A2a => "a2a",
            Channel::Web => "web",
            Channel::Internal => "internal",
        }
    }

    fn place(self) -> (r: u8)
        ensures
            r == self.rank(),
    {
        match self {
            Channel::Email => 0,
            Channel::Sms => 1,
            Channel::Whatsapp => 2,
            Channel::Voice => 3,
            Channel::A2a => 4,
            Channel::Web => 5,
            Channel::Internal => 6,
        }
    }
}

impl Ordered for Channel {
    type Key = Channel;

    open spec fn key(&self) -> Channel {
        *self
    }

    open spec fn before(a: Channel, b: Channel) -> bool {
        a.rank() < b.rank()
    }

    proof fn before_irreflexive(a: Channel) {
    }

    proof fn before_transitive(a: Channel, b: Channel, c: Channel) {
    }

    proof fn before_total(a: Channel, b: Channel) {
    }

    fn precedes(&self, other: &Self) -> (r: bool) {
        self.place() < other.place()
    }

    fn duplicate(&self) -> (r: Self) {
        *self
    }
}

/// Which way a message moves relative to the employee.
#[derive(Debug, Clone, Copy, PartialEq, Eq, Structural, PartialOrd, Ord, Hash)]
pub enum Direction {
    Inbound,
    Outbound,
}

/// An opaque handle minted by a provider.
///
/// It is only ever compared, stored and handed back to the provider it came
/// from.
#[derive(Debug, PartialEq, Eq, PartialOrd, Ord, Hash)]
pub struct ProviderRef(String);

impl View for ProviderRef {
    type V = Seq<char>;

    closed spec fn view(&self) -> Seq<char> {
        self.0@
    }
}

impl ProviderRef {
    /// Wrap a provider-supplied handle.
    pub fn new(raw: &str) -> (r: ProviderRef)
        ensures
            r@ == raw@,
    {
        ProviderRef(raw.to_owned())
    }

    /// The handle, for storage, comparison and provider round-trips.
    pub fn as_str(&self) -> (r: &str)
        ensures
            r@ == self@,
    {
        self.0.as_str()
    }
}

impl Clone for ProviderRef {
    fn clone(&self) -> (r: ProviderRef)
        ensures
            r == *self,
    {
        ProviderRef(self.0.clone())
    }
}

/// A file that rode in with a message. The bytes stay where the provider has
/// them.
#[derive(Debug, Clone, PartialEq, Eq)]
pub struct Attachment {
    /// Where the bytes actually live.
    pub provider_ref: ProviderRef,
    /// Provider-declared media type: a hint for routing, never a guarantee
    /// about the bytes.
    pub content_type: String,
    /// Size in bytes, as reported by the provider.
    pub size_bytes: u64,
    /// The sender's chosen file name.
    pub filename: Untrusted<String>,
}

/// One message, normalised, with trust assigned per field.
#[derive(Debug, Clone, PartialEq, Eq)]
pub struct CanonicalMessage {
    /// Owning organisation.
    pub tenant_id: TenantId,
    /// The employee this message belongs to.
    pub employee_id: EmployeeId,
    /// The thread it belongs to.
    pub conversation_id: ConversationId,
    /// The provider's own id.
    pub provider_message_id: ProviderRef,
    /// The dedupe token, built with [`CanonicalMessage::dedupe_key`].
    pub idempotency_key: IdempotencyKey,
    pub channel: Channel,
    pub direction: Direction,
    /// When we accepted it.
    pub received_at: Timestamp,
    /// The counterparty's address or handle, as they presented it.
    pub from: Untrusted<String>,
    /// Absent on channels that have no subject line.
    pub subject: Option<Untrusted<String>>,
    /// The message body, flattened to plain text.
    pub body_text: Untrusted<String>,
    pub attachments: Vec<Attachment>,
}

/// The step name under which one inbound delivery is de-duplicated.
pub open spec fn inbound_step(channel: Channel, provider_id: Seq<char>) -> Seq<char> {
    "inbound:"@ + channel.name() + ":"@ + provider_id
}

impl CanonicalMessage {
    /// The at-most-once key for an inbound delivery: the same employee,
    /// channel and provider id give the same key forever.
    pub fn dedupe_key(
        employee_id: EmployeeId,
        channel: Channel,
        provider_message_id: &ProviderRef,
    ) -> (r: IdempotencyKey)
        ensures
            r@ == ids::step_key(employee_id@, inbound_step(channel, provider_message_id@)),
    {
        let mut step = "inbound:".to_owned();
        step.append(channel.as_str());
        step.append(":");
        step.append(provider_message_id.as_str());
        IdempotencyKey::for_step(employee_id, step.as_str())
    }

    /// Always [`TrustLabel::Untrusted`]: a message always carries third-party
    /// content, because its sender is theirs.
    pub fn taint(&self) -> (r: TrustLabel)
        ensures
            r == TrustLabel::Untrusted,
    {
        TrustLabel::Untrusted
    }
}

proof fn lemma_channel_names(a: Channel, b: Channel)
    ensures
        !a.name().contains(':'),
        a.name() == b.name() ==> a == b,
{
    reveal_strlit("email");
    reveal_strlit("sms");
    reveal_strlit("whatsapp");
    reveal_strlit("voice");
    reveal_strlit("a2a");
    reveal_strlit("web");
    reveal_strlit("internal");
    let x = a.name();
    let y = b.name();
    if x == y {
        assert(x.len() == y.len() && x[0] == y[0]);
    }
}

/// Dedupe keys are scoped: they differ where the employee, the channel or the
/// provider's id does.
pub proof fn law_dedupe_keys_are_scoped(
    a: u128,
    a_channel: Channel,
    a_id: Seq<char>,
    b: u128,
    b_channel: Channel,
    b_id: Seq<char>,
)
    requires
        ids::step_key(a, inbound_step(a_channel, a_id)) == ids::step_key(
            b,
            inbound_step(b_channel, b_id),
        ),
    ensures
        a == b,
        a_channel == b_channel,
        a_id == b_id,
{
    let x = inbound_step(a_channel, a_id);
    let y = inbound_step(b_channel, b_id);
    ids::law_step_keys_are_distinct(a, x, b, y);
    reveal_strlit("inbound:");
    reveal_strlit(":");
    lemma_channel_names(a_channel, b_channel);
    lemma_channel_names(b_channel, a_channel);
    let m = a_channel.name();
    let n = b_channel.name();
    let xs = x.skip(8);
    let ys = y.skip(8);
    assert(xs == m + seq![':'] + a_id);
    assert(ys == n + seq![':'] + b_id);
    assert forall|j: int| 0 <= j < m.len() implies #[trigger] xs[j] != ':' by {
        assert(xs[j] == m[j]);
        assert(m.contains(m[j]));
    }
    assert forall|j: int| 0 <= j < n.len() implies #[trigger] ys[j] != ':' by {
        assert(ys[j] == n[j]);
        assert(n.contains(n[j]));
    }
    text::lemma_position_is(xs, ':', m.len() as int);
    text::lemma_position_is(ys, ':', n.len() as int);
    assert(xs.take(m.len() as int) == m);
    assert(ys.take(n.len() as int) == n);
    assert(xs.skip(m.len() as int + 1) == a_id);
    assert(ys.skip(n.len() as int + 1) == b_id);
}

} // verus!
