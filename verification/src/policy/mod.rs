//! What an employee may do: the limits that four layers write down, and the
//! gate that rules on one action under them.
//!
//! Layers only ever narrow: allowlists intersect, denylists join, caps take
//! the smaller number and permissions have to be unanimous. What no layer
//! grants is denied.
use crate::ordered::{OrdSet, Ordered};
use crate::text;
use crate::text::same_text;
use vstd::prelude::*;
use vstd::string::*;

pub mod gate;
pub mod laws;
pub mod limits;
pub mod ruling_laws;

pub use gate::{
    always_denies, evaluate, evaluate_browser_read, evaluate_mcp_call, spends_contact_budget,
};
pub use limits::{
    may_upload_leads, model_for, turns_remaining, warmup_allowance, Deliverability,
    EffectivePolicy, PolicyError, PolicyLimits, SpendLimits, WARMUP_FLOOR,
};

verus! {

/// A model an employee can think with, cheapest first.
#[derive(Debug, Clone, Copy, PartialEq, Eq, Structural, PartialOrd, Ord, Hash)]
pub enum ModelId {
    Haiku45,
    Sonnet5,
    Opus5,
    Fable5,
}

impl Default for ModelId {
    fn default() -> (r: ModelId)
        ensures
            r == ModelId::Opus5,
    {
        ModelId::Opus5
    }
}

impl ModelId {
    /// Every model, cheapest first.
    pub const ALL: [ModelId; 4] = [
        ModelId::Haiku45,
        ModelId::Sonnet5,
        ModelId::Opus5,
        ModelId::Fable5,
    ];

    /// The model of a seat that nobody has written a charter for.
    pub const UNCHARTERED: ModelId = ModelId::Haiku45;

    /// The name a model goes by at its vendor.
    pub open spec fn name(self) -> Seq<char> {
        match self {
            ModelId::Haiku45 => "haiku-4-5"@,
            ModelId::Sonnet5 => "sonnet-5"@,
            ModelId::Opus5 => "opus-5"@,
            ModelId::Fable5 => "fable-5"@,
        }
    }

    /// The place of a model on the price list.
    pub open spec fn rank(self) -> nat {
        match self {
            ModelId::Haiku45 => 0,
            ModelId::Sonnet5 => 1,
            ModelId::Opus5 => 2,
            ModelId::Fable5 => 3,
        }
    }

    /// The name a model goes by at its vendor. On the wire the vendor's name and a
    /// hyphen stand before it: see [`ModelId::wire_name`].
    pub fn as_str(self) -> (r: &'static str)
        ensures
            r@ == self.name(),
    {
        match self {
            ModelId::Haiku45 => "haiku-4-5",
            ModelId::Sonnet5 => "sonnet-5",
            ModelId::Opus5 => "opus-5",
            ModelId::Fable5 => "fable-5",
        }
    }

    fn place(self) -> (r: u8)
        ensures
            r == self.rank(),
    {
        match self {
            ModelId::Haiku45 => 0,
            ModelId::Sonnet5 => 1,
            ModelId::Opus5 => 2,
            ModelId::Fable5 => 3,
        }
    }

    /// The model of that name.
    pub fn parse(raw: &str) -> (r: Option<ModelId>)
        ensures
            match r {
                Some(m) => m.name() == raw@,
                None => forall|m: ModelId| #[trigger] m.name() != raw@,
            },
            forall|m: ModelId| #[trigger] m.name() == raw@ ==> r == Some(m),
    {
        proof {
            lemma_model_names();
        }
        if same_text(ModelId::Haiku45.as_str(), raw) {
            Some(ModelId::Haiku45)
        } else if same_text(ModelId::Sonnet5.as_str(), raw) {
            Some(ModelId::Sonnet5)
        } else if same_text(ModelId::Opus5.as_str(), raw) {
            Some(ModelId::Opus5)
        } else if same_text(ModelId::Fable5.as_str(), raw) {
            Some(ModelId::Fable5)
        } else {
            None
        }
    }

    /// The name of a model on the wire: the vendor's, a hyphen and its own.
    pub open spec fn wire_text(self, vendor: Seq<char>) -> Seq<char> {
        vendor + "-"@ + self.name()
    }

    /// The name on the wire, for the vendor that the deployment buys from.
    pub fn wire_name(self, vendor: &str) -> (r: String)
        ensures
            r@ == self.wire_text(vendor@),
    {
        let mut out = vendor.to_owned();
        out.append("-");
        out.append(self.as_str());
        out
    }

    /// The model of that wire name.
    pub fn from_wire(raw: &str, vendor: &str) -> (r: Option<ModelId>)
        ensures
            match r {
                Some(m) => m.wire_text(vendor@) == raw@,
                None => forall|m: ModelId| #[trigger] m.wire_text(vendor@) != raw@,
            },
            forall|m: ModelId| #[trigger] m.wire_text(vendor@) == raw@ ==> r == Some(m),
    {
        proof {
            lemma_model_names();
            assert forall|a: ModelId, b: ModelId| #[trigger] a.wire_text(vendor@)
                == #[trigger] b.wire_text(vendor@) implies a == b by {
                let start = (vendor@ + "-"@).len() as int;
                assert(a.wire_text(vendor@).skip(start) =~= a.name());
                assert(b.wire_text(vendor@).skip(start) =~= b.name());
            }
        }
        let haiku = ModelId::Haiku45.wire_name(vendor);
        let sonnet = ModelId::Sonnet5.wire_name(vendor);
        let opus = ModelId::Opus5.wire_name(vendor);
        let fable = ModelId::Fable5.wire_name(vendor);
        if same_text(haiku.as_str(), raw) {
            Some(ModelId::Haiku45)
        } else if same_text(sonnet.as_str(), raw) {
            Some(ModelId::Sonnet5)
        } else if same_text(opus.as_str(), raw) {
            Some(ModelId::Opus5)
        } else if same_text(fable.as_str(), raw) {
            Some(ModelId::Fable5)
        } else {
            None
        }
    }

    /// This model and every cheaper one.
    pub fn at_most(self) -> (r: OrdSet<ModelId>)
        ensures
            forall|m: ModelId| #[trigger] r@.contains(m) <==> m.rank() <= self.rank(),
    {
        let mut out: OrdSet<ModelId> = OrdSet::new();
        out.insert(ModelId::Haiku45);
        if 1 <= self.place() {
            out.insert(ModelId::Sonnet5);
        }
        if 2 <= self.place() {
            out.insert(ModelId::Opus5);
        }
        if 3 <= self.place() {
            out.insert(ModelId::Fable5);
        }
        out
    }
}

proof fn lemma_model_names()
    ensures
        forall|a: ModelId, b: ModelId| #[trigger] a.name() == #[trigger] b.name() ==> a == b,
{
    reveal_strlit("haiku-4-5");
    reveal_strlit("sonnet-5");
    reveal_strlit("opus-5");
    reveal_strlit("fable-5");
    assert forall|a: ModelId, b: ModelId| #[trigger] a.name() == #[trigger] b.name() implies a
        == b by {
        assert(a.name().len() == b.name().len() && a.name()[0] == b.name()[0]);
    }
}

impl Ordered for ModelId {
    type Key = ModelId;

    open spec fn key(&self) -> ModelId {
        *self
    }

    open spec fn before(a: ModelId, b: ModelId) -> bool {
        a.rank() < b.rank()
    }

    proof fn before_irreflexive(a: ModelId) {
    }

    proof fn before_transitive(a: ModelId, b: ModelId, c: ModelId) {
    }

    proof fn before_total(a: ModelId, b: ModelId) {
    }

    fn precedes(&self, other: &Self) -> (r: bool) {
        self.place() < other.place()
    }

    fn duplicate(&self) -> (r: Self) {
        *self
    }
}

/// Why an action was refused.
#[derive(Debug, Clone, Copy, PartialEq, Eq, Structural, Hash)]
pub enum DenyReason {
    /// No rule of this kind was written at all.
    NoRule,
    /// The channel is not on the list.
    ChannelNotAllowed,
    /// The number's calling code is not on the list.
    CallingCodeNotAllowed,
    /// The day's new contacts are used up.
    ContactBudgetExhausted,
    /// The sending domain is still warming up.
    SendingDomainWarming,
    /// The host is on the denylist.
    DomainDenied,
    /// The host is not on the allowlist.
    DomainNotAllowed,
    /// Uploading is switched off.
    FileUploadNotAllowed,
    /// The tool is not on the list.
    ToolNotAllowed,
    /// The peer is not on the list.
    PeerNotAllowed,
    /// No spending is permitted.
    NoSpendPolicy,
    /// The amount is in another currency.
    CurrencyMismatch,
    /// Over the cap for one payment.
    PerTransactionLimit,
    /// Over the cap for the day.
    DailyLimit,
    /// The team has no budget.
    NoTeamBudget,
    /// Over the team's cap for the day.
    TeamDailyLimit,
    /// The secret belongs to somebody else.
    CrossTenantSecret,
    /// Nobody writes their own charter.
    SelfDirection,
    /// The subject does not report to the actor.
    OutsideChainOfCommand,
    /// Changing credentials is switched off.
    CredentialChangeNotAllowed,
    /// Deleting data is switched off.
    DataDeleteNotAllowed,
    /// A high-risk action was derived from untrusted input.
    UntrustedInput,
}

impl DenyReason {
    /// Every reason.
    pub const ALL: [DenyReason; 22] = [
        DenyReason::NoRule,
        DenyReason::ChannelNotAllowed,
        DenyReason::CallingCodeNotAllowed,
        DenyReason::ContactBudgetExhausted,
        DenyReason::SendingDomainWarming,
        DenyReason::DomainDenied,
        DenyReason::DomainNotAllowed,
        DenyReason::FileUploadNotAllowed,
        DenyReason::ToolNotAllowed,
        DenyReason::PeerNotAllowed,
        DenyReason::NoSpendPolicy,
        DenyReason::CurrencyMismatch,
        DenyReason::PerTransactionLimit,
        DenyReason::DailyLimit,
        DenyReason::NoTeamBudget,
        DenyReason::TeamDailyLimit,
        DenyReason::CrossTenantSecret,
        DenyReason::SelfDirection,
        DenyReason::OutsideChainOfCommand,
        DenyReason::CredentialChangeNotAllowed,
        DenyReason::DataDeleteNotAllowed,
        DenyReason::UntrustedInput,
    ];

    /// The reasons a human can be asked to lift.
    pub const GRANTABLE: [DenyReason; 16] = [
        DenyReason::NoRule,
        DenyReason::ChannelNotAllowed,
        DenyReason::CallingCodeNotAllowed,
        DenyReason::ContactBudgetExhausted,
        DenyReason::DomainNotAllowed,
        DenyReason::FileUploadNotAllowed,
        DenyReason::ToolNotAllowed,
        DenyReason::PeerNotAllowed,
        DenyReason::NoSpendPolicy,
        DenyReason::CurrencyMismatch,
        DenyReason::PerTransactionLimit,
        DenyReason::DailyLimit,
        DenyReason::NoTeamBudget,
        DenyReason::TeamDailyLimit,
        DenyReason::CredentialChangeNotAllowed,
        DenyReason::DataDeleteNotAllowed,
    ];

    /// The metric label of a reason.
    pub open spec fn label(self) -> Seq<char> {
        match self {
            DenyReason::NoRule => "no_rule"@,
            DenyReason::ChannelNotAllowed => "channel_not_allowed"@,
            DenyReason::CallingCodeNotAllowed => "calling_code_not_allowed"@,
            DenyReason::ContactBudgetExhausted => "contact_budget_exhausted"@,
            DenyReason::SendingDomainWarming => "sending_domain_warming"@,
            DenyReason::DomainDenied => "domain_denied"@,
            DenyReason::DomainNotAllowed => "domain_not_allowed"@,
            DenyReason::FileUploadNotAllowed => "file_upload_not_allowed"@,
            DenyReason::ToolNotAllowed => "tool_not_allowed"@,
            DenyReason::PeerNotAllowed => "peer_not_allowed"@,
            DenyReason::NoSpendPolicy => "no_spend_policy"@,
            DenyReason::CurrencyMismatch => "currency_mismatch"@,
            DenyReason::PerTransactionLimit => "per_transaction_limit"@,
            DenyReason::DailyLimit => "daily_limit"@,
            DenyReason::NoTeamBudget => "no_team_budget"@,
            DenyReason::TeamDailyLimit => "team_daily_limit"@,
            DenyReason::CrossTenantSecret => "cross_tenant_secret"@,
            DenyReason::SelfDirection => "self_direction"@,
            DenyReason::OutsideChainOfCommand => "outside_chain_of_command"@,
            DenyReason::CredentialChangeNotAllowed => "credential_change_not_allowed"@,
            DenyReason::DataDeleteNotAllowed => "data_delete_not_allowed"@,
            DenyReason::UntrustedInput => "untrusted_input"@,
        }
    }

    /// Whether a human can be asked to lift it. The denylist, a warming
    /// domain, somebody else's secret, the org chart and the taint stop are
    /// not capabilities that are missing.
    pub open spec fn is_grantable(self) -> bool {
        match self {
            DenyReason::SendingDomainWarming
            | DenyReason::DomainDenied
            | DenyReason::CrossTenantSecret
            | DenyReason::SelfDirection
            | DenyReason::OutsideChainOfCommand
            | DenyReason::UntrustedInput => false,
            _ => true,
        }
    }

    /// Stable, low-cardinality metric label.
    pub fn code(self) -> (r: &'static str)
        ensures
            r@ == self.label(),
    {
        match self {
            DenyReason::NoRule => "no_rule",
            DenyReason::ChannelNotAllowed => "channel_not_allowed",
            DenyReason::CallingCodeNotAllowed => "calling_code_not_allowed",
            DenyReason::ContactBudgetExhausted => "contact_budget_exhausted",
            DenyReason::SendingDomainWarming => "sending_domain_warming",
            DenyReason::DomainDenied => "domain_denied",
            DenyReason::DomainNotAllowed => "domain_not_allowed",
            DenyReason::FileUploadNotAllowed => "file_upload_not_allowed",
            DenyReason::ToolNotAllowed => "tool_not_allowed",
            DenyReason::PeerNotAllowed => "peer_not_allowed",
            DenyReason::NoSpendPolicy => "no_spend_policy",
            DenyReason::CurrencyMismatch => "currency_mismatch",
            DenyReason::PerTransactionLimit => "per_transaction_limit",
            DenyReason::DailyLimit => "daily_limit",
            DenyReason::NoTeamBudget => "no_team_budget",
            DenyReason::TeamDailyLimit => "team_daily_limit",
            DenyReason::CrossTenantSecret => "cross_tenant_secret",
            DenyReason::SelfDirection => "self_direction",
            DenyReason::OutsideChainOfCommand => "outside_chain_of_command",
            DenyReason::CredentialChangeNotAllowed => "credential_change_not_allowed",
            DenyReason::DataDeleteNotAllowed => "data_delete_not_allowed",
            DenyReason::UntrustedInput => "untrusted_input",
        }
    }

    /// Whether a human can be asked to lift it.
    pub fn grantable(self) -> (r: bool)
        ensures
            r == self.is_grantable(),
    {
        match self {
            DenyReason::NoRule
            | DenyReason::ChannelNotAllowed
            | DenyReason::CallingCodeNotAllowed
            | DenyReason::ContactBudgetExhausted
            | DenyReason::DomainNotAllowed
            | DenyReason::FileUploadNotAllowed
            | DenyReason::ToolNotAllowed
            | DenyReason::PeerNotAllowed
            | DenyReason::NoSpendPolicy
            | DenyReason::CurrencyMismatch
            | DenyReason::PerTransactionLimit
            | DenyReason::DailyLimit
            | DenyReason::NoTeamBudget
            | DenyReason::TeamDailyLimit
            | DenyReason::CredentialChangeNotAllowed
            | DenyReason::DataDeleteNotAllowed => true,
            DenyReason::SendingDomainWarming
            | DenyReason::DomainDenied
            | DenyReason::CrossTenantSecret
            | DenyReason::SelfDirection
            | DenyReason::OutsideChainOfCommand
            | DenyReason::UntrustedInput => false,
        }
    }
}

/// [`DenyReason::ALL`] has every reason; [`DenyReason::GRANTABLE`] has exactly
/// those that can be granted; no two reasons share a label.
pub proof fn law_reasons_are_enumerated(a: DenyReason, b: DenyReason)
    ensures
        exists|i: int| 0 <= i < 22 && #[trigger] DenyReason::ALL[i] == a,
        a.is_grantable() <==> exists|i: int| 0 <= i < 16 && #[trigger] DenyReason::GRANTABLE[i] == a,
        a.label() == b.label() ==> a == b,
{
    let i: int = match a {
        DenyReason::NoRule => 0,
        DenyReason::ChannelNotAllowed => 1,
        DenyReason::CallingCodeNotAllowed => 2,
        DenyReason::ContactBudgetExhausted => 3,
        DenyReason::SendingDomainWarming => 4,
        DenyReason::DomainDenied => 5,
        DenyReason::DomainNotAllowed => 6,
        DenyReason::FileUploadNotAllowed => 7,
        DenyReason::ToolNotAllowed => 8,
        DenyReason::PeerNotAllowed => 9,
        DenyReason::NoSpendPolicy => 10,
        DenyReason::CurrencyMismatch => 11,
        DenyReason::PerTransactionLimit => 12,
        DenyReason::DailyLimit => 13,
        DenyReason::NoTeamBudget => 14,
        DenyReason::TeamDailyLimit => 15,
        DenyReason::CrossTenantSecret => 16,
        DenyReason::SelfDirection => 17,
        DenyReason::OutsideChainOfCommand => 18,
        DenyReason::CredentialChangeNotAllowed => 19,
        DenyReason::DataDeleteNotAllowed => 20,
        DenyReason::UntrustedInput => 21,
    };
    assert(DenyReason::ALL[i] == a);
    if a.is_grantable() {
        let j: int = match a {
            DenyReason::NoRule => 0,
            DenyReason::ChannelNotAllowed => 1,
            DenyReason::CallingCodeNotAllowed => 2,
            DenyReason::ContactBudgetExhausted => 3,
            DenyReason::DomainNotAllowed => 4,
            DenyReason::FileUploadNotAllowed => 5,
            DenyReason::ToolNotAllowed => 6,
            DenyReason::PeerNotAllowed => 7,
            DenyReason::NoSpendPolicy => 8,
            DenyReason::CurrencyMismatch => 9,
            DenyReason::PerTransactionLimit => 10,
            DenyReason::DailyLimit => 11,
            DenyReason::NoTeamBudget => 12,
            DenyReason::TeamDailyLimit => 13,
            DenyReason::CredentialChangeNotAllowed => 14,
            DenyReason::DataDeleteNotAllowed => 15,
            _ => 0,
        };
        assert(DenyReason::GRANTABLE[j] == a);
    }
    lemma_deny_labels(a, b);
}

proof fn lemma_deny_labels(a: DenyReason, b: DenyReason)
    ensures
        a.label() == b.label() ==> a == b,
{
    reveal_strlit("no_rule");
    reveal_strlit("channel_not_allowed");
    reveal_strlit("calling_code_not_allowed");
    reveal_strlit("contact_budget_exhausted");
    reveal_strlit("sending_domain_warming");
    reveal_strlit("domain_denied");
    reveal_strlit("domain_not_allowed");
    reveal_strlit("file_upload_not_allowed");
    reveal_strlit("tool_not_allowed");
    reveal_strlit("peer_not_allowed");
    reveal_strlit("no_spend_policy");
    reveal_strlit("currency_mismatch");
    reveal_strlit("per_transaction_limit");
    reveal_strlit("daily_limit");
    reveal_strlit("no_team_budget");
    reveal_strlit("team_daily_limit");
    reveal_strlit("cross_tenant_secret");
    reveal_strlit("self_direction");
    reveal_strlit("outside_chain_of_command");
    reveal_strlit("credential_change_not_allowed");
    reveal_strlit("data_delete_not_allowed");
    reveal_strlit("untrusted_input");
    let x = a.label();
    let y = b.label();
    if x == y {
        assert(x.len() == y.len() && x[0] == y[0] && x[1] == y[1] && x[2] == y[2] && x[3] == y[3]
            && x[7] == y[7]);
    }
}

/// Why an action waits for a human.
#[derive(Debug, Clone, Copy, PartialEq, Eq, Structural, Hash)]
pub enum ApprovalReason {
    PaymentAboveThreshold,
    ContractSignature,
    CredentialChange,
    BulkDataDelete,
}

impl ApprovalReason {
    /// The metric label of a reason.
    pub open spec fn label(self) -> Seq<char> {
        match self {
            ApprovalReason::PaymentAboveThreshold => "payment_above_threshold"@,
            ApprovalReason::ContractSignature => "contract_signature"@,
            ApprovalReason::CredentialChange => "credential_change"@,
            ApprovalReason::BulkDataDelete => "bulk_data_delete"@,
        }
    }

    /// Stable, low-cardinality metric label.
    pub fn code(self) -> (r: &'static str)
        ensures
            r@ == self.label(),
    {
        match self {
            ApprovalReason::PaymentAboveThreshold => "payment_above_threshold",
            ApprovalReason::ContractSignature => "contract_signature",
            ApprovalReason::CredentialChange => "credential_change",
            ApprovalReason::BulkDataDelete => "bulk_data_delete",
        }
    }
}

/// What the policy answers to an action.
#[derive(Debug, Clone, PartialEq, Eq)]
pub enum Decision {
    Allow,
    Deny { reason: DenyReason },
    /// A human has to say yes; the summary is what they read.
    RequireApproval { reason: ApprovalReason, summary: String },
}

/// A [`Decision`] as a mathematical value.
pub enum Ruling {
    Allow,
    Deny(DenyReason),
    RequireApproval(ApprovalReason, Seq<char>),
}

impl View for Decision {
    type V = Ruling;

    open spec fn view(&self) -> Ruling {
        match self {
            Decision::Allow => Ruling::Allow,
            Decision::Deny { reason } => Ruling::Deny(*reason),
            Decision::RequireApproval { reason, summary } => Ruling::RequireApproval(
                *reason,
                summary@,
            ),
        }
    }
}

impl Decision {
    /// Whether the action may run.
    pub fn is_allow(&self) -> (r: bool)
        ensures
            r == (self@ is Allow),
    {
        matches!(self, Decision::Allow)
    }
}

} // verus!
