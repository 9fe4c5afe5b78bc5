//! One ruling on one action.
use crate::action;
use crate::action::{
    Action, ActionCtx, ActionKind, CallingCode, Channel, ContactStanding, DataScope, Domain,
    McpTool, Risk, TrustLabel, E164,
};
use crate::decimal;
use crate::ids;
use crate::money::Money;
use crate::ordered;
use crate::ordered::OrdSet;
use crate::policy::limits::{EffectivePolicy, Limits, PolicyLimits};
use crate::policy::{ApprovalReason, Decision, DenyReason, Ruling};
use crate::text;
use vstd::prelude::*;
use vstd::string::*;

verus! {

// ---------------------------------------------------------------------------
// What the rules say
// ---------------------------------------------------------------------------

/// `host` is one of `entries` or sits underneath one.
pub open spec fn covers(entries: Set<Seq<char>>, host: Seq<char>) -> bool {
    exists|entry: Seq<char>| #[trigger] entries.contains(entry) && action::within(host, entry)
}

/// One of `codes` routes the number.
pub open spec fn routes(codes: Set<u16>, digits: Seq<char>) -> bool {
    exists|code: u16| #[trigger]
        codes.contains(code) && text::has_prefix(digits, decimal::decimal(code as nat))
}

/// The reason for not being on a list: where the list is empty, nobody has
/// written a rule.
pub open spec fn not_listed(list_is_empty: bool, specific: DenyReason) -> DenyReason {
    if list_is_empty {
        DenyReason::NoRule
    } else {
        specific
    }
}

/// `Allow`, or the refusal.
pub open spec fn ruling_of(refusal: Option<DenyReason>) -> Ruling {
    match refusal {
        None => Ruling::Allow,
        Some(reason) => Ruling::Deny(reason),
    }
}

/// What refuses a channel.
pub open spec fn channel_refusal(l: Limits, channel: Channel) -> Option<DenyReason> {
    if l.channels.contains(channel) {
        None
    } else {
        Some(not_listed(l.channels == Set::<Channel>::empty(), DenyReason::ChannelNotAllowed))
    }
}

/// What refuses to approach somebody over a channel: the channel, and for a
/// new contact the day's budget of new contacts.
pub open spec fn approach_refusal(l: Limits, ctx: ActionCtx, channel: Channel) -> Option<
    DenyReason,
> {
    match channel_refusal(l, channel) {
        Some(reason) => Some(reason),
        None => if ctx.contact == ContactStanding::New && ctx.new_contacts_today
            >= l.max_new_contacts {
            Some(DenyReason::ContactBudgetExhausted)
        } else {
            None
        },
    }
}

/// What refuses a number: no allowed calling code routes it.
pub open spec fn number_refusal(l: Limits, digits: Seq<char>) -> Option<DenyReason> {
    if routes(l.calling_codes, digits) {
        None
    } else {
        Some(
            not_listed(
                l.calling_codes == Set::<u16>::empty(),
                DenyReason::CallingCodeNotAllowed,
            ),
        )
    }
}

/// What refuses a message or a call to a number over a channel.
pub open spec fn phone_refusal(
    l: Limits,
    ctx: ActionCtx,
    channel: Channel,
    digits: Seq<char>,
) -> Option<DenyReason> {
    match approach_refusal(l, ctx, channel) {
        Some(reason) => Some(reason),
        None => number_refusal(l, digits),
    }
}

/// What refuses to write to a host: the denylist first, then the allowlist.
pub open spec fn host_refusal(l: Limits, host: Seq<char>) -> Option<DenyReason> {
    if covers(l.denied_domains, host) {
        Some(DenyReason::DomainDenied)
    } else if covers(l.allowed_domains, host) {
        None
    } else {
        Some(
            not_listed(
                l.allowed_domains == Set::<Seq<char>>::empty(),
                DenyReason::DomainNotAllowed,
            ),
        )
    }
}

/// What refuses to read a host: the denylist, then the channel.
pub open spec fn read_refusal(l: Limits, host: Seq<char>) -> Option<DenyReason> {
    if covers(l.denied_domains, host) {
        Some(DenyReason::DomainDenied)
    } else {
        channel_refusal(l, Channel::Web)
    }
}

/// What refuses a tool.
pub open spec fn tool_refusal(l: Limits, tool: (Seq<char>, Seq<char>)) -> Option<DenyReason> {
    if l.mcp_tools.contains(tool) {
        None
    } else {
        Some(
            not_listed(
                l.mcp_tools == Set::<(Seq<char>, Seq<char>)>::empty(),
                DenyReason::ToolNotAllowed,
            ),
        )
    }
}

/// What was spent today, in minor units.
pub open spec fn spent(ctx: ActionCtx) -> nat {
    match ctx.spent_today {
        None => 0,
        Some(m) => m.minor() as nat,
    }
}

/// What refuses a payment: no spending at all, another currency, the cap for
/// one payment, the cap for the day with what was spent already.
pub open spec fn payment_refusal(l: Limits, ctx: ActionCtx, amount: Money) -> Option<DenyReason> {
    match l.spend {
        None => Some(DenyReason::NoSpendPolicy),
        Some(s) => if amount.currency() != s.currency() {
            Some(DenyReason::CurrencyMismatch)
        } else if amount.minor() > s.max_per_transaction().minor() {
            Some(DenyReason::PerTransactionLimit)
        } else if ctx.spent_today matches Some(m) && m.currency() != s.currency() {
            Some(DenyReason::CurrencyMismatch)
        } else if spent(ctx) + amount.minor() > s.max_per_day().minor() {
            Some(DenyReason::DailyLimit)
        } else {
            None
        },
    }
}

/// A text as `Debug` writes it: in quotes, with escapes.
pub uninterp spec fn quoted(s: Seq<char>) -> Seq<char>;

/// What a human reads before a payment.
pub open spec fn payment_line(amount: Money, quoted_payee: Seq<char>) -> Seq<char> {
    "pay "@ + amount.text_spec() + " to "@ + quoted_payee
}

/// What a human reads before a signature.
pub open spec fn contract_line(quoted_title: Seq<char>) -> Seq<char> {
    "sign contract "@ + quoted_title
}

/// What the rules say, whatever the input's provenance.
pub open spec fn rules(l: Limits, a: Action, ctx: ActionCtx) -> Ruling {
    match a {
        Action::EmailSend { to } => if covers(l.denied_domains, to@.1) {
            Ruling::Deny(DenyReason::DomainDenied)
        } else {
            ruling_of(approach_refusal(l, ctx, Channel::Email))
        },
        Action::SmsSend { to } => ruling_of(
            phone_refusal(l, ctx, Channel::Sms, to.digits_spec()),
        ),
        Action::WhatsappSend { to } => ruling_of(
            phone_refusal(l, ctx, Channel::Whatsapp, to.digits_spec()),
        ),
        Action::CallPlace { to } => ruling_of(
            phone_refusal(l, ctx, Channel::Voice, to.digits_spec()),
        ),
        Action::BrowserRead { domain } => ruling_of(read_refusal(l, domain@)),
        Action::BrowserWrite { domain } => ruling_of(
            match channel_refusal(l, Channel::Web) {
                Some(reason) => Some(reason),
                None => host_refusal(l, domain@),
            },
        ),
        Action::FileUpload { domain } => ruling_of(
            match host_refusal(l, domain@) {
                Some(reason) => Some(reason),
                None => if l.file_upload {
                    None
                } else {
                    Some(DenyReason::FileUploadNotAllowed)
                },
            },
        ),
        Action::McpCall { tool } => ruling_of(tool_refusal(l, tool@)),
        Action::A2aSend { peer } => if covers(l.denied_domains, peer@) {
            Ruling::Deny(DenyReason::DomainDenied)
        } else if covers(l.a2a_peers, peer@) {
            Ruling::Allow
        } else {
            Ruling::Deny(
                not_listed(l.a2a_peers == Set::<Seq<char>>::empty(), DenyReason::PeerNotAllowed),
            )
        },
        Action::PaymentCreate { amount, payee } => match payment_refusal(l, ctx, amount) {
            Some(reason) => Ruling::Deny(reason),
            None => if amount.minor() >= l.spend->Some_0.approval_above().minor() {
                Ruling::RequireApproval(
                    ApprovalReason::PaymentAboveThreshold,
                    payment_line(amount, quoted(payee@)),
                )
            } else {
                Ruling::Allow
            },
        },
        Action::InvoiceIssue { .. } => ruling_of(channel_refusal(l, Channel::Email)),
        Action::ContractSign { title } => Ruling::RequireApproval(
            ApprovalReason::ContractSignature,
            contract_line(quoted(title@)),
        ),
        Action::CredentialChange { secret } => if secret@.0 != ctx.actor.tenant_id@ || secret@.1
            != ctx.actor.employee_id@ {
            Ruling::Deny(DenyReason::CrossTenantSecret)
        } else if !l.credential_change {
            Ruling::Deny(DenyReason::CredentialChangeNotAllowed)
        } else {
            Ruling::RequireApproval(
                ApprovalReason::CredentialChange,
                "rotate secret "@ + secret@.2,
            )
        },
        Action::DataDelete { scope } => if !l.data_delete {
            Ruling::Deny(DenyReason::DataDeleteNotAllowed)
        } else {
            match scope {
                DataScope::Conversation { .. } => Ruling::Allow,
                DataScope::AllForEmployee { id } => Ruling::RequireApproval(
                    ApprovalReason::BulkDataDelete,
                    "erase all data for employee "@ + ids::hyphenated(id@),
                ),
            }
        },
        Action::CharterSet { subordinate } => if subordinate@ == ctx.actor.employee_id@ {
            Ruling::Deny(DenyReason::SelfDirection)
        } else if !ctx.directs_subject {
            Ruling::Deny(DenyReason::OutsideChainOfCommand)
        } else {
            Ruling::Allow
        },
        Action::InternalSend { .. } => ruling_of(channel_refusal(l, Channel::Internal)),
        Action::AppointmentBook {  } => ruling_of(channel_refusal(l, Channel::Internal)),
    }
}

/// The ruling on an action: what the rules say, but a high-risk action that was
/// derived from untrusted input is refused, if it was not already.
pub open spec fn gate(l: Limits, a: Action, ctx: ActionCtx) -> Ruling {
    let said = rules(l, a, ctx);
    if ctx.trust == TrustLabel::Untrusted && a.risk_spec() == Risk::High && !(said is Deny) {
        Ruling::Deny(DenyReason::UntrustedInput)
    } else {
        said
    }
}

/// No action of this kind passes under these limits, whatever the context.
pub open spec fn out_of_reach(l: Limits, kind: ActionKind) -> bool {
    let no_codes = l.calling_codes == Set::<u16>::empty();
    let no_domains = l.allowed_domains == Set::<Seq<char>>::empty();
    match kind {
        ActionKind::EmailSend => !l.channels.contains(Channel::Email),
        ActionKind::SmsSend => !l.channels.contains(Channel::Sms) || no_codes,
        ActionKind::WhatsappSend => !l.channels.contains(Channel::Whatsapp) || no_codes,
        ActionKind::CallPlace => !l.channels.contains(Channel::Voice) || no_codes,
        ActionKind::BrowserRead => !l.channels.contains(Channel::Web),
        ActionKind::BrowserWrite => !l.channels.contains(Channel::Web) || no_domains,
        ActionKind::FileUpload => no_domains || !l.file_upload,
        ActionKind::McpCall => l.mcp_tools == Set::<(Seq<char>, Seq<char>)>::empty(),
        ActionKind::A2aSend => l.a2a_peers == Set::<Seq<char>>::empty(),
        ActionKind::PaymentCreate => l.spend is None,
        ActionKind::InvoiceIssue => !l.channels.contains(Channel::Email),
        ActionKind::ContractSign => false,
        ActionKind::CredentialChange => !l.credential_change,
        ActionKind::DataDelete => !l.data_delete,
        ActionKind::CharterSet => false,
        ActionKind::InternalSend => !l.channels.contains(Channel::Internal),
        ActionKind::AppointmentBook => !l.channels.contains(Channel::Internal),
    }
}

/// The kinds of action that approach a person: the ones that the budget of new
/// contacts is about.
pub open spec fn approaches_somebody(kind: ActionKind) -> bool {
    kind == ActionKind::EmailSend || kind == ActionKind::SmsSend || kind
        == ActionKind::WhatsappSend || kind == ActionKind::CallPlace
}

// ---------------------------------------------------------------------------
// Ruling
// ---------------------------------------------------------------------------

/// The `Debug` text of a string, as `format!("{:?}")` writes it. Which
/// characters it escapes is not stated.
#[verifier::external_body]
fn debug_text(s: &str) -> (r: String)
    ensures
        r@ == quoted(s@),
{
    format!("{:?}", s)
}

/// What a human reads before a payment to a payee whose name is quoted
/// already.
pub fn payment_summary(amount: Money, quoted_payee: &str) -> (r: String)
    ensures
        r@ == payment_line(amount, quoted_payee@),
{
    let mut out = "pay ".to_owned();
    out.append(amount.to_text().as_str());
    out.append(" to ");
    out.append(quoted_payee);
    out
}

/// What a human reads before signing a contract whose title is quoted already.
pub fn contract_summary(quoted_title: &str) -> (r: String)
    ensures
        r@ == contract_line(quoted_title@),
{
    let mut out = "sign contract ".to_owned();
    out.append(quoted_title);
    out
}

fn deny(reason: DenyReason) -> (r: Decision)
    ensures
        r@ == Ruling::Deny(reason),
{
    Decision::Deny { reason }
}

fn decision_of(refusal: Option<DenyReason>) -> (r: Decision)
    ensures
        r@ == ruling_of(refusal),
{
    match refusal {
        None => Decision::Allow,
        Some(reason) => deny(reason),
    }
}

fn no_match(list_is_empty: bool, specific: DenyReason) -> (r: DenyReason)
    ensures
        r == not_listed(list_is_empty, specific),
{
    if list_is_empty {
        DenyReason::NoRule
    } else {
        specific
    }
}

/// Whether `host` is one of `entries` or sits underneath one.
fn any_covers(entries: &OrdSet<Domain>, host: &Domain) -> (r: bool)
    ensures
        r == covers(entries@, host@),
{
    let list = entries.as_slice();
    for i in 0..list.len()
        invariant
            ordered::keys_of(list@).to_set() == entries@,
            forall|j: int| 0 <= j < i ==> !action::within(host@, (#[trigger] list@[j])@),
    {
        if host.is_within(&list[i]) {
            assert(ordered::keys_of(list@)[i as int] == list@[i as int]@);
            assert(entries@.contains(list@[i as int]@));
            return true;
        }
    }
    proof {
        if covers(entries@, host@) {
            let entry = choose|entry: Seq<char>| #[trigger]
                entries@.contains(entry) && action::within(host@, entry);
            let j = choose|j: int|
                0 <= j < ordered::keys_of(list@).len() && ordered::keys_of(list@)[j] == entry;
            assert(list@[j]@ == entry);
        }
    }
    false
}

/// Whether one of `codes` routes the number.
fn any_routes(codes: &OrdSet<CallingCode>, to: &E164) -> (r: bool)
    ensures
        r == routes(codes@, to.digits_spec()),
{
    let list = codes.as_slice();
    for i in 0..list.len()
        invariant
            ordered::keys_of(list@).to_set() == codes@,
            forall|j: int|
                0 <= j < i ==> !text::has_prefix(
                    to.digits_spec(),
                    decimal::decimal((#[trigger] list@[j])@ as nat),
                ),
    {
        if to.starts_with(list[i]) {
            assert(ordered::keys_of(list@)[i as int] == list@[i as int]@);
            assert(codes@.contains(list@[i as int]@));
            return true;
        }
    }
    proof {
        if routes(codes@, to.digits_spec()) {
            let code = choose|code: u16| #[trigger]
                codes@.contains(code) && text::has_prefix(
                    to.digits_spec(),
                    decimal::decimal(code as nat),
                );
            let j = choose|j: int|
                0 <= j < ordered::keys_of(list@).len() && ordered::keys_of(list@)[j] == code;
            assert(list@[j]@ == code);
        }
    }
    false
}

fn channel_open(limits: &PolicyLimits, channel: Channel) -> (r: Option<DenyReason>)
    ensures
        r == channel_refusal(limits@, channel),
{
    if limits.allowed_channels.contains(&channel) {
        None
    } else {
        Some(no_match(limits.allowed_channels.is_empty(), DenyReason::ChannelNotAllowed))
    }
}

fn channel_rules(limits: &PolicyLimits, ctx: &ActionCtx, channel: Channel) -> (r: Option<
    DenyReason,
>)
    ensures
        r == approach_refusal(limits@, *ctx, channel),
{
    match channel_open(limits, channel) {
        Some(reason) => Some(reason),
        None => if ctx.contact == ContactStanding::New && ctx.new_contacts_today
            >= limits.max_new_contacts_per_day {
            Some(DenyReason::ContactBudgetExhausted)
        } else {
            None
        },
    }
}

fn phone_rules(limits: &PolicyLimits, ctx: &ActionCtx, channel: Channel, to: &E164) -> (r: Option<
    DenyReason,
>)
    ensures
        r == phone_refusal(limits@, *ctx, channel, to.digits_spec()),
{
    match channel_rules(limits, ctx, channel) {
        Some(reason) => Some(reason),
        None => if any_routes(&limits.allowed_calling_codes, to) {
            None
        } else {
            Some(
                no_match(
                    limits.allowed_calling_codes.is_empty(),
                    DenyReason::CallingCodeNotAllowed,
                ),
            )
        },
    }
}

fn domain_rules(limits: &PolicyLimits, host: &Domain) -> (r: Option<DenyReason>)
    ensures
        r == host_refusal(limits@, host@),
{
    if any_covers(&limits.denied_domains, host) {
        Some(DenyReason::DomainDenied)
    } else if any_covers(&limits.allowed_domains, host) {
        None
    } else {
        Some(no_match(limits.allowed_domains.is_empty(), DenyReason::DomainNotAllowed))
    }
}

fn browser_read_rules(limits: &PolicyLimits, host: &Domain) -> (r: Option<DenyReason>)
    ensures
        r == read_refusal(limits@, host@),
{
    if any_covers(&limits.denied_domains, host) {
        Some(DenyReason::DomainDenied)
    } else {
        channel_open(limits, Channel::Web)
    }
}

fn mcp_rules(limits: &PolicyLimits, tool: &McpTool) -> (r: Option<DenyReason>)
    ensures
        r == tool_refusal(limits@, tool@),
{
    if limits.allowed_mcp_tools.contains(tool) {
        None
    } else {
        Some(no_match(limits.allowed_mcp_tools.is_empty(), DenyReason::ToolNotAllowed))
    }
}

fn payment_rules(limits: &PolicyLimits, ctx: &ActionCtx, amount: Money) -> (r: Option<DenyReason>)
    ensures
        r == payment_refusal(limits@, *ctx, amount),
{
    match limits.spend {
        None => Some(DenyReason::NoSpendPolicy),
        Some(spend) => {
            if amount.currency() != spend.currency() {
                return Some(DenyReason::CurrencyMismatch);
            }
            if amount.minor() > spend.max_per_transaction().minor() {
                return Some(DenyReason::PerTransactionLimit);
            }
            let total: u64 = match ctx.spent_today {
                None => amount.minor(),
                Some(before) => {
                    if before.currency() != spend.currency() {
                        return Some(DenyReason::CurrencyMismatch);
                    }
                    match before.checked_add(amount) {
                        Ok(sum) => sum.minor(),
                        Err(_) => return Some(DenyReason::DailyLimit),
                    }
                },
            };
            if total > spend.max_per_day().minor() {
                return Some(DenyReason::DailyLimit);
            }
            None
        },
    }
}

fn evaluate_rules(policy: &EffectivePolicy, action: &Action, ctx: &ActionCtx) -> (r: Decision)
    ensures
        r@ == rules(policy@, *action, *ctx),
{
    let limits = policy.limits();
    match action {
        Action::EmailSend { to } => {
            if any_covers(&limits.denied_domains, to.domain()) {
                return deny(DenyReason::DomainDenied);
            }
            decision_of(channel_rules(limits, ctx, Channel::Email))
        },
        Action::SmsSend { to } => decision_of(phone_rules(limits, ctx, Channel::Sms, to)),
        Action::WhatsappSend { to } => decision_of(
            phone_rules(limits, ctx, Channel::Whatsapp, to),
        ),
        Action::CallPlace { to } => decision_of(phone_rules(limits, ctx, Channel::Voice, to)),
        Action::BrowserRead { domain } => decision_of(browser_read_rules(limits, domain)),
        Action::BrowserWrite { domain } => match channel_open(limits, Channel::Web) {
            Some(reason) => deny(reason),
            None => decision_of(domain_rules(limits, domain)),
        },
        Action::FileUpload { domain } => match domain_rules(limits, domain) {
            Some(reason) => deny(reason),
            None => if limits.allow_file_upload {
                Decision::Allow
            } else {
                deny(DenyReason::FileUploadNotAllowed)
            },
        },
        Action::McpCall { tool } => decision_of(mcp_rules(limits, tool)),
        Action::A2aSend { peer } => {
            if any_covers(&limits.denied_domains, peer) {
                return deny(DenyReason::DomainDenied);
            }
            if any_covers(&limits.allowed_a2a_peers, peer) {
                Decision::Allow
            } else {
                deny(no_match(limits.allowed_a2a_peers.is_empty(), DenyReason::PeerNotAllowed))
            }
        },
        Action::PaymentCreate { amount, payee } => {
            if let Some(reason) = payment_rules(limits, ctx, *amount) {
                return deny(reason);
            }
            match limits.spend {
                None => deny(DenyReason::NoSpendPolicy),
                Some(spend) => if amount.minor() >= spend.approval_above().minor() {
                    Decision::RequireApproval {
                        reason: ApprovalReason::PaymentAboveThreshold,
                        summary: payment_summary(*amount, debug_text(payee.as_str()).as_str()),
                    }
                } else {
                    Decision::Allow
                },
            }
        },
        Action::InvoiceIssue { amount: _ } => decision_of(channel_open(limits, Channel::Email)),
        Action::ContractSign { title } => Decision::RequireApproval {
            reason: ApprovalReason::ContractSignature,
            summary: contract_summary(debug_text(title.as_str()).as_str()),
        },
        Action::CredentialChange { secret } => {
            if secret.tenant_id().as_uuid() != ctx.actor.tenant_id.as_uuid()
                || secret.employee_id().as_uuid() != ctx.actor.employee_id.as_uuid() {
                return deny(DenyReason::CrossTenantSecret);
            }
            if !limits.allow_credential_change {
                return deny(DenyReason::CredentialChangeNotAllowed);
            }
            let mut summary = "rotate secret ".to_owned();
            summary.append(secret.name());
            Decision::RequireApproval { reason: ApprovalReason::CredentialChange, summary }
        },
        Action::DataDelete { scope } => {
            if !limits.allow_data_delete {
                return deny(DenyReason::DataDeleteNotAllowed);
            }
            match scope {
                DataScope::Conversation { .. } => Decision::Allow,
                DataScope::AllForEmployee { id } => {
                    let mut summary = "erase all data for employee ".to_owned();
                    summary.append(id.to_text().as_str());
                    Decision::RequireApproval { reason: ApprovalReason::BulkDataDelete, summary }
                },
            }
        },
        Action::CharterSet { subordinate } => {
            if subordinate.as_uuid() == ctx.actor.employee_id.as_uuid() {
                return deny(DenyReason::SelfDirection);
            }
            if !ctx.directs_subject {
                return deny(DenyReason::OutsideChainOfCommand);
            }
            Decision::Allow
        },
        Action::InternalSend { .. } => decision_of(channel_open(limits, Channel::Internal)),
        Action::AppointmentBook {  } => decision_of(channel_open(limits, Channel::Internal)),
    }
}

/// May this action run under this policy, in this context?
///
/// The rules answer first. Then the taint wire: a high-risk action derived
/// from untrusted input is refused, whatever they answered; a refusal they
/// made already keeps its own reason.
pub fn evaluate(policy: &EffectivePolicy, action: &Action, ctx: &ActionCtx) -> (r: Decision)
    ensures
        r@ == gate(policy@, *action, *ctx),
{
    let decision = evaluate_rules(policy, action, ctx);
    if ctx.trust.is_untrusted() && action.risk().is_high() && !matches!(decision, Decision::Deny { .. }) {
        return deny(DenyReason::UntrustedInput);
    }
    decision
}

/// May this tool be called? The answer that [`evaluate`] gives to the call.
pub fn evaluate_mcp_call(policy: &EffectivePolicy, tool: &McpTool) -> (r: Decision)
    ensures
        r@ == ruling_of(tool_refusal(policy@, tool@)),
{
    decision_of(mcp_rules(policy.limits(), tool))
}

/// May this host be read? The answer that [`evaluate`] gives to the read.
pub fn evaluate_browser_read(policy: &EffectivePolicy, domain: &Domain) -> (r: Decision)
    ensures
        r@ == ruling_of(read_refusal(policy@, domain@)),
{
    decision_of(browser_read_rules(policy.limits(), domain))
}

/// Whether the budget of new contacts is about this action.
pub fn spends_contact_budget(action: &Action) -> (r: bool)
    ensures
        r == approaches_somebody(action.kind_spec()),
{
    match action {
        Action::EmailSend { .. }
        | Action::SmsSend { .. }
        | Action::WhatsappSend { .. }
        | Action::CallPlace { .. } => true,
        Action::A2aSend { .. }
        | Action::BrowserRead { .. }
        | Action::BrowserWrite { .. }
        | Action::FileUpload { .. }
        | Action::McpCall { .. }
        | Action::PaymentCreate { .. }
        | Action::InvoiceIssue { .. }
        | Action::ContractSign { .. }
        | Action::CredentialChange { .. }
        | Action::DataDelete { .. }
        | Action::CharterSet { .. }
        | Action::InternalSend { .. }
        | Action::AppointmentBook {} => false,
    }
}

/// Whether every action of this kind is denied under this policy: a reason not
/// to offer the tool at all. Where it says no, an action may still be denied.
pub fn always_denies(policy: &EffectivePolicy, kind: ActionKind) -> (r: bool)
    ensures
        r == out_of_reach(policy@, kind),
{
    let limits = policy.limits();
    let channels = &limits.allowed_channels;
    match kind {
        ActionKind::EmailSend => !channels.contains(&Channel::Email),
        ActionKind::SmsSend => !channels.contains(&Channel::Sms)
            || limits.allowed_calling_codes.is_empty(),
        ActionKind::WhatsappSend => !channels.contains(&Channel::Whatsapp)
            || limits.allowed_calling_codes.is_empty(),
        ActionKind::CallPlace => !channels.contains(&Channel::Voice)
            || limits.allowed_calling_codes.is_empty(),
        ActionKind::BrowserRead => !channels.contains(&Channel::Web),
        ActionKind::BrowserWrite => !channels.contains(&Channel::Web)
            || limits.allowed_domains.is_empty(),
        ActionKind::FileUpload => limits.allowed_domains.is_empty() || !limits.allow_file_upload,
        ActionKind::McpCall => limits.allowed_mcp_tools.is_empty(),
        ActionKind::A2aSend => limits.allowed_a2a_peers.is_empty(),
        ActionKind::PaymentCreate => limits.spend.is_none(),
        ActionKind::InvoiceIssue => !channels.contains(&Channel::Email),
        ActionKind::ContractSign => false,
        ActionKind::CredentialChange => !limits.allow_credential_change,
        ActionKind::DataDelete => !limits.allow_data_delete,
        ActionKind::CharterSet => false,
        ActionKind::InternalSend => !channels.contains(&Channel::Internal),
        ActionKind::AppointmentBook => !channels.contains(&Channel::Internal),
    }
}

} // verus!
