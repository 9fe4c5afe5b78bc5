//! What a ruling says about the limits, the action and the context it was made
//! on.
use crate::action;
use crate::action::{
    Action, ActionCtx, Actor, Channel, ContactStanding, DataScope, Domain, McpTool, TrustLabel,
};
use crate::decimal;
use crate::ids;
use crate::money::Money;
use crate::policy::gate;
use crate::policy::limits::Limits;
use crate::policy::{ApprovalReason, DenyReason, Ruling};
use crate::text;
use crate::time::Timestamp;
use vstd::prelude::*;
use vstd::string::*;

verus! {

// ---------------------------------------------------------------------------
// Hosts and numbers
// ---------------------------------------------------------------------------

/// A list of hosts covers a host exactly where the host is an entry, or an entry
/// with something and a dot before it.
pub proof fn law_a_list_covers_what_is_under_its_entries(
    entries: Set<Seq<char>>,
    host: Seq<char>,
)
    ensures
        gate::covers(entries, host) <==> exists|entry: Seq<char>| #[trigger]
            entries.contains(entry) && (host == entry || exists|before: Seq<char>|
                host == #[trigger] (before + seq!['.'] + entry)),
{
    if gate::covers(entries, host) {
        let entry = choose|entry: Seq<char>| #[trigger]
            entries.contains(entry) && action::within(host, entry);
        if host != entry {
            let dotted = seq!['.'] + entry;
            let before = host.take(host.len() - dotted.len());
            assert(host =~= before + seq!['.'] + entry) by {
                assert(host.skip(host.len() - dotted.len()) == dotted);
                assert(host =~= before + dotted);
            }
        }
        assert(entries.contains(entry));
    }
    if exists|entry: Seq<char>| #[trigger]
        entries.contains(entry) && (host == entry || exists|before: Seq<char>|
            host == #[trigger] (before + seq!['.'] + entry)) {
        let entry = choose|entry: Seq<char>| #[trigger]
            entries.contains(entry) && (host == entry || exists|before: Seq<char>|
                host == #[trigger] (before + seq!['.'] + entry));
        if host != entry {
            let before = choose|before: Seq<char>|
                host == #[trigger] (before + seq!['.'] + entry);
            let dotted = seq!['.'] + entry;
            assert(host.skip(host.len() - dotted.len()) =~= dotted);
        }
        assert(action::within(host, entry));
    }
}

/// Calling codes route a number exactly where the number starts with the digits
/// of one of them.
pub proof fn law_a_code_routes_what_starts_with_it(codes: Set<u16>, digits: Seq<char>)
    ensures
        gate::routes(codes, digits) <==> exists|code: u16, rest: Seq<char>| #[trigger]
            codes.contains(code) && digits == #[trigger] (decimal::decimal(code as nat) + rest),
{
    if gate::routes(codes, digits) {
        let code = choose|code: u16| #[trigger]
            codes.contains(code) && text::has_prefix(digits, decimal::decimal(code as nat));
        let numeral = decimal::decimal(code as nat);
        let rest = digits.skip(numeral.len() as int);
        assert(digits =~= numeral + rest);
        assert(codes.contains(code) && digits == numeral + rest);
    }
    if exists|code: u16, rest: Seq<char>| #[trigger]
        codes.contains(code) && digits == #[trigger] (decimal::decimal(code as nat) + rest) {
        let (code, rest) = choose|code: u16, rest: Seq<char>| #[trigger]
            codes.contains(code) && digits == #[trigger] (decimal::decimal(code as nat) + rest);
        let numeral = decimal::decimal(code as nat);
        assert(digits.take(numeral.len() as int) =~= numeral);
    }
}

// ---------------------------------------------------------------------------
// Every ruling has its cause
// ---------------------------------------------------------------------------

/// The channel that an action goes over.
pub open spec fn channel_of(a: Action) -> Option<Channel> {
    match a {
        Action::EmailSend { .. } | Action::InvoiceIssue { .. } => Some(Channel::Email),
        Action::SmsSend { .. } => Some(Channel::Sms),
        Action::WhatsappSend { .. } => Some(Channel::Whatsapp),
        Action::CallPlace { .. } => Some(Channel::Voice),
        Action::BrowserRead { .. } | Action::BrowserWrite { .. } => Some(Channel::Web),
        Action::InternalSend { .. } | Action::AppointmentBook {  } => Some(Channel::Internal),
        _ => None,
    }
}

/// The host that an action is aimed at.
pub open spec fn host_of(a: Action) -> Option<Seq<char>> {
    match a {
        Action::EmailSend { to } => Some(to@.1),
        Action::BrowserRead { domain } => Some(domain@),
        Action::BrowserWrite { domain } => Some(domain@),
        Action::FileUpload { domain } => Some(domain@),
        Action::A2aSend { peer } => Some(peer@),
        _ => None,
    }
}

/// The number that an action is aimed at.
pub open spec fn number_of(a: Action) -> Option<Seq<char>> {
    match a {
        Action::SmsSend { to } => Some(to.digits_spec()),
        Action::WhatsappSend { to } => Some(to.digits_spec()),
        Action::CallPlace { to } => Some(to.digits_spec()),
        _ => None,
    }
}

/// The action turns to a person: by mail, message or call.
pub open spec fn is_approach(a: Action) -> bool {
    a is EmailSend || a is SmsSend || a is WhatsappSend || a is CallPlace
}

/// The action is expensive or cannot be taken back.
pub open spec fn is_grave(a: Action) -> bool {
    a is FileUpload || a is PaymentCreate || a is InvoiceIssue || a is ContractSign
        || a is CredentialChange || a is DataDelete || a is CharterSet
}

/// What was spent today, in minor units.
pub open spec fn booked(ctx: ActionCtx) -> int {
    if ctx.spent_today is Some {
        ctx.spent_today->Some_0.minor() as int
    } else {
        0
    }
}

/// No day's budget of new contacts stands in the way.
pub open spec fn may_meet(l: Limits, ctx: ActionCtx) -> bool {
    ctx.contact == ContactStanding::Known || ctx.new_contacts_today < l.max_new_contacts
}

/// The action is on every list and within every cap that is about it.
pub open spec fn is_granted(l: Limits, a: Action, ctx: ActionCtx) -> bool {
    &&& channel_of(a) matches Some(c) ==> l.channels.contains(c)
    &&& host_of(a) matches Some(h) ==> !gate::covers(l.denied_domains, h)
    &&& number_of(a) matches Some(n) ==> gate::routes(l.calling_codes, n)
    &&& is_approach(a) ==> may_meet(l, ctx)
    &&& a is BrowserWrite || a is FileUpload ==> gate::covers(
        l.allowed_domains,
        host_of(a)->Some_0,
    )
    &&& a is FileUpload ==> l.file_upload
    &&& a matches Action::McpCall { tool } ==> l.mcp_tools.contains(tool@)
    &&& a matches Action::A2aSend { peer } ==> gate::covers(l.a2a_peers, peer@)
    &&& a matches Action::PaymentCreate { amount, .. } ==> {
        &&& l.spend is Some
        &&& amount.currency() == l.spend->Some_0.currency()
        &&& amount.minor() <= l.spend->Some_0.max_per_transaction().minor()
        &&& ctx.spent_today is Some ==> ctx.spent_today->Some_0.currency()
            == l.spend->Some_0.currency()
        &&& booked(ctx) + amount.minor() <= l.spend->Some_0.max_per_day().minor()
    }
    &&& a matches Action::CredentialChange { secret } ==> {
        &&& secret@.0 == ctx.actor.tenant_id@
        &&& secret@.1 == ctx.actor.employee_id@
        &&& l.credential_change
    }
    &&& a is DataDelete ==> l.data_delete
    &&& a matches Action::CharterSet { subordinate } ==> ctx.directs_subject && subordinate@
        != ctx.actor.employee_id@
}

/// The action is one that a human is asked about: a payment from the threshold
/// on, a signature, new credentials, or all the data of an employee.
pub open spec fn is_asked_about(l: Limits, a: Action) -> Option<ApprovalReason> {
    match a {
        Action::PaymentCreate { amount, .. } => if l.spend is Some && amount.minor()
            >= l.spend->Some_0.approval_above().minor() {
            Some(ApprovalReason::PaymentAboveThreshold)
        } else {
            None
        },
        Action::ContractSign { .. } => Some(ApprovalReason::ContractSignature),
        Action::CredentialChange { .. } => Some(ApprovalReason::CredentialChange),
        Action::DataDelete { scope: DataScope::AllForEmployee { .. } } => Some(
            ApprovalReason::BulkDataDelete,
        ),
        _ => None,
    }
}

/// Nothing is refused without a cause, and nothing passes over one: an action is
/// denied exactly where a list, a cap or a permission that is about it does not
/// grant it, or where it is grave and comes from untrusted input.
pub proof fn law_only_what_is_not_granted_is_denied(l: Limits, a: Action, ctx: ActionCtx)
    ensures
        gate::gate(l, a, ctx) is Deny <==> !is_granted(l, a, ctx) || (is_grave(a) && ctx.trust
            == TrustLabel::Untrusted),
{
}

/// What is not denied runs, unless it is one of the four things that a human is
/// asked about; then it waits, for that reason.
pub proof fn law_what_is_granted_runs_or_waits(l: Limits, a: Action, ctx: ActionCtx)
    requires
        !(gate::gate(l, a, ctx) is Deny),
    ensures
        match is_asked_about(l, a) {
            None => gate::gate(l, a, ctx) is Allow,
            Some(why) => gate::gate(l, a, ctx) matches Ruling::RequireApproval(reason, _) && reason
                == why,
        },
{
}

/// A payment that the limits do not refuse, from trusted input, waits for a human
/// exactly where it reaches the amount from which on one is asked, and runs
/// exactly where it stays below it.
pub proof fn law_a_payment_waits_from_the_threshold_on(
    l: Limits,
    amount: Money,
    payee: String,
    ctx: ActionCtx,
)
    requires
        ctx.trust == TrustLabel::Trusted,
        !(gate::gate(l, (Action::PaymentCreate { amount, payee }), ctx) is Deny),
    ensures
        l.spend is Some,
        ({
            let ruling = gate::gate(l, (Action::PaymentCreate { amount, payee }), ctx);
            let threshold = l.spend->Some_0.approval_above().minor();
            &&& amount.minor() >= threshold <==> (ruling matches Ruling::RequireApproval(reason, _)
                && reason == ApprovalReason::PaymentAboveThreshold)
            &&& amount.minor() < threshold <==> ruling is Allow
        }),
{
}

/// Money is paid without a human only below the threshold: two payments that both
/// run are both below it, and one that is as large as one that waits does not run.
pub proof fn law_a_larger_payment_is_ruled_no_softer(
    l: Limits,
    small: Money,
    large: Money,
    payee: String,
    ctx: ActionCtx,
)
    requires
        small.currency() == large.currency(),
        small.minor() <= large.minor(),
    ensures
        ({
            let first = gate::gate(l, (Action::PaymentCreate { amount: small, payee }), ctx);
            let second = gate::gate(l, (Action::PaymentCreate { amount: large, payee }), ctx);
            &&& first is Deny ==> second is Deny
            &&& first is RequireApproval ==> !(second is Allow)
        }),
{
}

/// Having spent more today lets no more through.
pub proof fn law_spending_leaves_less_to_spend(
    l: Limits,
    amount: Money,
    payee: String,
    ctx: ActionCtx,
    before: Money,
    more: Money,
)
    requires
        before.currency() == more.currency(),
        before.minor() <= more.minor(),
        gate::gate(
            l,
            (Action::PaymentCreate { amount, payee }),
            (ActionCtx { spent_today: Some(before), ..ctx }),
        ) is Deny,
    ensures
        gate::gate(
            l,
            (Action::PaymentCreate { amount, payee }),
            (ActionCtx { spent_today: Some(more), ..ctx }),
        ) is Deny,
{
}

/// A refused payment is told the first thing that stands in its way: that nothing
/// may be spent, the currency, the cap for one payment, what was spent in another
/// currency, the cap for the day.
pub proof fn law_a_refused_payment_is_told_why(
    l: Limits,
    amount: Money,
    payee: String,
    ctx: ActionCtx,
)
    ensures
        ({
            let ruling = gate::gate(l, (Action::PaymentCreate { amount, payee }), ctx);
            &&& l.spend is None ==> ruling == Ruling::Deny(DenyReason::NoSpendPolicy)
            &&& l.spend matches Some(s) ==> {
                &&& amount.currency() != s.currency() ==> ruling == Ruling::Deny(
                    DenyReason::CurrencyMismatch,
                )
                &&& amount.currency() == s.currency() ==> {
                    &&& amount.minor() > s.max_per_transaction().minor() ==> ruling == Ruling::Deny(
                        DenyReason::PerTransactionLimit,
                    )
                    &&& amount.minor() <= s.max_per_transaction().minor() ==> {
                        &&& ctx.spent_today is Some && ctx.spent_today->Some_0.currency()
                            != s.currency() ==> ruling == Ruling::Deny(DenyReason::CurrencyMismatch)
                        &&& (ctx.spent_today is None || ctx.spent_today->Some_0.currency()
                            == s.currency()) && booked(ctx) + amount.minor()
                            > s.max_per_day().minor() ==> ruling == Ruling::Deny(
                            DenyReason::DailyLimit,
                        )
                    }
                }
            }
        }),
{
}

/// What a human reads names what is asked for: the amount and the payee, the
/// title, the secret, the employee.
pub proof fn law_an_approval_names_what_is_asked_for(l: Limits, a: Action, ctx: ActionCtx)
    requires
        gate::gate(l, a, ctx) is RequireApproval,
    ensures
        gate::gate(l, a, ctx)->RequireApproval_1 == match a {
            Action::PaymentCreate { amount, payee } => "pay "@ + amount.text_spec() + " to "@
                + gate::quoted(payee@),
            Action::ContractSign { title } => "sign contract "@ + gate::quoted(title@),
            Action::CredentialChange { secret } => "rotate secret "@ + secret@.2,
            Action::DataDelete { scope: DataScope::AllForEmployee { id } } => {
                "erase all data for employee "@ + ids::hyphenated(id@)
            },
            _ => Seq::empty(),
        },
{
}

/// Untrusted input is refused what is grave, and makes no other difference: where
/// trusted input is refused, it is refused for the same reason.
pub proof fn law_untrusted_input_is_refused_what_is_grave(l: Limits, a: Action, ctx: ActionCtx)
    ensures
        ({
            let trusted = gate::gate(l, a, (ActionCtx { trust: TrustLabel::Trusted, ..ctx }));
            let untrusted = gate::gate(l, a, (ActionCtx { trust: TrustLabel::Untrusted, ..ctx }));
            &&& trusted is Deny || !is_grave(a) ==> untrusted == trusted
            &&& !(trusted is Deny) && is_grave(a) ==> untrusted == Ruling::Deny(
                DenyReason::UntrustedInput,
            )
        }),
{
}

/// The reason of a refusal is a thing that stands in the way. That nobody wrote a
/// rule is said where the list in question is empty, and only there.
pub proof fn law_a_refusal_names_its_cause(l: Limits, a: Action, ctx: ActionCtx)
    requires
        gate::gate(l, a, ctx) is Deny,
    ensures
        match gate::gate(l, a, ctx)->Deny_0 {
            DenyReason::NoRule => {
                ||| channel_of(a) is Some && l.channels == Set::<Channel>::empty()
                ||| number_of(a) is Some && l.calling_codes == Set::<u16>::empty()
                ||| (a is BrowserWrite || a is FileUpload) && l.allowed_domains == Set::<
                    Seq<char>,
                >::empty()
                ||| a is McpCall && l.mcp_tools == Set::<(Seq<char>, Seq<char>)>::empty()
                ||| a is A2aSend && l.a2a_peers == Set::<Seq<char>>::empty()
            },
            DenyReason::ChannelNotAllowed => channel_of(a) is Some && !l.channels.contains(
                channel_of(a)->Some_0,
            ) && l.channels != Set::<Channel>::empty(),
            DenyReason::CallingCodeNotAllowed => number_of(a) is Some && !gate::routes(
                l.calling_codes,
                number_of(a)->Some_0,
            ) && l.calling_codes != Set::<u16>::empty(),
            DenyReason::ContactBudgetExhausted => is_approach(a) && ctx.contact
                == ContactStanding::New && ctx.new_contacts_today >= l.max_new_contacts,
            DenyReason::DomainDenied => host_of(a) is Some && gate::covers(
                l.denied_domains,
                host_of(a)->Some_0,
            ),
            DenyReason::DomainNotAllowed => (a is BrowserWrite || a is FileUpload) && !gate::covers(
                l.allowed_domains,
                host_of(a)->Some_0,
            ) && l.allowed_domains != Set::<Seq<char>>::empty(),
            DenyReason::FileUploadNotAllowed => a is FileUpload && !l.file_upload,
            DenyReason::ToolNotAllowed => (a matches Action::McpCall { tool }
                && !l.mcp_tools.contains(tool@)) && l.mcp_tools != Set::<
                (Seq<char>, Seq<char>),
            >::empty(),
            DenyReason::PeerNotAllowed => a is A2aSend && !gate::covers(
                l.a2a_peers,
                host_of(a)->Some_0,
            ) && l.a2a_peers != Set::<Seq<char>>::empty(),
            DenyReason::NoSpendPolicy => a is PaymentCreate && l.spend is None,
            DenyReason::CurrencyMismatch
            | DenyReason::PerTransactionLimit
            | DenyReason::DailyLimit => a is PaymentCreate && l.spend is Some,
            DenyReason::CrossTenantSecret => a matches Action::CredentialChange { secret } && (
            secret@.0 != ctx.actor.tenant_id@ || secret@.1 != ctx.actor.employee_id@),
            DenyReason::CredentialChangeNotAllowed => a is CredentialChange
                && !l.credential_change,
            DenyReason::DataDeleteNotAllowed => a is DataDelete && !l.data_delete,
            DenyReason::SelfDirection => a matches Action::CharterSet { subordinate } && subordinate@
                == ctx.actor.employee_id@,
            DenyReason::OutsideChainOfCommand => a is CharterSet && !ctx.directs_subject,
            DenyReason::UntrustedInput => is_grave(a) && ctx.trust == TrustLabel::Untrusted,
            DenyReason::SendingDomainWarming
            | DenyReason::NoTeamBudget
            | DenyReason::TeamDailyLimit => false,
        },
{
}

/// Which of several causes is named: the denylist before all else but the channel
/// of a host that is written to, the channel before the budget of new contacts,
/// that budget before the calling code, and a list of hosts before the switch for
/// uploads.
pub proof fn law_causes_are_named_in_order(l: Limits, a: Action, ctx: ActionCtx)
    requires
        gate::gate(l, a, ctx) is Deny,
    ensures
        ({
            let why = gate::gate(l, a, ctx)->Deny_0;
            let closed = channel_of(a) is Some && !l.channels.contains(channel_of(a)->Some_0);
            let off_limits = host_of(a) is Some && gate::covers(
                l.denied_domains,
                host_of(a)->Some_0,
            );
            &&& off_limits && !(a is BrowserWrite && closed) ==> why == DenyReason::DomainDenied
            &&& closed && (!off_limits || a is BrowserWrite) ==> why
                == DenyReason::ChannelNotAllowed || why == DenyReason::NoRule
            &&& is_approach(a) && !closed && !off_limits && !may_meet(l, ctx) ==> why
                == DenyReason::ContactBudgetExhausted
            &&& a is FileUpload && !off_limits && !gate::covers(
                l.allowed_domains,
                host_of(a)->Some_0,
            ) ==> why == DenyReason::DomainNotAllowed || why == DenyReason::NoRule
        }),
{
}

/// A known contact is never turned away for the number of new ones, and a new one
/// exactly from the budget on.
pub proof fn law_the_budget_is_about_new_contacts(l: Limits, a: Action, ctx: ActionCtx)
    requires
        is_approach(a),
        gate::gate(l, a, (ActionCtx { contact: ContactStanding::Known, ..ctx })) is Allow,
    ensures
        ctx.new_contacts_today < l.max_new_contacts <==> gate::gate(
            l,
            a,
            (ActionCtx { contact: ContactStanding::New, ..ctx }),
        ) is Allow,
        ctx.new_contacts_today >= l.max_new_contacts <==> gate::gate(
            l,
            a,
            (ActionCtx { contact: ContactStanding::New, ..ctx }),
        ) == Ruling::Deny(DenyReason::ContactBudgetExhausted),
{
}

/// The short answers on a tool and on a host to read are the rulings on the
/// action.
pub proof fn law_short_answers_are_rulings(
    l: Limits,
    tool: McpTool,
    domain: Domain,
    ctx: ActionCtx,
)
    ensures
        gate::ruling_of(gate::tool_refusal(l, tool@)) is Allow <==> l.mcp_tools.contains(tool@),
        gate::ruling_of(gate::read_refusal(l, domain@)) is Allow <==> l.channels.contains(
            Channel::Web,
        ) && !gate::covers(l.denied_domains, domain@),
        gate::ruling_of(gate::tool_refusal(l, tool@)) == gate::gate(
            l,
            (Action::McpCall { tool }),
            ctx,
        ),
        gate::ruling_of(gate::read_refusal(l, domain@)) == gate::gate(
            l,
            (Action::BrowserRead { domain }),
            ctx,
        ),
{
}

/// A kind of action is offered exactly where something of what it takes is
/// granted: its channel is open, its lists are not empty, its switch is on.
pub proof fn law_a_kind_is_offered_where_something_is_granted(l: Limits, a: Action)
    ensures
        !gate::out_of_reach(l, a.kind_spec()) <==> {
            &&& channel_of(a) matches Some(c) ==> l.channels.contains(c)
            &&& number_of(a) is Some ==> l.calling_codes != Set::<u16>::empty()
            &&& a is BrowserWrite || a is FileUpload ==> l.allowed_domains != Set::<
                Seq<char>,
            >::empty()
            &&& a is FileUpload ==> l.file_upload
            &&& a is McpCall ==> l.mcp_tools != Set::<(Seq<char>, Seq<char>)>::empty()
            &&& a is A2aSend ==> l.a2a_peers != Set::<Seq<char>>::empty()
            &&& a is PaymentCreate ==> l.spend is Some
            &&& a is CredentialChange ==> l.credential_change
            &&& a is DataDelete ==> l.data_delete
        },
{
}

/// The budget of new contacts is charged for mail, messages and calls, and for
/// nothing else.
pub proof fn law_the_budget_is_charged_for_approaches(a: Action)
    ensures
        gate::approaches_somebody(a.kind_spec()) <==> is_approach(a),
{
}

/// In the safest context nothing grave is done, nobody is directed and everybody is a
/// stranger; what is spent and who was met is still to be learned.
pub proof fn law_the_safest_context_does_nothing_grave(
    l: Limits,
    a: Action,
    actor: Actor,
    now: Timestamp,
)
    ensures
        is_grave(a) ==> gate::gate(l, a, ActionCtx::safest(actor, now)) is Deny,
        is_approach(a) && l.max_new_contacts == 0 ==> gate::gate(
            l,
            a,
            ActionCtx::safest(actor, now),
        ) is Deny,
        !ActionCtx::safest(actor, now).directs_subject,
        ActionCtx::safest(actor, now).actor == actor,
        ActionCtx::safest(actor, now).now == now,
        ActionCtx::safest(actor, now).spent_today is None,
        ActionCtx::safest(actor, now).new_contacts_today == 0,
{
}

/// A human can be asked to lift a refusal, but for six: a warming domain, the
/// denylist, somebody else's secret, the two of the org chart, and the one for
/// untrusted input.
pub proof fn law_six_refusals_are_final(reason: DenyReason)
    ensures
        !reason.is_grantable() <==> reason is SendingDomainWarming || reason is DomainDenied
            || reason is CrossTenantSecret || reason is SelfDirection
            || reason is OutsideChainOfCommand || reason is UntrustedInput,
{
}

} // verus!
