//! What holds of every policy and every action.
use crate::action::{Action, ActionCtx, ActionKind, Domain, McpTool, Risk, TrustLabel};
use crate::forecast;
use crate::money::Money;
use crate::policy::gate;
use crate::policy::limits;
use crate::policy::limits::{Deliverability, Limits, PolicyError, SpendLimits};
use crate::policy::{ApprovalReason, DenyReason, ModelId, Ruling};
use vstd::prelude::*;

verus! {

// ---------------------------------------------------------------------------
// Rulings
// ---------------------------------------------------------------------------

/// Limits that grant nothing allow nothing. The one action that escalates is
/// signing a contract; the one that can pass is delegation, which the org
/// chart decides.
pub proof fn law_empty_policy_allows_nothing(a: Action, ctx: ActionCtx)
    ensures
        match gate::gate(Limits::nothing(), a, ctx) {
            Ruling::Deny(_) => true,
            Ruling::RequireApproval(reason, _) => a is ContractSign && ctx.trust
                == TrustLabel::Trusted && reason == ApprovalReason::ContractSignature,
            Ruling::Allow => a matches Action::CharterSet { subordinate } && ctx.directs_subject
                && subordinate@ != ctx.actor.employee_id@,
        },
{
}

/// Signing a contract always waits for a human, whatever the limits; from
/// untrusted input it is refused.
pub proof fn law_contracts_always_need_a_human(l: Limits, a: Action, ctx: ActionCtx)
    requires
        a is ContractSign,
    ensures
        ctx.trust == TrustLabel::Trusted ==> (gate::gate(l, a, ctx) matches Ruling::RequireApproval(
            reason,
            _,
        ) && reason == ApprovalReason::ContractSignature),
        ctx.trust == TrustLabel::Untrusted ==> gate::gate(l, a, ctx) == Ruling::Deny(
            DenyReason::UntrustedInput,
        ),
{
}

/// Untrusted input never reaches a high-risk side effect, not even as a
/// request for approval.
pub proof fn law_untrusted_input_reaches_no_high_risk(l: Limits, a: Action, ctx: ActionCtx)
    requires
        ctx.trust == TrustLabel::Untrusted,
        a.risk_spec() == Risk::High,
    ensures
        gate::gate(l, a, ctx) is Deny,
{
}

/// The taint wire adds a refusal and takes nothing else away: a refusal the
/// rules made keeps its reason, and trusted input gets what the rules say.
pub proof fn law_taint_wire_only_adds_a_refusal(l: Limits, a: Action, ctx: ActionCtx)
    ensures
        gate::rules(l, a, ctx) is Deny ==> gate::gate(l, a, ctx) == gate::rules(l, a, ctx),
        ctx.trust == TrustLabel::Trusted ==> gate::gate(l, a, ctx) == gate::rules(l, a, ctx),
        a.risk_spec() == Risk::Low ==> gate::gate(l, a, ctx) == gate::rules(l, a, ctx),
{
}

/// A reporting line decides whom, not what: for every action but delegation it
/// makes no difference.
pub proof fn law_seniority_is_no_capability(l: Limits, a: Action, ctx: ActionCtx, directs: bool)
    requires
        !(a is CharterSet),
    ensures
        gate::gate(l, a, (ActionCtx { directs_subject: directs, ..ctx })) == gate::gate(l, a, ctx),
{
}

/// Nobody writes their own charter, and no policy can grant it.
pub proof fn law_nobody_charters_themselves(l: Limits, a: Action, ctx: ActionCtx)
    requires
        a matches Action::CharterSet { subordinate } && subordinate@ == ctx.actor.employee_id@,
    ensures
        gate::gate(l, a, ctx) == Ruling::Deny(DenyReason::SelfDirection),
{
}

/// Nobody charters an employee who does not report to them, and no policy can
/// grant it.
pub proof fn law_delegation_follows_the_org_chart(l: Limits, a: Action, ctx: ActionCtx)
    requires
        a is CharterSet,
        !ctx.directs_subject,
    ensures
        gate::gate(l, a, ctx) is Deny,
{
}

/// A reporting line decides whom, never what. Under every policy the rules refuse
/// to let an employee charter itself, then to let it charter somebody who does
/// not report to it, and allow every other charter; on any other action they say
/// the same of a head as of a peer.
pub proof fn law_a_reporting_line_decides_whom(l: Limits, a: Action, ctx: ActionCtx, directs: bool)
    ensures
        a matches Action::CharterSet { subordinate } ==> gate::rules(l, a, ctx) == (
        if subordinate@ == ctx.actor.employee_id@ {
            Ruling::Deny(DenyReason::SelfDirection)
        } else if !ctx.directs_subject {
            Ruling::Deny(DenyReason::OutsideChainOfCommand)
        } else {
            Ruling::Allow
        }),
        !(a is CharterSet) ==> gate::rules(l, a, (ActionCtx { directs_subject: directs, ..ctx }))
            == gate::rules(l, a, ctx),
{
}

/// Somebody else's secret is refused before anything is read in the limits.
pub proof fn law_secrets_stay_with_their_owner(l: Limits, a: Action, ctx: ActionCtx)
    requires
        a matches Action::CredentialChange { secret } && (secret@.0 != ctx.actor.tenant_id@
            || secret@.1 != ctx.actor.employee_id@),
    ensures
        gate::gate(l, a, ctx) == Ruling::Deny(DenyReason::CrossTenantSecret),
{
}

/// What is out of reach is denied, whatever the action of that kind and
/// whatever the context.
pub proof fn law_out_of_reach_is_denied(l: Limits, a: Action, ctx: ActionCtx)
    requires
        gate::out_of_reach(l, a.kind_spec()),
    ensures
        gate::gate(l, a, ctx) is Deny,
{
}

/// Under limits that grant nothing every kind is out of reach but the two that
/// no limit decides.
pub proof fn law_empty_policy_puts_all_but_two_out_of_reach(kind: ActionKind)
    ensures
        gate::out_of_reach(Limits::nothing(), kind) <==> kind != ActionKind::ContractSign && kind
            != ActionKind::CharterSet,
{
}

/// The number of new contacts makes no difference to an action that approaches
/// nobody.
pub proof fn law_contact_budget_charges_only_approaches(
    l: Limits,
    a: Action,
    ctx: ActionCtx,
    contacts: u32,
)
    requires
        !gate::approaches_somebody(a.kind_spec()),
    ensures
        gate::gate(l, a, (ActionCtx { new_contacts_today: contacts, ..ctx })) == gate::gate(
            l,
            a,
            ctx,
        ),
{
}

/// An approach to a new contact that would pass is refused once the day's
/// budget is used up; to a known contact it passes still.
pub proof fn law_contact_budget_stops_approaches(
    l: Limits,
    a: Action,
    ctx: ActionCtx,
    contacts: u32,
)
    requires
        gate::approaches_somebody(a.kind_spec()),
        gate::gate(l, a, ctx) is Allow,
        contacts >= l.max_new_contacts,
    ensures
        gate::gate(l, a, (ActionCtx { new_contacts_today: contacts, ..ctx })) == (if ctx.contact
            == crate::action::ContactStanding::New {
            Ruling::Deny(DenyReason::ContactBudgetExhausted)
        } else {
            Ruling::Allow
        }),
{
}

/// Naming a tool and ruling on it are the same rule, in every context.
pub proof fn law_tool_answers_agree(l: Limits, tool: McpTool, ctx: ActionCtx)
    ensures
        gate::gate(l, (Action::McpCall { tool }), ctx) == gate::ruling_of(
            gate::tool_refusal(l, tool@),
        ),
{
}

/// Naming a host and ruling on reading it are the same rule, in every context.
pub proof fn law_read_answers_agree(l: Limits, domain: Domain, ctx: ActionCtx)
    ensures
        gate::gate(l, (Action::BrowserRead { domain }), ctx) == gate::ruling_of(
            gate::read_refusal(l, domain@),
        ),
{
}

/// The number of strangers and the allowlist of hosts make no difference to
/// reading: only the denylist and the channel do.
pub proof fn law_reading_consults_no_allowlist(
    l: Limits,
    domain: Domain,
    ctx: ActionCtx,
    allowed: Set<Seq<char>>,
)
    ensures
        gate::gate(
            (Limits { allowed_domains: allowed, ..l }),
            (Action::BrowserRead { domain }),
            ctx,
        ) == gate::gate(l, (Action::BrowserRead { domain }), ctx),
{
}

/// A payment that is not refused keeps the day within its cap, with what was
/// spent before: many small payments cannot walk past it.
pub proof fn law_payments_stay_under_the_daily_cap(l: Limits, a: Action, ctx: ActionCtx)
    requires
        a is PaymentCreate,
        !(gate::gate(l, a, ctx) is Deny),
    ensures
        a matches Action::PaymentCreate { amount, .. } && l.spend matches Some(s)
            && amount.currency() == s.currency() && amount.minor() <= s.max_per_transaction().minor()
            && gate::spent(ctx) + amount.minor() <= s.max_per_day().minor(),
{
}

/// A host that the denylist covers can be neither mailed, read, written to,
/// uploaded to nor reached as a peer.
pub proof fn law_denied_hosts_are_out_of_bounds(l: Limits, a: Action, ctx: ActionCtx)
    requires
        match a {
            Action::EmailSend { to } => gate::covers(l.denied_domains, to@.1),
            Action::BrowserRead { domain } => gate::covers(l.denied_domains, domain@),
            Action::BrowserWrite { domain } => gate::covers(l.denied_domains, domain@),
            Action::FileUpload { domain } => gate::covers(l.denied_domains, domain@),
            Action::A2aSend { peer } => gate::covers(l.denied_domains, peer@),
            _ => false,
        },
    ensures
        gate::gate(l, a, ctx) is Deny,
{
}

/// A denylist entry covers everything underneath what it covers.
pub proof fn law_denylist_covers_subdomains(
    entries: Set<Seq<char>>,
    host: Seq<char>,
    under: Seq<char>,
)
    requires
        gate::covers(entries, host),
        crate::action::within(under, host),
    ensures
        gate::covers(entries, under),
{
    let entry = choose|entry: Seq<char>| #[trigger]
        entries.contains(entry) && crate::action::within(host, entry);
    crate::action::law_within_is_transitive(under, host, entry);
}

// ---------------------------------------------------------------------------
// The layers
// ---------------------------------------------------------------------------

/// Every amount of `a` is within that of `b`, in one currency.
pub open spec fn spend_contained(a: SpendLimits, b: SpendLimits) -> bool {
    &&& a.currency() == b.currency()
    &&& a.max_per_transaction().minor() <= b.max_per_transaction().minor()
    &&& a.max_per_day().minor() <= b.max_per_day().minor()
    &&& a.approval_above().minor() <= b.approval_above().minor()
}

/// Everything that `a` grants, `b` grants too: smaller lists and caps, fewer
/// permissions, and at least the same denylist.
pub open spec fn contained(a: Limits, b: Limits) -> bool {
    &&& a.spend matches Some(s) ==> (b.spend matches Some(t) && spend_contained(s, t))
    &&& a.channels.subset_of(b.channels)
    &&& a.calling_codes.subset_of(b.calling_codes)
    &&& a.allowed_domains.subset_of(b.allowed_domains)
    &&& b.denied_domains.subset_of(a.denied_domains)
    &&& a.mcp_tools.subset_of(b.mcp_tools)
    &&& a.a2a_peers.subset_of(b.a2a_peers)
    &&& a.models.subset_of(b.models)
    &&& a.max_new_contacts <= b.max_new_contacts
    &&& a.max_turns <= b.max_turns
    &&& a.file_upload ==> b.file_upload
    &&& a.credential_change ==> b.credential_change
    &&& a.data_delete ==> b.data_delete
    &&& a.lead_upload ==> b.lead_upload
}

/// Laying a layer over itself changes nothing.
pub proof fn law_meet_is_idempotent(a: Limits)
    ensures
        a.meet(a) == Ok::<Limits, PolicyError>(a),
{
    if let Some(s) = a.spend {
        SpendLimits::lemma_meet(s, s);
        SpendLimits::lemma_ext(s.meet(s), s);
    }
    assert(a.both(a) =~= a);
}

proof fn lemma_spend_meet_commutes(a: SpendLimits, b: SpendLimits)
    requires
        a.valid(),
        b.valid(),
        a.currency() == b.currency(),
    ensures
        a.meet(b) == b.meet(a),
{
    SpendLimits::lemma_meet(a, b);
    SpendLimits::lemma_meet(b, a);
    Money::lemma_ext(a.max_per_transaction(), b.max_per_transaction());
    Money::lemma_ext(a.max_per_day(), b.max_per_day());
    Money::lemma_ext(a.approval_above(), b.approval_above());
    SpendLimits::lemma_ext(a.meet(b), b.meet(a));
}

/// The order of two layers makes no difference to what they grant.
pub proof fn law_meet_commutes(a: Limits, b: Limits)
    requires
        a.valid(),
        b.valid(),
        !a.mixes_currencies(b),
    ensures
        a.meet(b) == b.meet(a),
{
    if let (Some(s), Some(t)) = (a.spend, b.spend) {
        lemma_spend_meet_commutes(s, t);
    }
    assert(a.both(b) =~= b.both(a));
}

/// How three layers are grouped makes no difference to what they grant.
pub proof fn law_meet_is_associative(a: Limits, b: Limits, c: Limits)
    ensures
        a.both(b).both(c) == a.both(b.both(c)),
{
    if let (Some(s), Some(t), Some(u)) = (a.spend, b.spend, c.spend) {
        SpendLimits::lemma_meet(s, t);
        SpendLimits::lemma_meet(t, u);
        SpendLimits::lemma_meet(s.meet(t), u);
        SpendLimits::lemma_meet(s, t.meet(u));
        SpendLimits::lemma_ext(s.meet(t).meet(u), s.meet(t.meet(u)));
    }
    assert(a.both(b).both(c) =~= a.both(b.both(c)));
}

/// Containment is transitive.
pub proof fn law_contained_is_transitive(a: Limits, b: Limits, c: Limits)
    requires
        contained(a, b),
        contained(b, c),
    ensures
        contained(a, c),
{
}

/// Two layers together grant no more than either.
pub proof fn law_meet_only_tightens(a: Limits, b: Limits, m: Limits)
    requires
        a.meet(b) == Ok::<Limits, PolicyError>(m),
    ensures
        contained(m, a),
        contained(m, b),
        a.valid() && b.valid() ==> m.valid(),
{
    if let (Some(s), Some(t)) = (a.spend, b.spend) {
        SpendLimits::lemma_meet(s, t);
    }
}

/// A layer narrows another exactly where it is contained in it.
pub proof fn law_narrows_is_containment(a: Limits, b: Limits)
    requires
        a.valid(),
        b.valid(),
    ensures
        b.meet(a) == Ok::<Limits, PolicyError>(a) <==> contained(a, b),
{
    if let (Some(s), Some(t)) = (a.spend, b.spend) {
        SpendLimits::lemma_meet(t, s);
        if spend_contained(s, t) {
            Money::lemma_ext(s.max_per_transaction(), t.max_per_transaction());
            Money::lemma_ext(s.max_per_day(), t.max_per_day());
            Money::lemma_ext(s.approval_above(), t.approval_above());
            SpendLimits::lemma_ext(t.meet(s), s);
        }
    }
    if contained(a, b) {
        assert(b.both(a) =~= a);
    }
    if b.meet(a) == Ok::<Limits, PolicyError>(a) {
        law_meet_only_tightens(b, a, a);
    }
}

/// A stack of four layers grants no more than any of them.
pub proof fn law_no_layer_widens(
    platform: Limits,
    tenant: Limits,
    role: Limits,
    employee: Limits,
    v: Limits,
)
    requires
        platform.valid(),
        tenant.valid(),
        role.valid(),
        employee.valid(),
        Limits::stack(platform, tenant, role, employee) == Ok::<Limits, PolicyError>(v),
    ensures
        contained(v, platform),
        contained(v, tenant),
        contained(v, role),
        contained(v, employee),
        v.valid(),
{
    let two = platform.both(tenant);
    let three = two.both(role);
    limits::lemma_disagreement(platform, tenant, role, employee);
    if let (Some(s), Some(t)) = (platform.spend, tenant.spend) {
        SpendLimits::lemma_meet(s, t);
        if let Some(u) = role.spend {
            SpendLimits::lemma_meet(s.meet(t), u);
        }
    }
    law_meet_only_tightens(platform, tenant, two);
    law_meet_only_tightens(two, role, three);
    law_meet_only_tightens(three, employee, v);
    law_contained_is_transitive(three, two, platform);
    law_contained_is_transitive(three, two, tenant);
    law_contained_is_transitive(v, three, platform);
    law_contained_is_transitive(v, three, tenant);
    law_contained_is_transitive(v, three, role);
}

/// What is contained in two layers is contained in what they grant together.
pub proof fn law_meet_is_the_widest(a: Limits, b: Limits, m: Limits, x: Limits)
    requires
        a.meet(b) == Ok::<Limits, PolicyError>(m),
        contained(x, a),
        contained(x, b),
    ensures
        contained(x, m),
{
    if let (Some(s), Some(t)) = (a.spend, b.spend) {
        SpendLimits::lemma_meet(s, t);
    }
    assert(m.denied_domains.subset_of(x.denied_domains));
    assert(x.channels.subset_of(m.channels));
    assert(x.calling_codes.subset_of(m.calling_codes));
    assert(x.allowed_domains.subset_of(m.allowed_domains));
    assert(x.mcp_tools.subset_of(m.mcp_tools));
    assert(x.a2a_peers.subset_of(m.a2a_peers));
    assert(x.models.subset_of(m.models));
}

/// A stack of four layers is the widest policy inside all of them: whatever is
/// contained in each layer is contained in the stack.
pub proof fn law_a_stack_is_the_widest(
    platform: Limits,
    tenant: Limits,
    role: Limits,
    employee: Limits,
    v: Limits,
    x: Limits,
)
    requires
        Limits::stack(platform, tenant, role, employee) == Ok::<Limits, PolicyError>(v),
        contained(x, platform),
        contained(x, tenant),
        contained(x, role),
        contained(x, employee),
    ensures
        contained(x, v),
{
    let two = platform.both(tenant);
    let three = two.both(role);
    limits::lemma_disagreement(platform, tenant, role, employee);
    if let (Some(s), Some(t)) = (platform.spend, tenant.spend) {
        SpendLimits::lemma_meet(s, t);
        if let Some(u) = role.spend {
            SpendLimits::lemma_meet(s.meet(t), u);
        }
    }
    law_meet_is_the_widest(platform, tenant, two, x);
    law_meet_is_the_widest(two, role, three, x);
    law_meet_is_the_widest(three, employee, v, x);
}

/// A stack of four layers fails exactly where two of them permit spending in
/// different currencies, whether or not a layer between them permits any.
pub proof fn law_only_currencies_break_a_stack(
    platform: Limits,
    tenant: Limits,
    role: Limits,
    employee: Limits,
)
    ensures
        Limits::stack(platform, tenant, role, employee) is Err <==> (platform.mixes_currencies(
            tenant,
        ) || platform.mixes_currencies(role) || platform.mixes_currencies(employee)
            || tenant.mixes_currencies(role) || tenant.mixes_currencies(employee)
            || role.mixes_currencies(employee)),
{
    limits::lemma_disagreement(platform, tenant, role, employee);
}

/// A stack that fails names the currency of the highest layer that permits
/// spending, then that of the highest layer that departs from it.
pub proof fn law_a_broken_stack_names_its_currencies(
    platform: Limits,
    tenant: Limits,
    role: Limits,
    employee: Limits,
)
    requires
        Limits::stack(platform, tenant, role, employee) is Err,
    ensures
        ({
            let e = Limits::stack(platform, tenant, role, employee)->Err_0;
            let first = if platform.spend is Some {
                platform
            } else if tenant.spend is Some {
                tenant
            } else {
                role
            };
            let departing = if tenant.mixes_currencies(first) {
                tenant
            } else if role.mixes_currencies(first) {
                role
            } else {
                employee
            };
            &&& first.spend is Some && departing.spend is Some
            &&& first.spend->Some_0.currency() != departing.spend->Some_0.currency()
            &&& e == (PolicyError::MixedCurrency {
                left: first.spend->Some_0.currency(),
                right: departing.spend->Some_0.currency(),
            })
        }),
{
    limits::lemma_disagreement(platform, tenant, role, employee);
    let four = seq![platform, tenant, role, employee];
    let three = seq![tenant, role, employee];
    let two = seq![role, employee];
    let one = seq![employee];
    assert(four.drop_first() =~= three);
    assert(three.drop_first() =~= two);
    assert(two.drop_first() =~= one);
    assert(one.drop_first() =~= Seq::<Limits>::empty());
    assert(four[0] == platform && three[0] == tenant && two[0] == role && one[0] == employee);
    reveal_with_fuel(Limits::disagreement, 5);
    reveal_with_fuel(Limits::departure, 5);
}

/// Only a unanimous stack uploads leads.
pub proof fn law_lead_upload_is_unanimous(
    platform: Limits,
    tenant: Limits,
    role: Limits,
    employee: Limits,
    v: Limits,
)
    requires
        Limits::stack(platform, tenant, role, employee) == Ok::<Limits, PolicyError>(v),
    ensures
        v.lead_upload <==> platform.lead_upload && tenant.lead_upload && role.lead_upload
            && employee.lead_upload,
{
}

/// A stack runs only models that every layer allows.
pub proof fn law_models_are_unanimous(
    platform: Limits,
    tenant: Limits,
    role: Limits,
    employee: Limits,
    v: Limits,
    m: ModelId,
)
    requires
        Limits::stack(platform, tenant, role, employee) == Ok::<Limits, PolicyError>(v),
    ensures
        v.models.contains(m) <==> platform.models.contains(m) && tenant.models.contains(m)
            && role.models.contains(m) && employee.models.contains(m),
{
}

/// One layer's denylist entry survives the stack.
pub proof fn law_denylist_entries_survive(
    platform: Limits,
    tenant: Limits,
    role: Limits,
    employee: Limits,
    v: Limits,
    host: Seq<char>,
)
    requires
        Limits::stack(platform, tenant, role, employee) == Ok::<Limits, PolicyError>(v),
        gate::covers(platform.denied_domains, host) || gate::covers(tenant.denied_domains, host)
            || gate::covers(role.denied_domains, host) || gate::covers(
            employee.denied_domains,
            host,
        ),
    ensures
        gate::covers(v.denied_domains, host),
{
    lemma_covers_more(platform.denied_domains, v.denied_domains, host);
    lemma_covers_more(tenant.denied_domains, v.denied_domains, host);
    lemma_covers_more(role.denied_domains, v.denied_domains, host);
    lemma_covers_more(employee.denied_domains, v.denied_domains, host);
}

/// One layer that permits no spending removes spending.
pub proof fn law_no_spending_wins(
    platform: Limits,
    tenant: Limits,
    role: Limits,
    employee: Limits,
    v: Limits,
)
    requires
        Limits::stack(platform, tenant, role, employee) == Ok::<Limits, PolicyError>(v),
        platform.spend is None || tenant.spend is None || role.spend is None || employee.spend
            is None,
    ensures
        v.spend is None,
{
}

proof fn lemma_covers_more(a: Set<Seq<char>>, b: Set<Seq<char>>, host: Seq<char>)
    ensures
        a.subset_of(b) && gate::covers(a, host) ==> gate::covers(b, host),
{
    if a.subset_of(b) && gate::covers(a, host) {
        let entry = choose|entry: Seq<char>| #[trigger]
            a.contains(entry) && crate::action::within(host, entry);
        assert(b.contains(entry));
    }
}

proof fn lemma_routes_more(a: Set<u16>, b: Set<u16>, digits: Seq<char>)
    ensures
        a.subset_of(b) && gate::routes(a, digits) ==> gate::routes(b, digits),
{
    if a.subset_of(b) && gate::routes(a, digits) {
        let code = choose|code: u16| #[trigger]
            a.contains(code) && crate::text::has_prefix(
                digits,
                crate::decimal::decimal(code as nat),
            );
        assert(b.contains(code));
    }
}

/// A tighter policy lets no more through: what it allows, the wider one
/// allows, and what the wider one refuses, it refuses.
pub proof fn law_tighter_limits_let_no_more_through(
    tight: Limits,
    wide: Limits,
    a: Action,
    ctx: ActionCtx,
)
    requires
        contained(tight, wide),
    ensures
        gate::gate(tight, a, ctx) is Allow ==> gate::gate(wide, a, ctx) is Allow,
        gate::gate(wide, a, ctx) is Deny ==> gate::gate(tight, a, ctx) is Deny,
{
    match a {
        Action::EmailSend { to } => {
            lemma_covers_more(wide.denied_domains, tight.denied_domains, to@.1);
        },
        Action::SmsSend { to } => {
            lemma_routes_more(tight.calling_codes, wide.calling_codes, to.digits_spec());
        },
        Action::WhatsappSend { to } => {
            lemma_routes_more(tight.calling_codes, wide.calling_codes, to.digits_spec());
        },
        Action::CallPlace { to } => {
            lemma_routes_more(tight.calling_codes, wide.calling_codes, to.digits_spec());
        },
        Action::BrowserRead { domain } => {
            lemma_covers_more(wide.denied_domains, tight.denied_domains, domain@);
        },
        Action::BrowserWrite { domain } => {
            lemma_covers_more(wide.denied_domains, tight.denied_domains, domain@);
            lemma_covers_more(tight.allowed_domains, wide.allowed_domains, domain@);
        },
        Action::FileUpload { domain } => {
            lemma_covers_more(wide.denied_domains, tight.denied_domains, domain@);
            lemma_covers_more(tight.allowed_domains, wide.allowed_domains, domain@);
        },
        Action::A2aSend { peer } => {
            lemma_covers_more(wide.denied_domains, tight.denied_domains, peer@);
            lemma_covers_more(tight.a2a_peers, wide.a2a_peers, peer@);
        },
        _ => {},
    }
}

// ---------------------------------------------------------------------------
// Caps, days and models
// ---------------------------------------------------------------------------

/// Limits are in one currency, a human is asked at the latest at the cap for one
/// payment, and one payment is never more than a day's.
pub proof fn law_spend_limits_are_in_order(s: SpendLimits)
    requires
        s.valid(),
    ensures
        s.approval_above().minor() <= s.max_per_transaction().minor() <= s.max_per_day().minor(),
        s.max_per_transaction().currency() == s.currency(),
        s.max_per_day().currency() == s.currency(),
        s.approval_above().currency() == s.currency(),
{
}

/// Turns taken and turns left come to the day's worth, until it is used up; then
/// none is left.
pub proof fn law_turns_come_to_the_days_worth(limit: u32, taken: u32)
    ensures
        taken <= limit ==> taken + limits::turns_left(limit, taken) == limit,
        taken >= limit ==> limits::turns_left(limit, taken) == 0,
        0 <= limits::turns_left(limit, taken) <= limit,
{
}

/// A reading is there exactly where a signal was confirmed and somebody was
/// approached. Then a domain is unhealthy exactly from three refusals in a
/// thousand approaches on.
pub proof fn law_three_in_a_thousand_is_unhealthy(
    approaches: u64,
    refusals: u64,
    signal_confirmed: bool,
)
    requires
        refusals * 1_000 <= u64::MAX,
        approaches * 3 <= u64::MAX,
    ensures
        ({
            let read = Deliverability::read(approaches, refusals, signal_confirmed);
            &&& read is Unknown <==> !signal_confirmed || approaches == 0
            &&& read is Unhealthy <==> signal_confirmed && approaches > 0 && refusals * 1_000
                >= approaches * 3
            &&& read is Healthy <==> signal_confirmed && approaches > 0 && refusals * 1_000
                < approaches * 3
        }),
{
}

/// More refusals never make a domain healthy, and as many among more approaches
/// never make it unhealthy.
pub proof fn law_refusals_do_not_heal(
    approaches: u64,
    more_approaches: u64,
    refusals: u64,
    more_refusals: u64,
)
    requires
        refusals <= more_refusals,
        approaches <= more_approaches,
    ensures
        Deliverability::read(approaches, refusals, true) is Unhealthy ==> Deliverability::read(
            approaches,
            more_refusals,
            true,
        ) is Unhealthy,
        Deliverability::read(approaches, refusals, true) is Healthy ==> Deliverability::read(
            more_approaches,
            refusals,
            true,
        ) is Healthy,
{
}

/// A sending domain starts at one new contact a day and gains one with each day of
/// health; without health it stays at one, and the written cap is never passed.
pub proof fn law_a_domain_warms_up_by_the_day(written: u32, age_days: i64, measured: Deliverability)
    ensures
        limits::allowance(written, age_days, measured) <= written,
        written == 0 ==> limits::allowance(written, age_days, measured) == 0,
        written > 0 && (age_days <= 0 || !(measured is Healthy)) ==> limits::allowance(
            written,
            age_days,
            measured,
        ) == 1,
        0 <= age_days < i64::MAX && measured is Healthy && limits::allowance(
            written,
            age_days,
            measured,
        ) < written ==> limits::allowance(written, (age_days + 1) as i64, measured)
            == limits::allowance(written, age_days, measured) + 1,
        age_days >= written && measured is Healthy ==> limits::allowance(
            written,
            age_days,
            measured,
        ) == written,
{
}

/// A seat runs what it prefers where that is allowed, else a model that no allowed
/// one is cheaper than, and none only where none is allowed. There is one answer.
pub proof fn law_a_seat_runs_its_preference_or_the_cheapest(
    models: Set<ModelId>,
    preferred: ModelId,
    m: Option<ModelId>,
    other: Option<ModelId>,
)
    requires
        limits::is_model_for(Some(models), preferred, m),
        limits::is_model_for(Some(models), preferred, other),
    ensures
        m == other,
        m is None <==> forall|any: ModelId| !#[trigger] models.contains(any),
        m is Some ==> models.contains(m->Some_0),
        models.contains(preferred) ==> m == Some(preferred),
        m is Some && !models.contains(preferred) ==> forall|any: ModelId| #[trigger]
            models.contains(any) ==> forecast::rates(m->Some_0).0 <= forecast::rates(any).0,
{
    if m is Some {
        let chosen = m->Some_0;
        assert(models.contains(chosen));
    }
    if other is Some {
        assert(models.contains(other->Some_0));
    }
    if m is None && other is Some || m is Some && other is None {
        assert(models == Set::<ModelId>::empty());
    }
}

/// Three amounts are limits exactly where they are in one currency and in order: a
/// human is asked at the latest at the cap for one payment, and that is within the
/// day's. They are kept as they were given.
pub proof fn law_amounts_in_order_are_limits(
    tx: Money,
    day: Money,
    above: Money,
    r: Result<SpendLimits, PolicyError>,
)
    requires
        SpendLimits::built(tx, day, above, r),
    ensures
        r is Ok <==> tx.currency() == day.currency() && tx.currency() == above.currency()
            && above.minor() <= tx.minor() <= day.minor(),
        r matches Ok(l) ==> l.max_per_transaction() == tx && l.max_per_day() == day
            && l.approval_above() == above && l.currency() == tx.currency(),
        r is Err && tx.currency() == day.currency() && tx.currency() == above.currency() ==> (
        above.minor() > tx.minor() <==> r->Err_0 is ApprovalAboveTransactionCap),
{
}

} // verus!
