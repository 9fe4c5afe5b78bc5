//! The limits that layers write down.
use crate::action::{CallingCode, Channel, Domain, McpTool};
use crate::money::{Currency, Money};
use crate::ordered::OrdSet;
use crate::policy::ModelId;
use vstd::prelude::*;
use vstd::string::*;

verus! {

/// Why limits do not fit together.
#[derive(Debug, Clone, Copy, PartialEq, Eq, Structural)]
pub enum PolicyError {
    /// The cap would fire first and the threshold could never be reached.
    ApprovalAboveTransactionCap { approval_above: Money, max_per_transaction: Money },
    TransactionAboveDailyCap { max_per_transaction: Money, max_per_day: Money },
    MixedCurrency { left: Currency, right: Currency },
}

impl PolicyError {
    /// What an operator reads.
    pub open spec fn text_spec(self) -> Seq<char> {
        match self {
            PolicyError::ApprovalAboveTransactionCap { approval_above, max_per_transaction } => {
                "approval threshold "@ + approval_above.text_spec()
                    + " is above the per-transaction cap "@ + max_per_transaction.text_spec()
                    + ": the cap would fire first and the threshold could never be reached"@
            },
            PolicyError::TransactionAboveDailyCap { max_per_transaction, max_per_day } => {
                "per-transaction cap "@ + max_per_transaction.text_spec()
                    + " is above the daily cap "@ + max_per_day.text_spec()
            },
            PolicyError::MixedCurrency { left, right } => {
                "spend limits mix currencies: "@ + left.code_text() + " and "@ + right.code_text()
            },
        }
    }

    /// What an operator reads.
    pub fn to_text(self) -> (r: String)
        ensures
            r@ == self.text_spec(),
    {
        match self {
            PolicyError::ApprovalAboveTransactionCap { approval_above, max_per_transaction } => {
                let mut out = "approval threshold ".to_owned();
                out.append(approval_above.to_text().as_str());
                out.append(" is above the per-transaction cap ");
                out.append(max_per_transaction.to_text().as_str());
                out.append(
                    ": the cap would fire first and the threshold could never be reached",
                );
                out
            },
            PolicyError::TransactionAboveDailyCap { max_per_transaction, max_per_day } => {
                let mut out = "per-transaction cap ".to_owned();
                out.append(max_per_transaction.to_text().as_str());
                out.append(" is above the daily cap ");
                out.append(max_per_day.to_text().as_str());
                out
            },
            PolicyError::MixedCurrency { left, right } => {
                let mut out = "spend limits mix currencies: ".to_owned();
                out.append(left.code());
                out.append(" and ");
                out.append(right.code());
                out
            },
        }
    }
}

/// How much may be spent: per payment, per day, and from which amount on a
/// human has to say yes. One currency throughout.
#[derive(Debug, Clone, Copy, PartialEq, Eq, Structural)]
pub struct SpendLimits {
    max_per_transaction: Money,
    max_per_day: Money,
    approval_above: Money,
}

/// The smaller of two amounts; the first where they are equal.
pub open spec fn smaller(a: Money, b: Money) -> Money {
    if a.minor() <= b.minor() {
        a
    } else {
        b
    }
}

fn min_money(a: Money, b: Money) -> (r: Money)
    ensures
        r == smaller(a, b),
{
    if a.minor() <= b.minor() {
        a
    } else {
        b
    }
}

impl SpendLimits {
    #[verifier::type_invariant]
    spec fn well_formed(self) -> bool {
        self.coherent()
    }

    /// One currency, and the amounts in their order: approval from within the
    /// cap for one payment, that within the cap for the day.
    pub open spec fn coherent(self) -> bool {
        &&& self.max_per_transaction().currency() == self.max_per_day().currency()
        &&& self.max_per_transaction().currency() == self.approval_above().currency()
        &&& self.approval_above().minor() <= self.max_per_transaction().minor()
        &&& self.max_per_transaction().minor() <= self.max_per_day().minor()
    }

    /// The cap for one payment.
    pub closed spec fn max_per_transaction_spec(self) -> Money {
        self.max_per_transaction
    }

    /// The cap for one day.
    pub closed spec fn max_per_day_spec(self) -> Money {
        self.max_per_day
    }

    /// The amount from which on a human has to say yes.
    pub closed spec fn approval_above_spec(self) -> Money {
        self.approval_above
    }

    /// The currency of all three.
    pub open spec fn currency_spec(self) -> Currency {
        self.max_per_transaction().currency()
    }

    /// What holds of all limits there are.
    pub open spec fn valid(self) -> bool {
        &&& self.max_per_transaction().valid()
        &&& self.max_per_day().valid()
        &&& self.approval_above().valid()
        &&& self.coherent()
    }

    /// Limits are their three amounts.
    pub proof fn lemma_ext(a: SpendLimits, b: SpendLimits)
        ensures
            a.max_per_transaction() == b.max_per_transaction() && a.max_per_day()
                == b.max_per_day() && a.approval_above() == b.approval_above() ==> a == b,
    {
    }

    /// The tighter of both limits, amount by amount.
    pub closed spec fn meet(self, other: SpendLimits) -> SpendLimits {
        SpendLimits {
            max_per_transaction: smaller(self.max_per_transaction, other.max_per_transaction),
            max_per_day: smaller(self.max_per_day, other.max_per_day),
            approval_above: smaller(self.approval_above, other.approval_above),
        }
    }

    /// What the tighter limits are.
    pub broadcast proof fn lemma_meet(a: SpendLimits, b: SpendLimits)
        ensures
            (#[trigger] a.meet(b)).max_per_transaction() == smaller(
                a.max_per_transaction(),
                b.max_per_transaction(),
            ),
            a.meet(b).max_per_day() == smaller(a.max_per_day(), b.max_per_day()),
            a.meet(b).approval_above() == smaller(a.approval_above(), b.approval_above()),
    {
    }

    /// What [`SpendLimits::try_new`] returns.
    pub open spec fn built(
        max_per_transaction: Money,
        max_per_day: Money,
        approval_above: Money,
        r: Result<SpendLimits, PolicyError>,
    ) -> bool {
        let currency = max_per_transaction.currency();
        if max_per_day.currency() != currency {
            r == Err::<SpendLimits, PolicyError>(
                PolicyError::MixedCurrency { left: currency, right: max_per_day.currency() },
            )
        } else if approval_above.currency() != currency {
            r == Err::<SpendLimits, PolicyError>(
                PolicyError::MixedCurrency { left: currency, right: approval_above.currency() },
            )
        } else if approval_above.minor() > max_per_transaction.minor() {
            r == Err::<SpendLimits, PolicyError>(
                PolicyError::ApprovalAboveTransactionCap { approval_above, max_per_transaction },
            )
        } else if max_per_transaction.minor() > max_per_day.minor() {
            r == Err::<SpendLimits, PolicyError>(
                PolicyError::TransactionAboveDailyCap { max_per_transaction, max_per_day },
            )
        } else {
            r matches Ok(l) && l.max_per_transaction() == max_per_transaction && l.max_per_day()
                == max_per_day && l.approval_above() == approval_above
        }
    }

    /// Three amounts, where they fit together.
    pub fn try_new(max_per_transaction: Money, max_per_day: Money, approval_above: Money) -> (r:
        Result<SpendLimits, PolicyError>)
        ensures
            SpendLimits::built(max_per_transaction, max_per_day, approval_above, r),
            ({
                let currency = max_per_transaction.currency();
                match r {
                    Ok(l) => l.valid() && l.max_per_transaction() == max_per_transaction
                        && l.max_per_day() == max_per_day && l.approval_above() == approval_above,
                    Err(PolicyError::MixedCurrency { left, right }) => left == currency && (
                    if max_per_day.currency() != currency {
                        right == max_per_day.currency()
                    } else {
                        approval_above.currency() != currency && right == approval_above.currency()
                    }),
                    Err(
                        PolicyError::ApprovalAboveTransactionCap {
                            approval_above: a,
                            max_per_transaction: t,
                        },
                    ) => max_per_day.currency() == currency && approval_above.currency() == currency
                        && approval_above.minor() > max_per_transaction.minor() && a
                        == approval_above && t == max_per_transaction,
                    Err(
                        PolicyError::TransactionAboveDailyCap { max_per_transaction: t, max_per_day: d },
                    ) => max_per_day.currency() == currency && approval_above.currency() == currency
                        && approval_above.minor() <= max_per_transaction.minor()
                        && max_per_transaction.minor() > max_per_day.minor() && t
                        == max_per_transaction && d == max_per_day,
                }
            }),
    {
        let currency = max_per_transaction.currency();
        if max_per_day.currency() != currency {
            return Err(
                PolicyError::MixedCurrency { left: currency, right: max_per_day.currency() },
            );
        }
        if approval_above.currency() != currency {
            return Err(
                PolicyError::MixedCurrency { left: currency, right: approval_above.currency() },
            );
        }
        if approval_above.minor() > max_per_transaction.minor() {
            return Err(
                PolicyError::ApprovalAboveTransactionCap { approval_above, max_per_transaction },
            );
        }
        if max_per_transaction.minor() > max_per_day.minor() {
            return Err(PolicyError::TransactionAboveDailyCap { max_per_transaction, max_per_day });
        }
        Ok(SpendLimits { max_per_transaction, max_per_day, approval_above })
    }

    /// The cap for one payment.
    #[verifier::when_used_as_spec(max_per_transaction_spec)]
    pub fn max_per_transaction(self) -> (r: Money)
        ensures
            r == self.max_per_transaction(),
    {
        self.max_per_transaction
    }

    /// The cap for one day.
    #[verifier::when_used_as_spec(max_per_day_spec)]
    pub fn max_per_day(self) -> (r: Money)
        ensures
            r == self.max_per_day(),
    {
        self.max_per_day
    }

    /// The amount from which on a human has to say yes.
    #[verifier::when_used_as_spec(approval_above_spec)]
    pub fn approval_above(self) -> (r: Money)
        ensures
            r == self.approval_above(),
    {
        self.approval_above
    }

    /// The currency of all three.
    #[verifier::when_used_as_spec(currency_spec)]
    pub fn currency(self) -> (r: Currency)
        ensures
            r == self.currency(),
            self.coherent(),
    {
        proof {
            use_type_invariant(&self);
        }
        self.max_per_transaction.currency()
    }

    /// The tighter of both limits. Only two currencies keep limits from having
    /// one.
    pub fn intersect(self, other: SpendLimits) -> (r: Result<SpendLimits, PolicyError>)
        ensures
            match r {
                Ok(l) => self.currency() == other.currency() && l == self.meet(other) && l.valid(),
                Err(e) => self.currency() != other.currency() && e == (PolicyError::MixedCurrency {
                    left: self.currency(),
                    right: other.currency(),
                }),
            },
    {
        proof {
            use_type_invariant(&self);
            use_type_invariant(&other);
        }
        if self.currency() != other.currency() {
            return Err(
                PolicyError::MixedCurrency { left: self.currency(), right: other.currency() },
            );
        }
        SpendLimits::try_new(
            min_money(self.max_per_transaction, other.max_per_transaction),
            min_money(self.max_per_day, other.max_per_day),
            min_money(self.approval_above, other.approval_above),
        )
    }
}

/// What one layer grants. A field that is left empty grants nothing.
#[derive(Debug, PartialEq, Eq)]
pub struct PolicyLimits {
    /// `None` permits no spending at all.
    pub spend: Option<SpendLimits>,
    pub allowed_channels: OrdSet<Channel>,
    pub allowed_calling_codes: OrdSet<CallingCode>,
    /// Hosts that may be written to, with everything underneath them.
    pub allowed_domains: OrdSet<Domain>,
    /// Hosts that are out of bounds, with everything underneath them.
    pub denied_domains: OrdSet<Domain>,
    pub allowed_mcp_tools: OrdSet<McpTool>,
    pub allowed_a2a_peers: OrdSet<Domain>,
    pub allowed_models: OrdSet<ModelId>,
    pub max_new_contacts_per_day: u32,
    pub max_turns_per_day: u32,
    pub allow_file_upload: bool,
    pub allow_credential_change: bool,
    pub allow_data_delete: bool,
    pub allow_lead_upload: bool,
}

/// [`PolicyLimits`] as a mathematical value.
#[verifier::ext_equal]
pub struct Limits {
    pub spend: Option<SpendLimits>,
    pub channels: Set<Channel>,
    pub calling_codes: Set<u16>,
    pub allowed_domains: Set<Seq<char>>,
    pub denied_domains: Set<Seq<char>>,
    pub mcp_tools: Set<(Seq<char>, Seq<char>)>,
    pub a2a_peers: Set<Seq<char>>,
    pub models: Set<ModelId>,
    pub max_new_contacts: u32,
    pub max_turns: u32,
    pub file_upload: bool,
    pub credential_change: bool,
    pub data_delete: bool,
    pub lead_upload: bool,
}

impl View for PolicyLimits {
    type V = Limits;

    open spec fn view(&self) -> Limits {
        Limits {
            spend: self.spend,
            channels: self.allowed_channels@,
            calling_codes: self.allowed_calling_codes@,
            allowed_domains: self.allowed_domains@,
            denied_domains: self.denied_domains@,
            mcp_tools: self.allowed_mcp_tools@,
            a2a_peers: self.allowed_a2a_peers@,
            models: self.allowed_models@,
            max_new_contacts: self.max_new_contacts_per_day,
            max_turns: self.max_turns_per_day,
            file_upload: self.allow_file_upload,
            credential_change: self.allow_credential_change,
            data_delete: self.allow_data_delete,
            lead_upload: self.allow_lead_upload,
        }
    }
}

/// The smaller of two numbers.
pub open spec fn least(a: u32, b: u32) -> u32 {
    if a <= b {
        a
    } else {
        b
    }
}

fn min_u32(a: u32, b: u32) -> (r: u32)
    ensures
        r == least(a, b),
{
    if a <= b {
        a
    } else {
        b
    }
}

impl Limits {
    /// The limits that grant nothing.
    pub open spec fn nothing() -> Limits {
        Limits {
            spend: None,
            channels: Set::empty(),
            calling_codes: Set::empty(),
            allowed_domains: Set::empty(),
            denied_domains: Set::empty(),
            mcp_tools: Set::empty(),
            a2a_peers: Set::empty(),
            models: Set::empty(),
            max_new_contacts: 0,
            max_turns: 0,
            file_upload: false,
            credential_change: false,
            data_delete: false,
            lead_upload: false,
        }
    }

    /// What holds of all limits there are.
    pub open spec fn valid(self) -> bool {
        self.spend matches Some(s) ==> s.valid()
    }

    /// Both layers permit spending, in different currencies.
    pub open spec fn mixes_currencies(self, other: Limits) -> bool {
        self.spend matches Some(a) && other.spend matches Some(b) && a.currency() != b.currency()
    }

    /// What two layers of one currency grant together: allowlists intersect,
    /// denylists join, caps take the smaller number, permissions have to be
    /// unanimous, and a layer that permits no spending permits none.
    pub open spec fn both(self, other: Limits) -> Limits {
        Limits {
            spend: match (self.spend, other.spend) {
                (Some(a), Some(b)) => Some(a.meet(b)),
                _ => None,
            },
            channels: self.channels.intersect(other.channels),
            calling_codes: self.calling_codes.intersect(other.calling_codes),
            allowed_domains: self.allowed_domains.intersect(other.allowed_domains),
            denied_domains: self.denied_domains.union(other.denied_domains),
            mcp_tools: self.mcp_tools.intersect(other.mcp_tools),
            a2a_peers: self.a2a_peers.intersect(other.a2a_peers),
            models: self.models.intersect(other.models),
            max_new_contacts: least(self.max_new_contacts, other.max_new_contacts),
            max_turns: least(self.max_turns, other.max_turns),
            file_upload: self.file_upload && other.file_upload,
            credential_change: self.credential_change && other.credential_change,
            data_delete: self.data_delete && other.data_delete,
            lead_upload: self.lead_upload && other.lead_upload,
        }
    }

    /// What two layers grant together, where their currencies agree.
    pub open spec fn meet(self, other: Limits) -> Result<Limits, PolicyError> {
        if self.mixes_currencies(other) {
            Err(
                PolicyError::MixedCurrency {
                    left: self.spend->Some_0.currency(),
                    right: other.spend->Some_0.currency(),
                },
            )
        } else {
            Ok(self.both(other))
        }
    }

    /// The currency a layer permits spending in.
    pub open spec fn currency(self) -> Option<Currency> {
        match self.spend {
            Some(s) => Some(s.currency()),
            None => None,
        }
    }

    /// The currency of the highest layer that permits spending, and that of the
    /// highest one to differ from it. A layer between them that permits no
    /// spending does not reconcile them.
    pub open spec fn disagreement(layers: Seq<Limits>) -> Option<(Currency, Currency)>
        decreases layers.len(),
    {
        if layers.len() == 0 {
            None
        } else {
            match layers[0].currency() {
                None => Limits::disagreement(layers.drop_first()),
                Some(c) => match Limits::departure(c, layers.drop_first()) {
                    Some(d) => Some((c, d)),
                    None => None,
                },
            }
        }
    }

    /// The first currency in which a layer permits spending that is not `c`.
    pub open spec fn departure(c: Currency, layers: Seq<Limits>) -> Option<Currency>
        decreases layers.len(),
    {
        if layers.len() == 0 {
            None
        } else if layers[0].currency() is None || layers[0].currency() == Some(c) {
            Limits::departure(c, layers.drop_first())
        } else {
            layers[0].currency()
        }
    }

    /// What a stack of four layers grants, from the platform down, where those
    /// that permit spending agree about the currency.
    pub open spec fn stack(
        platform: Limits,
        tenant: Limits,
        role: Limits,
        employee: Limits,
    ) -> Result<Limits, PolicyError> {
        match Limits::disagreement(seq![platform, tenant, role, employee]) {
            Some((left, right)) => Err(PolicyError::MixedCurrency { left, right }),
            None => Ok(platform.both(tenant).both(role).both(employee)),
        }
    }
}

/// A stack of four layers disagrees about the currency exactly where two of the
/// layers do.
pub proof fn lemma_disagreement(platform: Limits, tenant: Limits, role: Limits, employee: Limits)
    ensures
        Limits::disagreement(seq![platform, tenant, role, employee]) is Some <==> (
        platform.mixes_currencies(tenant) || platform.mixes_currencies(role)
            || platform.mixes_currencies(employee) || tenant.mixes_currencies(role)
            || tenant.mixes_currencies(employee) || role.mixes_currencies(employee)),
{
    let four = seq![platform, tenant, role, employee];
    let three = seq![tenant, role, employee];
    let two = seq![role, employee];
    let one = seq![employee];
    assert(four.drop_first() =~= three);
    assert(three.drop_first() =~= two);
    assert(two.drop_first() =~= one);
    assert(one.drop_first() =~= Seq::<Limits>::empty());
    reveal_with_fuel(Limits::disagreement, 5);
    reveal_with_fuel(Limits::departure, 5);
}

impl Default for PolicyLimits {
    fn default() -> (r: PolicyLimits)
        ensures
            r@ == Limits::nothing(),
    {
        PolicyLimits {
            spend: None,
            allowed_channels: OrdSet::new(),
            allowed_calling_codes: OrdSet::new(),
            allowed_domains: OrdSet::new(),
            denied_domains: OrdSet::new(),
            allowed_mcp_tools: OrdSet::new(),
            allowed_a2a_peers: OrdSet::new(),
            allowed_models: OrdSet::new(),
            max_new_contacts_per_day: 0,
            max_turns_per_day: 0,
            allow_file_upload: false,
            allow_credential_change: false,
            allow_data_delete: false,
            allow_lead_upload: false,
        }
    }
}

impl Clone for PolicyLimits {
    fn clone(&self) -> (r: PolicyLimits)
        ensures
            r@ == self@,
    {
        PolicyLimits {
            spend: self.spend,
            allowed_channels: self.allowed_channels.clone(),
            allowed_calling_codes: self.allowed_calling_codes.clone(),
            allowed_domains: self.allowed_domains.clone(),
            denied_domains: self.denied_domains.clone(),
            allowed_mcp_tools: self.allowed_mcp_tools.clone(),
            allowed_a2a_peers: self.allowed_a2a_peers.clone(),
            allowed_models: self.allowed_models.clone(),
            max_new_contacts_per_day: self.max_new_contacts_per_day,
            max_turns_per_day: self.max_turns_per_day,
            allow_file_upload: self.allow_file_upload,
            allow_credential_change: self.allow_credential_change,
            allow_data_delete: self.allow_data_delete,
            allow_lead_upload: self.allow_lead_upload,
        }
    }
}

impl PolicyLimits {
    /// Whether both layers grant the same.
    pub fn same(&self, other: &PolicyLimits) -> (r: bool)
        ensures
            r == (self@ == other@),
    {
        let spend_agrees = match (self.spend, other.spend) {
            (Some(a), Some(b)) => a == b,
            (None, None) => true,
            _ => false,
        };
        let r = spend_agrees && self.allowed_channels.same(&other.allowed_channels)
            && self.allowed_calling_codes.same(&other.allowed_calling_codes)
            && self.allowed_domains.same(&other.allowed_domains) && self.denied_domains.same(
            &other.denied_domains,
        ) && self.allowed_mcp_tools.same(&other.allowed_mcp_tools) && self.allowed_a2a_peers.same(
            &other.allowed_a2a_peers,
        ) && self.allowed_models.same(&other.allowed_models) && self.max_new_contacts_per_day
            == other.max_new_contacts_per_day && self.max_turns_per_day == other.max_turns_per_day
            && self.allow_file_upload == other.allow_file_upload && self.allow_credential_change
            == other.allow_credential_change && self.allow_data_delete == other.allow_data_delete
            && self.allow_lead_upload == other.allow_lead_upload;
        r
    }

    /// Whether everything this layer grants, `other` grants too: laying this
    /// one over `other` changes nothing about it.
    pub fn narrows(&self, other: &PolicyLimits) -> (r: Result<bool, PolicyError>)
        ensures
            match (other@.meet(self@), r) {
                (Ok(v), Ok(b)) => b == (v == self@),
                (Err(e), Err(f)) => e == f,
                _ => false,
            },
    {
        match other.intersect(self) {
            Err(e) => Err(e),
            Ok(both) => Ok(both.same(self)),
        }
    }

    /// What two layers grant together.
    pub fn intersect(&self, other: &PolicyLimits) -> (r: Result<PolicyLimits, PolicyError>)
        ensures
            match (self@.meet(other@), r) {
                (Ok(v), Ok(l)) => l@ == v,
                (Err(e), Err(f)) => e == f,
                _ => false,
            },
    {
        let spend = match (self.spend, other.spend) {
            (Some(a), Some(b)) => match a.intersect(b) {
                Ok(s) => Some(s),
                Err(e) => return Err(e),
            },
            _ => None,
        };
        Ok(
            PolicyLimits {
                spend,
                allowed_channels: self.allowed_channels.intersection(&other.allowed_channels),
                allowed_calling_codes: self.allowed_calling_codes.intersection(
                    &other.allowed_calling_codes,
                ),
                allowed_domains: self.allowed_domains.intersection(&other.allowed_domains),
                denied_domains: self.denied_domains.union(&other.denied_domains),
                allowed_mcp_tools: self.allowed_mcp_tools.intersection(&other.allowed_mcp_tools),
                allowed_a2a_peers: self.allowed_a2a_peers.intersection(&other.allowed_a2a_peers),
                allowed_models: self.allowed_models.intersection(&other.allowed_models),
                max_new_contacts_per_day: min_u32(
                    self.max_new_contacts_per_day,
                    other.max_new_contacts_per_day,
                ),
                max_turns_per_day: min_u32(self.max_turns_per_day, other.max_turns_per_day),
                allow_file_upload: self.allow_file_upload && other.allow_file_upload,
                allow_credential_change: self.allow_credential_change
                    && other.allow_credential_change,
                allow_data_delete: self.allow_data_delete && other.allow_data_delete,
                allow_lead_upload: self.allow_lead_upload && other.allow_lead_upload,
            },
        )
    }
}

/// What the four layers grant together. Every ruling is made on these.
#[derive(Debug, PartialEq, Eq)]
pub struct EffectivePolicy(PolicyLimits);

impl View for EffectivePolicy {
    type V = Limits;

    closed spec fn view(&self) -> Limits {
        self.0@
    }
}

impl EffectivePolicy {
    /// Lays the four layers over each other, from the platform down. Fails
    /// wherever two of the layers permit spending in different currencies.
    pub fn try_new(
        platform: &PolicyLimits,
        tenant: &PolicyLimits,
        role: &PolicyLimits,
        employee: &PolicyLimits,
    ) -> (r: Result<EffectivePolicy, PolicyError>)
        ensures
            match (Limits::stack(platform@, tenant@, role@, employee@), r) {
                (Ok(v), Ok(p)) => p@ == v,
                (Err(e), Err(f)) => e == f,
                _ => false,
            },
    {
        let layers: [&PolicyLimits; 4] = [platform, tenant, role, employee];
        let ghost views = seq![platform@, tenant@, role@, employee@];
        let mut first: Option<Currency> = None;
        let mut i: usize = 0;
        proof {
            assert(views.skip(0) =~= views);
        }
        while i < 4
            invariant
                i <= 4,
                views == seq![platform@, tenant@, role@, employee@],
                layers@ == seq![platform, tenant, role, employee],
                match first {
                    None => Limits::disagreement(views) == Limits::disagreement(
                        views.skip(i as int),
                    ),
                    Some(c) => Limits::disagreement(views) == match Limits::departure(
                        c,
                        views.skip(i as int),
                    ) {
                        Some(d) => Some((c, d)),
                        None => None,
                    },
                },
            decreases 4 - i,
        {
            proof {
                assert(views.skip(i as int).drop_first() =~= views.skip(i + 1));
                assert(views.skip(i as int)[0] == views[i as int]);
                assert(layers@[i as int]@ == views[i as int]);
            }
            if let Some(s) = layers[i].spend {
                match first {
                    None => {
                        first = Some(s.currency());
                    },
                    Some(left) => if s.currency() != left {
                        return Err(PolicyError::MixedCurrency { left, right: s.currency() });
                    },
                }
            }
            i = i + 1;
        }
        proof {
            assert(views.skip(4) =~= Seq::<Limits>::empty());
            lemma_disagreement(platform@, tenant@, role@, employee@);
            if let (Some(s), Some(t)) = (platform@.spend, tenant@.spend) {
                SpendLimits::lemma_meet(s, t);
                if let Some(u) = role@.spend {
                    SpendLimits::lemma_meet(s.meet(t), u);
                }
            }
        }
        let two = platform.intersect(tenant)?;
        let three = two.intersect(role)?;
        let four = three.intersect(employee)?;
        Ok(EffectivePolicy(four))
    }

    /// The limits.
    pub fn limits(&self) -> (r: &PolicyLimits)
        ensures
            r@ == self@,
    {
        &self.0
    }
}

impl Clone for EffectivePolicy {
    fn clone(&self) -> (r: EffectivePolicy)
        ensures
            r@ == self@,
    {
        EffectivePolicy(self.0.clone())
    }
}

/// The turns that are left of a day's worth after so many.
pub open spec fn turns_left(limit: u32, taken: u32) -> int {
    if taken >= limit {
        0
    } else {
        limit - taken
    }
}

/// How many of its own turns an employee has left today.
pub fn turns_remaining(policy: &EffectivePolicy, turns_today: u32) -> (r: u32)
    ensures
        r == turns_left(policy@.max_turns, turns_today),
        r == (if turns_today >= policy@.max_turns {
            0
        } else {
            policy@.max_turns - turns_today
        }),
{
    policy.limits().max_turns_per_day.saturating_sub(turns_today)
}

/// Whether the addresses of leads may leave the building.
pub fn may_upload_leads(policy: &EffectivePolicy) -> (r: bool)
    ensures
        r == policy@.lead_upload,
{
    policy.limits().allow_lead_upload
}

/// What the counts say about a sending domain.
#[derive(Debug, Clone, Copy, PartialEq, Eq, Structural, Hash)]
pub enum Deliverability {
    /// Nothing that counts as a reading.
    Unknown,
    Healthy,
    Unhealthy,
}

/// The product of two numbers, or the largest 64-bit number where it is
/// larger.
pub open spec fn capped_product(a: u64, b: u64) -> nat {
    if a * b > u64::MAX {
        u64::MAX as nat
    } else {
        (a * b) as nat
    }
}

fn saturating_mul(a: u64, b: u64) -> (r: u64)
    ensures
        r == capped_product(a, b),
{
    match a.checked_mul(b) {
        Some(v) => v,
        None => u64::MAX,
    }
}

impl Deliverability {
    /// What the counts say.
    pub open spec fn read(approaches: u64, refusals: u64, signal_confirmed: bool) -> Deliverability {
        if !signal_confirmed || approaches == 0 {
            Deliverability::Unknown
        } else if capped_product(refusals, 1_000) >= capped_product(
            approaches,
            Deliverability::MAX_REFUSALS_PER_MILLE,
        ) {
            Deliverability::Unhealthy
        } else {
            Deliverability::Healthy
        }
    }

    /// Refusals per thousand approaches from which on a domain is unhealthy.
    pub const MAX_REFUSALS_PER_MILLE: u64 = 3;

    /// Days that the counts cover.
    pub const WINDOW_DAYS: i64 = 30;

    /// Reads the counts. Silence is no reading: without a confirmed signal, or
    /// without an approach, nothing is known.
    pub fn measure(approaches: u64, refusals: u64, signal_confirmed: bool) -> (r: Deliverability)
        ensures
            r == Deliverability::read(approaches, refusals, signal_confirmed),
            r == (if !signal_confirmed || approaches == 0 {
                Deliverability::Unknown
            } else if capped_product(refusals, 1_000) >= capped_product(
                approaches,
                Deliverability::MAX_REFUSALS_PER_MILLE,
            ) {
                Deliverability::Unhealthy
            } else {
                Deliverability::Healthy
            }),
    {
        if !signal_confirmed || approaches == 0 {
            return Deliverability::Unknown;
        }
        if saturating_mul(refusals, 1_000) >= saturating_mul(
            approaches,
            Self::MAX_REFUSALS_PER_MILLE,
        ) {
            Deliverability::Unhealthy
        } else {
            Deliverability::Healthy
        }
    }
}

/// New contacts a day that a domain is released for from the start.
pub const WARMUP_FLOOR: u32 = 1;

/// The new contacts a day that a sending domain is released for: the floor,
/// and one more for each day of a healthy domain's age.
pub open spec fn released(age_days: i64, measured: Deliverability) -> int {
    if measured == Deliverability::Healthy && age_days > 0 {
        WARMUP_FLOOR + age_days
    } else {
        WARMUP_FLOOR as int
    }
}

/// The new contacts a day that a sending domain may make under a written cap.
pub open spec fn allowance(written: u32, age_days: i64, measured: Deliverability) -> int {
    if released(age_days, measured) < written {
        released(age_days, measured)
    } else {
        written as int
    }
}

/// How many new contacts a day a sending domain may make: what it is released
/// for, and never more than the policy says.
pub fn warmup_allowance(policy: &EffectivePolicy, age_days: i64, measured: Deliverability) -> (r:
    u32)
    ensures
        r == allowance(policy@.max_new_contacts, age_days, measured),
        r == (if released(age_days, measured) < policy@.max_new_contacts {
            released(age_days, measured)
        } else {
            policy@.max_new_contacts as int
        }),
        r <= policy@.max_new_contacts,
{
    let steps: u32 = match measured {
        Deliverability::Unknown | Deliverability::Unhealthy => 0,
        Deliverability::Healthy => if age_days <= 0 {
            0
        } else if age_days >= u32::MAX as i64 {
            u32::MAX
        } else {
            age_days as u32
        },
    };
    let free: u32 = WARMUP_FLOOR.saturating_add(steps);
    let written: u32 = policy.limits().max_new_contacts_per_day;
    if written < free {
        written
    } else {
        free
    }
}

/// `m` is the model that a seat runs which prefers `preferred` and is allowed
/// `models`.
pub open spec fn is_model_for(
    models: Option<Set<ModelId>>,
    preferred: ModelId,
    m: Option<ModelId>,
) -> bool {
    match (models, m) {
        (None, Some(m)) => m == preferred,
        (Some(s), Some(m)) => s.contains(m) && if s.contains(preferred) {
            m == preferred
        } else {
            forall|other: ModelId| #[trigger] s.contains(other) ==> m.rank() <= other.rank()
        },
        (Some(s), None) => s == Set::<ModelId>::empty(),
        (None, None) => false,
    }
}

/// The model a seat runs: the one it prefers where that is allowed, else the
/// cheapest that is, else none. Without a policy the preference stands.
pub fn model_for(policy: Option<&EffectivePolicy>, preferred: ModelId) -> (r: Option<ModelId>)
    ensures
        is_model_for(
            match policy {
                Some(p) => Some(p@.models),
                None => None,
            },
            preferred,
            r,
        ),
        match (policy, r) {
            (None, Some(m)) => m == preferred,
            (Some(p), Some(m)) => p@.models.contains(m) && if p@.models.contains(preferred) {
                m == preferred
            } else {
                forall|other: ModelId| #[trigger] p@.models.contains(other) ==> m.rank()
                    <= other.rank()
            },
            (Some(p), None) => p@.models == Set::<ModelId>::empty(),
            (None, None) => false,
        },
{
    match policy {
        None => Some(preferred),
        Some(p) => {
            let allowed = &p.limits().allowed_models;
            if allowed.contains(&preferred) {
                Some(preferred)
            } else {
                match allowed.first() {
                    Some(m) => Some(*m),
                    None => None,
                }
            }
        },
    }
}

} // verus!
