//! The employee state machine.
//!
//! Two things that look like one are kept apart. [`Lifecycle`] is stored and
//! moves only when an operator says so. [`Health`] is derived from the resource
//! map on every read; there is no field to keep it in.
//!
//! The resource map is total: every [`Employee`] has one row for each
//! [`Step`], whatever storage had to offer.
use crate::action::{Domain, EmailAddress};
use crate::ids;
use crate::ids::{EmployeeId, Slug, TenantId};
use crate::ordered;
use crate::ordered::{OrdMap, Ordered};
use crate::time::Timestamp;
use vstd::prelude::*;
use vstd::string::*;

verus! {

// ---------------------------------------------------------------------------
// Lifecycle
// ---------------------------------------------------------------------------

/// Where an employee sits in its administrative life. Stored, and only an
/// explicit operator action moves it.
#[derive(Debug, Clone, Copy, PartialEq, Eq, Structural, PartialOrd, Ord, Hash)]
pub enum Lifecycle {
    /// Created, not yet released to work.
    Draft,
    /// Allowed to act. The only lifecycle that can ever be online.
    Active,
    /// Paused by an operator. Resources survive; the employee must not act.
    Suspended,
    /// End of life. Nothing transitions out of it.
    Terminated,
}

impl Lifecycle {
    /// The stored name of a lifecycle.
    pub open spec fn name(self) -> Seq<char> {
        match self {
            Lifecycle::Draft => "draft"@,
            Lifecycle::Active => "active"@,
            Lifecycle::Suspended => "suspended"@,
            Lifecycle::Terminated => "terminated"@,
        }
    }

    /// The moves an operator may make. Asserting the lifecycle an employee is
    /// in already is one of them.
    pub open spec fn may_become(self, to: Lifecycle) -> bool {
        self == to || match self {
            Lifecycle::Draft => to is Active || to is Terminated,
            Lifecycle::Active => to is Suspended || to is Terminated,
            Lifecycle::Suspended => to is Active || to is Terminated,
            Lifecycle::Terminated => false,
        }
    }

    /// Whether an operator may move an employee from `self` to `to`.
    pub fn can_move_to(self, to: Lifecycle) -> (r: bool)
        ensures
            r == self.may_become(to),
    {
        if self == to {
            return true;
        }
        match self {
            Lifecycle::Draft => matches!(to, Lifecycle::Active | Lifecycle::Terminated),
            Lifecycle::Active => matches!(to, Lifecycle::Suspended | Lifecycle::Terminated),
            Lifecycle::Suspended => matches!(to, Lifecycle::Active | Lifecycle::Terminated),
            Lifecycle::Terminated => false,
        }
    }

    /// Stable wire and storage spelling.
    pub fn as_str(self) -> (r: &'static str)
        ensures
            r@ == self.name(),
    {
        match self {
            Lifecycle::Draft => "draft",
            Lifecycle::Active => "active",
            Lifecycle::Suspended => "suspended",
            Lifecycle::Terminated => "terminated",
        }
    }
}

// ---------------------------------------------------------------------------
// Health
// ---------------------------------------------------------------------------

/// Operational readiness, computed from the resource map.
#[derive(Debug, Clone, Copy, PartialEq, Eq, Structural, PartialOrd, Ord, Hash)]
pub enum Health {
    /// At least one blocking resource is not ready yet.
    Provisioning,
    /// Every blocking resource is ready, some optional channel is not.
    Degraded,
    /// Everything blocking is ready and nothing optional is outstanding.
    Online,
    /// A blocking resource is in a terminal failure.
    Failed,
}

impl Health {
    /// The wire name of a health.
    pub open spec fn name(self) -> Seq<char> {
        match self {
            Health::Provisioning => "provisioning"@,
            Health::Degraded => "degraded"@,
            Health::Online => "online"@,
            Health::Failed => "failed"@,
        }
    }

    /// Stable wire and storage spelling.
    pub fn as_str(self) -> (r: &'static str)
        ensures
            r@ == self.name(),
    {
        match self {
            Health::Provisioning => "provisioning",
            Health::Degraded => "degraded",
            Health::Online => "online",
            Health::Failed => "failed",
        }
    }
}

// ---------------------------------------------------------------------------
// Step
// ---------------------------------------------------------------------------

/// One provisioning step. These are the whole capability surface of an
/// employee.
#[derive(Debug, Clone, Copy, PartialEq, Eq, Structural, PartialOrd, Ord, Hash)]
pub enum Step {
    /// Machine identity: ids, keys, DID. The root of everything else.
    Identity,
    /// Mailbox and sending domain.
    Email,
    /// E.164 number and webhook binding.
    Phone,
    /// WhatsApp sender or routed company sender.
    Whatsapp,
    /// Spending wallet: a local binding, not an account anywhere.
    Wallet,
    /// Isolated browser context.
    Browser,
    /// Secret storage for this employee.
    Vault,
    /// Ingested company knowledge.
    CompanyKnowledge,
    /// Connected MCP servers.
    Mcp,
    /// Agent-to-agent identity and gateway registration.
    A2a,
    /// Effective policy bound to the employee.
    Permissions,
}

impl Step {
    /// Every step, in the order the provisioning workflow runs them.
    pub const ALL: [Step; 11] = [
        Step::Identity,
        Step::Email,
        Step::Phone,
        Step::Whatsapp,
        Step::Wallet,
        Step::Browser,
        Step::Vault,
        Step::CompanyKnowledge,
        Step::Mcp,
        Step::A2a,
        Step::Permissions,
    ];

    /// The place of a step in [`Step::ALL`].
    pub open spec fn rank(self) -> nat {
        match self {
            Step::Identity => 0,
            Step::Email => 1,
            Step::Phone => 2,
            Step::Whatsapp => 3,
            Step::Wallet => 4,
            Step::Browser => 5,
            Step::Vault => 6,
            Step::CompanyKnowledge => 7,
            Step::Mcp => 8,
            Step::A2a => 9,
            Step::Permissions => 10,
        }
    }

    /// The steps that must be ready before this one can be.
    pub open spec fn needs(self) -> Seq<Step> {
        match self {
            Step::Identity => seq![],
            Step::Browser => seq![Step::Identity, Step::Vault],
            _ => seq![Step::Identity],
        }
    }

    /// The steps that gate being online.
    pub open spec fn blocks(self) -> bool {
        self is Identity || self is Email || self is Vault || self is Permissions
    }

    /// The stored name of a step.
    pub open spec fn name(self) -> Seq<char> {
        match self {
            Step::Identity => "identity"@,
            Step::Email => "email"@,
            Step::Phone => "phone"@,
            Step::Whatsapp => "whatsapp"@,
            Step::Wallet => "wallet"@,
            Step::Browser => "browser"@,
            Step::Vault => "vault"@,
            Step::CompanyKnowledge => "company_knowledge"@,
            Step::Mcp => "mcp"@,
            Step::A2a => "a2a"@,
            Step::Permissions => "permissions"@,
        }
    }

    /// Steps that must be [`ResourceState::Ready`] before this one can be.
    ///
    /// `Identity` is the single root, and every other step names it directly.
    /// The browser loads credentials out of the vault, so it needs the vault
    /// too.
    pub fn depends_on(self) -> (r: &'static [Step])
        ensures
            r@ == self.needs(),
    {
        match self {
            Step::Identity => &[],
            Step::Email
            | Step::Phone
            | Step::Whatsapp
            | Step::Wallet
            | Step::Vault
            | Step::CompanyKnowledge
            | Step::Mcp
            | Step::A2a
            | Step::Permissions => &[Step::Identity],
            Step::Browser => &[Step::Identity, Step::Vault],
        }
    }

    /// Blocking steps gate [`Health::Online`]; the rest are optional channels
    /// whose absence only degrades.
    pub fn is_blocking(self) -> (r: bool)
        ensures
            r == self.blocks(),
    {
        match self {
            Step::Identity | Step::Email | Step::Vault | Step::Permissions => true,
            Step::Phone
            | Step::Whatsapp
            | Step::Wallet
            | Step::Browser
            | Step::CompanyKnowledge
            | Step::Mcp
            | Step::A2a => false,
        }
    }

    /// Stable wire and storage spelling. Also the step's name in an idempotency
    /// key, so it must never change.
    pub fn as_str(self) -> (r: &'static str)
        ensures
            r@ == self.name(),
    {
        match self {
            Step::Identity => "identity",
            Step::Email => "email",
            Step::Phone => "phone",
            Step::Whatsapp => "whatsapp",
            Step::Wallet => "wallet",
            Step::Browser => "browser",
            Step::Vault => "vault",
            Step::CompanyKnowledge => "company_knowledge",
            Step::Mcp => "mcp",
            Step::A2a => "a2a",
            Step::Permissions => "permissions",
        }
    }

    fn place(self) -> (r: usize)
        ensures
            r == self.rank(),
    {
        match self {
            Step::Identity => 0,
            Step::Email => 1,
            Step::Phone => 2,
            Step::Whatsapp => 3,
            Step::Wallet => 4,
            Step::Browser => 5,
            Step::Vault => 6,
            Step::CompanyKnowledge => 7,
            Step::Mcp => 8,
            Step::A2a => 9,
            Step::Permissions => 10,
        }
    }

    /// How far a step stands from the root of the dependency graph.
    pub open spec fn depth(self) -> nat {
        match self {
            Step::Identity => 0,
            Step::Browser => 2,
            _ => 1,
        }
    }
}

impl Ordered for Step {
    type Key = Step;

    open spec fn key(&self) -> Step {
        *self
    }

    open spec fn before(a: Step, b: Step) -> bool {
        a.rank() < b.rank()
    }

    proof fn before_irreflexive(a: Step) {
    }

    proof fn before_transitive(a: Step, b: Step, c: Step) {
    }

    proof fn before_total(a: Step, b: Step) {
    }

    fn precedes(&self, other: &Self) -> (r: bool) {
        self.place() < other.place()
    }

    fn duplicate(&self) -> (r: Self) {
        *self
    }
}

// ---------------------------------------------------------------------------
// Resources
// ---------------------------------------------------------------------------

/// The state of one provisioned resource.
#[derive(Debug, PartialEq, Eq)]
pub enum ResourceState {
    /// Nothing attempted yet.
    Pending,
    /// A provisioning attempt is in flight.
    Provisioning,
    /// Confirmed by the provider. Only this state may be shown as ready.
    Ready,
    /// Waiting on a process outside our control. There is no resource yet, so
    /// the state carries the thing to poll and the instant after which the wait
    /// is a problem rather than a normal delay.
    PendingExternal {
        /// Provider-side handle to poll or correlate callbacks against.
        poll_ref: String,
        /// After this instant the wait is overdue and needs a human.
        expected_by: Timestamp,
    },
    /// Terminal failure. Only a retry moves it.
    Failed,
    /// Deliberately switched off for this employee.
    Disabled,
}

/// A [`ResourceState`] as a mathematical value.
#[verifier::ext_equal]
pub enum StateView {
    Pending,
    Provisioning,
    Ready,
    PendingExternal { poll_ref: Seq<char>, expected_by: Timestamp },
    Failed,
    Disabled,
}

impl StateView {
    /// The stored name of a state.
    pub open spec fn name(self) -> Seq<char> {
        match self {
            StateView::Pending => "pending"@,
            StateView::Provisioning => "provisioning"@,
            StateView::Ready => "ready"@,
            StateView::PendingExternal { .. } => "pending_external"@,
            StateView::Failed => "failed"@,
            StateView::Disabled => "disabled"@,
        }
    }

    /// What may happen to a resource in this state. Asserting a state again is
    /// always in order; a ready resource never becomes one that was never
    /// attempted, and nothing becomes ready without an attempt.
    pub open spec fn may_become(self, to: StateView) -> bool {
        match self {
            StateView::Pending => !(to is Ready),
            StateView::Provisioning => !(to is Pending),
            StateView::PendingExternal { .. } => !(to is Pending),
            StateView::Ready => !(to is Pending) && !(to is PendingExternal),
            StateView::Failed => !(to is Ready) && !(to is PendingExternal),
            StateView::Disabled => to is Disabled || to is Pending || to is Provisioning,
        }
    }

    /// The wait for a process outside our control has lasted past its date.
    pub open spec fn is_late(self, now: Timestamp) -> bool {
        match self {
            StateView::PendingExternal { expected_by, .. } => expected_by.before(now),
            _ => false,
        }
    }
}

impl View for ResourceState {
    type V = StateView;

    open spec fn view(&self) -> StateView {
        match *self {
            ResourceState::Pending => StateView::Pending,
            ResourceState::Provisioning => StateView::Provisioning,
            ResourceState::Ready => StateView::Ready,
            ResourceState::PendingExternal { poll_ref, expected_by } => StateView::PendingExternal {
                poll_ref: poll_ref@,
                expected_by,
            },
            ResourceState::Failed => StateView::Failed,
            ResourceState::Disabled => StateView::Disabled,
        }
    }
}

impl ResourceState {
    /// Stable wire and storage spelling of the variant.
    pub fn as_str(&self) -> (r: &'static str)
        ensures
            r@ == self@.name(),
    {
        match self {
            ResourceState::Pending => "pending",
            ResourceState::Provisioning => "provisioning",
            ResourceState::Ready => "ready",
            ResourceState::PendingExternal { .. } => "pending_external",
            ResourceState::Failed => "failed",
            ResourceState::Disabled => "disabled",
        }
    }

    /// Whether a resource in this state may move to `to`.
    pub fn can_move_to(&self, to: &ResourceState) -> (r: bool)
        ensures
            r == self@.may_become(to@),
    {
        match self {
            ResourceState::Pending => matches!(
                to,
                ResourceState::Pending
                | ResourceState::Provisioning
                | ResourceState::PendingExternal { .. }
                | ResourceState::Failed
                | ResourceState::Disabled
            ),
            ResourceState::Provisioning => matches!(
                to,
                ResourceState::Provisioning
                | ResourceState::Ready
                | ResourceState::PendingExternal { .. }
                | ResourceState::Failed
                | ResourceState::Disabled
            ),
            ResourceState::PendingExternal { .. } => matches!(
                to,
                ResourceState::PendingExternal { .. }
                | ResourceState::Ready
                | ResourceState::Provisioning
                | ResourceState::Failed
                | ResourceState::Disabled
            ),
            ResourceState::Ready => matches!(
                to,
                ResourceState::Ready
                | ResourceState::Provisioning
                | ResourceState::Failed
                | ResourceState::Disabled
            ),
            ResourceState::Failed => matches!(
                to,
                ResourceState::Failed
                | ResourceState::Pending
                | ResourceState::Provisioning
                | ResourceState::Disabled
            ),
            ResourceState::Disabled => matches!(
                to,
                ResourceState::Disabled
                | ResourceState::Pending
                | ResourceState::Provisioning
            ),
        }
    }
}

impl Clone for ResourceState {
    fn clone(&self) -> (r: ResourceState)
        ensures
            r == *self,
    {
        match self {
            ResourceState::Pending => ResourceState::Pending,
            ResourceState::Provisioning => ResourceState::Provisioning,
            ResourceState::Ready => ResourceState::Ready,
            ResourceState::PendingExternal { poll_ref, expected_by } => {
                ResourceState::PendingExternal {
                    poll_ref: poll_ref.clone(),
                    expected_by: *expected_by,
                }
            },
            ResourceState::Failed => ResourceState::Failed,
            ResourceState::Disabled => ResourceState::Disabled,
        }
    }
}

/// The provider-side identity of a resource we are being billed for.
///
/// Written once: see [`Employee::bind`] and [`Employee::release`]. Dropping an
/// external id does not free the resource, it only makes it invisible.
#[derive(Debug, PartialEq, Eq, Hash)]
pub struct ProviderBinding {
    provider: String,
    external_id: String,
}

/// A [`ProviderBinding`] as a mathematical value.
#[verifier::ext_equal]
pub struct BindingView {
    pub provider: Seq<char>,
    pub external_id: Seq<char>,
}

impl View for ProviderBinding {
    type V = BindingView;

    closed spec fn view(&self) -> BindingView {
        BindingView { provider: self.provider@, external_id: self.external_id@ }
    }
}

impl ProviderBinding {
    /// Record which provider issued which id.
    pub fn new(provider: &str, external_id: &str) -> (r: ProviderBinding)
        ensures
            r@ == (BindingView { provider: provider@, external_id: external_id@ }),
    {
        ProviderBinding { provider: provider.to_owned(), external_id: external_id.to_owned() }
    }

    /// Adapter that owns the resource.
    pub fn provider(&self) -> (r: &str)
        ensures
            r@ == self@.provider,
    {
        self.provider.as_str()
    }

    /// The provider's id for the resource. Never derive this; never rebuild it.
    pub fn external_id(&self) -> (r: &str)
        ensures
            r@ == self@.external_id,
    {
        self.external_id.as_str()
    }
}

impl Clone for ProviderBinding {
    fn clone(&self) -> (r: ProviderBinding)
        ensures
            r == *self,
    {
        ProviderBinding { provider: self.provider.clone(), external_id: self.external_id.clone() }
    }
}

/// [`Employee::bind`] refused because the resource already has an id.
#[derive(Debug, PartialEq, Eq)]
pub struct AlreadyBound {
    /// The step that is already bound.
    pub step: Step,
    /// Provider holding the existing binding.
    pub provider: String,
    /// External id we would have overwritten.
    pub external_id: String,
}

/// One row of the resource map: what state the resource is in, what it is bound
/// to at the provider, and when that last changed.
#[derive(Debug, PartialEq, Eq)]
pub struct ResourceStatus {
    state: ResourceState,
    binding: Option<ProviderBinding>,
    updated_at: Timestamp,
}

/// A [`ResourceStatus`] as a mathematical value.
#[verifier::ext_equal]
pub struct StatusView {
    pub state: StateView,
    pub binding: Option<BindingView>,
    pub updated_at: Timestamp,
}

/// What a stored binding is as a mathematical value.
pub open spec fn binding_view(binding: Option<ProviderBinding>) -> Option<BindingView> {
    match binding {
        Some(b) => Some(b@),
        None => None,
    }
}

impl View for ResourceStatus {
    type V = StatusView;

    closed spec fn view(&self) -> StatusView {
        StatusView {
            state: self.state@,
            binding: binding_view(self.binding),
            updated_at: self.updated_at,
        }
    }
}

impl ResourceStatus {
    /// Rebuild a status from storage.
    pub fn new(
        state: ResourceState,
        binding: Option<ProviderBinding>,
        updated_at: Timestamp,
    ) -> (r: ResourceStatus)
        ensures
            r@ == (StatusView { state: state@, binding: binding_view(binding), updated_at }),
    {
        ResourceStatus { state, binding, updated_at }
    }

    /// Current state.
    pub fn state(&self) -> (r: &ResourceState)
        ensures
            r@ == self@.state,
    {
        &self.state
    }

    /// Provider binding, if one was ever acquired. Survives every state change.
    pub fn binding(&self) -> (r: Option<&ProviderBinding>)
        ensures
            match r {
                Some(b) => self@.binding == Some(b@),
                None => self@.binding is None,
            },
    {
        self.binding.as_ref()
    }

    /// When this row last changed.
    pub fn updated_at(&self) -> (r: Timestamp)
        ensures
            r == self@.updated_at,
    {
        self.updated_at
    }

    /// True once the provider has confirmed the resource.
    pub fn is_ready(&self) -> (r: bool)
        ensures
            r == self@.state is Ready,
    {
        matches!(self.state, ResourceState::Ready)
    }
}

impl Clone for ResourceStatus {
    fn clone(&self) -> (r: ResourceStatus)
        ensures
            r == *self,
    {
        let binding = match &self.binding {
            Some(b) => Some(b.clone()),
            None => None,
        };
        ResourceStatus { state: self.state.clone(), binding, updated_at: self.updated_at }
    }
}

/// Why a requested resource transition was refused.
#[derive(Debug, Clone, PartialEq, Eq)]
pub enum IllegalTransition {
    /// The states do not follow one another.
    State {
        /// The step whose resource was targeted.
        step: Step,
        /// Name of the state it is in.
        from: &'static str,
        /// Name of the state the caller asked for.
        to: &'static str,
    },
    /// A step tried to become ready before something it needs.
    DependencyNotReady {
        /// The step that tried to become ready.
        step: Step,
        /// The unmet dependency.
        blocker: Step,
    },
}

/// Why a lifecycle change was refused.
#[derive(Debug, Clone, Copy, PartialEq, Eq, Structural)]
pub struct IllegalLifecycle {
    /// Lifecycle the employee is in.
    pub from: Lifecycle,
    /// Lifecycle the operator asked for.
    pub to: Lifecycle,
}

// ---------------------------------------------------------------------------
// Employee
// ---------------------------------------------------------------------------

/// `did:web:{domain}:employees:{id}`.
pub open spec fn did_text(domain: Seq<char>, id: u128) -> Seq<char> {
    "did:web:"@ + domain + ":employees:"@ + ids::hyphenated(id)
}

/// An [`Employee`] as a mathematical value.
#[verifier::ext_equal]
pub struct EmployeeView {
    pub id: u128,
    pub tenant_id: u128,
    pub slug: Seq<char>,
    pub domain: Seq<char>,
    pub address: (Seq<char>, Seq<char>),
    pub did: Seq<char>,
    pub lifecycle: Lifecycle,
    pub rows: Map<Step, StatusView>,
    pub created_at: Timestamp,
    pub updated_at: Timestamp,
}

/// Something asked of an employee, and when.
pub enum Request {
    /// Move a resource.
    SetResource { step: Step, state: StateView, now: Timestamp },
    /// Record a provider id.
    Bind { step: Step, binding: BindingView, now: Timestamp },
    /// Give a provider id up.
    Release { step: Step, now: Timestamp },
    /// Move the employee itself.
    SetLifecycle { to: Lifecycle, now: Timestamp },
}

/// The row of a resource that nothing was attempted for.
pub open spec fn fresh_row(at: Timestamp) -> StatusView {
    StatusView { state: StateView::Pending, binding: None, updated_at: at }
}

/// `rows` with the stored rows written over it, one after another.
pub open spec fn overwritten(
    rows: Map<Step, StatusView>,
    stored: Seq<(Step, ResourceStatus)>,
) -> Map<Step, StatusView>
    decreases stored.len(),
{
    if stored.len() == 0 {
        rows
    } else {
        overwritten(rows, stored.drop_last()).insert(stored.last().0, stored.last().1@)
    }
}

impl EmployeeView {
    /// An employee as it is created: a draft, with nothing attempted.
    pub open spec fn created(
        id: u128,
        tenant_id: u128,
        slug: Seq<char>,
        domain: Seq<char>,
        now: Timestamp,
    ) -> EmployeeView {
        EmployeeView {
            id,
            tenant_id,
            slug,
            domain,
            address: (slug, domain),
            did: did_text(domain, id),
            lifecycle: Lifecycle::Draft,
            rows: Map::total(|step: Step| fresh_row(now)),
            created_at: now,
            updated_at: now,
        }
    }

    /// What holds of every employee there is: every step has its row, and the
    /// address and the DID are the ones that the handle, the domain and the id
    /// determine.
    pub open spec fn valid(self) -> bool {
        &&& forall|step: Step| #[trigger] self.rows.contains_key(step)
        &&& self.address == (self.slug, self.domain)
        &&& self.did == did_text(self.domain, self.id)
    }

    /// The first step that `step` needs and that is not ready.
    pub open spec fn blocker_of(self, step: Step) -> Option<Step> {
        if step is Identity {
            None
        } else if !(self.rows[Step::Identity].state is Ready) {
            Some(Step::Identity)
        } else if step is Browser && !(self.rows[Step::Vault].state is Ready) {
            Some(Step::Vault)
        } else {
            None
        }
    }

    /// The resource may be moved to `state`: the states follow one another, and
    /// nothing becomes ready before what it needs.
    pub open spec fn takes(self, step: Step, state: StateView) -> bool {
        &&& self.rows[step].state.may_become(state)
        &&& state is Ready ==> self.blocker_of(step) is None
    }

    /// The employee with one row rewritten.
    pub open spec fn with_row(self, step: Step, row: StatusView) -> EmployeeView {
        EmployeeView {
            rows: self.rows.insert(step, row),
            updated_at: row.updated_at,
            ..self
        }
    }

    /// What becomes of the employee when something is asked of it. A request
    /// that is refused leaves no trace.
    pub open spec fn after(self, request: Request) -> EmployeeView {
        match request {
            Request::SetResource { step, state, now } => if self.takes(step, state) {
                self.with_row(
                    step,
                    StatusView { state, binding: self.rows[step].binding, updated_at: now },
                )
            } else {
                self
            },
            Request::Bind { step, binding, now } => if self.rows[step].binding is None {
                self.with_row(
                    step,
                    StatusView {
                        state: self.rows[step].state,
                        binding: Some(binding),
                        updated_at: now,
                    },
                )
            } else {
                self
            },
            Request::Release { step, now } => if self.rows[step].binding is Some {
                self.with_row(
                    step,
                    StatusView { state: self.rows[step].state, binding: None, updated_at: now },
                )
            } else {
                self
            },
            Request::SetLifecycle { to, now } => if self.lifecycle.may_become(to) {
                EmployeeView { lifecycle: to, updated_at: now, ..self }
            } else {
                self
            },
        }
    }

    /// What becomes of the employee after a whole history of requests.
    pub open spec fn after_all(self, requests: Seq<Request>) -> EmployeeView
        decreases requests.len(),
    {
        if requests.len() == 0 {
            self
        } else {
            self.after_all(requests.drop_last()).after(requests.last())
        }
    }

    /// Some blocking resource is in a terminal failure.
    pub open spec fn has_failed(self) -> bool {
        exists|step: Step| step.blocks() && #[trigger] self.rows[step].state is Failed
    }

    /// Every blocking resource is ready.
    pub open spec fn is_standing(self) -> bool {
        forall|step: Step| step.blocks() ==> #[trigger] self.rows[step].state is Ready
    }

    /// Every optional channel is ready or switched off.
    pub open spec fn is_settled(self) -> bool {
        forall|step: Step|
            !step.blocks() ==> (#[trigger] self.rows[step].state is Ready
                || self.rows[step].state is Disabled)
    }

    /// Readiness of the resource map alone.
    pub open spec fn resource_health(self) -> Health {
        if self.has_failed() {
            Health::Failed
        } else if !self.is_standing() {
            Health::Provisioning
        } else if !self.is_settled() {
            Health::Degraded
        } else {
            Health::Online
        }
    }

    /// Readiness of the employee: only an active one is ever online.
    pub open spec fn health(self) -> Health {
        if self.resource_health() is Online && !(self.lifecycle is Active) {
            Health::Degraded
        } else {
            self.resource_health()
        }
    }

    /// The steps that have waited past their date, in workflow order.
    pub open spec fn overdue(self, now: Timestamp) -> Seq<Step> {
        Step::ALL@.filter(|step: Step| self.rows[step].state.is_late(now))
    }
}

/// One AI employee: a stable identity and a total map of its resources.
///
/// Storage rebuilds one through [`Employee::hydrate`], which starts from a
/// complete map and can only overwrite entries in it.
#[derive(Debug, PartialEq, Eq)]
pub struct Employee {
    id: EmployeeId,
    tenant_id: TenantId,
    slug: Slug,
    domain: Domain,
    address: EmailAddress,
    did: String,
    lifecycle: Lifecycle,
    resources: OrdMap<Step, ResourceStatus>,
    created_at: Timestamp,
    updated_at: Timestamp,
}

impl View for Employee {
    type V = EmployeeView;

    closed spec fn view(&self) -> EmployeeView {
        EmployeeView {
            id: self.id@,
            tenant_id: self.tenant_id@,
            slug: self.slug@,
            domain: self.domain@,
            address: self.address@,
            did: self.did@,
            lifecycle: self.lifecycle,
            rows: rows_of(self.resources@),
            created_at: self.created_at,
            updated_at: self.updated_at,
        }
    }
}

/// The rows of a resource map as mathematical values.
pub open spec fn rows_of(resources: Map<Step, ResourceStatus>) -> Map<Step, StatusView> {
    resources.map_values(|row: ResourceStatus| row@)
}

proof fn lemma_rows_insert(resources: Map<Step, ResourceStatus>, step: Step, row: ResourceStatus)
    ensures
        rows_of(resources.insert(step, row)) == rows_of(resources).insert(step, row@),
{
    assert(rows_of(resources.insert(step, row)) =~= rows_of(resources).insert(step, row@));
}

/// [`Step::ALL`] has every step, at its rank.
pub proof fn lemma_all_steps(step: Step)
    ensures
        Step::ALL@.len() == 11,
        Step::ALL@[step.rank() as int] == step,
        step.rank() < 11,
        forall|i: int| 0 <= i < 11 ==> (#[trigger] Step::ALL@[i]).rank() == i,
{
}

impl Employee {
    #[verifier::type_invariant]
    spec fn well_formed(self) -> bool {
        self@.valid()
    }

    /// A fresh [`Lifecycle::Draft`] employee with every resource
    /// [`ResourceState::Pending`]. The address and the DID are derived here,
    /// once.
    pub fn new(
        id: EmployeeId,
        tenant_id: TenantId,
        slug: Slug,
        domain: Domain,
        now: Timestamp,
    ) -> (r: Employee)
        ensures
            r@ == EmployeeView::created(id@, tenant_id@, slug@, domain@, now),
            r@.valid(),
    {
        let address = EmailAddress::of_handle(&slug, &domain);
        let mut did = "did:web:".to_owned();
        did.append(domain.as_str());
        did.append(":employees:");
        did.append(id.to_text().as_str());
        let mut resources: OrdMap<Step, ResourceStatus> = OrdMap::new();
        for i in 0..Step::ALL.len()
            invariant
                forall|step: Step|
                    #[trigger] resources@.contains_key(step) <==> step.rank() < i,
                forall|step: Step| #[trigger]
                    resources@.contains_key(step) ==> resources@[step]@ == fresh_row(now),
        {
            let step = Step::ALL[i];
            proof {
                lemma_all_steps(step);
            }
            resources.insert(step, ResourceStatus::new(ResourceState::Pending, None, now));
        }
        proof {
            assert forall|step: Step| #[trigger] resources@.contains_key(step) by {
                lemma_all_steps(step);
            }
            assert(rows_of(resources@) =~= Map::total(|step: Step| fresh_row(now)));
        }
        let r = Employee {
            id,
            tenant_id,
            slug,
            domain,
            address,
            did,
            lifecycle: Lifecycle::Draft,
            resources,
            created_at: now,
            updated_at: now,
        };
        r
    }

    /// Rebuild a stored employee.
    ///
    /// Starts from the complete map that [`Employee::new`] builds and
    /// overwrites the rows storage has, so a truncated table yields pending
    /// rows rather than an employee with holes in it.
    #[allow(clippy::too_many_arguments)]
    pub fn hydrate(
        id: EmployeeId,
        tenant_id: TenantId,
        slug: Slug,
        domain: Domain,
        lifecycle: Lifecycle,
        resources: Vec<(Step, ResourceStatus)>,
        created_at: Timestamp,
        updated_at: Timestamp,
    ) -> (r: Employee)
        ensures
            ({
                let fresh = EmployeeView::created(id@, tenant_id@, slug@, domain@, created_at);
                r@ == EmployeeView {
                    lifecycle,
                    updated_at,
                    rows: overwritten(fresh.rows, resources@),
                    ..fresh
                }
            }),
            r@.valid(),
    {
        let mut employee = Employee::new(id, tenant_id, slug, domain, created_at);
        let ghost fresh = employee@;
        let mut rows = employee.resources.clone();
        proof {
            assert(rows_of(rows@) =~= fresh.rows);
        }
        for i in 0..resources.len()
            invariant
                rows_of(rows@) == overwritten(fresh.rows, resources@.take(i as int)),
                forall|step: Step| #[trigger] rows_of(rows@).contains_key(step),
        {
            let (step, status) = &resources[i];
            proof {
                lemma_rows_insert(rows@, *step, *status);
                assert(resources@.take(i + 1).drop_last() =~= resources@.take(i as int));
            }
            rows.insert(*step, status.clone());
        }
        assert(resources@.take(resources@.len() as int) =~= resources@);
        employee.lifecycle = lifecycle;
        employee.updated_at = updated_at;
        employee.resources = rows;
        employee
    }

    /// Internal id.
    pub fn id(&self) -> (r: EmployeeId)
        ensures
            r@ == self@.id,
    {
        self.id
    }

    /// Owning tenant.
    pub fn tenant_id(&self) -> (r: TenantId)
        ensures
            r@ == self@.tenant_id,
    {
        self.tenant_id
    }

    /// Handle.
    pub fn slug(&self) -> (r: &Slug)
        ensures
            r@ == self@.slug,
    {
        &self.slug
    }

    /// Sending and receiving domain.
    pub fn domain(&self) -> (r: &Domain)
        ensures
            r@ == self@.domain,
    {
        &self.domain
    }

    /// `slug@domain`: the stable routing identity.
    pub fn address(&self) -> (r: &EmailAddress)
        ensures
            r@ == self@.address,
            r@ == (self@.slug, self@.domain),
    {
        proof {
            use_type_invariant(self);
        }
        &self.address
    }

    /// `did:web:{domain}:employees:{id}`.
    pub fn did(&self) -> (r: &str)
        ensures
            r@ == self@.did,
            r@ == did_text(self@.domain, self@.id),
    {
        proof {
            use_type_invariant(self);
        }
        self.did.as_str()
    }

    /// The stored lifecycle.
    pub fn lifecycle(&self) -> (r: Lifecycle)
        ensures
            r == self@.lifecycle,
    {
        self.lifecycle
    }

    /// When the employee was created.
    pub fn created_at(&self) -> (r: Timestamp)
        ensures
            r == self@.created_at,
    {
        self.created_at
    }

    /// When the employee last changed.
    pub fn updated_at(&self) -> (r: Timestamp)
        ensures
            r == self@.updated_at,
    {
        self.updated_at
    }

    /// The whole resource map. Its keys are always exactly [`Step::ALL`].
    pub fn resources(&self) -> (r: &OrdMap<Step, ResourceStatus>)
        ensures
            rows_of(r@) == self@.rows,
            r@.dom() == Step::ALL@.to_set(),
            r@.dom().len() == 11,
    {
        proof {
            use_type_invariant(self);
            let all = Step::ALL@;
            assert forall|step: Step| #[trigger] self.resources@.dom().contains(
                step,
            ) && all.to_set().contains(step) by {
                lemma_all_steps(step);
                assert(self@.rows.contains_key(step));
                assert(all[step.rank() as int] == step);
            }
            assert(self.resources@.dom() =~= all.to_set());
            assert(all.no_duplicates()) by {
                lemma_all_steps(Step::Identity);
            }
            all.unique_seq_to_set();
        }
        &self.resources
    }

    /// One resource. Infallible: the map is total.
    pub fn resource(&self, step: Step) -> (r: &ResourceStatus)
        ensures
            r@ == self@.rows[step],
    {
        proof {
            use_type_invariant(self);
            assert(self@.rows.contains_key(step));
        }
        match self.resources.get(&step) {
            Some(row) => row,
            None => vstd::pervasive::unreached(),
        }
    }

    fn write_row(&mut self, step: Step, row: ResourceStatus)
        ensures
            final(self)@ == old(self)@.with_row(step, row@),
    {
        let now = row.updated_at;
        let mut rows = self.resources.clone();
        proof {
            use_type_invariant(&*self);
            assert(rows_of(rows@) =~= self@.rows);
            lemma_rows_insert(rows@, step, row);
        }
        rows.insert(step, row);
        self.resources = rows;
        self.updated_at = now;
    }

    /// Move a resource, checking that the states follow one another and that
    /// nothing becomes ready before what it needs. The binding is never
    /// touched.
    pub fn set_resource(&mut self, step: Step, state: ResourceState, now: Timestamp) -> (r: Result<
        (),
        IllegalTransition,
    >)
        ensures
            final(self)@ == old(self)@.after(Request::SetResource { step, state: state@, now }),
            match r {
                Ok(()) => old(self)@.takes(step, state@),
                Err(IllegalTransition::State { step: s, from, to }) => {
                    &&& !old(self)@.rows[step].state.may_become(state@)
                    &&& s == step
                    &&& from@ == old(self)@.rows[step].state.name()
                    &&& to@ == state@.name()
                },
                Err(IllegalTransition::DependencyNotReady { step: s, blocker }) => {
                    &&& old(self)@.rows[step].state.may_become(state@)
                    &&& state@ is Ready
                    &&& s == step
                    &&& old(self)@.blocker_of(step) == Some(blocker)
                },
            },
    {
        let current = self.resource(step);
        if !current.state.can_move_to(&state) {
            return Err(
                IllegalTransition::State {
                    step,
                    from: current.state.as_str(),
                    to: state.as_str(),
                },
            );
        }
        let binding = match &current.binding {
            Some(b) => Some(b.clone()),
            None => None,
        };
        if matches!(state, ResourceState::Ready) {
            let needs = step.depends_on();
            for i in 0..needs.len()
                invariant
                    needs@ == step.needs(),
                    self@ == old(self)@,
                    self@.rows[step].state.may_become(state@),
                    state@ is Ready,
                    forall|j: int|
                        0 <= j < i ==> self@.rows[#[trigger] needs@[j]].state is Ready,
            {
                if !self.resource(needs[i]).is_ready() {
                    return Err(IllegalTransition::DependencyNotReady { step, blocker: needs[i] });
                }
            }
            proof {
                if !(step is Identity) {
                    assert(needs@[0] == Step::Identity);
                }
                if step is Browser {
                    assert(needs@[1] == Step::Vault);
                }
            }
        }
        self.write_row(step, ResourceStatus { state, binding, updated_at: now });
        Ok(())
    }

    /// Attach the provider id for a resource. Succeeds only while unbound, and
    /// not even for an identical id: a second bind means two provisioning
    /// attempts raced, and the caller has to find out which one bought
    /// something.
    pub fn bind(&mut self, step: Step, binding: ProviderBinding, now: Timestamp) -> (r: Result<
        (),
        AlreadyBound,
    >)
        ensures
            final(self)@ == old(self)@.after(Request::Bind { step, binding: binding@, now }),
            match r {
                Ok(()) => old(self)@.rows[step].binding is None,
                Err(e) => {
                    &&& e.step == step
                    &&& old(self)@.rows[step].binding == Some(
                        BindingView { provider: e.provider@, external_id: e.external_id@ },
                    )
                },
            },
    {
        let current = self.resource(step);
        match &current.binding {
            Some(existing) => {
                return Err(
                    AlreadyBound {
                        step,
                        provider: existing.provider.clone(),
                        external_id: existing.external_id.clone(),
                    },
                );
            },
            None => {},
        }
        let state = current.state.clone();
        self.write_row(step, ResourceStatus { state, binding: Some(binding), updated_at: now });
        Ok(())
    }

    /// Detach the provider id, returning it so the caller can cancel the
    /// resource at the provider. The only way a binding is ever cleared.
    pub fn release(&mut self, step: Step, now: Timestamp) -> (r: Option<ProviderBinding>)
        ensures
            final(self)@ == old(self)@.after(Request::Release { step, now }),
            binding_view(r) == old(self)@.rows[step].binding,
    {
        let current = self.resource(step);
        match &current.binding {
            Some(existing) => {
                let released = existing.clone();
                let state = current.state.clone();
                self.write_row(step, ResourceStatus { state, binding: None, updated_at: now });
                Some(released)
            },
            None => None,
        }
    }

    /// Change the lifecycle. The one operator-driven mutation.
    pub fn set_lifecycle(&mut self, to: Lifecycle, now: Timestamp) -> (r: Result<
        (),
        IllegalLifecycle,
    >)
        ensures
            final(self)@ == old(self)@.after(Request::SetLifecycle { to, now }),
            match r {
                Ok(()) => old(self)@.lifecycle.may_become(to),
                Err(e) => !old(self)@.lifecycle.may_become(to) && e == (IllegalLifecycle {
                    from: old(self)@.lifecycle,
                    to,
                }),
            },
    {
        proof {
            use_type_invariant(&*self);
        }
        if !self.lifecycle.can_move_to(to) {
            return Err(IllegalLifecycle { from: self.lifecycle, to });
        }
        self.lifecycle = to;
        self.updated_at = now;
        Ok(())
    }

    /// Derived readiness. Never stored, so it can never disagree with the map.
    pub fn health(&self) -> (r: Health)
        ensures
            r == self@.health(),
    {
        match self.resource_health() {
            Health::Online => if self.lifecycle == Lifecycle::Active {
                Health::Online
            } else {
                Health::Degraded
            },
            derived => derived,
        }
    }

    /// Readiness of the resource map alone, ignoring lifecycle.
    pub fn resource_health(&self) -> (r: Health)
        ensures
            r == self@.resource_health(),
    {
        let mut failed = false;
        let mut standing = true;
        let mut settled = true;
        for i in 0..Step::ALL.len()
            invariant
                failed == (exists|step: Step|
                    step.rank() < i && step.blocks()
                        && #[trigger] self@.rows[step].state is Failed),
                standing == (forall|step: Step|
                    step.rank() < i && step.blocks()
                        ==> #[trigger] self@.rows[step].state is Ready),
                settled == (forall|step: Step|
                    step.rank() < i && !step.blocks() ==> (#[trigger] self@.rows[step].state is Ready
                        || self@.rows[step].state is Disabled)),
        {
            let step = Step::ALL[i];
            proof {
                lemma_all_steps(step);
                assert forall|s: Step| s.rank() < i + 1 implies s.rank() < i || s == step by {
                    lemma_all_steps(s);
                }
            }
            let row = self.resource(step);
            if step.is_blocking() {
                if matches!(row.state, ResourceState::Failed) {
                    failed = true;
                }
                if !row.is_ready() {
                    standing = false;
                }
            } else if !matches!(row.state, ResourceState::Ready | ResourceState::Disabled) {
                settled = false;
            }
            assert(row@ == self@.rows[step]);
        }
        assert(forall|s: Step| s.rank() < 11);
        if failed {
            Health::Failed
        } else if !standing {
            Health::Provisioning
        } else if !settled {
            Health::Degraded
        } else {
            Health::Online
        }
    }

    /// Steps that have waited on an external process past its date, in workflow
    /// order.
    pub fn overdue(&self, now: Timestamp) -> (r: Vec<Step>)
        ensures
            r@ == self@.overdue(now),
    {
        let ghost late = |step: Step| self@.rows[step].state.is_late(now);
        let mut out: Vec<Step> = Vec::new();
        assert(Step::ALL@.take(0).filter(late) =~= Seq::<Step>::empty()) by {
            reveal(Seq::filter);
        }
        for i in 0..Step::ALL.len()
            invariant
                late == (|step: Step| self@.rows[step].state.is_late(now)),
                out@ == Step::ALL@.take(i as int).filter(late),
        {
            let step = Step::ALL[i];
            proof {
                assert(Step::ALL@.take(i + 1).drop_last() =~= Step::ALL@.take(i as int));
                assert(Step::ALL@.take(i + 1).last() == step);
                reveal(Seq::filter);
            }
            let row = self.resource(step);
            let is_late = match &row.state {
                ResourceState::PendingExternal { expected_by, .. } => expected_by.is_before(now),
                ResourceState::Pending
                | ResourceState::Provisioning
                | ResourceState::Ready
                | ResourceState::Failed
                | ResourceState::Disabled => false,
            };
            assert(is_late == late(step));
            if is_late {
                out.push(step);
            }
        }
        assert(Step::ALL@.take(11) =~= Step::ALL@);
        out
    }
}

impl Clone for Employee {
    fn clone(&self) -> (r: Employee)
        ensures
            r@ == self@,
    {
        let resources = self.resources.clone();
        proof {
            use_type_invariant(self);
            assert(rows_of(resources@) =~= self@.rows);
        }
        Employee {
            id: self.id,
            tenant_id: self.tenant_id,
            slug: self.slug.clone(),
            domain: self.domain.clone(),
            address: self.address.clone(),
            did: self.did.clone(),
            lifecycle: self.lifecycle,
            resources,
            created_at: self.created_at,
            updated_at: self.updated_at,
        }
    }
}

// ---------------------------------------------------------------------------
// Laws
// ---------------------------------------------------------------------------

/// The request gives up the id that `step` is bound to.
pub open spec fn releases(request: Request, step: Step) -> bool {
    match request {
        Request::Release { step: s, .. } => s == step,
        _ => false,
    }
}

/// No history of requests makes a hole in the resource map, or changes who the
/// employee is: its ids, its handle, its address, its DID and its date of
/// creation stay.
pub proof fn law_identity_and_map_survive_every_history(
    employee: EmployeeView,
    requests: Seq<Request>,
)
    requires
        employee.valid(),
    ensures
        ({
            let then = employee.after_all(requests);
            &&& then.valid()
            &&& then.id == employee.id
            &&& then.tenant_id == employee.tenant_id
            &&& then.slug == employee.slug
            &&& then.domain == employee.domain
            &&& then.address == employee.address
            &&& then.did == employee.did
            &&& then.created_at == employee.created_at
        }),
    decreases requests.len(),
{
    if requests.len() > 0 {
        law_identity_and_map_survive_every_history(employee, requests.drop_last());
    }
}

/// No history without a release clears or rewrites a bound provider id.
pub proof fn law_only_release_clears_a_binding(
    employee: EmployeeView,
    step: Step,
    requests: Seq<Request>,
)
    requires
        employee.valid(),
        employee.rows[step].binding is Some,
        forall|i: int| 0 <= i < requests.len() ==> !releases(#[trigger] requests[i], step),
    ensures
        employee.after_all(requests).rows[step].binding == employee.rows[step].binding,
    decreases requests.len(),
{
    if requests.len() > 0 {
        let earlier = requests.drop_last();
        assert forall|i: int| 0 <= i < earlier.len() implies !releases(
            #[trigger] earlier[i],
            step,
        ) by {
            assert(earlier[i] == requests[i]);
        }
        law_only_release_clears_a_binding(employee, step, earlier);
        assert(!releases(requests[requests.len() - 1], step));
    }
}

/// Only an active employee is ever online, whatever its resources say.
pub proof fn law_only_the_active_are_online(employee: EmployeeView)
    ensures
        employee.health() is Online ==> employee.lifecycle is Active,
{
}

/// An employee that is not active stays as it is, and off line, through every
/// history in which no operator moves it: no provider callback puts a suspended
/// employee back to work.
pub proof fn law_no_callback_resumes_an_employee(employee: EmployeeView, requests: Seq<Request>)
    requires
        !(employee.lifecycle is Active),
        forall|i: int| 0 <= i < requests.len() ==> !(#[trigger] requests[i] is SetLifecycle),
    ensures
        employee.after_all(requests).lifecycle == employee.lifecycle,
        !(employee.after_all(requests).health() is Online),
    decreases requests.len(),
{
    if requests.len() > 0 {
        let earlier = requests.drop_last();
        assert forall|i: int| 0 <= i < earlier.len() implies !(
        #[trigger] earlier[i] is SetLifecycle) by {
            assert(earlier[i] == requests[i]);
        }
        law_no_callback_resumes_an_employee(employee, earlier);
        assert(!(requests[requests.len() - 1] is SetLifecycle));
    }
}

/// A terminated employee stays terminated, whatever is asked of it.
pub proof fn law_terminated_is_absorbing(employee: EmployeeView, requests: Seq<Request>)
    requires
        employee.lifecycle is Terminated,
    ensures
        employee.after_all(requests).lifecycle is Terminated,
    decreases requests.len(),
{
    if requests.len() > 0 {
        law_terminated_is_absorbing(employee, requests.drop_last());
    }
}

/// A resource that becomes ready finds everything it needs ready; one that is
/// held back is held back by the first of its needs that is not.
pub proof fn law_ready_waits_for_its_needs(employee: EmployeeView, step: Step)
    ensures
        match employee.blocker_of(step) {
            None => forall|i: int|
                0 <= i < step.needs().len()
                    ==> employee.rows[#[trigger] step.needs()[i]].state is Ready,
            Some(blocker) => exists|i: int|
                {
                    &&& 0 <= i < step.needs().len()
                    &&& #[trigger] step.needs()[i] == blocker
                    &&& !(employee.rows[blocker].state is Ready)
                    &&& forall|j: int|
                        0 <= j < i ==> employee.rows[#[trigger] step.needs()[j]].state is Ready
                },
        },
{
    match employee.blocker_of(step) {
        None => {},
        Some(blocker) => {
            let i: int = if blocker is Identity {
                0
            } else {
                1
            };
            assert(step.needs()[i] == blocker);
        },
    }
}

/// The dependency graph has no cycle: every need stands nearer to the root.
/// [`Step::Identity`] is the only root, and every other step needs it directly.
pub proof fn law_needs_lead_to_identity(step: Step)
    ensures
        forall|i: int|
            0 <= i < step.needs().len() ==> (#[trigger] step.needs()[i]).depth() < step.depth(),
        step.needs().len() == 0 <==> step is Identity,
        !(step is Identity) ==> step.needs()[0] is Identity,
{
}

/// A step's name starts with its own pair of letters.
proof fn lemma_name_starts(step: Step)
    ensures
        step.name().len() > 1,
        (step.name()[0], step.name()[1]) == match step {
            Step::Identity => ('i', 'd'),
            Step::Email => ('e', 'm'),
            Step::Phone => ('p', 'h'),
            Step::Whatsapp => ('w', 'h'),
            Step::Wallet => ('w', 'a'),
            Step::Browser => ('b', 'r'),
            Step::Vault => ('v', 'a'),
            Step::CompanyKnowledge => ('c', 'o'),
            Step::Mcp => ('m', 'c'),
            Step::A2a => ('a', '2'),
            Step::Permissions => ('p', 'e'),
        },
{
    match step {
        Step::Identity => reveal_strlit("identity"),
        Step::Email => reveal_strlit("email"),
        Step::Phone => reveal_strlit("phone"),
        Step::Whatsapp => reveal_strlit("whatsapp"),
        Step::Wallet => reveal_strlit("wallet"),
        Step::Browser => reveal_strlit("browser"),
        Step::Vault => reveal_strlit("vault"),
        Step::CompanyKnowledge => reveal_strlit("company_knowledge"),
        Step::Mcp => reveal_strlit("mcp"),
        Step::A2a => reveal_strlit("a2a"),
        Step::Permissions => reveal_strlit("permissions"),
    }
}

/// No two steps have the same name.
pub proof fn law_step_names_differ(a: Step, b: Step)
    requires
        a.name() == b.name(),
    ensures
        a == b,
{
    lemma_name_starts(a);
    lemma_name_starts(b);
}

/// What storage does not have is pending: the rows of a rebuilt employee are
/// the stored ones where there are any, the last one written counting, and
/// untouched ones elsewhere.
pub proof fn law_missing_rows_are_pending(
    rows: Map<Step, StatusView>,
    stored: Seq<(Step, ResourceStatus)>,
    step: Step,
)
    requires
        forall|s: Step| #[trigger] rows.contains_key(s),
    ensures
        overwritten(rows, stored).contains_key(step),
        (forall|i: int| 0 <= i < stored.len() ==> (#[trigger] stored[i]).0 != step) ==> overwritten(
            rows,
            stored,
        )[step] == rows[step],
        forall|i: int|
            0 <= i < stored.len() && (#[trigger] stored[i]).0 == step && (forall|j: int|
                i < j < stored.len() ==> (#[trigger] stored[j]).0 != step) ==> overwritten(
                rows,
                stored,
            )[step] == stored[i].1@,
    decreases stored.len(),
{
    if stored.len() > 0 {
        let head = stored.drop_last();
        law_missing_rows_are_pending(rows, head, step);
        assert(forall|i: int| 0 <= i < head.len() ==> #[trigger] stored[i] == head[i]);
        assert forall|i: int|
            0 <= i < stored.len() && (#[trigger] stored[i]).0 == step && (forall|j: int|
                i < j < stored.len() ==> (#[trigger] stored[j]).0 != step) implies overwritten(
            rows,
            stored,
        )[step] == stored[i].1@ by {
            if i < head.len() {
                assert(stored[stored.len() - 1].0 != step);
                assert(head[i].0 == step);
                assert forall|j: int| i < j < head.len() implies (#[trigger] head[j]).0 != step by {
                    assert(stored[j].0 != step);
                }
            }
        }
        if forall|i: int| 0 <= i < stored.len() ==> (#[trigger] stored[i]).0 != step {
            assert forall|i: int| 0 <= i < head.len() implies (#[trigger] head[i]).0 != step by {
                assert(stored[i].0 != step);
            }
            assert(stored[stored.len() - 1].0 != step);
        }
    }
}

/// The resource is one that an employee cannot work without: its identity, its
/// mailbox, its vault or its permissions.
pub open spec fn is_essential(step: Step) -> bool {
    step == Step::Identity || step == Step::Email || step == Step::Vault || step
        == Step::Permissions
}

/// An employee is online exactly where it is active, every essential resource is
/// ready, and every other one is ready or switched off.
pub proof fn law_online_means_nothing_is_outstanding(employee: EmployeeView)
    ensures
        employee.health() is Online <==> employee.lifecycle is Active && forall|step: Step|
            #[trigger]
            employee.rows[step].state is Ready || (employee.rows[step].state is Disabled
                && !is_essential(step)),
        employee.resource_health() is Online <==> forall|step: Step| #[trigger]
            employee.rows[step].state is Ready || (employee.rows[step].state is Disabled
                && !is_essential(step)),
{
    let all_done = forall|step: Step| #[trigger]
        employee.rows[step].state is Ready || (employee.rows[step].state is Disabled
            && !is_essential(step));
    if employee.resource_health() is Online {
        assert forall|step: Step| #[trigger]
            employee.rows[step].state is Ready || (employee.rows[step].state is Disabled
                && !is_essential(step)) by {
            assert(step.blocks() == is_essential(step));
        }
    }
    if all_done {
        assert forall|step: Step| step.blocks() implies #[trigger]
            employee.rows[step].state is Ready by {
            assert(is_essential(step));
        }
        assert forall|step: Step| !step.blocks() implies (#[trigger] employee.rows[step].state
            is Ready || employee.rows[step].state is Disabled) by {}
        assert(employee.is_standing());
        assert(employee.is_settled());
        assert(!employee.has_failed());
    }
}

/// An employee has failed exactly where an essential resource has, whatever its
/// lifecycle.
pub proof fn law_an_essential_failure_is_a_failure(employee: EmployeeView)
    ensures
        employee.health() is Failed <==> exists|step: Step|
            is_essential(step) && #[trigger] employee.rows[step].state is Failed,
        employee.resource_health() is Failed <==> employee.health() is Failed,
{
    if employee.has_failed() {
        let step = choose|step: Step|
            step.blocks() && #[trigger] employee.rows[step].state is Failed;
        assert(is_essential(step) && employee.rows[step].state is Failed);
    }
    if exists|step: Step| is_essential(step) && #[trigger] employee.rows[step].state is Failed {
        let step = choose|step: Step|
            is_essential(step) && #[trigger] employee.rows[step].state is Failed;
        assert(step.blocks() && employee.rows[step].state is Failed);
    }
}

/// An employee is being provisioned exactly where no essential resource has
/// failed and some essential one is not ready.
pub proof fn law_an_essential_wait_is_provisioning(employee: EmployeeView)
    ensures
        employee.health() is Provisioning <==> {
            &&& forall|step: Step|
                is_essential(step) ==> !(#[trigger] employee.rows[step].state is Failed)
            &&& exists|step: Step|
                is_essential(step) && !(#[trigger] employee.rows[step].state is Ready)
        },
{
    law_an_essential_failure_is_a_failure(employee);
    if !employee.is_standing() {
        let step = choose|step: Step|
            step.blocks() && !(#[trigger] employee.rows[step].state is Ready);
        assert(is_essential(step) && !(employee.rows[step].state is Ready));
    }
    if exists|step: Step| is_essential(step) && !(#[trigger] employee.rows[step].state is Ready) {
        let step = choose|step: Step|
            is_essential(step) && !(#[trigger] employee.rows[step].state is Ready);
        assert(step.blocks() && !(employee.rows[step].state is Ready));
    }
    if employee.health() is Provisioning {
        assert forall|step: Step| is_essential(step) implies !(
        #[trigger] employee.rows[step].state is Failed) by {
            assert(step.blocks());
        }
    }
}

/// Where every essential resource is ready, an optional one that is pending, under
/// way, waiting or failed makes the employee degraded.
pub proof fn law_an_outstanding_channel_degrades(employee: EmployeeView, step: Step)
    requires
        forall|s: Step| is_essential(s) ==> #[trigger] employee.rows[s].state is Ready,
        !is_essential(step),
        employee.rows[step].state is Pending || employee.rows[step].state is Provisioning
            || employee.rows[step].state is PendingExternal || employee.rows[step].state is Failed,
    ensures
        employee.health() is Degraded,
        employee.resource_health() is Degraded,
{
    law_an_essential_failure_is_a_failure(employee);
    law_an_essential_wait_is_provisioning(employee);
    law_online_means_nothing_is_outstanding(employee);
}

/// A degraded employee has every essential resource ready; what it lacks is an
/// optional one or its release to work.
pub proof fn law_the_degraded_have_what_is_essential(employee: EmployeeView)
    requires
        employee.health() is Degraded,
    ensures
        forall|step: Step| is_essential(step) ==> #[trigger] employee.rows[step].state is Ready,
        !(employee.lifecycle is Active) || exists|step: Step|
            !is_essential(step) && !(#[trigger] employee.rows[step].state is Ready)
                && !(employee.rows[step].state is Disabled),
{
    law_online_means_nothing_is_outstanding(employee);
    assert forall|step: Step| is_essential(step) implies #[trigger]
        employee.rows[step].state is Ready by {
        assert(step.blocks());
    }
}

/// A request to move a resource is granted or leaves no trace. Where it is
/// granted, the resource is in the new state as of now, and its binding and every
/// other resource are as they were.
pub proof fn law_a_move_touches_one_state(
    employee: EmployeeView,
    step: Step,
    state: StateView,
    now: Timestamp,
)
    ensures
        ({
            let then = employee.after(Request::SetResource { step, state, now });
            ||| then == employee
            ||| {
                &&& then.rows[step].state == state
                &&& then.rows[step].binding == employee.rows[step].binding
                &&& then.rows[step].updated_at == now
                &&& then.updated_at == now
                &&& then.lifecycle == employee.lifecycle
                &&& forall|other: Step|
                    other != step ==> #[trigger] then.rows[other] == employee.rows[other]
            }
        }),
        employee.takes(step, state) ==> employee.after(
            Request::SetResource { step, state, now },
        ).rows[step].state == state,
        !employee.takes(step, state) ==> employee.after(Request::SetResource { step, state, now })
            == employee,
{
}

/// Which states follow one another: nothing is ready that was not being
/// provisioned, waited for, or ready before; nothing that was ever attempted is
/// untouched again, unless it failed or was switched off; only what is not yet
/// there is waited for; and what is switched off fails at nothing.
pub proof fn law_states_follow_one_another(from: StateView, to: StateView)
    ensures
        from.may_become(to) <==> {
            &&& to is Ready ==> from is Provisioning || from is PendingExternal || from is Ready
            &&& to is Pending ==> from is Pending || from is Failed || from is Disabled
            &&& to is PendingExternal ==> from is Pending || from is Provisioning
                || from is PendingExternal
            &&& to is Failed ==> !(from is Disabled)
        },
{
}

/// Nothing but the identity is ready before the identity is, the browser not
/// before the vault either; a resource whose needs are ready and that is being
/// provisioned becomes ready.
pub proof fn law_readiness_starts_with_the_identity(
    employee: EmployeeView,
    step: Step,
    now: Timestamp,
)
    ensures
        ({
            let then = employee.after(
                Request::SetResource { step, state: StateView::Ready, now },
            );
            let held_back = {
                ||| step != Step::Identity && !(employee.rows[Step::Identity].state is Ready)
                ||| step == Step::Browser && !(employee.rows[Step::Vault].state is Ready)
            };
            &&& held_back ==> then == employee
            &&& !held_back && (employee.rows[step].state is Provisioning
                || employee.rows[step].state is PendingExternal) ==> then.rows[step].state is Ready
        }),
{
}

/// A first id is recorded and a second one is not; recording it moves no state.
/// Giving it up leaves the resource free for another, in the state it was in.
pub proof fn law_ids_are_recorded_once(
    employee: EmployeeView,
    step: Step,
    first: BindingView,
    second: BindingView,
    now: Timestamp,
    later: Timestamp,
)
    requires
        employee.rows[step].binding is None,
    ensures
        ({
            let bound = employee.after(Request::Bind { step, binding: first, now });
            let freed = bound.after(Request::Release { step, now: later });
            &&& bound.rows[step].binding == Some(first)
            &&& bound.rows[step].state == employee.rows[step].state
            &&& bound.rows[step].updated_at == now
            &&& bound.after(Request::Bind { step, binding: second, now: later }) == bound
            &&& freed.rows[step].binding is None
            &&& freed.rows[step].state == employee.rows[step].state
            &&& freed.after(
                Request::Bind { step, binding: second, now: later },
            ).rows[step].binding == Some(second)
            &&& employee.after(Request::Release { step, now }) == employee
            &&& forall|other: Step|
                other != step ==> #[trigger] bound.rows[other] == employee.rows[other]
                    && freed.rows[other] == employee.rows[other]
        }),
{
}

/// Which lifecycles follow one another: a draft is never gone back to, only the
/// active are suspended, the terminated stay so, and every other move is free.
pub proof fn law_lifecycles_follow_one_another(
    employee: EmployeeView,
    to: Lifecycle,
    now: Timestamp,
)
    ensures
        ({
            let from = employee.lifecycle;
            let then = employee.after(Request::SetLifecycle { to, now });
            let refused = {
                ||| to is Draft && !(from is Draft)
                ||| to is Suspended && !(from is Active) && !(from is Suspended)
                ||| from is Terminated && !(to is Terminated)
            };
            &&& refused ==> then == employee
            &&& !refused ==> then.lifecycle == to && then.updated_at == now && then.rows
                == employee.rows
            &&& employee.lifecycle.may_become(to) <==> !refused
        }),
{
}

/// The overdue steps are those that wait for something outside past its date, in
/// the order of the workflow, each once.
pub proof fn law_overdue_steps_wait_past_their_date(employee: EmployeeView, now: Timestamp)
    ensures
        forall|step: Step| #[trigger]
            employee.overdue(now).contains(step) <==> (employee.rows[step].state matches
                StateView::PendingExternal { expected_by, .. } && (expected_by.secs() < now.secs()
                || expected_by.secs() == now.secs() && expected_by.nanos() < now.nanos())),
        forall|i: int, k: int|
            0 <= i < k < employee.overdue(now).len() ==> (#[trigger] employee.overdue(
                now,
            )[i]).rank() < (#[trigger] employee.overdue(now)[k]).rank(),
{
    let late = |step: Step| employee.rows[step].state.is_late(now);
    assert forall|step: Step| #[trigger] employee.overdue(now).contains(step) <==> late(step) by {
        lemma_all_steps(step);
        if late(step) {
            assert(Step::ALL@.contains(Step::ALL@[step.rank() as int]));
            Step::ALL@.lemma_filter_contains(late, step.rank() as int);
        }
        if employee.overdue(now).contains(step) {
            let i = employee.overdue(now).index_of(step);
            Step::ALL@.lemma_filter_pred(late, i);
        }
    }
    lemma_all_steps(Step::Identity);
    lemma_filter_ascends(Step::ALL@, late);
}

/// A filter keeps the order of ranks.
proof fn lemma_filter_ascends(s: Seq<Step>, p: spec_fn(Step) -> bool)
    requires
        forall|i: int, k: int|
            0 <= i < k < s.len() ==> (#[trigger] s[i]).rank() < (#[trigger] s[k]).rank(),
    ensures
        forall|i: int, k: int|
            0 <= i < k < s.filter(p).len() ==> (#[trigger] s.filter(p)[i]).rank() < (
            #[trigger] s.filter(p)[k]).rank(),
        forall|i: int| 0 <= i < s.filter(p).len() ==> s.contains(#[trigger] s.filter(p)[i]),
    decreases s.len(),
{
    reveal(Seq::filter);
    if s.len() > 0 {
        let head = s.drop_last();
        assert forall|i: int, k: int| 0 <= i < k < head.len() implies (#[trigger] head[i]).rank()
            < (#[trigger] head[k]).rank() by {
            assert(head[i] == s[i] && head[k] == s[k]);
        }
        lemma_filter_ascends(head, p);
        let kept = head.filter(p);
        assert forall|i: int| 0 <= i < s.filter(p).len() implies s.contains(
            #[trigger] s.filter(p)[i],
        ) by {
            if i < kept.len() {
                let at = head.index_of(kept[i]);
                assert(s[at] == kept[i]);
            } else {
                assert(s[s.len() - 1] == s.filter(p)[i]);
            }
        }
        assert forall|i: int, k: int| 0 <= i < k < s.filter(p).len() implies (
        #[trigger] s.filter(p)[i]).rank() < (#[trigger] s.filter(p)[k]).rank() by {
            assert(s.filter(p)[i] == kept[i]);
            assert(head.contains(kept[i]));
            let at = head.index_of(kept[i]);
            assert(s[at] == kept[i]);
            if k < kept.len() {
                assert(s.filter(p)[k] == kept[k]);
            } else {
                assert(s.filter(p)[k] == s[s.len() - 1]);
            }
        }
    }
}

/// A new employee is a draft with nothing attempted and nothing bound; its address
/// is its handle at its domain, and its DID names the domain and the id.
pub proof fn law_a_new_employee_has_nothing_yet(
    id: u128,
    tenant_id: u128,
    slug: Seq<char>,
    domain: Seq<char>,
    now: Timestamp,
)
    ensures
        ({
            let fresh = EmployeeView::created(id, tenant_id, slug, domain, now);
            &&& fresh.id == id && fresh.tenant_id == tenant_id
            &&& fresh.lifecycle is Draft
            &&& fresh.address == (slug, domain)
            &&& fresh.did == "did:web:"@ + domain + ":employees:"@ + ids::hyphenated(id)
            &&& forall|step: Step|
                {
                    &&& #[trigger] fresh.rows.contains_key(step)
                    &&& fresh.rows[step].state is Pending
                    &&& fresh.rows[step].binding is None
                    &&& fresh.rows[step].updated_at == now
                }
            &&& fresh.health() is Provisioning
            &&& fresh.overdue(now) == Seq::<Step>::empty()
        }),
{
    let fresh = EmployeeView::created(id, tenant_id, slug, domain, now);
    assert(fresh.rows[Step::Identity].state is Pending);
    law_an_essential_wait_is_provisioning(fresh);
    law_overdue_steps_wait_past_their_date(fresh, now);
    if fresh.overdue(now).len() > 0 {
        let step = fresh.overdue(now)[0];
        assert(fresh.overdue(now).contains(step));
        assert(fresh.rows.contains_key(step));
    }
    assert(fresh.overdue(now) =~= Seq::<Step>::empty());
}

} // verus!
