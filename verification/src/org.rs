//! Teams and sections: an owner for the role layer of the policy stack.
//!
//! A team owns a policy layer and a tool allowlist. A section of a team only
//! narrows it. An employee in several teams gets what all of them allow, never
//! what any of them does: joining a second team is a way to lose reach.
//!
//! A reporting line decides whom an employee may direct. It is no layer, and
//! nothing here reads it.
use crate::action::McpTool;
use crate::decimal;
use crate::decimal::decimal_text;
use crate::ids;
use crate::ids::{EmployeeId, Slug, TenantId};
use crate::money::{Currency, Money};
use crate::ordered::{OrdMap, OrdSet};
use crate::policy::laws;
use crate::policy::limits;
use crate::policy::limits::Limits;
use crate::policy::{PolicyError, PolicyLimits, SpendLimits};
use crate::text;
use crate::text::{chars_of, control, text_of, trim};
use vstd::prelude::*;
use vstd::string::*;

verus! {

/// Why an org structure is not usable.
#[derive(Debug, Clone, PartialEq, Eq)]
pub enum OrgError {
    ToolCeilingExceeded {
        team: Slug,
        /// How many tools the team's allowlist holds.
        count: usize,
        /// [`Team::MAX_TOOLS_PER_EMPLOYEE`].
        ceiling: usize,
    },
    /// Two amounts that have to be compared are in different currencies.
    CurrencyMismatch { left: Currency, right: Currency },
    TeamBudgetExhausted {
        cap: Money,
        /// What the team had already spent.
        spent: Option<Money>,
        requested: Money,
    },
    /// A membership names a team that the tenant does not have.
    UnknownTeam { employee: EmployeeId, team: Slug },
    /// A team's mission is not usable as one, with the reason.
    BadMission(&'static str),
    UnknownSection { team: Slug, section: Slug },
    Policy(PolicyError),
}

impl OrgError {
    /// What an operator reads.
    pub open spec fn text_spec(self) -> Seq<char> {
        match self {
            OrgError::ToolCeilingExceeded { team, count, ceiling } => {
                let over: nat = if count > ceiling {
                    (count - ceiling) as nat
                } else {
                    0
                };
                "team "@ + team@ + " allows "@ + decimal::decimal(count as nat)
                    + " tools but one employee may carry at most "@ + decimal::decimal(
                    ceiling as nat,
                ) + ": split the team or drop "@ + decimal::decimal(over) + " tool(s)"@
            },
            OrgError::CurrencyMismatch { left, right } => {
                "mixed currencies: "@ + left.code_text() + " and "@ + right.code_text()
            },
            OrgError::TeamBudgetExhausted { cap, spent, requested } => {
                let gone: nat = match spent {
                    None => 0,
                    Some(m) => m.minor() as nat,
                };
                "team budget "@ + cap.text_spec() + " is spent: "@ + decimal::decimal(gone)
                    + " minor units already gone today, "@ + requested.text_spec() + " requested"@
            },
            OrgError::UnknownTeam { employee, team } => {
                "employee "@ + ids::hyphenated(employee@) + " is a member of team "@ + team@
                    + ", which this tenant does not have"@
            },
            OrgError::BadMission(why) => "mission: "@ + why@,
            OrgError::UnknownSection { team, section } => {
                "team "@ + team@ + " has no section "@ + section@
            },
            OrgError::Policy(e) => e.text_spec(),
        }
    }

    /// What an operator reads: every number that led to the error is in it.
    pub fn to_text(&self) -> (r: String)
        ensures
            r@ == self.text_spec(),
    {
        match self {
            OrgError::ToolCeilingExceeded { team, count, ceiling } => {
                let over: usize = count.saturating_sub(*ceiling);
                let mut out = "team ".to_owned();
                out.append(team.as_str());
                out.append(" allows ");
                out.append(decimal_text(*count as u64).as_str());
                out.append(" tools but one employee may carry at most ");
                out.append(decimal_text(*ceiling as u64).as_str());
                out.append(": split the team or drop ");
                out.append(decimal_text(over as u64).as_str());
                out.append(" tool(s)");
                out
            },
            OrgError::CurrencyMismatch { left, right } => {
                let mut out = "mixed currencies: ".to_owned();
                out.append(left.code());
                out.append(" and ");
                out.append(right.code());
                out
            },
            OrgError::TeamBudgetExhausted { cap, spent, requested } => {
                let gone: u64 = match spent {
                    None => 0,
                    Some(m) => m.minor(),
                };
                let mut out = "team budget ".to_owned();
                out.append(cap.to_text().as_str());
                out.append(" is spent: ");
                out.append(decimal_text(gone).as_str());
                out.append(" minor units already gone today, ");
                out.append(requested.to_text().as_str());
                out.append(" requested");
                out
            },
            OrgError::UnknownTeam { employee, team } => {
                let mut out = "employee ".to_owned();
                out.append(employee.to_text().as_str());
                out.append(" is a member of team ");
                out.append(team.as_str());
                out.append(", which this tenant does not have");
                out
            },
            OrgError::BadMission(why) => {
                let mut out = "mission: ".to_owned();
                out.append(why);
                out
            },
            OrgError::UnknownSection { team, section } => {
                let mut out = "team ".to_owned();
                out.append(team.as_str());
                out.append(" has no section ");
                out.append(section.as_str());
                out
            },
            OrgError::Policy(e) => e.to_text(),
        }
    }
}

// ---------------------------------------------------------------------------
// Mission
// ---------------------------------------------------------------------------

/// What a team is for, in the operator's own words. It grants nothing.
#[derive(Debug, PartialEq, Eq, PartialOrd, Ord, Hash)]
pub struct Mission(String);

impl View for Mission {
    type V = Seq<char>;

    closed spec fn view(&self) -> Seq<char> {
        self.0@
    }
}

/// A text has a control character.
pub open spec fn has_control(s: Seq<char>) -> bool {
    exists|i: int| 0 <= i < s.len() && text::is_control(#[trigger] s[i])
}

/// A text can be a mission: not blank, short, one line.
pub open spec fn is_mission(t: Seq<char>) -> bool {
    0 < t.len() <= Mission::MAX_CHARS && !has_control(t)
}

impl Mission {
    /// Longest accepted mission, in characters.
    pub const MAX_CHARS: usize = 240;

    #[verifier::type_invariant]
    spec fn well_formed(self) -> bool {
        is_mission(self.0@)
    }

    /// Normalise and validate.
    pub fn parse(raw: &str) -> (r: Result<Mission, OrgError>)
        ensures
            ({
                let t = text::trimmed(raw@);
                match r {
                    Ok(m) => is_mission(t) && m@ == t,
                    Err(OrgError::BadMission(why)) => if t.len() == 0 {
                        why@ == "must not be blank"@
                    } else if t.len() > Mission::MAX_CHARS {
                        why@ == "at most 240 characters"@
                    } else {
                        has_control(t) && why@ == "must not contain control characters"@
                    },
                    Err(_) => false,
                }
            }),
    {
        let chars = chars_of(raw);
        let t = trim(chars.as_slice());
        if t.len() == 0 {
            return Err(OrgError::BadMission("must not be blank"));
        }
        if t.len() > Self::MAX_CHARS {
            return Err(OrgError::BadMission("at most 240 characters"));
        }
        for i in 0..t.len()
            invariant
                t@ == text::trimmed(raw@),
                0 < t@.len() <= Mission::MAX_CHARS,
                forall|j: int| 0 <= j < i ==> !text::is_control(#[trigger] t@[j]),
        {
            if control(t[i]) {
                assert(text::is_control(t@[i as int]));
                return Err(OrgError::BadMission("must not contain control characters"));
            }
        }
        Ok(Mission(text_of(t)))
    }

    /// The mission text, trimmed.
    pub fn as_str(&self) -> (r: &str)
        ensures
            r@ == self@,
            is_mission(r@),
    {
        proof {
            use_type_invariant(self);
        }
        self.0.as_str()
    }
}

impl Clone for Mission {
    fn clone(&self) -> (r: Mission)
        ensures
            r == *self,
    {
        proof {
            use_type_invariant(self);
        }
        Mission(self.0.clone())
    }
}

// ---------------------------------------------------------------------------
// TeamBudget
// ---------------------------------------------------------------------------

/// What the whole team may spend in a day.
///
/// An employee's cap stops one employee; this stops the team, which two
/// employees each under their own cap would otherwise overrun.
#[derive(Debug, Clone, Copy, PartialEq, Eq, Structural)]
pub struct TeamBudget {
    per_day: Money,
}

impl TeamBudget {
    /// The cap for the day.
    pub closed spec fn cap_spec(self) -> Money {
        self.per_day
    }

    /// What [`TeamBudget::charge`] returns.
    pub open spec fn charged(
        self,
        spent_today: Option<Money>,
        amount: Money,
        r: Result<Money, OrgError>,
    ) -> bool {
        let cap = self.cap();
        let before: nat = match spent_today {
            None => 0,
            Some(m) => m.minor() as nat,
        };
        if amount.currency() != cap.currency() {
            r matches Err(OrgError::CurrencyMismatch { left, right }) && left == cap.currency()
                && right == amount.currency()
        } else if spent_today matches Some(m) && m.currency() != cap.currency() {
            r matches Err(OrgError::CurrencyMismatch { left, right }) && left == cap.currency()
                && right == spent_today->Some_0.currency()
        } else if before + amount.minor() > cap.minor() {
            r matches Err(OrgError::TeamBudgetExhausted { cap: c, spent, requested }) && c == cap
                && spent == spent_today && requested == amount
        } else {
            r matches Ok(total) && total.minor() == before + amount.minor() && total.currency()
                == cap.currency()
        }
    }

    /// A budget with this cap for the day.
    pub fn per_day(per_day: Money) -> (r: TeamBudget)
        ensures
            r.cap() == per_day,
    {
        TeamBudget { per_day }
    }

    /// The cap for the day.
    #[verifier::when_used_as_spec(cap_spec)]
    pub fn cap(self) -> (r: Money)
        ensures
            r == self.cap(),
    {
        self.per_day
    }

    /// Charge `amount` against the team's day, given what the team has already
    /// spent today. Returns the team's new running total.
    pub fn charge(self, spent_today: Option<Money>, amount: Money) -> (r: Result<Money, OrgError>)
        ensures
            self.charged(spent_today, amount, r),
    {
        let cap = self.per_day;
        if amount.currency() != cap.currency() {
            return Err(
                OrgError::CurrencyMismatch { left: cap.currency(), right: amount.currency() },
            );
        }
        let total = match spent_today {
            None => amount,
            Some(before) => {
                if before.currency() != cap.currency() {
                    return Err(
                        OrgError::CurrencyMismatch {
                            left: cap.currency(),
                            right: before.currency(),
                        },
                    );
                }
                match before.checked_add(amount) {
                    Ok(total) => total,
                    Err(_) => {
                        return Err(
                            OrgError::TeamBudgetExhausted {
                                cap,
                                spent: spent_today,
                                requested: amount,
                            },
                        );
                    },
                }
            },
        };
        if total.minor() > cap.minor() {
            return Err(
                OrgError::TeamBudgetExhausted { cap, spent: spent_today, requested: amount },
            );
        }
        Ok(total)
    }
}

// ---------------------------------------------------------------------------
// Team
// ---------------------------------------------------------------------------

/// A named unit inside a tenant, and the owner of the role layer.
#[derive(Debug, PartialEq, Eq)]
pub struct Team {
    tenant: TenantId,
    name: Slug,
    limits: PolicyLimits,
    budget: Option<TeamBudget>,
    /// The layer of each section, already laid over the team's.
    sections: OrdMap<Slug, PolicyLimits>,
}

/// A [`Team`] as a mathematical value.
#[verifier::ext_equal]
pub struct TeamView {
    pub tenant: u128,
    pub name: Seq<char>,
    pub limits: Limits,
    pub budget: Option<TeamBudget>,
    pub sections: Map<Seq<char>, Limits>,
}

impl View for Team {
    type V = TeamView;

    closed spec fn view(&self) -> TeamView {
        TeamView {
            tenant: self.tenant@,
            name: self.name@,
            limits: self.limits@,
            budget: self.budget,
            sections: self.sections@.map_values(|l: PolicyLimits| l@),
        }
    }
}

impl TeamView {
    /// What holds of every team there is: few enough tools, and no section
    /// wider than the team.
    pub open spec fn valid(self) -> bool {
        &&& self.limits.mcp_tools.finite()
        &&& self.limits.mcp_tools.len() <= Team::MAX_TOOLS_PER_EMPLOYEE
        &&& forall|s: Seq<char>| #[trigger]
            self.sections.contains_key(s) ==> laws::contained(self.sections[s], self.limits)
    }

    /// The team with one more section: the team's layer, narrowed where there is
    /// something to narrow it by.
    pub open spec fn sectioned(self, name: Seq<char>, narrowing: Option<Limits>) -> Result<
        TeamView,
        PolicyError,
    > {
        match narrowing {
            None => Ok(TeamView { sections: self.sections.insert(name, self.limits), ..self }),
            Some(n) => match self.limits.meet(n) {
                Ok(v) => Ok(TeamView { sections: self.sections.insert(name, v), ..self }),
                Err(e) => Err(e),
            },
        }
    }

    /// The layer of a member of this team in a section; `None` where the team
    /// has no such section.
    pub open spec fn layer(self, section: Option<Seq<char>>) -> Option<Limits> {
        match section {
            None => Some(self.limits),
            Some(s) => if self.sections.contains_key(s) {
                Some(self.sections[s])
            } else {
                None
            },
        }
    }
}

/// A team's spend limits under its budget: one employee's day is never larger
/// than the team's.
pub open spec fn clamped(spend: SpendLimits, cap: Money, s: SpendLimits) -> bool {
    &&& s.max_per_transaction() == limits::smaller(spend.max_per_transaction(), cap)
    &&& s.max_per_day() == limits::smaller(spend.max_per_day(), cap)
    &&& s.approval_above() == limits::smaller(spend.approval_above(), cap)
}

impl Clone for Team {
    fn clone(&self) -> (r: Team)
        ensures
            r@ == self@,
    {
        let limits = self.limits.clone();
        let sections = self.sections.clone();
        proof {
            use_type_invariant(self);
            assert(sections@.map_values(|l: PolicyLimits| l@) =~= self@.sections);
        }
        Team {
            tenant: self.tenant,
            name: self.name.clone(),
            limits,
            budget: self.budget,
            sections,
        }
    }
}

impl Team {
    /// The most tools one employee may carry: what a model can still choose
    /// well between.
    pub const MAX_TOOLS_PER_EMPLOYEE: usize = 32;

    #[verifier::type_invariant]
    spec fn well_formed(self) -> bool {
        self@.valid()
    }

    /// What [`Team::try_new`] returns.
    pub open spec fn built(
        tenant: u128,
        name: Seq<char>,
        l: Limits,
        budget: Option<TeamBudget>,
        r: Result<Team, OrgError>,
    ) -> bool {
        if l.mcp_tools.len() > Team::MAX_TOOLS_PER_EMPLOYEE {
            r matches Err(OrgError::ToolCeilingExceeded { team, count, ceiling }) && team@ == name
                && count == l.mcp_tools.len() && ceiling == Team::MAX_TOOLS_PER_EMPLOYEE
        } else {
            match (budget, l.spend) {
                (Some(b), Some(spend)) => if spend.currency() != b.cap().currency() {
                    r matches Err(OrgError::CurrencyMismatch { left, right }) && left
                        == spend.currency() && right == b.cap().currency()
                } else {
                    r matches Ok(team) && team@.limits.spend matches Some(s) && clamped(
                        spend,
                        b.cap(),
                        s,
                    ) && team@ == (TeamView {
                        tenant,
                        name,
                        limits: Limits { spend: Some(s), ..l },
                        budget,
                        sections: Map::empty(),
                    })
                },
                _ => r matches Ok(team) && team@ == (TeamView {
                    tenant,
                    name,
                    limits: l,
                    budget,
                    sections: Map::empty(),
                }),
            }
        }
    }

    /// Build a team. Fails when the allowlist is over the ceiling and when the
    /// budget and the spend limits name different currencies.
    ///
    /// A budget also clamps the caps per employee.
    pub fn try_new(
        tenant: TenantId,
        name: Slug,
        limits: PolicyLimits,
        budget: Option<TeamBudget>,
    ) -> (r: Result<Team, OrgError>)
        ensures
            Team::built(tenant@, name@, limits@, budget, r),
    {
        let count: usize = limits.allowed_mcp_tools.len();
        if count > Self::MAX_TOOLS_PER_EMPLOYEE {
            return Err(
                OrgError::ToolCeilingExceeded {
                    team: name,
                    count,
                    ceiling: Self::MAX_TOOLS_PER_EMPLOYEE,
                },
            );
        }
        proof {
            limits.allowed_mcp_tools.lemma_finite();
        }
        let mut limits = limits;
        if let (Some(budget), Some(spend)) = (budget, limits.spend) {
            let cap = budget.cap();
            if spend.currency() != cap.currency() {
                return Err(
                    OrgError::CurrencyMismatch { left: spend.currency(), right: cap.currency() },
                );
            }
            match SpendLimits::try_new(
                min_money(spend.max_per_transaction(), cap),
                min_money(spend.max_per_day(), cap),
                min_money(spend.approval_above(), cap),
            ) {
                Ok(s) => {
                    limits.spend = Some(s);
                },
                Err(e) => return Err(OrgError::Policy(e)),
            }
        }
        let sections: OrdMap<Slug, PolicyLimits> = OrdMap::new();
        proof {
            assert(sections@.map_values(|l: PolicyLimits| l@) =~= Map::<Seq<char>, Limits>::empty());
        }
        Ok(Team { tenant, name, limits, budget, sections })
    }

    /// Declare a subdivision: a region, a product line, a market. Without a
    /// narrowing it inherits the team.
    pub fn with_section(self, name: Slug, narrowing: Option<&PolicyLimits>) -> (r: Result<
        Team,
        OrgError,
    >)
        ensures
            match (
                self@.sectioned(
                    name@,
                    match narrowing {
                        None => None,
                        Some(n) => Some(n@),
                    },
                ),
                r,
            ) {
                (Ok(v), Ok(team)) => team@ == v,
                (Err(e), Err(OrgError::Policy(f))) => e == f,
                _ => false,
            },
            match narrowing {
                None => r matches Ok(team) && team@ == (TeamView {
                    sections: self@.sections.insert(name@, self@.limits),
                    ..self@
                }),
                Some(n) => match (self@.limits.meet(n@), r) {
                    (Ok(v), Ok(team)) => team@ == (TeamView {
                        sections: self@.sections.insert(name@, v),
                        ..self@
                    }),
                    (Err(e), Err(OrgError::Policy(f))) => e == f,
                    _ => false,
                },
            },
    {
        proof {
            use_type_invariant(&self);
        }
        let ghost before = self@;
        let layer = match narrowing {
            None => self.limits.clone(),
            Some(n) => match self.limits.intersect(n) {
                Ok(l) => {
                    proof {
                        laws::law_meet_only_tightens(self.limits@, n@, l@);
                    }
                    l
                },
                Err(e) => return Err(OrgError::Policy(e)),
            },
        };
        let ghost added = layer@;
        let ghost key = name@;
        let Team { tenant, name: team, limits, budget, mut sections } = self;
        sections.insert(name, layer);
        proof {
            assert(sections@.map_values(|l: PolicyLimits| l@) =~= before.sections.insert(
                key,
                added,
            ));
        }
        Ok(Team { tenant, name: team, limits, budget, sections })
    }

    /// The tenant the team belongs to.
    pub fn tenant(&self) -> (r: TenantId)
        ensures
            r@ == self@.tenant,
    {
        self.tenant
    }

    /// The team's name.
    pub fn name(&self) -> (r: &Slug)
        ensures
            r@ == self@.name,
    {
        &self.name
    }

    /// The team's role layer.
    pub fn limits(&self) -> (r: &PolicyLimits)
        ensures
            r@ == self@.limits,
    {
        &self.limits
    }

    /// The team's budget.
    pub fn budget(&self) -> (r: Option<TeamBudget>)
        ensures
            r == self@.budget,
    {
        self.budget
    }

    /// The team's tool allowlist, never larger than
    /// [`Team::MAX_TOOLS_PER_EMPLOYEE`].
    pub fn tools(&self) -> (r: &OrdSet<McpTool>)
        ensures
            r@ == self@.limits.mcp_tools,
            r@.len() <= Team::MAX_TOOLS_PER_EMPLOYEE,
    {
        proof {
            use_type_invariant(self);
        }
        &self.limits.allowed_mcp_tools
    }

    /// How much of the ceiling this team has used up.
    pub fn tool_count(&self) -> (r: usize)
        ensures
            r == self@.limits.mcp_tools.len(),
            r <= Team::MAX_TOOLS_PER_EMPLOYEE,
    {
        proof {
            use_type_invariant(self);
        }
        self.limits.allowed_mcp_tools.len()
    }

    /// The names of the team's sections, in order.
    pub fn sections(&self) -> (r: &[Slug])
        ensures
            crate::ordered::ascending(r@),
            crate::ordered::keys_of(r@).to_set() == self@.sections.dom(),
    {
        proof {
            assert(self@.sections.dom() =~= self.sections@.dom());
        }
        self.sections.keys()
    }

    /// The layer that applies to a member of this team, in the given section:
    /// never wider than the team's own.
    pub fn layer_for(&self, section: Option<&Slug>) -> (r: Result<&PolicyLimits, OrgError>)
        ensures
            match (self@.layer(name_of(section)), r) {
                (Some(l), Ok(p)) => p@ == l && laws::contained(l, self@.limits)
                    && l.mcp_tools.finite() && l.mcp_tools.len() <= Team::MAX_TOOLS_PER_EMPLOYEE,
                (None, Err(OrgError::UnknownSection { team, section: s })) => team@ == self@.name
                    && name_of(section) == Some(s@),
                _ => false,
            },
    {
        proof {
            use_type_invariant(self);
        }
        match section {
            None => Ok(&self.limits),
            Some(s) => match self.sections.get(s) {
                Some(l) => {
                    proof {
                        assert(self@.sections.contains_key(s@));
                        assert(laws::contained(l@, self@.limits));
                        vstd::set_lib::lemma_len_subset(l@.mcp_tools, self@.limits.mcp_tools);
                    }
                    Ok(l)
                },
                None => Err(
                    OrgError::UnknownSection { team: self.name.clone(), section: s.clone() },
                ),
            },
        }
    }
}

fn min_money(a: Money, b: Money) -> (r: Money)
    ensures
        r == limits::smaller(a, b),
{
    if a.minor() <= b.minor() {
        a
    } else {
        b
    }
}

/// The name of a section, where there is one.
pub open spec fn name_of(section: Option<&Slug>) -> Option<Seq<char>> {
    match section {
        None => None,
        Some(s) => Some(s@),
    }
}

// ---------------------------------------------------------------------------
// Membership
// ---------------------------------------------------------------------------

/// One employee's place in one team, optionally narrowed to a section.
#[derive(Debug, Clone, PartialEq, Eq)]
pub struct Membership {
    pub employee: EmployeeId,
    pub team: Slug,
    pub section: Option<Slug>,
}

impl Membership {
    /// A membership from its parts.
    pub fn new(employee: EmployeeId, team: Slug, section: Option<Slug>) -> (r: Membership)
        ensures
            r == (Membership { employee, team, section }),
    {
        Membership { employee, team, section }
    }

    /// The name of the section, where there is one.
    pub open spec fn section_name(self) -> Option<Seq<char>> {
        match self.section {
            None => None,
            Some(s) => Some(s@),
        }
    }
}

/// What keeps an employee from having a role layer.
pub enum RoleFault {
    UnknownTeam(Seq<char>),
    UnknownSection(Seq<char>, Seq<char>),
    Policy(PolicyError),
}

/// The first team of that tenant and name.
pub open spec fn team_named(teams: Seq<Team>, tenant: u128, name: Seq<char>) -> Option<TeamView>
    decreases teams.len(),
{
    if teams.len() == 0 {
        None
    } else if teams[0]@.tenant == tenant && teams[0]@.name == name {
        Some(teams[0]@)
    } else {
        team_named(teams.drop_first(), tenant, name)
    }
}

/// The layer that one membership stands for.
pub open spec fn membership_layer(tenant: u128, teams: Seq<Team>, m: Membership) -> Result<
    Limits,
    RoleFault,
> {
    match team_named(teams, tenant, m.team@) {
        None => Err(RoleFault::UnknownTeam(m.team@)),
        Some(t) => match t.layer(m.section_name()) {
            None => Err(RoleFault::UnknownSection(t.name, m.section_name()->Some_0)),
            Some(l) => Ok(l),
        },
    }
}

/// What the employee's memberships among `ms` leave of `so_far`, one after the
/// other.
pub open spec fn role(
    tenant: u128,
    employee: u128,
    teams: Seq<Team>,
    ms: Seq<Membership>,
    so_far: Option<Limits>,
) -> Result<Option<Limits>, RoleFault>
    decreases ms.len(),
{
    if ms.len() == 0 {
        Ok(so_far)
    } else if ms[0].employee@ != employee {
        role(tenant, employee, teams, ms.drop_first(), so_far)
    } else {
        match membership_layer(tenant, teams, ms[0]) {
            Err(e) => Err(e),
            Ok(l) => match so_far {
                None => role(tenant, employee, teams, ms.drop_first(), Some(l)),
                Some(before) => match before.meet(l) {
                    Err(e) => Err(RoleFault::Policy(e)),
                    Ok(v) => role(tenant, employee, teams, ms.drop_first(), Some(v)),
                },
            },
        }
    }
}

/// `r` is what `said` describes.
pub open spec fn is_role(
    said: Result<Option<Limits>, RoleFault>,
    employee: EmployeeId,
    r: Result<Option<PolicyLimits>, OrgError>,
) -> bool {
    match (said, r) {
        (Ok(None), Ok(None)) => true,
        (Ok(Some(v)), Ok(Some(l))) => l@ == v,
        (Err(RoleFault::UnknownTeam(name)), Err(OrgError::UnknownTeam { employee: e, team })) => e
            == employee && team@ == name,
        (
            Err(RoleFault::UnknownSection(name, part)),
            Err(OrgError::UnknownSection { team, section }),
        ) => team@ == name && section@ == part,
        (Err(RoleFault::Policy(e)), Err(OrgError::Policy(f))) => e == f,
        _ => false,
    }
}

fn find_team<'a>(teams: &'a [Team], tenant: TenantId, name: &Slug) -> (r: Option<&'a Team>)
    ensures
        match r {
            Some(t) => team_named(teams@, tenant@, name@) == Some(t@),
            None => team_named(teams@, tenant@, name@) is None,
        },
{
    assert(teams@.skip(0) == teams@);
    for i in 0..teams.len()
        invariant
            team_named(teams@, tenant@, name@) == team_named(
                teams@.skip(i as int),
                tenant@,
                name@,
            ),
    {
        assert(teams@.skip(i as int).drop_first() == teams@.skip(i + 1));
        if teams[i].tenant().as_uuid() == tenant.as_uuid() && teams[i].name().same(name) {
            return Some(&teams[i]);
        }
    }
    None
}

/// The role layer for one employee: what every team it belongs to allows, each
/// already narrowed by its section.
///
/// `Ok(None)` means the employee is in no team: an absent layer, which the
/// caller resolves by inheriting the tenant's. Teams of another tenant are not
/// considered.
pub fn role_layer(
    tenant: TenantId,
    employee: EmployeeId,
    teams: &[Team],
    memberships: &[Membership],
) -> (r: Result<Option<PolicyLimits>, OrgError>)
    ensures
        is_role(role(tenant@, employee@, teams@, memberships@, None), employee, r),
        r matches Ok(Some(l)) ==> l@.mcp_tools.len() <= Team::MAX_TOOLS_PER_EMPLOYEE,
{
    let mut effective: Option<PolicyLimits> = None;
    let ghost mut seen: Option<Limits> = None;
    assert(memberships@.skip(0) == memberships@);
    for i in 0..memberships.len()
        invariant
            role(tenant@, employee@, teams@, memberships@, None) == role(
                tenant@,
                employee@,
                teams@,
                memberships@.skip(i as int),
                seen,
            ),
            match (effective, seen) {
                (None, None) => true,
                (Some(l), Some(v)) => l@ == v && v.mcp_tools.finite() && v.mcp_tools.len()
                    <= Team::MAX_TOOLS_PER_EMPLOYEE,
                _ => false,
            },
    {
        let m = &memberships[i];
        assert(memberships@.skip(i as int).drop_first() == memberships@.skip(i + 1));
        assert(memberships@.skip(i as int)[0] == memberships@[i as int]);
        if m.employee.as_uuid() == employee.as_uuid() {
            let team = match find_team(teams, tenant, &m.team) {
                Some(t) => t,
                None => {
                    return Err(OrgError::UnknownTeam { employee, team: m.team.clone() });
                },
            };
            let section: Option<&Slug> = match &m.section {
                Some(s) => Some(s),
                None => None,
            };
            assert(name_of(section) == m.section_name());
            let layer = match team.layer_for(section) {
                Ok(l) => l,
                Err(e) => return Err(e),
            };
            match effective {
                None => {
                    effective = Some(layer.clone());
                    proof {
                        seen = Some(layer@);
                    }
                },
                Some(before) => match before.intersect(layer) {
                    Ok(both) => {
                        proof {
                            laws::law_meet_only_tightens(before@, layer@, both@);
                            vstd::set_lib::lemma_len_subset(both@.mcp_tools, layer@.mcp_tools);
                            seen = Some(both@);
                        }
                        effective = Some(both);
                    },
                    Err(e) => return Err(OrgError::Policy(e)),
                },
            }
        }
    }
    Ok(effective)
}

// ---------------------------------------------------------------------------
// Laws
// ---------------------------------------------------------------------------

/// A charge that goes through keeps the team's day within its cap.
pub proof fn law_charges_stay_under_the_cap(
    budget: TeamBudget,
    spent_today: Option<Money>,
    amount: Money,
    total: Money,
)
    requires
        budget.charged(spent_today, amount, Ok(total)),
    ensures
        total.minor() <= budget.cap().minor(),
        total.minor() >= amount.minor(),
        total.currency() == budget.cap().currency(),
{
}

/// An employee's role layer grants no more than any of its memberships does,
/// and than what was granted before them.
pub proof fn law_memberships_only_tighten(
    tenant: u128,
    employee: u128,
    teams: Seq<Team>,
    ms: Seq<Membership>,
    so_far: Option<Limits>,
    l: Limits,
)
    requires
        role(tenant, employee, teams, ms, so_far) == Ok::<Option<Limits>, RoleFault>(Some(l)),
    ensures
        so_far matches Some(before) ==> laws::contained(l, before),
        forall|i: int|
            0 <= i < ms.len() && (#[trigger] ms[i]).employee@ == employee ==> membership_layer(
                tenant,
                teams,
                ms[i],
            ) is Ok && laws::contained(l, membership_layer(tenant, teams, ms[i])->Ok_0),
    decreases ms.len(),
{
    if ms.len() > 0 {
        let rest = ms.drop_first();
        if ms[0].employee@ != employee {
            law_memberships_only_tighten(tenant, employee, teams, rest, so_far, l);
        } else {
            let layer = membership_layer(tenant, teams, ms[0])->Ok_0;
            match so_far {
                None => {
                    law_memberships_only_tighten(tenant, employee, teams, rest, Some(layer), l);
                },
                Some(before) => {
                    let v = before.meet(layer)->Ok_0;
                    law_memberships_only_tighten(tenant, employee, teams, rest, Some(v), l);
                    laws::law_meet_only_tightens(before, layer, v);
                    laws::law_contained_is_transitive(l, v, before);
                    laws::law_contained_is_transitive(l, v, layer);
                },
            }
        }
        assert forall|i: int|
            0 <= i < ms.len() && (#[trigger] ms[i]).employee@ == employee implies membership_layer(
            tenant,
            teams,
            ms[i],
        ) is Ok && laws::contained(l, membership_layer(tenant, teams, ms[i])->Ok_0) by {
            if i > 0 {
                assert(ms[i] == rest[i - 1]);
            }
        }
    }
}

/// An employee's role layer is the widest policy inside all of its memberships:
/// whatever is contained in each of them, and in what was granted before, is
/// contained in the role layer.
pub proof fn law_a_role_is_the_widest(
    tenant: u128,
    employee: u128,
    teams: Seq<Team>,
    ms: Seq<Membership>,
    so_far: Option<Limits>,
    l: Limits,
    x: Limits,
)
    requires
        role(tenant, employee, teams, ms, so_far) == Ok::<Option<Limits>, RoleFault>(Some(l)),
        so_far matches Some(before) ==> laws::contained(x, before),
        forall|i: int|
            0 <= i < ms.len() && (#[trigger] ms[i]).employee@ == employee ==> laws::contained(
                x,
                membership_layer(tenant, teams, ms[i])->Ok_0,
            ),
    ensures
        laws::contained(x, l),
    decreases ms.len(),
{
    if ms.len() > 0 {
        let rest = ms.drop_first();
        assert forall|i: int|
            0 <= i < rest.len() && (#[trigger] rest[i]).employee@ == employee implies laws::contained(
            x,
            membership_layer(tenant, teams, rest[i])->Ok_0,
        ) by {
            assert(rest[i] == ms[i + 1]);
        }
        if ms[0].employee@ != employee {
            law_a_role_is_the_widest(tenant, employee, teams, rest, so_far, l, x);
        } else {
            let layer = membership_layer(tenant, teams, ms[0])->Ok_0;
            match so_far {
                None => {
                    law_a_role_is_the_widest(tenant, employee, teams, rest, Some(layer), l, x);
                },
                Some(before) => {
                    let v = before.meet(layer)->Ok_0;
                    laws::law_meet_is_the_widest(before, layer, v, x);
                    law_a_role_is_the_widest(tenant, employee, teams, rest, Some(v), l, x);
                },
            }
        }
    }
}

/// One more membership leaves an employee with no more than it had.
pub proof fn law_a_second_team_never_widens(
    tenant: u128,
    employee: u128,
    teams: Seq<Team>,
    ms: Seq<Membership>,
    so_far: Option<Limits>,
    more: Membership,
    before: Limits,
    after: Limits,
)
    requires
        role(tenant, employee, teams, ms, so_far) == Ok::<Option<Limits>, RoleFault>(Some(before)),
        role(tenant, employee, teams, ms.push(more), so_far) == Ok::<Option<Limits>, RoleFault>(
            Some(after),
        ),
    ensures
        laws::contained(after, before),
    decreases ms.len(),
{
    let all = ms.push(more);
    if ms.len() == 0 {
        assert(all.drop_first() == Seq::<Membership>::empty());
        law_memberships_only_tighten(tenant, employee, teams, all, so_far, after);
    } else {
        let rest = ms.drop_first();
        assert(all.drop_first() == rest.push(more));
        assert(all[0] == ms[0]);
        if ms[0].employee@ != employee {
            law_a_second_team_never_widens(
                tenant,
                employee,
                teams,
                rest,
                so_far,
                more,
                before,
                after,
            );
        } else {
            let layer = membership_layer(tenant, teams, ms[0])->Ok_0;
            let next = match so_far {
                None => layer,
                Some(b) => b.meet(layer)->Ok_0,
            };
            law_a_second_team_never_widens(
                tenant,
                employee,
                teams,
                rest,
                Some(next),
                more,
                before,
                after,
            );
        }
    }
}

/// The layer of a section grants no more than the team's.
pub proof fn law_sections_never_widen(t: TeamView, section: Option<Seq<char>>, l: Limits)
    requires
        t.valid(),
        t.layer(section) == Some(l),
    ensures
        laws::contained(l, t.limits),
{
}

/// An employee has no role layer exactly where no membership is theirs and
/// nothing was granted before.
pub proof fn law_no_team_means_no_layer(
    tenant: u128,
    employee: u128,
    teams: Seq<Team>,
    ms: Seq<Membership>,
    so_far: Option<Limits>,
)
    ensures
        role(tenant, employee, teams, ms, so_far) == Ok::<Option<Limits>, RoleFault>(None) <==> (
        so_far is None && forall|i: int|
            0 <= i < ms.len() ==> (#[trigger] ms[i]).employee@ != employee),
    decreases ms.len(),
{
    if ms.len() > 0 {
        let rest = ms.drop_first();
        assert forall|i: int| 0 <= i < rest.len() implies #[trigger] rest[i] == ms[i + 1] by {}
        if ms[0].employee@ != employee {
            law_no_team_means_no_layer(tenant, employee, teams, rest, so_far);
            if forall|i: int| 0 <= i < rest.len() ==> (#[trigger] rest[i]).employee@ != employee {
                assert forall|i: int| 0 <= i < ms.len() implies (#[trigger] ms[i]).employee@
                    != employee by {
                    if i > 0 {
                        assert(ms[i] == rest[i - 1]);
                    }
                }
            }
        } else {
            match membership_layer(tenant, teams, ms[0]) {
                Err(_) => {},
                Ok(layer) => match so_far {
                    None => {
                        law_no_team_means_no_layer(tenant, employee, teams, rest, Some(layer));
                    },
                    Some(b) => {
                        if let Ok(v) = b.meet(layer) {
                            law_no_team_means_no_layer(tenant, employee, teams, rest, Some(v));
                        }
                    },
                },
            }
        }
    }
}

/// A charge goes through exactly where everything is in the budget's currency and
/// what was spent together with the amount stays within the cap; then the new total
/// is their sum. Too much is told apart from another currency.
pub proof fn law_a_charge_is_the_sum_or_a_refusal(
    budget: TeamBudget,
    spent_today: Option<Money>,
    amount: Money,
    r: Result<Money, OrgError>,
)
    requires
        budget.charged(spent_today, amount, r),
    ensures
        ({
            let spent = if spent_today is Some {
                spent_today->Some_0.minor() as int
            } else {
                0
            };
            let one_currency = amount.currency() == budget.cap().currency() && (spent_today is Some
                ==> spent_today->Some_0.currency() == budget.cap().currency());
            &&& r is Ok <==> one_currency && spent + amount.minor() <= budget.cap().minor()
            &&& r matches Ok(total) ==> total.minor() == spent + amount.minor() && total.currency()
                == amount.currency()
            &&& one_currency && spent + amount.minor() > budget.cap().minor() ==> (r matches Err(
                OrgError::TeamBudgetExhausted { cap, spent: s, requested },
            ) && cap == budget.cap() && s == spent_today && requested == amount)
            &&& !one_currency ==> (r matches Err(OrgError::CurrencyMismatch { left, right }) && left
                == budget.cap().currency() && right != left)
        }),
{
}

/// Charges add up: after one that went through, another goes through exactly where
/// both together would have.
pub proof fn law_charges_add_up(
    budget: TeamBudget,
    first: Money,
    second: Money,
    midway: Money,
    r: Result<Money, OrgError>,
)
    requires
        first.currency() == second.currency(),
        budget.charged(None, first, Ok(midway)),
        budget.charged(Some(midway), second, r),
    ensures
        r is Ok <==> first.minor() + second.minor() <= budget.cap().minor(),
        r matches Ok(total) ==> total.minor() == first.minor() + second.minor(),
{
}

/// A team carries thirty-two tools at the most: it is refused exactly where it
/// would carry more, or where its budget is in another currency than its limits.
/// One that is built allows one employee no more than the team's budget, and
/// otherwise what it was given.
pub proof fn law_a_team_is_within_its_ceiling_and_budget(
    tenant: u128,
    name: Seq<char>,
    l: Limits,
    budget: Option<TeamBudget>,
    r: Result<Team, OrgError>,
)
    requires
        Team::built(tenant, name, l, budget, r),
    ensures
        r is Err <==> l.mcp_tools.len() > 32 || (budget is Some && l.spend is Some
            && budget->Some_0.cap().currency() != l.spend->Some_0.currency()),
        r is Err && l.mcp_tools.len() > 32 ==> r->Err_0 is ToolCeilingExceeded,
        r matches Ok(team) ==> {
            &&& team@.tenant == tenant
            &&& team@.name == name
            &&& team@.budget == budget
            &&& team@.limits == (Limits { spend: team@.limits.spend, ..l })
            &&& team@.limits.spend is Some <==> l.spend is Some
            &&& budget is None ==> team@.limits == l
            &&& budget is Some && l.spend is Some ==> {
                let cap = budget->Some_0.cap().minor();
                let given = l.spend->Some_0;
                let s = team@.limits.spend->Some_0;
                &&& s.max_per_transaction().minor() <= cap
                &&& s.max_per_day().minor() <= cap
                &&& s.approval_above().minor() <= cap
                &&& given.max_per_transaction().minor() <= cap ==> s.max_per_transaction()
                    == given.max_per_transaction()
                &&& given.max_per_day().minor() <= cap ==> s.max_per_day() == given.max_per_day()
                &&& given.approval_above().minor() <= cap ==> s.approval_above()
                    == given.approval_above()
                &&& given.max_per_transaction().minor() >= cap ==> s.max_per_transaction().minor()
                    == cap
                &&& given.max_per_day().minor() >= cap ==> s.max_per_day().minor() == cap
                &&& given.approval_above().minor() >= cap ==> s.approval_above().minor() == cap
            }
        },
{
}

/// A section is the widest layer inside both its team and its narrowing, and the
/// team itself where there is none. Declaring it changes nothing else of the team.
pub proof fn law_a_section_is_inside_team_and_narrowing(
    t: TeamView,
    name: Seq<char>,
    narrowing: Option<Limits>,
    then: TeamView,
    x: Limits,
    other: Seq<char>,
)
    requires
        t.sectioned(name, narrowing) == Ok::<TeamView, PolicyError>(then),
    ensures
        then.layer(Some(name)) is Some,
        narrowing is None ==> then.layer(Some(name)) == Some(t.limits),
        narrowing matches Some(n) ==> {
            let l = then.layer(Some(name))->Some_0;
            &&& laws::contained(l, t.limits)
            &&& laws::contained(l, n)
            &&& laws::contained(x, t.limits) && laws::contained(x, n) ==> laws::contained(x, l)
        },
        other != name ==> then.layer(Some(other)) == t.layer(Some(other)),
        then.layer(None) == Some(t.limits),
        then.limits == t.limits,
        then.budget == t.budget,
        then.tenant == t.tenant,
        then.name == t.name,
{
    if let Some(n) = narrowing {
        let l = t.limits.meet(n)->Ok_0;
        laws::law_meet_only_tightens(t.limits, n, l);
        if laws::contained(x, t.limits) && laws::contained(x, n) {
            laws::law_meet_is_the_widest(t.limits, n, l, x);
        }
    }
}

/// A member of no section has the team's layer, a member of a section that
/// section's, and there is none for a section that the team does not have.
pub proof fn law_a_layer_is_the_teams_or_the_sections(t: TeamView, s: Seq<char>)
    ensures
        t.layer(None) == Some(t.limits),
        t.sections.contains_key(s) ==> t.layer(Some(s)) == Some(t.sections[s]),
        !t.sections.contains_key(s) ==> t.layer(Some(s)) is None,
{
}

/// A membership reaches a team of its own tenant and of that name, or none: a team
/// of another tenant is never found.
pub proof fn law_a_membership_stays_in_its_tenant(teams: Seq<Team>, tenant: u128, name: Seq<char>)
    ensures
        team_named(teams, tenant, name) matches Some(t) ==> t.tenant == tenant && t.name == name
            && exists|i: int| 0 <= i < teams.len() && (#[trigger] teams[i])@ == t,
        team_named(teams, tenant, name) is None <==> forall|i: int|
            0 <= i < teams.len() ==> !((#[trigger] teams[i])@.tenant == tenant && teams[i]@.name
                == name),
    decreases teams.len(),
{
    if teams.len() > 0 {
        let rest = teams.drop_first();
        law_a_membership_stays_in_its_tenant(rest, tenant, name);
        if !(teams[0]@.tenant == tenant && teams[0]@.name == name) {
            if let Some(t) = team_named(rest, tenant, name) {
                let i = choose|i: int| 0 <= i < rest.len() && (#[trigger] rest[i])@ == t;
                assert(teams[i + 1]@ == t);
            } else {
                assert forall|i: int| 0 <= i < teams.len() implies !((#[trigger] teams[i])@.tenant
                    == tenant && teams[i]@.name == name) by {
                    if i > 0 {
                        assert(rest[i - 1] == teams[i]);
                    }
                }
            }
        } else {
            assert(teams[0]@ == team_named(teams, tenant, name)->Some_0);
        }
    }
}

/// One more membership, step by step: one of somebody else changes nothing; one's
/// own first is its layer, every further one leaves what it and the others allow;
/// one that reaches no layer is told why, and so is one whose currency does not
/// fit.
pub proof fn law_memberships_count_one_by_one(
    tenant: u128,
    employee: u128,
    teams: Seq<Team>,
    ms: Seq<Membership>,
    so_far: Option<Limits>,
    next: Membership,
)
    ensures
        ({
            let before = role(tenant, employee, teams, ms, so_far);
            let then = role(tenant, employee, teams, ms.push(next), so_far);
            let layer = membership_layer(tenant, teams, next);
            &&& before is Err || next.employee@ != employee ==> then == before
            &&& before is Ok && next.employee@ == employee && layer is Err ==> then
                == Err::<Option<Limits>, RoleFault>(layer->Err_0)
            &&& before == Ok::<Option<Limits>, RoleFault>(None) && next.employee@ == employee
                && layer is Ok ==> then == Ok::<Option<Limits>, RoleFault>(Some(layer->Ok_0))
            &&& before matches Ok(Some(had)) ==> next.employee@ == employee && layer is Ok ==> then
                == match had.meet(layer->Ok_0) {
                Ok(v) => Ok::<Option<Limits>, RoleFault>(Some(v)),
                Err(e) => Err::<Option<Limits>, RoleFault>(RoleFault::Policy(e)),
            }
        }),
    decreases ms.len(),
{
    let all = ms.push(next);
    if ms.len() == 0 {
        reveal_with_fuel(role, 2);
        assert(all.drop_first() =~= Seq::<Membership>::empty());
    } else {
        let rest = ms.drop_first();
        assert(all.drop_first() =~= rest.push(next));
        assert(all[0] == ms[0]);
        if ms[0].employee@ != employee {
            law_memberships_count_one_by_one(tenant, employee, teams, rest, so_far, next);
        } else {
            match membership_layer(tenant, teams, ms[0]) {
                Err(_) => {},
                Ok(l) => match so_far {
                    None => {
                        law_memberships_count_one_by_one(
                            tenant,
                            employee,
                            teams,
                            rest,
                            Some(l),
                            next,
                        );
                    },
                    Some(b) => {
                        if let Ok(v) = b.meet(l) {
                            law_memberships_count_one_by_one(
                                tenant,
                                employee,
                                teams,
                                rest,
                                Some(v),
                                next,
                            );
                        }
                    },
                },
            }
        }
    }
}

/// What a membership stands for: the layer of its team, or of its section of that
/// team; an unknown team and an unknown section are told by name.
pub proof fn law_a_membership_stands_for_its_layer(tenant: u128, teams: Seq<Team>, m: Membership)
    ensures
        match team_named(teams, tenant, m.team@) {
            None => membership_layer(tenant, teams, m) == Err::<Limits, RoleFault>(
                RoleFault::UnknownTeam(m.team@),
            ),
            Some(t) => match m.section {
                None => membership_layer(tenant, teams, m) == Ok::<Limits, RoleFault>(t.limits),
                Some(s) => if t.sections.contains_key(s@) {
                    membership_layer(tenant, teams, m) == Ok::<Limits, RoleFault>(t.sections[s@])
                } else {
                    membership_layer(tenant, teams, m) == Err::<Limits, RoleFault>(
                        RoleFault::UnknownSection(t.name, s@),
                    )
                },
            },
        },
{
}

/// A mission has from one to two hundred and forty characters, none of them a
/// control character.
pub proof fn law_a_mission_is_one_short_line(t: Seq<char>)
    ensures
        is_mission(t) <==> 1 <= t.len() <= 240 && forall|i: int|
            0 <= i < t.len() ==> !text::is_control(#[trigger] t[i]),
{
}

} // verus!
