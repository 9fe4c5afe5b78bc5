use agentos_domain::action::Domain;
use agentos_domain::employee::{
    AlreadyBound, Employee, Health, IllegalLifecycle, IllegalTransition, Lifecycle,
    ProviderBinding, ResourceState, ResourceStatus, Step,
};
use agentos_domain::ids::{EmployeeId, Slug, TenantId};
use agentos_domain::time::Timestamp;
use std::collections::{BTreeMap, HashSet};

fn at(secs: i64) -> Timestamp {
    Timestamp::from_parts(secs, 0).expect("valid timestamp")
}

const T0: i64 = 1_700_000_000;

fn employee() -> Employee {
    Employee::new(
        EmployeeId::new_v7(at(T0)),
        TenantId::new_v7(at(T0)),
        Slug::parse("lena").unwrap(),
        Domain::parse("agents.example.com").unwrap(),
        at(T0),
    )
}

fn all_ready() -> Employee {
    let mut e = employee();
    for step in Step::ALL {
        e.set_resource(step, ResourceState::Provisioning, at(T0 + 1))
            .unwrap();
    }
    for round in 0..Step::ALL.len() {
        for step in Step::ALL {
            let _ = e.set_resource(step, ResourceState::Ready, at(T0 + 2 + round as i64));
        }
    }
    assert!(Step::ALL.into_iter().all(|s| e.resource(s).is_ready()));
    e.set_lifecycle(Lifecycle::Active, at(T0 + 20)).unwrap();
    e
}

fn pending_external() -> ResourceState {
    ResourceState::PendingExternal {
        poll_ref: "BU-regulatory-bundle-1".to_owned(),
        expected_by: at(T0 + 86_400),
    }
}

#[test]
fn an_employee_cannot_be_built_with_an_empty_resource_map() {
    let fresh = employee();
    assert_eq!(fresh.resources().len(), Step::ALL.len());
    for step in Step::ALL {
        assert_eq!(*fresh.resource(step).state(), ResourceState::Pending);
    }

    let hydrated = Employee::hydrate(
        fresh.id(),
        fresh.tenant_id(),
        fresh.slug().clone(),
        fresh.domain().clone(),
        Lifecycle::Active,
        Vec::new(),
        at(T0),
        at(T0),
    );
    assert_eq!(hydrated.resources().len(), Step::ALL.len());
    assert_eq!(hydrated.health(), Health::Provisioning);
}

#[test]
fn new_derives_address_and_did() {
    let id = EmployeeId::new_v7(at(T0));
    let e = Employee::new(
        id,
        TenantId::new_v7(at(T0)),
        Slug::parse("LeNa").unwrap(),
        Domain::parse("Agents.Example.COM.").unwrap(),
        at(T0),
    );

    assert_eq!(e.address().to_text(), "lena@agents.example.com");
    assert_eq!(
        e.did(),
        format!("did:web:agents.example.com:employees:{}", id.to_text())
    );
    assert_eq!(e.lifecycle(), Lifecycle::Draft);
    assert_eq!(e.created_at(), at(T0));
}

#[test]
fn health_is_online_when_everything_is_ready() {
    assert_eq!(all_ready().health(), Health::Online);
}

#[test]
fn health_is_degraded_when_an_optional_channel_waits_on_an_external_process() {
    let mut e = all_ready();
    e.set_resource(Step::Whatsapp, ResourceState::Provisioning, at(T0 + 9))
        .unwrap();
    e.set_resource(Step::Whatsapp, pending_external(), at(T0 + 10))
        .unwrap();

    assert!(!Step::Whatsapp.is_blocking());
    assert_eq!(e.health(), Health::Degraded);
}

#[test]
fn health_is_failed_when_a_blocking_step_failed() {
    let mut e = all_ready();
    e.set_resource(Step::Vault, ResourceState::Failed, at(T0 + 10))
        .unwrap();

    assert!(Step::Vault.is_blocking());
    assert_eq!(e.health(), Health::Failed);
}

#[test]
fn a_disabled_optional_channel_does_not_degrade() {
    let mut e = all_ready();
    e.set_resource(Step::Wallet, ResourceState::Disabled, at(T0 + 10))
        .unwrap();

    assert_eq!(e.health(), Health::Online);
}

#[test]
fn a_failed_optional_channel_only_degrades() {
    let mut e = all_ready();
    e.set_resource(Step::Mcp, ResourceState::Failed, at(T0 + 10))
        .unwrap();

    assert_eq!(e.health(), Health::Degraded);
}

#[test]
fn a_late_webhook_never_un_suspends_an_employee() {
    let mut e = all_ready();
    e.set_resource(Step::Whatsapp, ResourceState::Provisioning, at(T0 + 9))
        .unwrap();
    e.set_resource(Step::Whatsapp, pending_external(), at(T0 + 10))
        .unwrap();
    e.set_lifecycle(Lifecycle::Suspended, at(T0 + 20)).unwrap();

    e.set_resource(Step::Whatsapp, ResourceState::Ready, at(T0 + 30))
        .unwrap();
    e.bind(
        Step::Whatsapp,
        ProviderBinding::new("twilio", "MG-whatsapp-1"),
        at(T0 + 30),
    )
    .unwrap();

    assert_eq!(e.lifecycle(), Lifecycle::Suspended);
    assert_ne!(e.health(), Health::Online);
    assert_eq!(e.resource(Step::Whatsapp).state(), &ResourceState::Ready);

    e.set_lifecycle(Lifecycle::Active, at(T0 + 40)).unwrap();
    assert_eq!(e.health(), Health::Online);
}

#[test]
fn draft_and_terminated_are_never_online() {
    let mut e = all_ready();
    e.set_lifecycle(Lifecycle::Terminated, at(T0 + 10)).unwrap();
    assert_ne!(e.health(), Health::Online);

    assert_eq!(
        e.set_lifecycle(Lifecycle::Active, at(T0 + 20)),
        Err(IllegalLifecycle {
            from: Lifecycle::Terminated,
            to: Lifecycle::Active,
        })
    );
}

#[test]
fn illegal_resource_transitions_are_refused() {
    let mut e = employee();

    assert_eq!(
        e.set_resource(Step::Identity, ResourceState::Ready, at(T0 + 1)),
        Err(IllegalTransition::State {
            step: Step::Identity,
            from: "pending",
            to: "ready",
        })
    );

    e.set_resource(Step::Identity, ResourceState::Provisioning, at(T0 + 1))
        .unwrap();
    e.set_resource(Step::Identity, ResourceState::Ready, at(T0 + 2))
        .unwrap();
    assert!(
        e.set_resource(Step::Identity, ResourceState::Pending, at(T0 + 3))
            .is_err()
    );
}

#[test]
fn a_step_cannot_become_ready_before_what_it_depends_on() {
    let mut e = employee();
    e.set_resource(Step::Browser, ResourceState::Provisioning, at(T0 + 1))
        .unwrap();

    assert_eq!(
        e.set_resource(Step::Browser, ResourceState::Ready, at(T0 + 2)),
        Err(IllegalTransition::DependencyNotReady {
            step: Step::Browser,
            blocker: Step::Identity,
        })
    );
}

#[test]
fn re_asserting_a_state_is_idempotent_and_refreshes_pending_external() {
    let mut e = employee();
    e.set_resource(Step::Phone, ResourceState::Provisioning, at(T0 + 1))
        .unwrap();
    e.set_resource(Step::Phone, pending_external(), at(T0 + 2))
        .unwrap();

    let refreshed = ResourceState::PendingExternal {
        poll_ref: "BU-regulatory-bundle-2".to_owned(),
        expected_by: at(T0 + 200_000),
    };
    e.set_resource(Step::Phone, refreshed.clone(), at(T0 + 3))
        .unwrap();
    assert_eq!(e.resource(Step::Phone).state(), &refreshed);
}

#[test]
fn pending_external_carries_no_number_and_expires() {
    let mut e = employee();
    e.set_resource(Step::Phone, ResourceState::Provisioning, at(T0 + 1))
        .unwrap();
    e.set_resource(Step::Phone, pending_external(), at(T0 + 2))
        .unwrap();

    assert!(e.resource(Step::Phone).binding().is_none());
    assert!(e.overdue(at(T0 + 100)).is_empty());
    assert_eq!(e.overdue(at(T0 + 86_401)), vec![Step::Phone]);
}

#[test]
fn a_binding_is_write_once_and_only_release_clears_it() {
    let mut e = employee();
    e.bind(
        Step::Phone,
        ProviderBinding::new("twilio", "PN-1"),
        at(T0 + 1),
    )
    .unwrap();

    assert_eq!(
        e.bind(
            Step::Phone,
            ProviderBinding::new("twilio", "PN-2"),
            at(T0 + 2)
        ),
        Err(AlreadyBound {
            step: Step::Phone,
            provider: "twilio".to_owned(),
            external_id: "PN-1".to_owned(),
        })
    );
    assert_eq!(
        e.resource(Step::Phone).binding().unwrap().external_id(),
        "PN-1"
    );

    let released = e.release(Step::Phone, at(T0 + 3)).unwrap();
    assert_eq!(released.external_id(), "PN-1");
    assert!(e.resource(Step::Phone).binding().is_none());
    e.bind(
        Step::Phone,
        ProviderBinding::new("twilio", "PN-2"),
        at(T0 + 4),
    )
    .unwrap();
}

#[test]
fn the_dependency_graph_is_acyclic_and_identity_is_its_only_root() {
    fn reaches(from: Step, target: Step, depth: usize) -> bool {
        assert!(depth <= Step::ALL.len(), "cycle reached from {from:?}");
        from.depends_on()
            .iter()
            .any(|dep| *dep == target || reaches(*dep, target, depth + 1))
    }

    for step in Step::ALL {
        assert!(!reaches(step, step, 0), "{step:?} depends on itself");

        if step == Step::Identity {
            assert!(step.depends_on().is_empty(), "identity must be a root");
        } else {
            assert!(!step.depends_on().is_empty(), "{step:?} has no root path");
            assert!(reaches(step, Step::Identity, 0), "{step:?} bypasses identity");
        }
    }

    let roots: Vec<_> = Step::ALL
        .into_iter()
        .filter(|s| s.depends_on().is_empty())
        .collect();
    assert_eq!(roots, vec![Step::Identity]);
}

#[test]
fn step_names_and_variants_are_unique() {
    let names: HashSet<&str> = Step::ALL.iter().map(|s| s.as_str()).collect();
    assert_eq!(names.len(), Step::ALL.len());
    let variants: HashSet<Step> = Step::ALL.into_iter().collect();
    assert_eq!(variants.len(), Step::ALL.len());
}

/// A repeatable stream of numbers below a bound.
struct Stream(u64);

impl Stream {
    fn below(&mut self, bound: u64) -> u64 {
        self.0 = self
            .0
            .wrapping_mul(6_364_136_223_846_793_005)
            .wrapping_add(1_442_695_040_888_963_407);
        (self.0 >> 33) % bound
    }
}

fn any_step(s: &mut Stream) -> Step {
    Step::ALL[s.below(11) as usize]
}

fn any_state(s: &mut Stream) -> ResourceState {
    match s.below(6) {
        0 => ResourceState::Pending,
        1 => ResourceState::Provisioning,
        2 => ResourceState::Ready,
        3 => ResourceState::Failed,
        4 => ResourceState::Disabled,
        _ => ResourceState::PendingExternal {
            poll_ref: format!("AB{:04}", s.below(10_000)),
            expected_by: at(T0 + s.below(200_000) as i64),
        },
    }
}

/// Do something to the employee, ignoring refusals.
fn disturb(e: &mut Employee, s: &mut Stream, lifecycle: bool, now: Timestamp) {
    match s.below(if lifecycle { 9 } else { 8 }) {
        0..=5 => {
            let step = any_step(s);
            let state = any_state(s);
            let _ = e.set_resource(step, state, now);
        }
        6 | 7 => {
            let step = any_step(s);
            let id = format!("AB-{:03}", s.below(1_000));
            let _ = e.bind(step, ProviderBinding::new("twilio", &id), now);
        }
        _ => {
            let to = [
                Lifecycle::Draft,
                Lifecycle::Active,
                Lifecycle::Suspended,
                Lifecycle::Terminated,
            ][s.below(4) as usize];
            let _ = e.set_lifecycle(to, now);
        }
    }
}

#[test]
fn a_bound_external_id_is_never_cleared() {
    for seed in 0..40 {
        let mut s = Stream(seed);
        let mut e = employee();
        let mut bound: BTreeMap<Step, String> = BTreeMap::new();
        for tick in 0..60 {
            disturb(&mut e, &mut s, true, at(T0 + 100 + tick));
            for step in Step::ALL {
                let seen = e
                    .resource(step)
                    .binding()
                    .map(|b| b.external_id().to_owned());
                if let Some(id) = seen {
                    let first = bound.entry(step).or_insert_with(|| id.clone());
                    assert_eq!(&id, first);
                } else {
                    assert!(
                        !bound.contains_key(&step),
                        "{} lost its external id",
                        step.as_str()
                    );
                }
            }
        }
    }
}

#[test]
fn suspended_never_reaches_online_without_an_explicit_resume() {
    for seed in 0..40 {
        let mut s = Stream(seed);
        let mut e = all_ready();
        e.set_lifecycle(Lifecycle::Suspended, at(T0 + 50)).unwrap();
        for tick in 0..60 {
            disturb(&mut e, &mut s, false, at(T0 + 100 + tick));
            assert_eq!(e.lifecycle(), Lifecycle::Suspended);
            assert_ne!(e.health(), Health::Online);
        }
        e.set_lifecycle(Lifecycle::Active, at(T0 + 1000)).unwrap();
        assert_eq!(e.lifecycle(), Lifecycle::Active);
    }
}

#[test]
fn the_resource_map_stays_total_and_health_respects_lifecycle() {
    for seed in 0..40 {
        let mut s = Stream(seed);
        let mut e = employee();
        for tick in 0..60 {
            disturb(&mut e, &mut s, true, at(T0 + 100 + tick));
            assert_eq!(e.resources().len(), Step::ALL.len());
            if e.lifecycle() != Lifecycle::Active {
                assert_ne!(e.health(), Health::Online);
            }
        }
    }
}

#[test]
fn a_refused_request_leaves_no_trace() {
    let mut e = employee();
    let before = e.clone();
    assert!(
        e.set_resource(Step::Phone, ResourceState::Ready, at(T0 + 5))
            .is_err()
    );
    assert!(
        e.set_lifecycle(Lifecycle::Suspended, at(T0 + 5))
            .is_err()
    );
    assert!(e.release(Step::Phone, at(T0 + 5)).is_none());
    assert_eq!(e, before);
}

#[test]
fn hydrating_takes_the_stored_rows_and_fills_the_rest() {
    let fresh = employee();
    let stored = vec![
        (
            Step::Phone,
            ResourceStatus::new(ResourceState::Failed, None, at(T0 + 1)),
        ),
        (
            Step::Phone,
            ResourceStatus::new(
                ResourceState::Ready,
                Some(ProviderBinding::new("twilio", "PN-1")),
                at(T0 + 2),
            ),
        ),
    ];
    let e = Employee::hydrate(
        fresh.id(),
        fresh.tenant_id(),
        fresh.slug().clone(),
        fresh.domain().clone(),
        Lifecycle::Suspended,
        stored,
        at(T0),
        at(T0 + 9),
    );
    assert!(e.resource(Step::Phone).is_ready());
    assert_eq!(e.resource(Step::Phone).updated_at(), at(T0 + 2));
    assert_eq!(
        e.resource(Step::Phone).binding().unwrap().provider(),
        "twilio"
    );
    assert_eq!(e.resource(Step::Email).state(), &ResourceState::Pending);
    assert_eq!(e.lifecycle(), Lifecycle::Suspended);
    assert_eq!(e.created_at(), at(T0));
    assert_eq!(e.updated_at(), at(T0 + 9));
    assert_eq!(e.resources().keys(), Step::ALL.as_slice());
}

#[test]
fn names_are_the_stored_spellings() {
    assert_eq!(Lifecycle::Terminated.as_str(), "terminated");
    assert_eq!(Health::Degraded.as_str(), "degraded");
    assert_eq!(Step::CompanyKnowledge.as_str(), "company_knowledge");
    assert_eq!(pending_external().as_str(), "pending_external");
}
