use agentos_domain::action::{
    Action, ActionCtx, ActionKind, Actor, CallingCode, Channel, ContactStanding, DataScope, Domain,
    E164, EmailAddress, McpTool, TrustLabel,
};
use agentos_domain::ids::{ConversationId, EmployeeId, SecretRef, Slug, TenantId};
use agentos_domain::money::Currency::{Eur, Usd};
use agentos_domain::money::Money;
use agentos_domain::ordered::OrdSet;
use agentos_domain::policy::{
    ApprovalReason, Decision, Deliverability, DenyReason, EffectivePolicy, ModelId, PolicyError,
    PolicyLimits, SpendLimits, always_denies, evaluate, evaluate_browser_read, evaluate_mcp_call,
    may_upload_leads, model_for, spends_contact_budget, turns_remaining, warmup_allowance,
};
use agentos_domain::policy::gate::{contract_summary, payment_summary};
use agentos_domain::time::Timestamp;

fn at(secs: i64) -> Timestamp {
    Timestamp::from_parts(secs, 0).expect("valid timestamp")
}

fn actor() -> Actor {
    Actor::new(
        TenantId::from_uuid(1),
        EmployeeId::from_uuid(2),
    )
}

fn ctx() -> ActionCtx {
    ActionCtx {
        trust: TrustLabel::Trusted,
        contact: ContactStanding::Known,
        ..ActionCtx::new(actor(), at(1_700_000_000))
    }
}

fn domain(s: &str) -> Domain {
    Domain::parse(s).unwrap()
}

fn slug(s: &str) -> Slug {
    Slug::parse(s).unwrap()
}

fn usd_minor(minor: u64) -> Money {
    Money::new(minor, Usd).unwrap()
}

fn secret() -> SecretRef {
    SecretRef::new(actor().tenant_id, actor().employee_id, "smtp_password").unwrap()
}

fn permissive() -> PolicyLimits {
    PolicyLimits {
        spend: Some(
            SpendLimits::try_new(usd_minor(50_000), usd_minor(200_000), usd_minor(50_000))
                .unwrap(),
        ),
        allowed_channels: OrdSet::from_vec(Channel::ALL.to_vec()),
        allowed_calling_codes: OrdSet::from_vec(vec![CallingCode::new(1).unwrap(), CallingCode::new(86).unwrap()]),
        allowed_domains: OrdSet::from_vec(vec![domain("example.com")]),
        denied_domains: OrdSet::new(),
        allowed_mcp_tools: OrdSet::from_vec(vec![McpTool::new(slug("erp"), slug("lookup"))]),
        allowed_a2a_peers: OrdSet::from_vec(vec![domain("partner.example.com")]),
        allowed_models: OrdSet::from_vec(ModelId::ALL.to_vec()),
        max_new_contacts_per_day: 1_000,
        max_turns_per_day: 500,
        allow_file_upload: true,
        allow_credential_change: true,
        allow_data_delete: true,
        allow_lead_upload: true,
    }
}

fn effective(limits: &PolicyLimits) -> EffectivePolicy {
    EffectivePolicy::try_new(limits, limits, limits, limits).unwrap()
}

fn one_of_every_action() -> Vec<Action> {
    vec![
        Action::EmailSend {
            to: EmailAddress::parse("buyer@example.com").unwrap(),
        },
        Action::SmsSend {
            to: E164::parse("+8613800000000").unwrap(),
        },
        Action::WhatsappSend {
            to: E164::parse("+8613800000000").unwrap(),
        },
        Action::CallPlace {
            to: E164::parse("+8613800000000").unwrap(),
        },
        Action::BrowserRead {
            domain: domain("example.com"),
        },
        Action::BrowserWrite {
            domain: domain("example.com"),
        },
        Action::FileUpload {
            domain: domain("example.com"),
        },
        Action::McpCall {
            tool: McpTool::new(slug("erp"), slug("lookup")),
        },
        Action::A2aSend {
            peer: domain("partner.example.com"),
        },
        Action::PaymentCreate {
            amount: usd_minor(100),
            payee: "acct-supplier".to_owned(),
        },
        Action::InvoiceIssue {
            amount: usd_minor(100),
        },
        Action::ContractSign {
            title: "supply agreement".into(),
        },
        Action::CredentialChange { secret: secret() },
        Action::DataDelete {
            scope: DataScope::Conversation {
                id: ConversationId::from_uuid(3),
            },
        },
        Action::CharterSet {
            subordinate: EmployeeId::from_uuid(4),
        },
        Action::InternalSend { to: slug("bruno") },
        Action::AppointmentBook {},
    ]
}

#[test]
fn the_sample_set_covers_every_action_variant() {
    let mut kinds: Vec<ActionKind> = one_of_every_action().iter().map(Action::kind).collect();
    kinds.sort_unstable();
    kinds.dedup();

    let mut all = ActionKind::ALL.to_vec();
    all.sort_unstable();

    assert_eq!(
        kinds, all,
        "one_of_every_action() must cover every ActionKind exactly once"
    );
}

#[test]
fn an_empty_policy_allows_nothing_at_all() {
    let policy = effective(&PolicyLimits::default());
    let ctx = ctx();

    for action in one_of_every_action() {
        let decision = evaluate(&policy, &action, &ctx);
        assert!(
            !decision.is_allow(),
            "{} was ALLOWED under an empty policy: {decision:?}",
            action.kind().as_str()
        );
    }
}

#[test]
fn an_empty_policy_denies_with_a_named_reason() {
    let policy = effective(&PolicyLimits::default());
    let ctx = ctx();

    for action in one_of_every_action() {
        let kind = action.kind();
        match evaluate(&policy, &action, &ctx) {
            Decision::Deny { reason } => {
                assert!(!reason.code().is_empty(), "{kind:?} deny has no metric label");
            }
            Decision::RequireApproval { reason, .. } => {
                assert_eq!(
                    kind,
                    ActionKind::ContractSign,
                    "only contract signing may escalate under an empty policy, got {reason:?}"
                );
            }
            Decision::Allow => panic!("{kind:?} was allowed under an empty policy"),
        }
    }
}

#[test]
fn the_permissive_policy_denies_nothing_at_all() {
    let policy = effective(&permissive());
    let ctx = ActionCtx {
        directs_subject: true,
        ..ctx()
    };

    for action in one_of_every_action() {
        let kind = action.kind();
        let decision = evaluate(&policy, &action, &ctx);
        assert!(
            !matches!(decision, Decision::Deny { .. }),
            "{kind:?} was DENIED under the most permissive policy this system \
             can express: {decision:?} — either the fixture no longer grants \
             everything an operator could switch on, or this arm cannot be \
             reached at all"
        );
        if matches!(
            kind,
            ActionKind::ContractSign | ActionKind::CredentialChange
        ) {
            assert!(matches!(decision, Decision::RequireApproval { .. }));
        } else {
            assert!(decision.is_allow(), "{kind:?} did not reach Allow");
        }
    }
}

#[test]
fn contract_signing_always_requires_a_human() {
    let ctx = ctx();
    let action = Action::ContractSign {
        title: "exclusive supply agreement".into(),
    };

    for (label, limits) in [
        ("empty", PolicyLimits::default()),
        ("permissive", permissive()),
    ] {
        let decision = evaluate(&effective(&limits), &action, &ctx);
        assert!(
            matches!(
                decision,
                Decision::RequireApproval {
                    reason: ApprovalReason::ContractSignature,
                    ..
                }
            ),
            "{label} policy gave {decision:?}"
        );
    }

    let tainted = ActionCtx {
        trust: TrustLabel::Untrusted,
        ..ctx
    };
    assert!(!evaluate(&effective(&permissive()), &action, &tainted).is_allow());
}

#[test]
fn a_reporting_line_decides_whom_not_what() {
    let policy = effective(&permissive());
    let subordinate = EmployeeId::from_uuid(7);
    let charter = Action::CharterSet { subordinate };

    let peer = ctx();
    assert!(!peer.directs_subject, "the safe default is no authority");
    let head = ActionCtx {
        directs_subject: true,
        ..ctx()
    };

    assert_eq!(
        evaluate(&policy, &charter, &peer),
        Decision::Deny {
            reason: DenyReason::OutsideChainOfCommand
        }
    );
    assert_eq!(evaluate(&policy, &charter, &head), Decision::Allow);

    let self_charter = Action::CharterSet {
        subordinate: actor().employee_id,
    };
    for ctx in [&peer, &head] {
        assert_eq!(
            evaluate(&policy, &self_charter, ctx),
            Decision::Deny {
                reason: DenyReason::SelfDirection
            }
        );
    }

    let injected = ActionCtx {
        trust: TrustLabel::Untrusted,
        ..head.clone()
    };
    assert_eq!(
        evaluate(&policy, &charter, &injected),
        Decision::Deny {
            reason: DenyReason::UntrustedInput
        }
    );

    for action in one_of_every_action() {
        if matches!(action, Action::CharterSet { .. }) {
            continue;
        }
        assert_eq!(
            evaluate(&policy, &action, &head),
            evaluate(&policy, &action, &peer),
            "{} ruled differently for an employee that has reports",
            action.kind().as_str()
        );
    }
}

#[test]
fn one_denylist_entry_catches_every_spelling_and_every_subdomain() {
    let limits = PolicyLimits {
        allowed_domains: OrdSet::from_vec(vec![domain("example.com")]),
        denied_domains: OrdSet::from_vec(vec![domain("banking.example.com")]),
        ..permissive()
    };
    let policy = effective(&limits);
    let ctx = ctx();

    for spelling in [
        "banking.example.com",
        "BANKING.example.com",
        "banking.example.com.",
        "login.banking.example.com",
        "LOGIN.Banking.Example.Com.",
    ] {
        let d = domain(spelling);
        for action in [
            Action::BrowserWrite { domain: d.clone() },
            Action::BrowserRead { domain: d.clone() },
            Action::FileUpload { domain: d.clone() },
        ] {
            assert_eq!(
                evaluate(&policy, &action, &ctx),
                Decision::Deny {
                    reason: DenyReason::DomainDenied
                },
                "{spelling} slipped past the denylist as {}",
                action.kind().as_str()
            );
        }
    }

    assert!(
        evaluate(
            &policy,
            &Action::BrowserWrite {
                domain: domain("shop.example.com")
            },
            &ctx
        )
        .is_allow()
    );
    assert_eq!(
        evaluate(
            &policy,
            &Action::BrowserWrite {
                domain: domain("alibaba.com")
            },
            &ctx
        ),
        Decision::Deny {
            reason: DenyReason::DomainNotAllowed
        }
    );
}

#[test]
fn the_gate_derives_the_country_from_the_number_it_is_given() {
    let limits = PolicyLimits {
        allowed_calling_codes: OrdSet::from_vec(vec![CallingCode::new(86).unwrap()]),
        ..permissive()
    };
    let policy = effective(&limits);
    let ctx = ctx();

    let russian = Action::CallPlace {
        to: E164::parse("+79991234567").unwrap(),
    };
    assert_eq!(
        evaluate(&policy, &russian, &ctx),
        Decision::Deny {
            reason: DenyReason::CallingCodeNotAllowed
        }
    );

    let chinese = Action::CallPlace {
        to: E164::parse("+8613800000000").unwrap(),
    };
    assert!(evaluate(&policy, &chinese, &ctx).is_allow());

    assert!(
        !evaluate(
            &policy,
            &Action::SmsSend {
                to: E164::parse("+79991234567").unwrap()
            },
            &ctx
        )
        .is_allow()
    );

    let _shape: fn(E164) -> Action = |to| Action::CallPlace { to };
}

#[test]
fn fifty_small_payments_cannot_walk_past_the_daily_cap() {
    let policy = effective(&permissive()); // 50_000 per tx, 200_000 per day
    let each = usd_minor(9_999);

    let mut spent: Option<Money> = None;
    let mut allowed = 0u32;
    let mut denied = 0u32;

    for _ in 0..50 {
        let ctx = ActionCtx {
            spent_today: spent,
            ..ctx()
        };
        let decision = evaluate(
            &policy,
            &Action::PaymentCreate {
                amount: each,
                payee: "acct-supplier".to_owned(),
            },
            &ctx,
        );

        if decision.is_allow() {
            allowed += 1;
            spent = Some(match spent {
                Some(s) => s.checked_add(each).unwrap(),
                None => each,
            });
        } else {
            denied += 1;
            assert_eq!(
                decision,
                Decision::Deny {
                    reason: DenyReason::DailyLimit
                }
            );
        }
    }

    assert_eq!(allowed, 20);
    assert_eq!(denied, 30);
    assert_eq!(spent.unwrap().minor(), 199_980);
    assert!(spent.unwrap().minor() <= 200_000);
}

#[test]
fn payment_limits_and_thresholds() {
    let policy = effective(&permissive()); // tx 50_000, day 200_000, approval >= 50_000
    let ctx = ctx();
    let pay = |m: Money| Action::PaymentCreate {
        amount: m,
        payee: "acct-supplier".to_owned(),
    };

    assert!(evaluate(&policy, &pay(usd_minor(5_000)), &ctx).is_allow());
    assert!(matches!(
        evaluate(&policy, &pay(usd_minor(50_000)), &ctx),
        Decision::RequireApproval {
            reason: ApprovalReason::PaymentAboveThreshold,
            ..
        }
    ));
    assert_eq!(
        evaluate(&policy, &pay(usd_minor(50_001)), &ctx),
        Decision::Deny {
            reason: DenyReason::PerTransactionLimit
        }
    );
    assert_eq!(
        evaluate(&policy, &pay(Money::new(5_000, Eur).unwrap()), &ctx),
        Decision::Deny {
            reason: DenyReason::CurrencyMismatch
        }
    );
    let mixed = ActionCtx {
        spent_today: Some(Money::new(1, Eur).unwrap()),
        ..ctx.clone()
    };
    assert_eq!(
        evaluate(&policy, &pay(usd_minor(1_000)), &mixed),
        Decision::Deny {
            reason: DenyReason::CurrencyMismatch
        }
    );
    let broke = effective(&PolicyLimits {
        spend: None,
        ..permissive()
    });
    assert_eq!(
        evaluate(&broke, &pay(usd_minor(1)), &ctx),
        Decision::Deny {
            reason: DenyReason::NoSpendPolicy
        }
    );
}

#[test]
fn untrusted_input_never_reaches_a_high_risk_side_effect() {
    let policy = effective(&permissive());
    let tainted = ActionCtx {
        trust: TrustLabel::Untrusted,
        ..ctx()
    };

    let payment = Action::PaymentCreate {
        amount: usd_minor(100),
        payee: "acct-supplier".to_owned(),
    };
    assert!(evaluate(&policy, &payment, &ctx()).is_allow());
    assert_eq!(
        evaluate(&policy, &payment, &tainted),
        Decision::Deny {
            reason: DenyReason::UntrustedInput
        }
    );

    let escalating = [
        Action::PaymentCreate {
            amount: usd_minor(50_000),
            payee: "acct-supplier".to_owned(),
        },
        Action::DataDelete {
            scope: DataScope::AllForEmployee {
                id: EmployeeId::from_uuid(4),
            },
        },
    ];
    for action in one_of_every_action().into_iter().chain(escalating) {
        let decision = evaluate(&policy, &action, &tainted);
        if action.risk().is_high() {
            assert!(
                matches!(decision, Decision::Deny { .. }),
                "high-risk {} was not refused from untrusted input: {decision:?}",
                action.kind().as_str()
            );
        }
    }
}

#[test]
fn a_trusted_turn_still_escalates_every_high_risk_action_to_a_human() {
    let policy = effective(&permissive());
    let trusted = ctx();
    assert_eq!(trusted.trust, TrustLabel::Trusted);

    for (action, reason) in [
        (
            Action::PaymentCreate {
                amount: usd_minor(50_000),
                payee: "acct-supplier".to_owned(),
            },
            ApprovalReason::PaymentAboveThreshold,
        ),
        (
            Action::ContractSign {
                title: "supply agreement".into(),
            },
            ApprovalReason::ContractSignature,
        ),
        (
            Action::CredentialChange { secret: secret() },
            ApprovalReason::CredentialChange,
        ),
        (
            Action::DataDelete {
                scope: DataScope::AllForEmployee {
                    id: EmployeeId::from_uuid(4),
                },
            },
            ApprovalReason::BulkDataDelete,
        ),
    ] {
        assert!(action.risk().is_high());
        let decision = evaluate(&policy, &action, &trusted);
        assert!(
            matches!(decision, Decision::RequireApproval { reason: got, .. } if got == reason),
            "trusted {} lost its approval path: {decision:?}",
            action.kind().as_str()
        );
    }
}

#[test]
fn the_taint_wire_does_not_relabel_a_refusal_the_rules_already_made() {
    let policy = effective(&permissive());
    let tainted = ActionCtx {
        trust: TrustLabel::Untrusted,
        ..ctx()
    };

    let other = SecretRef::new(
        TenantId::from_uuid(99),
        EmployeeId::from_uuid(2),
        "smtp_password",
    )
    .unwrap();
    assert_eq!(
        evaluate(
            &policy,
            &Action::CredentialChange { secret: other },
            &tainted
        ),
        Decision::Deny {
            reason: DenyReason::CrossTenantSecret
        }
    );
    assert_eq!(
        evaluate(
            &policy,
            &Action::PaymentCreate {
                amount: usd_minor(50_001),
                payee: "acct-supplier".to_owned(),
            },
            &tainted
        ),
        Decision::Deny {
            reason: DenyReason::PerTransactionLimit
        }
    );
}

#[test]
fn a_secret_belonging_to_someone_else_is_refused_before_any_flag_is_read() {
    let policy = effective(&permissive());
    let other = SecretRef::new(
        TenantId::from_uuid(99),
        EmployeeId::from_uuid(2),
        "smtp_password",
    )
    .unwrap();

    assert_eq!(
        evaluate(&policy, &Action::CredentialChange { secret: other }, &ctx()),
        Decision::Deny {
            reason: DenyReason::CrossTenantSecret
        }
    );
    assert!(matches!(
        evaluate(
            &policy,
            &Action::CredentialChange { secret: secret() },
            &ctx()
        ),
        Decision::RequireApproval {
            reason: ApprovalReason::CredentialChange,
            ..
        }
    ));
}

#[test]
fn cold_outreach_budget_applies_to_new_contacts_only() {
    let limits = PolicyLimits {
        max_new_contacts_per_day: 2,
        ..permissive()
    };
    let policy = effective(&limits);
    let email = Action::EmailSend {
        to: EmailAddress::parse("buyer@example.com").unwrap(),
    };

    let fresh = ActionCtx {
        contact: ContactStanding::New,
        new_contacts_today: 1,
        ..ctx()
    };
    assert!(evaluate(&policy, &email, &fresh).is_allow());

    let spent = ActionCtx {
        new_contacts_today: 2,
        ..fresh
    };
    assert_eq!(
        evaluate(&policy, &email, &spent),
        Decision::Deny {
            reason: DenyReason::ContactBudgetExhausted
        }
    );

    let known = ActionCtx {
        contact: ContactStanding::Known,
        ..spent
    };
    assert!(evaluate(&policy, &email, &known).is_allow());
}

#[test]
fn a_lower_layer_can_only_tighten() {
    let platform = PolicyLimits {
        spend: Some(
            SpendLimits::try_new(usd_minor(10_000), usd_minor(50_000), usd_minor(5_000))
                .unwrap(),
        ),
        allowed_domains: OrdSet::from_vec(vec![domain("example.com")]),
        max_new_contacts_per_day: 10,
        allow_file_upload: true,
        ..PolicyLimits::default()
    };
    let greedy_tenant = PolicyLimits {
        spend: Some(
            SpendLimits::try_new(usd_minor(999_999), usd_minor(999_999), usd_minor(999_999))
                .unwrap(),
        ),
        allowed_domains: OrdSet::from_vec(vec![domain("example.com"), domain("anything.com")]),
        max_new_contacts_per_day: 10_000,
        allow_file_upload: true,
        ..PolicyLimits::default()
    };

    let effective =
        EffectivePolicy::try_new(&platform, &greedy_tenant, &platform, &platform).unwrap();
    let limits = effective.limits();

    assert_eq!(
        limits.spend.unwrap().max_per_transaction(),
        usd_minor(10_000)
    );
    assert_eq!(limits.spend.unwrap().max_per_day(), usd_minor(50_000));
    assert_eq!(limits.spend.unwrap().approval_above(), usd_minor(5_000));
    assert_eq!(limits.max_new_contacts_per_day, 10);
    assert_eq!(limits.allowed_domains, OrdSet::from_vec(vec![domain("example.com")]));
    assert!(!limits.allowed_domains.contains(&domain("anything.com")));
}

#[test]
fn a_team_can_tighten_the_turn_budget_and_a_greedy_one_is_ignored() {
    let platform = PolicyLimits {
        max_turns_per_day: 100,
        ..permissive()
    };
    let cautious_team = PolicyLimits {
        max_turns_per_day: 12,
        ..permissive()
    };
    let greedy_team = PolicyLimits {
        max_turns_per_day: 100_000,
        ..permissive()
    };

    let tightened =
        EffectivePolicy::try_new(&platform, &platform, &cautious_team, &platform).unwrap();
    assert_eq!(tightened.limits().max_turns_per_day, 12);
    assert_eq!(turns_remaining(&tightened, 0), 12);
    assert_eq!(turns_remaining(&tightened, 11), 1);
    assert_eq!(turns_remaining(&tightened, 12), 0);
    assert_eq!(turns_remaining(&tightened, u32::MAX), 0);

    let greedy =
        EffectivePolicy::try_new(&platform, &platform, &greedy_team, &platform).unwrap();
    assert_eq!(greedy.limits().max_turns_per_day, 100);

    for widener in [&greedy_team] {
        for stack in [
            EffectivePolicy::try_new(&platform, widener, &platform, &platform),
            EffectivePolicy::try_new(&platform, &platform, &platform, widener),
        ] {
            assert_eq!(stack.unwrap().limits().max_turns_per_day, 100);
        }
    }

    let unconfigured = effective(&PolicyLimits::default());
    assert_eq!(turns_remaining(&unconfigured, 0), 0);
}

#[test]
fn the_warmup_never_returns_more_than_the_operator_wrote() {
    for written in [0, 1, 2, 5, 20, 1_000, u32::MAX] {
        let policy = effective(&PolicyLimits {
            max_new_contacts_per_day: written,
            ..permissive()
        });
        for age in [i64::MIN, -1, 0, 1, 6, 29, 365, 100_000, i64::MAX] {
            for measured in [
                Deliverability::Unknown,
                Deliverability::Healthy,
                Deliverability::Unhealthy,
            ] {
                let allowed = warmup_allowance(&policy, age, measured);
                assert!(
                    allowed <= written,
                    "warmup released {allowed} where the operator wrote {written} \
                     (age {age}, {measured:?})"
                );
            }
        }
    }
}

#[test]
fn a_seat_written_down_as_five_is_never_six_and_starts_at_the_floor() {
    let sdr = effective(&PolicyLimits {
        max_new_contacts_per_day: 5,
        ..permissive()
    });

    assert_eq!(warmup_allowance(&sdr, 180, Deliverability::Healthy), 5);
    assert_eq!(warmup_allowance(&sdr, 10_000, Deliverability::Healthy), 5);
    assert_eq!(warmup_allowance(&sdr, 0, Deliverability::Healthy), 1);
    assert_eq!(warmup_allowance(&sdr, 3, Deliverability::Healthy), 4);
    assert_eq!(warmup_allowance(&sdr, 4, Deliverability::Healthy), 5);

    assert_eq!(warmup_allowance(&sdr, 180, Deliverability::Unknown), 1);
    assert_eq!(warmup_allowance(&sdr, 180, Deliverability::Unhealthy), 1);

    let silent = effective(&PolicyLimits {
        max_new_contacts_per_day: 0,
        ..permissive()
    });
    assert_eq!(
        warmup_allowance(&silent, 10_000, Deliverability::Healthy),
        0
    );
}

#[test]
fn silence_reads_as_unknown_and_never_as_healthy() {
    assert_eq!(
        Deliverability::measure(1_000, 0, false),
        Deliverability::Unknown
    );
    assert_eq!(
        Deliverability::measure(1_000, 0, true),
        Deliverability::Healthy
    );
    assert_eq!(Deliverability::measure(0, 0, true), Deliverability::Unknown);

    assert_eq!(
        Deliverability::measure(1_000, 2, true),
        Deliverability::Healthy
    );
    assert_eq!(
        Deliverability::measure(1_000, 3, true),
        Deliverability::Unhealthy
    );
    assert_eq!(
        Deliverability::measure(150, 1, true),
        Deliverability::Unhealthy
    );
    assert_eq!(
        Deliverability::measure(u64::MAX, u64::MAX, true),
        Deliverability::Unhealthy
    );
}

#[test]
fn a_warming_domain_is_not_a_capability_a_human_can_grant() {
    assert!(!DenyReason::SendingDomainWarming.grantable());
    assert!(!DenyReason::GRANTABLE.contains(&DenyReason::SendingDomainWarming));
    assert!(DenyReason::ContactBudgetExhausted.grantable());
    assert_ne!(
        DenyReason::SendingDomainWarming.code(),
        DenyReason::ContactBudgetExhausted.code()
    );
}

#[test]
fn narrows_is_containment_under_the_intersection() {
    let base = permissive();
    assert!(
        base.narrows(&base).unwrap(),
        "a layer is contained in itself, so a replay is not a widening"
    );

    let cap = |turns| PolicyLimits {
        max_turns_per_day: turns,
        ..permissive()
    };
    assert!(cap(100).narrows(&base).unwrap());
    assert!(!cap(501).narrows(&base).unwrap());

    let models = |set: &[ModelId]| PolicyLimits {
        allowed_models: OrdSet::from_vec(set.to_vec()),
        ..permissive()
    };
    assert!(models(&[ModelId::Haiku45]).narrows(&base).unwrap());
    assert!(
        !models(&[ModelId::Haiku45])
            .narrows(&models(&[ModelId::Sonnet5]))
            .unwrap(),
        "a model the parent does not permit is a widening, not a swap"
    );

    let off = PolicyLimits {
        allow_data_delete: false,
        ..permissive()
    };
    assert!(off.narrows(&base).unwrap());
    assert!(!base.narrows(&off).unwrap());

    let denied = PolicyLimits {
        denied_domains: OrdSet::from_vec(vec![domain("evil.example.com")]),
        ..permissive()
    };
    assert!(denied.narrows(&base).unwrap());
    assert!(
        !base.narrows(&denied).unwrap(),
        "dropping a denied domain lets an employee reach a host it could not"
    );

    let broke = PolicyLimits {
        spend: None,
        ..permissive()
    };
    assert!(broke.narrows(&base).unwrap());
    assert!(!base.narrows(&broke).unwrap());

    let euros = PolicyLimits {
        spend: Some(
            SpendLimits::try_new(
                Money::new(1, Eur).unwrap(),
                Money::new(2, Eur).unwrap(),
                Money::new(1, Eur).unwrap(),
            )
            .unwrap(),
        ),
        ..permissive()
    };
    assert!(matches!(
        euros.narrows(&base),
        Err(PolicyError::MixedCurrency { .. })
    ));
}

#[test]
fn a_role_gets_the_intersection_and_not_its_preference() {
    let platform = permissive();
    let thrifty = PolicyLimits {
        allowed_models: OrdSet::from_vec(vec![ModelId::Haiku45, ModelId::Sonnet5]),
        ..permissive()
    };

    let open = effective(&platform);
    assert_eq!(model_for(Some(&open), ModelId::Opus5), Some(ModelId::Opus5));
    assert_eq!(
        model_for(Some(&open), ModelId::Haiku45),
        Some(ModelId::Haiku45)
    );

    let narrowed = EffectivePolicy::try_new(&platform, &thrifty, &platform, &platform).unwrap();
    assert_eq!(
        narrowed.limits().allowed_models,
        OrdSet::from_vec(vec![ModelId::Haiku45, ModelId::Sonnet5]),
        "a tenant layer narrows the set; it does not replace it"
    );
    assert_eq!(
        model_for(Some(&narrowed), ModelId::Fable5),
        Some(ModelId::Haiku45)
    );

    let greedy = PolicyLimits {
        allowed_models: OrdSet::from_vec(ModelId::ALL.to_vec()),
        ..permissive()
    };
    let stacked = EffectivePolicy::try_new(&platform, &thrifty, &greedy, &platform).unwrap();
    assert_eq!(
        model_for(Some(&stacked), ModelId::Opus5),
        Some(ModelId::Haiku45),
        "the role layer named Opus and the intersection ignored it"
    );
    assert_eq!(
        model_for(Some(&stacked), ModelId::Sonnet5),
        Some(ModelId::Sonnet5)
    );

    let sonnet_only = PolicyLimits {
        allowed_models: OrdSet::from_vec(vec![ModelId::Sonnet5]),
        ..permissive()
    };
    let opus_only = PolicyLimits {
        allowed_models: OrdSet::from_vec(vec![ModelId::Opus5]),
        ..permissive()
    };
    let contradiction =
        EffectivePolicy::try_new(&platform, &sonnet_only, &opus_only, &platform).unwrap();
    assert!(contradiction.limits().allowed_models.is_empty());
    assert_eq!(model_for(Some(&contradiction), ModelId::Opus5), None);
    assert_eq!(model_for(Some(&contradiction), ModelId::Haiku45), None);

    assert_eq!(
        model_for(Some(&effective(&PolicyLimits::default())), ModelId::Opus5),
        None
    );

    assert_eq!(model_for(None, ModelId::Opus5), Some(ModelId::Opus5));
}

#[test]
fn the_order_is_the_price_list() {
    assert_eq!(
        ModelId::ALL,
        [
            ModelId::Haiku45,
            ModelId::Sonnet5,
            ModelId::Opus5,
            ModelId::Fable5
        ]
    );
    let mut sorted = ModelId::ALL;
    sorted.sort_unstable();
    assert_eq!(sorted, ModelId::ALL, "ALL is not in `Ord` order");
    assert_eq!(
        ModelId::Sonnet5.at_most(),
        OrdSet::from_vec(vec![ModelId::Haiku45, ModelId::Sonnet5]),
        "`at_most` must reach down the price list and never up"
    );
    for model in ModelId::ALL {
        assert_eq!(ModelId::parse(model.as_str()), Some(model));
    }
    assert_eq!(ModelId::parse("opus-4-8"), None);
    for model in ModelId::ALL {
        let wire = model.wire_name("vendor");
        assert_eq!(wire, format!("vendor-{}", model.as_str()));
        assert_eq!(ModelId::from_wire(&wire, "vendor"), Some(model));
        assert_eq!(ModelId::from_wire(&wire, "other"), None);
    }
}

#[test]
fn a_denylist_entry_from_any_layer_survives_the_intersection() {
    let open = permissive();
    let cautious_employee = PolicyLimits {
        denied_domains: OrdSet::from_vec(vec![domain("banking.example.com")]),
        ..permissive()
    };
    let policy = EffectivePolicy::try_new(&open, &open, &open, &cautious_employee).unwrap();

    assert_eq!(
        evaluate(
            &policy,
            &Action::BrowserWrite {
                domain: domain("login.banking.example.com")
            },
            &ctx()
        ),
        Decision::Deny {
            reason: DenyReason::DomainDenied
        }
    );
}

#[test]
fn only_a_unanimous_stack_may_upload_leads() {
    let open = permissive();
    let closed = PolicyLimits {
        allow_lead_upload: false,
        ..permissive()
    };

    assert!(
        !PolicyLimits::default().allow_lead_upload,
        "an unwritten layer must not be the one that lets an address leave \
         the building"
    );

    for (n, layers) in [
        [&closed, &open, &open, &open],
        [&open, &closed, &open, &open],
        [&open, &open, &closed, &open],
        [&open, &open, &open, &closed],
    ]
    .into_iter()
    .enumerate()
    {
        let policy =
            EffectivePolicy::try_new(layers[0], layers[1], layers[2], layers[3]).unwrap();
        assert!(
            !may_upload_leads(&policy),
            "layer {n} withheld lead upload and the intersection granted it \
             anyway; every other layer saying yes must not add up to a yes"
        );
    }

    let unanimous = EffectivePolicy::try_new(&open, &open, &open, &open).unwrap();
    assert!(
        may_upload_leads(&unanimous),
        "an operator who has switched it on at every layer must be able to \
         switch it on, or the flag is decoration"
    );
}

#[test]
fn a_layer_that_permits_no_spending_removes_spending_entirely() {
    let open = permissive();
    let no_money = PolicyLimits {
        spend: None,
        ..permissive()
    };
    let policy = EffectivePolicy::try_new(&open, &no_money, &open, &open).unwrap();

    assert!(policy.limits().spend.is_none());
    assert_eq!(
        evaluate(
            &policy,
            &Action::PaymentCreate {
                amount: usd_minor(1),
                payee: "acct-supplier".to_owned(),
            },
            &ctx()
        ),
        Decision::Deny {
            reason: DenyReason::NoSpendPolicy
        }
    );
}

#[test]
fn incoherent_spend_limits_are_rejected_at_construction() {
    assert_eq!(
        SpendLimits::try_new(usd_minor(1_000), usd_minor(10_000), usd_minor(5_000)),
        Err(PolicyError::ApprovalAboveTransactionCap {
            approval_above: usd_minor(5_000),
            max_per_transaction: usd_minor(1_000),
        })
    );
    assert_eq!(
        SpendLimits::try_new(usd_minor(10_000), usd_minor(1_000), usd_minor(500)),
        Err(PolicyError::TransactionAboveDailyCap {
            max_per_transaction: usd_minor(10_000),
            max_per_day: usd_minor(1_000),
        })
    );
    assert_eq!(
        SpendLimits::try_new(
            usd_minor(1_000),
            Money::new(10_000, Eur).unwrap(),
            usd_minor(500)
        ),
        Err(PolicyError::MixedCurrency {
            left: Usd,
            right: Eur
        })
    );
}

#[test]
fn layers_in_different_currencies_are_incoherent_not_convertible() {
    let usd_layer = permissive();
    let eur_layer = PolicyLimits {
        spend: Some(
            SpendLimits::try_new(
                Money::new(50_000, Eur).unwrap(),
                Money::new(200_000, Eur).unwrap(),
                Money::new(50_000, Eur).unwrap(),
            )
            .unwrap(),
        ),
        ..permissive()
    };
    assert_eq!(
        EffectivePolicy::try_new(&usd_layer, &eur_layer, &usd_layer, &usd_layer),
        Err(PolicyError::MixedCurrency {
            left: Usd,
            right: Eur
        })
    );
}

#[test]
fn reason_codes_are_stable_and_unique() {
    let reasons = DenyReason::ALL;
    let mut codes: Vec<&str> = reasons.iter().map(|r| r.code()).collect();
    codes.sort_unstable();
    codes.dedup();
    assert_eq!(codes.len(), reasons.len(), "duplicate deny code");

    assert_eq!(DenyReason::NoRule.code(), "no_rule");
    assert_eq!(
        ApprovalReason::ContractSignature.code(),
        "contract_signature"
    );
}

#[test]
fn naming_a_tool_and_ruling_on_it_are_the_same_rule() {
    let granted = McpTool::new(slug("erp"), slug("lookup"));
    let withheld = McpTool::new(slug("erp"), slug("drop-table"));
    let policy = effective(&permissive());
    let silent = effective(&PolicyLimits {
        allowed_mcp_tools: OrdSet::new(),
        ..permissive()
    });

    for policy in [&policy, &silent] {
        for tool in [&granted, &withheld] {
            assert_eq!(
                evaluate_mcp_call(policy, tool),
                evaluate(
                    policy,
                    &Action::McpCall { tool: tool.clone() },
                    &ActionCtx {
                        trust: TrustLabel::Untrusted,
                        ..ctx()
                    }
                ),
                "{tool:?} was ruled on differently by the two callers"
            );
        }
    }

    assert!(evaluate_mcp_call(&policy, &granted).is_allow());
    assert!(!evaluate_mcp_call(&policy, &withheld).is_allow());
    assert_eq!(
        evaluate_mcp_call(&silent, &granted),
        Decision::Deny {
            reason: DenyReason::NoRule
        }
    );
}

#[test]
fn naming_a_domain_and_ruling_on_it_are_the_same_rule() {
    let walled = effective(&PolicyLimits {
        allowed_domains: OrdSet::from_vec(vec![domain("example.com"), domain("banking.example.com")]),
        denied_domains: OrdSet::from_vec(vec![domain("banking.example.com")]),
        ..permissive()
    });
    let silent = effective(&PolicyLimits {
        allowed_domains: OrdSet::new(),
        denied_domains: OrdSet::new(),
        ..permissive()
    });

    for policy in [&walled, &silent] {
        for host in [
            "example.com",
            "shop.example.com",
            "banking.example.com",
            "login.banking.example.com",
            "alibaba.com",
        ] {
            let host = domain(host);
            assert_eq!(
                evaluate_browser_read(policy, &host),
                evaluate(
                    policy,
                    &Action::BrowserRead {
                        domain: host.clone()
                    },
                    &ActionCtx {
                        trust: TrustLabel::Untrusted,
                        ..ctx()
                    }
                ),
                "{host:?} was ruled on differently by the two callers"
            );
        }
    }

    assert!(evaluate_browser_read(&walled, &domain("example.com")).is_allow());
    assert!(evaluate_browser_read(&walled, &domain("shop.example.com")).is_allow());
    assert_eq!(
        evaluate_browser_read(&walled, &domain("banking.example.com")),
        Decision::Deny {
            reason: DenyReason::DomainDenied
        }
    );

    assert!(evaluate_browser_read(&walled, &domain("alibaba.com")).is_allow());
    assert!(evaluate_browser_read(&silent, &domain("alibaba.com")).is_allow());

    let landlocked = effective(&PolicyLimits {
        allowed_channels: OrdSet::from_vec(vec![Channel::Email, Channel::Internal]),
        ..permissive()
    });
    assert_eq!(
        evaluate_browser_read(&landlocked, &domain("example.com")),
        Decision::Deny {
            reason: DenyReason::ChannelNotAllowed
        }
    );
    let mute = effective(&PolicyLimits {
        allowed_channels: OrdSet::new(),
        ..permissive()
    });
    assert_eq!(
        evaluate_browser_read(&mute, &domain("example.com")),
        Decision::Deny {
            reason: DenyReason::NoRule
        }
    );

    assert_eq!(
        evaluate_browser_read(&walled, &domain("login.banking.example.com")),
        Decision::Deny {
            reason: DenyReason::DomainDenied
        }
    );

    let spent = effective(&PolicyLimits {
        max_new_contacts_per_day: 0,
        denied_domains: OrdSet::from_vec(vec![domain("banking.example.com")]),
        ..permissive()
    });
    let stranger = ActionCtx {
        contact: ContactStanding::New,
        ..ctx()
    };
    for host in ["example.com", "alibaba.com"] {
        let host = domain(host);
        assert_eq!(
            evaluate(
                &spent,
                &Action::BrowserRead {
                    domain: host.clone()
                },
                &stranger
            ),
            evaluate_browser_read(&spent, &host),
            "an exhausted contact budget changed a browser read of {host:?}"
        );
        assert!(
            evaluate_browser_read(&spent, &host).is_allow(),
            "{host:?} was refused to an employee that may browse"
        );
    }
    assert_eq!(
        evaluate(
            &spent,
            &Action::EmailSend {
                to: EmailAddress::parse("buyer@alibaba.com").unwrap()
            },
            &stranger
        ),
        Decision::Deny {
            reason: DenyReason::ContactBudgetExhausted
        }
    );
}

fn ceiling() -> PolicyLimits {
    PolicyLimits {
        spend: Some(
            SpendLimits::try_new(usd_minor(50_000), usd_minor(200_000), usd_minor(10_000))
                .unwrap(),
        ),
        allowed_channels: OrdSet::from_vec(vec![Channel::Email, Channel::Internal, Channel::Web]),
        max_new_contacts_per_day: 50,
        max_turns_per_day: 200,
        ..PolicyLimits::default()
    }
}

fn policy_matrix() -> Vec<(&'static str, EffectivePolicy)> {
    let one_off = [
        (
            "no channels",
            PolicyLimits {
                allowed_channels: OrdSet::new(),
                ..permissive()
            },
        ),
        (
            "no calling codes",
            PolicyLimits {
                allowed_calling_codes: OrdSet::new(),
                ..permissive()
            },
        ),
        (
            "no domains",
            PolicyLimits {
                allowed_domains: OrdSet::new(),
                ..permissive()
            },
        ),
        (
            "everything denylisted",
            PolicyLimits {
                denied_domains: OrdSet::from_vec(vec![domain("example.com"), domain("partner.example.com")]),
                ..permissive()
            },
        ),
        (
            "no mcp tools",
            PolicyLimits {
                allowed_mcp_tools: OrdSet::new(),
                ..permissive()
            },
        ),
        (
            "no a2a peers",
            PolicyLimits {
                allowed_a2a_peers: OrdSet::new(),
                ..permissive()
            },
        ),
        (
            "no spend",
            PolicyLimits {
                spend: None,
                ..permissive()
            },
        ),
        (
            "a spend policy of almost nothing",
            PolicyLimits {
                spend: Some(
                    SpendLimits::try_new(usd_minor(1), usd_minor(1), usd_minor(1)).unwrap(),
                ),
                ..permissive()
            },
        ),
        (
            "no contact budget",
            PolicyLimits {
                max_new_contacts_per_day: 0,
                ..permissive()
            },
        ),
        (
            "flags off",
            PolicyLimits {
                allow_file_upload: false,
                allow_credential_change: false,
                allow_data_delete: false,
                ..permissive()
            },
        ),
    ];

    [("empty", PolicyLimits::default()), ("ceiling", ceiling())]
        .into_iter()
        .chain(one_off)
        .chain([("permissive", permissive())])
        .map(|(label, limits)| (label, effective(&limits)))
        .collect()
}

fn ctx_matrix() -> Vec<ActionCtx> {
    let mut out = Vec::new();
    for trust in [TrustLabel::Trusted, TrustLabel::Untrusted] {
        for contact in [ContactStanding::Known, ContactStanding::New] {
            for (new_today, spent) in [(0, None), (1_000, Some(usd_minor(199_999)))] {
                for directs_subject in [false, true] {
                    out.push(ActionCtx {
                        trust,
                        contact,
                        new_contacts_today: new_today,
                        spent_today: spent,
                        directs_subject,
                        ..ActionCtx::new(actor(), at(1_700_000_000))
                    });
                }
            }
        }
    }
    out
}

fn every_action_and_then_some() -> Vec<Action> {
    let mut out = one_of_every_action();
    out.extend([
        Action::EmailSend {
            to: EmailAddress::parse("stranger@elsewhere.test").unwrap(),
        },
        Action::SmsSend {
            to: E164::parse("+15550000000").unwrap(),
        },
        Action::WhatsappSend {
            to: E164::parse("+79991234567").unwrap(),
        },
        Action::CallPlace {
            to: E164::parse("+15550000000").unwrap(),
        },
        Action::BrowserRead {
            domain: domain("shop.example.com"),
        },
        Action::BrowserWrite {
            domain: domain("elsewhere.test"),
        },
        Action::FileUpload {
            domain: domain("shop.example.com"),
        },
        Action::McpCall {
            tool: McpTool::new(slug("erp"), slug("drop-table")),
        },
        Action::A2aSend {
            peer: domain("elsewhere.test"),
        },
        Action::PaymentCreate {
            amount: usd_minor(1),
            payee: "acct-supplier".to_owned(),
        },
        Action::PaymentCreate {
            amount: usd_minor(49_999),
            payee: "acct-supplier".to_owned(),
        },
        Action::ContractSign {
            title: "nda".into(),
        },
        Action::CredentialChange {
            secret: SecretRef::new(
                TenantId::from_uuid(99),
                actor().employee_id,
                "smtp_password",
            )
            .unwrap(),
        },
        Action::DataDelete {
            scope: DataScope::AllForEmployee {
                id: actor().employee_id,
            },
        },
        Action::CharterSet {
            subordinate: actor().employee_id,
        },
        Action::InternalSend { to: slug("anja") },
    ]);
    out
}

#[test]
fn the_prediction_never_disagrees_with_the_evaluator() {
    let actions = every_action_and_then_some();
    let contexts = ctx_matrix();

    for kind in ActionKind::ALL {
        let specimens: Vec<&Action> = actions.iter().filter(|a| a.kind() == kind).collect();
        assert!(
            !specimens.is_empty(),
            "{kind:?} has no specimen action to check the prediction against"
        );

        for (label, policy) in &policy_matrix() {
            if !always_denies(policy, kind) {
                continue;
            }
            for action in &specimens {
                for ctx in &contexts {
                    let decision = evaluate(policy, action, ctx);
                    assert!(
                        matches!(decision, Decision::Deny { .. }),
                        "always_denies said the {label} policy refuses every {kind:?}, \
                         but the policy answered {decision:?} for {action:?}"
                    );
                }
            }
        }
    }
}

#[test]
fn the_contact_budget_charges_exactly_the_arms_the_ceiling_rules_on() {
    let limits = permissive();
    let policy = effective(&limits);
    let free = ActionCtx {
        trust: TrustLabel::Trusted,
        contact: ContactStanding::New,
        new_contacts_today: 0,
        ..ActionCtx::new(actor(), at(1_700_000_000))
    };
    let spent = ActionCtx {
        new_contacts_today: u32::MAX,
        ..free.clone()
    };

    for action in every_action_and_then_some() {
        let moved = evaluate(&policy, &action, &free) != evaluate(&policy, &action, &spent);
        assert_eq!(
            spends_contact_budget(&action),
            moved,
            "spends_contact_budget disagrees with the evaluator about {action:?}"
        );
    }
}

#[test]
fn an_empty_policy_puts_every_kind_but_two_out_of_reach() {
    let empty = effective(&PolicyLimits::default());
    let open = effective(&permissive());

    for kind in ActionKind::ALL {
        let decided_elsewhere =
            matches!(kind, ActionKind::ContractSign | ActionKind::CharterSet);
        assert_eq!(
            always_denies(&empty, kind),
            !decided_elsewhere,
            "{kind:?} under a policy that grants nothing"
        );
        assert!(
            !always_denies(&open, kind),
            "{kind:?} was withheld under the most permissive policy this system can express"
        );
    }
}

#[test]
fn a_kind_that_is_sometimes_allowed_is_never_withheld() {
    let ctx = ctx();

    let almost_broke = effective(&PolicyLimits {
        spend: Some(SpendLimits::try_new(usd_minor(1), usd_minor(1), usd_minor(1)).unwrap()),
        ..permissive()
    });
    assert!(!always_denies(&almost_broke, ActionKind::PaymentCreate));
    assert!(
        !evaluate(
            &almost_broke,
            &Action::PaymentCreate {
                amount: usd_minor(50_000),
                payee: "acct-supplier".to_owned(),
            },
            &ctx
        )
        .is_allow()
    );

    let china_only = effective(&PolicyLimits {
        allowed_calling_codes: OrdSet::from_vec(vec![CallingCode::new(86).unwrap()]),
        ..permissive()
    });
    for kind in [
        ActionKind::SmsSend,
        ActionKind::WhatsappSend,
        ActionKind::CallPlace,
    ] {
        assert!(!always_denies(&china_only, kind));
    }
    assert!(
        !evaluate(
            &china_only,
            &Action::SmsSend {
                to: E164::parse("+79991234567").unwrap()
            },
            &ctx
        )
        .is_allow()
    );

    let walled = effective(&PolicyLimits {
        denied_domains: OrdSet::from_vec(vec![domain("example.com")]),
        ..permissive()
    });
    assert!(!always_denies(&walled, ActionKind::BrowserRead));
    assert_eq!(
        evaluate(
            &walled,
            &Action::BrowserRead {
                domain: domain("example.com")
            },
            &ctx
        ),
        Decision::Deny {
            reason: DenyReason::DomainDenied
        }
    );

    let no_new_contacts = effective(&PolicyLimits {
        max_new_contacts_per_day: 0,
        ..permissive()
    });
    assert!(!always_denies(&no_new_contacts, ActionKind::EmailSend));
}

#[test]
fn the_shipped_ceiling_puts_mcp_out_of_reach_until_a_tool_is_granted() {
    let fresh = effective(&ceiling());
    assert!(always_denies(&fresh, ActionKind::McpCall));
    assert!(!always_denies(&fresh, ActionKind::EmailSend));
    assert!(!always_denies(&fresh, ActionKind::InternalSend));
    assert!(!always_denies(&fresh, ActionKind::PaymentCreate));

    let granted = effective(&PolicyLimits {
        allowed_mcp_tools: OrdSet::from_vec(vec![McpTool::new(slug("erp"), slug("lookup"))]),
        ..ceiling()
    });
    assert!(!always_denies(&granted, ActionKind::McpCall));
}

#[test]
fn the_taint_stop_and_the_org_chart_are_not_capability_requests() {
    for reason in [
        DenyReason::UntrustedInput,
        DenyReason::DomainDenied,
        DenyReason::CrossTenantSecret,
        DenyReason::SelfDirection,
        DenyReason::OutsideChainOfCommand,
    ] {
        assert!(
            !reason.grantable(),
            "{} became grantable: a human is now being asked to lift it",
            reason.code()
        );
        assert!(
            !DenyReason::GRANTABLE.contains(&reason),
            "{} reached the request vocabulary",
            reason.code()
        );
    }
    assert!(!DenyReason::GRANTABLE.contains(&DenyReason::UntrustedInput));
}

#[test]
fn an_approval_names_the_amount_and_quotes_what_was_written() {
    let policy = effective(&permissive());
    let decision = evaluate(
        &policy,
        &Action::PaymentCreate {
            amount: usd_minor(50_000),
            payee: "acct \"supplier\"".to_owned(),
        },
        &ctx(),
    );
    assert_eq!(
        decision,
        Decision::RequireApproval {
            reason: ApprovalReason::PaymentAboveThreshold,
            summary: payment_summary(usd_minor(50_000), "\"acct \\\"supplier\\\"\""),
        }
    );
    let signing = evaluate(
        &policy,
        &Action::ContractSign {
            title: "nda\n2".to_owned(),
        },
        &ctx(),
    );
    assert_eq!(
        signing,
        Decision::RequireApproval {
            reason: ApprovalReason::ContractSignature,
            summary: contract_summary("\"nda\\n2\""),
        }
    );
}

#[test]
fn the_layers_meet_in_any_order() {
    let layers = [permissive(), ceiling(), PolicyLimits::default()];
    for a in &layers {
        assert!(a.intersect(a).unwrap().same(a));
        for b in &layers {
            let ab = a.intersect(b).unwrap();
            assert!(ab.same(&b.intersect(a).unwrap()));
            assert!(ab.narrows(a).unwrap());
            assert!(ab.narrows(b).unwrap());
            for c in &layers {
                assert!(
                    ab.intersect(c)
                        .unwrap()
                        .same(&a.intersect(&b.intersect(c).unwrap()).unwrap())
                );
            }
        }
    }
}

#[test]
fn an_incoherent_policy_says_why() {
    assert_eq!(
        PolicyError::ApprovalAboveTransactionCap {
            approval_above: usd_minor(5_000),
            max_per_transaction: usd_minor(1_000),
        }
        .to_text(),
        "approval threshold USD 50.00 is above the per-transaction cap USD 10.00: the cap would fire first and the threshold could never be reached"
    );
    assert_eq!(
        PolicyError::TransactionAboveDailyCap {
            max_per_transaction: usd_minor(10_000),
            max_per_day: usd_minor(1_000),
        }
        .to_text(),
        "per-transaction cap USD 100.00 is above the daily cap USD 10.00"
    );
}

#[test]
fn a_layer_without_spending_does_not_reconcile_two_currencies() {
    let lay = |currency| PolicyLimits {
        spend: Some(
            SpendLimits::try_new(
                Money::new(1, currency).unwrap(),
                Money::new(2, currency).unwrap(),
                Money::new(1, currency).unwrap(),
            )
            .unwrap(),
        ),
        ..PolicyLimits::default()
    };
    let (usd, eur, none) = (lay(Usd), lay(Eur), PolicyLimits::default());
    let mixed = Err(PolicyError::MixedCurrency { left: Usd, right: Eur });
    assert_eq!(EffectivePolicy::try_new(&usd, &none, &eur, &usd), mixed);
    assert_eq!(EffectivePolicy::try_new(&none, &usd, &none, &eur), mixed);
    assert_eq!(EffectivePolicy::try_new(&usd, &none, &none, &eur), mixed);
    assert_eq!(EffectivePolicy::try_new(&usd, &usd, &eur, &none), mixed);
    let agreed = EffectivePolicy::try_new(&usd, &none, &usd, &usd).unwrap();
    assert_eq!(agreed.limits().spend, None);
}

#[test]
fn a_stack_grants_what_every_layer_contains() {
    let spend = |tx, day, above| {
        Some(SpendLimits::try_new(usd_minor(tx), usd_minor(day), usd_minor(above)).unwrap())
    };
    let layers = [
        PolicyLimits { spend: spend(10_000, 50_000, 9_000), ..permissive() },
        PolicyLimits { max_turns_per_day: 40, allow_data_delete: false, ..permissive() },
        PolicyLimits {
            spend: spend(20_000, 30_000, 5_000),
            denied_domains: OrdSet::from_vec(vec![domain("evil.example.com")]),
            ..permissive()
        },
        PolicyLimits { max_new_contacts_per_day: 7, ..permissive() },
    ];
    let stack =
        EffectivePolicy::try_new(&layers[0], &layers[1], &layers[2], &layers[3]).unwrap();

    let inside = PolicyLimits {
        spend: spend(10_000, 30_000, 5_000),
        denied_domains: OrdSet::from_vec(vec![domain("evil.example.com")]),
        max_new_contacts_per_day: 7,
        max_turns_per_day: 40,
        allow_data_delete: false,
        ..permissive()
    };
    for layer in &layers {
        assert!(inside.narrows(layer).unwrap());
        assert!(stack.limits().narrows(layer).unwrap());
    }
    assert!(inside.narrows(stack.limits()).unwrap());
    assert!(stack.limits().narrows(&inside).unwrap());
}
