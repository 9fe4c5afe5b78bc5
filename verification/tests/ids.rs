use agentos_domain::ids::{
    AppointmentId, ApprovalId, ConversationId, DecisionId, EmployeeId, IdempotencyKey,
    IdempotencyKeyError, InvoiceId, SecretRef, SecretRefError, Slug, SlugError, TenantId,
    WorkItemId,
};
use agentos_domain::time::Timestamp;
use std::str::FromStr;
use uuid::Uuid;

fn at(secs: i64) -> Timestamp {
    Timestamp::from_parts(secs, 0).expect("valid timestamp")
}

#[test]
fn ids_round_trip_as_plain_uuid_strings() {
    let id = EmployeeId::new_v7(at(1_700_000_000));
    let uuid = Uuid::from_u128(id.as_uuid());

    assert_eq!(id.to_text(), uuid.to_string());
    assert_eq!(EmployeeId::parse(&id.to_text()).unwrap(), id);
    assert_eq!(EmployeeId::from_uuid(uuid.as_u128()), id);
}

#[test]
fn ids_are_v7_and_sort_by_creation_time() {
    let mut previous = EmployeeId::new_v7(at(1_700_000_000));
    assert_eq!(Uuid::from_u128(previous.as_uuid()).get_version_num(), 7);

    for offset in 1..100 {
        let next = EmployeeId::new_v7(at(1_700_000_000 + offset));
        assert!(
            previous < next,
            "{} should sort before {}",
            previous.to_text(),
            next.to_text()
        );
        previous = next;
    }
}

#[test]
fn id_display_and_from_str_round_trip() {
    let id = TenantId::new_v7(at(1_700_000_000));
    assert_eq!(TenantId::from_str(&id.to_text()).unwrap(), id);
    assert!(TenantId::from_str("not-a-uuid").is_err());
}

#[test]
fn the_text_of_an_id_is_the_hyphenated_uuid() {
    let n = 0x0123_4567_89ab_cdef_fedc_ba98_7654_3210;
    let text = "01234567-89ab-cdef-fedc-ba9876543210";
    assert_eq!(TenantId::from_uuid(n).to_text(), text);
    assert_eq!(ConversationId::from_uuid(n).to_text(), text);
    assert_eq!(ApprovalId::from_uuid(n).to_text(), text);
    assert_eq!(DecisionId::from_uuid(n).to_text(), text);
    assert_eq!(WorkItemId::from_uuid(n).to_text(), text);
    assert_eq!(AppointmentId::from_uuid(n).to_text(), text);
    assert_eq!(InvoiceId::from_uuid(n).to_text(), text);
    assert_eq!(InvoiceId::parse(text).unwrap().as_uuid(), n);
    assert_eq!(
        ApprovalId::parse("0123456789abcdeffedcba9876543210").unwrap(),
        ApprovalId::from_uuid(n)
    );
}

#[test]
fn an_id_before_the_epoch_carries_no_time() {
    let early = WorkItemId::new_v7(at(-1));
    assert_eq!(early.as_uuid() >> 80, 0);
}

#[test]
fn slug_accepts_well_formed_handles() {
    for good in ["lena", "lena-2", "a1", "a-b-c-d", &"x".repeat(32)] {
        assert!(Slug::parse(good).is_ok(), "expected {good:?} to parse");
    }
    assert_eq!(Slug::parse("LeNa").unwrap().as_str(), "lena");
}

#[test]
fn slug_rejects_anything_an_address_parser_could_misread() {
    assert!(matches!(
        Slug::parse("a@b"),
        Err(SlugError::Charset { found: '@' })
    ));
    assert!(matches!(
        Slug::parse("\n"),
        Err(SlugError::Charset { found: '\n' })
    ));
    assert!(matches!(
        Slug::parse("le na"),
        Err(SlugError::Charset { found: ' ' })
    ));
    assert!(matches!(
        Slug::parse("A"),
        Err(SlugError::Length { got: 1 })
    ));
    assert!(matches!(Slug::parse(""), Err(SlugError::Length { got: 0 })));
    assert!(matches!(
        Slug::parse(&"x".repeat(33)),
        Err(SlugError::Length { got: 33 })
    ));
    assert!(matches!(Slug::parse("-lena"), Err(SlugError::Boundary)));
    assert!(matches!(Slug::parse("lena-"), Err(SlugError::Boundary)));
    assert!(matches!(
        Slug::parse("-"),
        Err(SlugError::Length { got: 1 })
    ));
    assert!(matches!(Slug::parse("--"), Err(SlugError::Boundary)));
    assert!(matches!(
        Slug::parse("le--na"),
        Err(SlugError::ConsecutiveHyphens)
    ));
}

#[test]
fn slug_folds_confusables_into_ascii_instead_of_minting_a_lookalike() {
    assert_eq!(Slug::parse("ｌｅｎａ").unwrap().as_str(), "lena");
    assert_eq!(
        Slug::parse("ｌｅｎａ").unwrap(),
        Slug::parse("lena").unwrap()
    );
    assert!(matches!(
        Slug::parse("len\u{0430}"),
        Err(SlugError::Charset { found: '\u{0430}' })
    ));
}

#[test]
fn a_normalised_handle_is_judged_as_it_stands() {
    assert_eq!(Slug::from_normalized("lena-2").unwrap().as_str(), "lena-2");
    assert!(matches!(
        Slug::from_normalized("LeNa"),
        Err(SlugError::Charset { found: 'L' })
    ));
    assert_eq!("lena".parse::<Slug>().unwrap().as_str(), "lena");
}

#[test]
fn for_step_is_stable_across_calls() {
    let employee = EmployeeId::new_v7(at(1_700_000_000));
    let first = IdempotencyKey::for_step(employee, "phone");

    for _ in 0..100 {
        assert_eq!(IdempotencyKey::for_step(employee, "phone"), first);
    }
}

#[test]
fn for_step_separates_steps_and_employees() {
    let a = EmployeeId::new_v7(at(1_700_000_000));
    let b = EmployeeId::new_v7(at(1_700_000_001));

    assert_ne!(
        IdempotencyKey::for_step(a, "phone"),
        IdempotencyKey::for_step(a, "wallet")
    );
    assert_ne!(
        IdempotencyKey::for_step(a, "phone"),
        IdempotencyKey::for_step(b, "phone")
    );
}

#[test]
fn client_keys_are_bounded_and_cannot_forge_a_step_key() {
    let employee = EmployeeId::new_v7(at(1_700_000_000));
    let step = IdempotencyKey::for_step(employee, "phone");

    let forged = IdempotencyKey::from_client(step.as_str()).unwrap();
    assert_ne!(forged, step);

    assert!(IdempotencyKey::from_client("short").is_err());
    assert!(IdempotencyKey::from_client(&"x".repeat(201)).is_err());
    assert!(matches!(
        IdempotencyKey::from_client("has space"),
        Err(IdempotencyKeyError::Charset { found: ' ' })
    ));
    assert!(matches!(
        IdempotencyKey::from_client("has\nnewline"),
        Err(IdempotencyKeyError::Charset { found: '\n' })
    ));
    assert!(IdempotencyKey::from_client("abcd-1234").is_ok());
}

#[test]
fn a_rehydrated_key_must_carry_a_prefix_a_constructor_produced() {
    let employee = EmployeeId::new_v7(at(1_700_000_000));
    let step = IdempotencyKey::for_step(employee, "phone");
    let client = IdempotencyKey::from_client("abcd-1234").unwrap();

    for key in [&step, &client] {
        assert_eq!(
            IdempotencyKey::try_from(key.as_str().to_owned()).unwrap(),
            *key
        );
    }

    for forged in [
        "abcd-1234",
        "step:phone",
        "PN-1",
        "",
        "Client:x",
        "employee",
    ] {
        assert_eq!(
            IdempotencyKey::try_from(forged.to_owned()),
            Err(IdempotencyKeyError::Prefix),
            "rehydrated an unprefixed key: {forged:?}"
        );
    }

    assert!(IdempotencyKey::try_from("client:has space".to_owned()).is_err());
    assert!(IdempotencyKey::try_from(format!("client:{}", "x".repeat(500))).is_err());

    assert!(IdempotencyKey::try_from("employee:step:phone".to_owned()).is_ok());
    assert_ne!(
        IdempotencyKey::try_from("employee:step:phone".to_owned()).unwrap(),
        step
    );
}

#[test]
fn a_step_key_spells_the_employee_and_the_step() {
    let key = IdempotencyKey::for_step(EmployeeId::from_uuid(7), "phone");
    assert_eq!(
        key.as_str(),
        "employee:00000000-0000-0000-0000-000000000007:step:phone"
    );
}

fn secret_ref_text(name: &str) -> (TenantId, EmployeeId, String) {
    let tenant = TenantId::new_v7(at(1_700_000_000));
    let employee = EmployeeId::new_v7(at(1_700_000_001));
    let text = format!(
        "secret://tenant/{}/employee/{}/{name}",
        tenant.to_text(),
        employee.to_text()
    );
    (tenant, employee, text)
}

#[test]
fn secret_ref_parses_and_exposes_its_scope() {
    let (tenant, employee, text) = secret_ref_text("smtp_password");
    let parsed = SecretRef::parse(&text).unwrap();

    assert_eq!(parsed.tenant_id(), tenant);
    assert_eq!(parsed.employee_id(), employee);
    assert_eq!(parsed.name(), "smtp_password");
    assert_eq!(parsed.to_text(), text);
    assert_eq!(SecretRef::parse(&parsed.to_text()).unwrap(), parsed);
}

#[test]
fn secret_ref_rejects_hostile_input() {
    let (_, _, valid) = secret_ref_text("smtp_password");

    assert_eq!(
        SecretRef::parse(valid.trim_start_matches("secret://")),
        Err(SecretRefError::Scheme)
    );
    assert_eq!(
        SecretRef::parse("https://tenant/x/employee/y/z"),
        Err(SecretRefError::Scheme)
    );

    let (_, _, traversal) = secret_ref_text("../../other/api_key");
    assert_eq!(SecretRef::parse(&traversal), Err(SecretRefError::Shape));
    let (_, _, dotted) = secret_ref_text("..");
    assert_eq!(
        SecretRef::parse(&dotted),
        Err(SecretRefError::NameCharset { found: '.' })
    );

    assert_eq!(
        SecretRef::parse("secret://tenant/x/employee/y"),
        Err(SecretRefError::Shape)
    );
    let (tenant, employee, _) = secret_ref_text("x");
    assert_eq!(
        SecretRef::parse(&format!(
            "secret://org/{}/employee/{}/x",
            tenant.to_text(),
            employee.to_text()
        )),
        Err(SecretRefError::Shape)
    );

    let (_, _, newline) = secret_ref_text("api\nkey");
    assert_eq!(
        SecretRef::parse(&newline),
        Err(SecretRefError::NameCharset { found: '\n' })
    );

    assert_eq!(
        SecretRef::parse("secret://tenant/acme/employee/lena/api_key"),
        Err(SecretRefError::NotAUuid { field: "tenant" })
    );

    let (_, _, empty_name) = secret_ref_text("");
    assert_eq!(
        SecretRef::parse(&empty_name),
        Err(SecretRefError::NameLength)
    );
    let (_, _, long_name) = secret_ref_text(&"x".repeat(65));
    assert_eq!(
        SecretRef::parse(&long_name),
        Err(SecretRefError::NameLength)
    );
}

#[test]
fn a_scope_that_was_not_read_is_named() {
    let tenant = TenantId::from_uuid(1);
    let employee = EmployeeId::from_uuid(2);
    assert_eq!(
        SecretRef::from_scope(None, None, "api_key"),
        Err(SecretRefError::NotAUuid { field: "tenant" })
    );
    assert_eq!(
        SecretRef::from_scope(Some(tenant), None, "api_key"),
        Err(SecretRefError::NotAUuid { field: "employee" })
    );
    let scoped = SecretRef::from_scope(Some(tenant), Some(employee), "api_key").unwrap();
    assert_eq!(
        scoped.to_text(),
        "secret://tenant/00000000-0000-0000-0000-000000000001/employee/00000000-0000-0000-0000-000000000002/api_key"
    );
}

#[test]
fn a_stored_client_key_is_one_a_client_could_send() {
    assert_eq!(
        IdempotencyKey::try_from("client:short".to_owned()),
        Err(IdempotencyKeyError::Length)
    );
    assert_eq!(
        IdempotencyKey::try_from("client:".to_owned()),
        Err(IdempotencyKeyError::Length)
    );
    assert_eq!(
        IdempotencyKey::try_from("client:12345678".to_owned()),
        IdempotencyKey::from_client("12345678")
    );
    assert_eq!(
        IdempotencyKey::try_from(format!("client:{}", "x".repeat(201))),
        Err(IdempotencyKeyError::Length)
    );
}
