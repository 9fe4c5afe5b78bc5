use agentos_domain::action::{
    Action, ActionKind, CallingCode, Domain, DomainError, E164, EmailAddress, EmailError,
    HostFault, PhoneError, Risk,
};
use agentos_domain::ids::Slug;

const _CALL_PLACE_TAKES_ONLY_A_NUMBER: fn(E164) -> Action = |to| Action::CallPlace { to };

#[test]
fn domain_normalisation_collapses_respellings() {
    let canonical = Domain::parse("banking.example.com").unwrap();
    for spelling in [
        "banking.example.com",
        "BANKING.example.com",
        "banking.EXAMPLE.CoM",
        "banking.example.com.",
        "  banking.example.com  ",
    ] {
        assert_eq!(
            Domain::parse(spelling).unwrap(),
            canonical,
            "{spelling:?} did not normalise"
        );
    }
    assert_eq!(
        Domain::parse("ｂａｎｋｉｎｇ.example.com").unwrap(),
        canonical
    );
    assert_eq!(
        Domain::parse("münchen.de").unwrap().as_str(),
        "xn--mnchen-3ya.de"
    );
}

#[test]
fn domain_rejects_things_that_are_not_bare_hosts() {
    for bad in [
        "",
        "  ",
        ".",
        "https://example.com",
        "example.com/path",
        "user@example.com",
        "example.com:443",
        "example com",
        "localhost",
        "127.0.0.1",
    ] {
        assert!(Domain::parse(bad).is_err(), "accepted {bad:?}");
    }
}

#[test]
fn a_name_inside_somebody_s_network_is_not_a_domain() {
    for host in [
        "printer.local",
        "vault.internal",
        "api.home.arpa",
        "app.localhost",
        "localhost",
        "local",
    ] {
        assert!(
            Domain::parse(host).is_err(),
            "{host} parsed, and a policy that grants the public web would read it"
        );
    }
    for host in [
        "example.com",
        "nordmetall.example",
        "shop.test",
        "orizn.app",
    ] {
        assert!(Domain::parse(host).is_ok(), "{host} was refused");
    }
    for host in ["mylocal.com", "internal-affairs.gov.uk", "local.orizn.app"] {
        assert!(Domain::parse(host).is_ok(), "{host} was refused");
    }
}

#[test]
fn every_way_a_domain_is_refused_is_named() {
    assert_eq!(Domain::parse("   "), Err(DomainError::Empty));
    assert_eq!(Domain::parse("."), Err(DomainError::Empty));
    assert_eq!(
        Domain::parse("example.com/path"),
        Err(DomainError::NotAHost("example.com/path".to_owned()))
    );
    assert!(matches!(
        Domain::parse("127.0.0.1"),
        Err(DomainError::IpAddress(_))
    ));
    assert!(matches!(
        Domain::parse("localhost"),
        Err(DomainError::TooFewLabels(_))
    ));
    assert!(matches!(
        Domain::parse("printer.local"),
        Err(DomainError::NotPublic(_))
    ));
}

#[test]
fn what_the_host_parser_answers_decides_the_domain() {
    let host = Domain::from_host("Example.COM", Ok("example.com".to_owned())).unwrap();
    assert_eq!(host.as_str(), "example.com");
    assert!(Domain::from_host("127.0.0.1", Err(HostFault::Address)).is_err());
    assert!(Domain::from_host("x", Ok("printer.local".to_owned())).is_err());
    assert!(Domain::from_host("x", Ok("localhost".to_owned())).is_err());
}

#[test]
fn is_within_matches_at_label_boundaries_only() {
    let entry = Domain::parse("banking.example.com").unwrap();
    for inside in [
        "banking.example.com",
        "login.banking.example.com",
        "a.b.banking.example.com",
    ] {
        assert!(Domain::parse(inside).unwrap().is_within(&entry), "{inside}");
    }
    for outside in [
        "example.com",
        "evilbanking.example.com",
        "banking.example.com.evil.com",
        "banking.example.org",
    ] {
        assert!(
            !Domain::parse(outside).unwrap().is_within(&entry),
            "{outside}"
        );
    }
}

#[test]
fn e164_parses_and_derives_its_own_calling_code() {
    let cn = E164::parse("+8613800000000").unwrap();
    let ru = E164::parse("+79991234567").unwrap();
    let china = CallingCode::parse("+86").unwrap();

    assert!(cn.starts_with(china));
    assert!(!ru.starts_with(china));
    assert_eq!(cn.digits(), "8613800000000");
    assert_eq!(cn.as_str(), "+8613800000000");
}

#[test]
fn e164_rejects_anything_a_dialler_could_misread() {
    for bad in [
        "8613800000000",
        "+",
        "+0123456",
        "+86 138 0000 0000",
        "+86-138",
        "+1234567890123456",
        "+86a",
        "",
    ] {
        assert!(E164::parse(bad).is_err(), "accepted {bad:?}");
    }
    assert_eq!(
        E164::parse("  +8613800000000 ").unwrap().digits(),
        "8613800000000"
    );
}

#[test]
fn calling_code_bounds() {
    assert!(CallingCode::new(0).is_err());
    assert!(CallingCode::new(1000).is_err());
    assert_eq!(CallingCode::parse("86").unwrap().as_u16(), 86);
    assert_eq!(
        CallingCode::parse("+86").unwrap(),
        CallingCode::new(86).unwrap()
    );
    assert!(CallingCode::parse("+086").is_err());
    assert_eq!(CallingCode::new(86).unwrap().to_text(), "+86");
}

#[test]
fn every_way_a_number_is_refused_is_named() {
    assert_eq!(E164::parse("8613800000000"), Err(PhoneError::MissingPlus));
    assert_eq!(E164::parse("+"), Err(PhoneError::Length(0)));
    assert_eq!(E164::parse("+0123456"), Err(PhoneError::LeadingZero));
    assert!(matches!(
        E164::parse("+86a"),
        Err(PhoneError::NotADigit('a'))
    ));
    assert_eq!(CallingCode::new(1000), Err(PhoneError::CallingCodeLength));
}

#[test]
fn email_parses_into_a_normalised_domain() {
    let addr = EmailAddress::parse("Lena.Wu+po@Supplier.Example.COM").unwrap();
    assert_eq!(addr.local(), "lena.wu+po");
    assert_eq!(addr.domain().as_str(), "supplier.example.com");
    assert_eq!(addr.to_text(), "lena.wu+po@supplier.example.com");

    for bad in [
        "lena",
        "@example.com",
        "lena@",
        "a@b@c.com",
        ".lena@x.com",
        "lena@localhost",
    ] {
        assert!(EmailAddress::parse(bad).is_err(), "accepted {bad:?}");
    }
}

#[test]
fn every_way_an_address_is_refused_is_named() {
    assert_eq!(EmailAddress::parse("lena"), Err(EmailError::Shape));
    assert!(matches!(
        EmailAddress::parse("lena@localhost"),
        Err(EmailError::Domain(_))
    ));
    assert_eq!(
        EmailAddress::parse("le na@example.com"),
        Err(EmailError::LocalCharset(' '))
    );
    assert_eq!(
        EmailAddress::parse("@example.com"),
        Err(EmailError::LocalLength)
    );
    assert_eq!(
        EmailAddress::parse(".lena@x.com"),
        Err(EmailError::LocalBoundary)
    );
    assert_eq!(
        EmailAddress::from_parts("Lena", Domain::parse("example.com"))
            .unwrap()
            .to_text(),
        "lena@example.com"
    );
}

#[test]
fn kind_covers_every_variant_exactly_once() {
    let mut seen = ActionKind::ALL.to_vec();
    seen.sort_unstable();
    seen.dedup();
    assert_eq!(seen.len(), ActionKind::ALL.len(), "duplicate discriminant");
    assert_eq!(Action::ALL_DISCRIMINANTS.len(), 17);
}

#[test]
fn talking_to_a_colleague_is_low_risk_and_has_no_counterparty() {
    let internal = Action::InternalSend {
        to: Slug::parse("bruno").unwrap(),
    };
    assert_eq!(internal.kind(), ActionKind::InternalSend);
    assert_eq!(internal.risk(), Risk::Low);
    assert_eq!(internal.kind().as_str(), "internal_send");
}

#[test]
fn promising_an_hour_names_nobody_and_is_low_risk() {
    let make: fn() -> Action = || Action::AppointmentBook {};
    let hour = make();
    assert_eq!(hour.kind(), ActionKind::AppointmentBook);
    assert_eq!(hour.risk(), Risk::Low);
    assert_eq!(hour.kind().as_str(), "appointment_book");
}

#[test]
fn a_root_dot_in_disguise_is_still_a_root_dot() {
    for hidden in ["printer.local%2E", "router.home.arpa%2e", "db.internal%2E%2E", "localhost%2E"] {
        assert!(Domain::parse(hidden).is_err(), "accepted {hidden:?}");
    }
    assert_eq!(
        Domain::from_host("printer.local%2E", Ok("printer.local.".to_owned())),
        Err(DomainError::NotPublic("printer.local".to_owned()))
    );
    assert_eq!(
        Domain::from_host("localhost%2E", Ok("localhost.".to_owned())),
        Err(DomainError::TooFewLabels("localhost".to_owned()))
    );
    assert_eq!(
        Domain::parse("banking.example.com%2E").unwrap(),
        Domain::parse("banking.example.com").unwrap()
    );
}

#[test]
fn a_plain_host_is_its_own_text_in_lower_case() {
    for (raw, name) in [
        ("MyLocal.COM", "mylocal.com"),
        ("local.orizn.app", "local.orizn.app"),
        (" A-1.b2.C3d. ", "a-1.b2.c3d"),
        ("1.a", "1.a"),
        ("a..B", "a..b"),
        ("-a.b-.0xyz", "-a.b-.0xyz"),
        ("XN--MNCHEN-3ya.DE", "xn--mnchen-3ya.de"),
        ("ab--cd.example", "ab--cd.example"),
    ] {
        let domain = Domain::parse(raw).unwrap();
        assert_eq!(domain.as_str(), name);
        assert_eq!(Domain::parse(domain.as_str()), Ok(domain));
    }
    for number in ["127.0.0.1", "a.0x1F", "a.0X", "1.2.3.4.5", "example.007", "a.99999999999"] {
        assert!(Domain::parse(number).is_err(), "accepted {number:?}");
    }
    for private in ["printer.LOCAL", "a.Internal.", "x.localhost", "home.arpa", "y.home.ARPA"] {
        assert!(
            matches!(Domain::parse(private), Err(DomainError::NotPublic(_))),
            "accepted {private:?}"
        );
    }
}
