use dundie_rewards::ledger::Ledger;
use dundie_rewards::model::{AuthenticationError, LedgerError, Person, PersonIn, Selection};
use dundie_rewards::report::RateTable;

fn rec(name: &str, dept: &str, role: &str, email: &str, currency: &str) -> PersonIn {
    PersonIn {
        name: name.to_string(),
        dept: dept.to_string(),
        role: role.to_string(),
        email: email.to_string(),
        currency: currency.to_string(),
    }
}

fn john() -> PersonIn {
    rec("John Doe", "Sales", "Salesman", "j@dm.com", "USD")
}

#[test]
fn import_creates_person_with_initial_balance() {
    let mut l = Ledger::new();
    let (p, created) = l.add_person(&john(), 1).unwrap();
    assert!(created);
    assert_eq!(p.name, "John Doe");
    let b = l.query_balance_by_person(&p).unwrap();
    assert_eq!(b.value, 500);
    let u = l.user_exists(&"john-doe".to_string()).unwrap();
    assert!(!u.superuser);
    assert_eq!(u.person_id, p.id);
}

#[test]
fn reimport_same_email_updates_in_place() {
    let mut l = Ledger::new();
    let (_, created) = l.add_person(&john(), 1).unwrap();
    assert!(created);
    let (p2, created2) = l
        .add_person(&rec("John Doe Update", "Sales", "Salesman", "j@dm.com", "USD"), 2)
        .unwrap();
    assert!(!created2);
    assert_eq!(p2.name, "John Doe Update");
    let stored = l.query_person(&Selection::ByEmail("j@dm.com".to_string()));
    assert_eq!(stored.len(), 1);
    assert_eq!(stored[0].name, "John Doe Update");
}

#[test]
fn reimport_does_not_reprovision_superuser() {
    let mut l = Ledger::new();
    l.add_person(&john(), 1).unwrap();
    let (_, created2) = l
        .add_person(&rec("John Doe", "Management", "Salesman", "j@dm.com", "USD"), 2)
        .unwrap();
    assert!(!created2);
    let u = l.user_exists(&"john-doe".to_string()).unwrap();
    assert!(!u.superuser, "superuser is set only at creation time");
    let b = l
        .query_balance_by_person(&l.query_person_by_id(0).unwrap())
        .unwrap();
    assert_eq!(b.value, 500, "no second initial balance on re-import");
}

#[test]
fn management_department_creates_superuser() {
    let mut l = Ledger::new();
    let (p, _) = l
        .add_person(&rec("Pam Beesly", "MANAGEMENT", "Secretary", "pam@dm.com", "USD"), 1)
        .unwrap();
    let u = l.user_exists(&"pam-beesly".to_string()).unwrap();
    assert!(u.superuser);
    assert_eq!(u.person_id, p.id);
}

#[test]
fn manager_role_starts_with_fewer_points() {
    let mut l = Ledger::new();
    let (p, _) = l
        .add_person(&rec("Michael Scott", "Management", "Manager", "m@dm.com", "USD"), 1)
        .unwrap();
    assert_eq!(l.query_balance_by_person(&p).unwrap().value, 100);
}

#[test]
fn generated_password_has_requested_length() {
    let pwd = dundie_rewards::credentials::generate_simple_password(8);
    assert_eq!(pwd.chars().count(), 8);
    let long = dundie_rewards::credentials::generate_simple_password(50);
    assert_eq!(long.chars().count(), 50);
}

#[test]
fn provisioned_username_is_a_slug() {
    let mut l = Ledger::new();
    l.add_person(&john(), 1).unwrap();
    // The username is not the raw name: it has been lowercased and hyphenated.
    assert!(l.user_exists(&"John Doe".to_string()).is_none());
    assert!(l.user_exists(&"john-doe".to_string()).is_some());
}

#[test]
fn invalid_email_is_rejected_before_mutation() {
    let mut l = Ledger::new();
    let r = l.add_person(&rec("Bad", "Sales", "Salesman", "a@b", "USD"), 1);
    assert_eq!(r.unwrap_err(), LedgerError::Validation);
    assert_eq!(l.query_person(&Selection::All).len(), 0);
}

#[test]
fn email_validator_accepts_and_rejects() {
    for good in ["test@test.com", "joe@doe.com", "a@b.pt"] {
        assert!(
            dundie_rewards::email::email_matches(good),
            "{} should be accepted",
            good
        );
    }
    for bad in ["test@.com", "@doe.com", "a@b", "", "plain text", "a@b..", "%%%@bc.com"] {
        assert!(
            !dundie_rewards::email::email_matches(bad),
            "{} should be rejected",
            bad
        );
    }
    // The form may sit inside a larger string, bounded by word boundaries.
    assert!(dundie_rewards::email::email_matches("contact: joe@doe.com here"));
}

#[test]
fn balance_equals_sum_of_movements() {
    let mut l = Ledger::new();
    let (p, _) = l.add_person(&john(), 1).unwrap();
    l.add_movement(&p, 40, None, 2).unwrap();
    l.add_movement(&p, -15, Some("boss".to_string()), 3).unwrap();
    let (balance, movements) = l.get_statement(p.id).unwrap();
    let total: i64 = movements.iter().map(|m| m.value).sum();
    assert_eq!(balance.value, total);
    assert_eq!(balance.value, 525);
}

#[test]
fn guard_rejects_overdraft_and_changes_nothing() {
    let mut l = Ledger::new();
    let (p, _) = l.add_person(&john(), 1).unwrap();
    let r = l.add_movement(&p, -600, Some("boss".to_string()), 2);
    assert_eq!(r.unwrap_err(), LedgerError::InsufficientBalance);
    let (balance, movements) = l.get_statement(p.id).unwrap();
    assert_eq!(balance.value, 500);
    assert_eq!(movements.len(), 1, "no movement row was appended");
}

#[test]
fn first_movement_is_exempt_from_the_guard() {
    // A person row that reached the store without provisioning has no
    // balance row; the guard is skipped for it.
    let mut l = Ledger::new();
    l.persons.push(Person {
        id: 0,
        email: "ghost@dm.com".to_string(),
        name: "Ghost".to_string(),
        role: "Salesman".to_string(),
        currency: "USD".to_string(),
        dept: "Sales".to_string(),
    });
    let p = l.query_person_by_id(0).unwrap();
    let b = l.add_movement(&p, -500, None, 1).unwrap();
    assert_eq!(b.value, -500);
}

#[test]
fn balance_total_never_overflows_silently() {
    let mut l = Ledger::new();
    let (p, _) = l.add_person(&john(), 1).unwrap();
    let r = l.add_movement(&p, i64::MAX - 400, None, 2);
    assert_eq!(r.unwrap_err(), LedgerError::Overflow);
    assert_eq!(l.query_balance_by_person(&p).unwrap().value, 500);
}

#[test]
fn report_converts_balance_at_rate() {
    let mut l = Ledger::new();
    l.add_person(&john(), 1).unwrap();
    let mut rates = RateTable::with_usd();
    // A rate of two units per point, in ten-thousandths.
    rates.add_rate("USD".to_string(), 20000);
    let rows = l.search(&Selection::All, &rates).unwrap();
    assert_eq!(rows.len(), 1);
    assert_eq!(rows[0].balance, 500);
    assert_eq!(rows[0].value, 10_000_000, "500 points at rate 2.0 is 1000.0");
    assert!(!rows[0].created);
}

#[test]
fn search_fails_without_a_rate() {
    let mut l = Ledger::new();
    l.add_person(&rec("Oscar", "Accounting", "Accountant", "o@dm.com", "BRL"), 1)
        .unwrap();
    let rates = RateTable::with_usd();
    let r = l.search(&Selection::All, &rates);
    assert_eq!(r.unwrap_err(), LedgerError::RateUnavailable);
}

#[test]
fn rate_table_lookup_and_replacement() {
    let mut t = RateTable::with_usd();
    assert_eq!(t.get_rate(&"USD".to_string()), Some(10000));
    assert_eq!(t.get_rate(&"BRL".to_string()), None);
    t.add_rate("BRL".to_string(), 52290);
    assert_eq!(t.get_rate(&"BRL".to_string()), Some(52290));
    t.add_rate("BRL".to_string(), 60000);
    assert_eq!(t.get_rate(&"BRL".to_string()), Some(60000));
    assert_eq!(t.get_rate(&"USD".to_string()), Some(10000));
}

#[test]
fn default_quote_fields() {
    assert_eq!(dundie_rewards::report::default_code(), "USD");
    assert_eq!(dundie_rewards::report::default_name(), "Dolar/Dolar");
}

#[test]
fn move_points_applies_to_whole_department() {
    let mut l = Ledger::new();
    l.add_person(&john(), 1).unwrap();
    l.add_person(&rec("Dwight Schrute", "Sales", "Salesman", "d@dm.com", "USD"), 2)
        .unwrap();
    l.add_person(&rec("Pam Beesly", "Management", "Manager", "pam@dm.com", "USD"), 3)
        .unwrap();
    let rates = RateTable::with_usd();
    let sel = Selection::ByDepartment("Sales".to_string());
    let rows = l
        .move_points(10, &"michael-scott".to_string(), &sel, &rates, 4)
        .unwrap();
    assert_eq!(rows.len(), 2);
    assert_eq!(rows[0].balance, 510);
    assert_eq!(rows[1].balance, 510);
    // The manager was not selected and keeps the initial 100 points.
    let pam = l.query_person(&Selection::ByEmail("pam@dm.com".to_string()));
    assert_eq!(l.query_balance_by_person(&pam[0]).unwrap().value, 100);
}

#[test]
fn move_points_aborts_batch_on_first_insufficient_leg() {
    let mut l = Ledger::new();
    l.add_person(&john(), 1).unwrap();
    l.add_person(&rec("Dwight Schrute", "Sales", "Salesman", "d@dm.com", "USD"), 2)
        .unwrap();
    let mut l2 = l; // drain John first so his leg fails
    let john_p = l2.query_person(&Selection::ByEmail("j@dm.com".to_string()))[0].duplicate();
    l2.add_movement(&john_p, -450, None, 3).unwrap();
    let rates = RateTable::with_usd();
    let sel = Selection::ByDepartment("Sales".to_string());
    let r = l2.move_points(-100, &"boss".to_string(), &sel, &rates, 4);
    assert_eq!(r.unwrap_err(), LedgerError::InsufficientBalance);
    // John's leg failed first, so Dwight's leg never ran.
    let dwight = l2.query_person(&Selection::ByEmail("d@dm.com".to_string()));
    assert_eq!(l2.query_balance_by_person(&dwight[0]).unwrap().value, 500);
}

#[test]
fn transfer_moves_points_and_records_the_actor() {
    let mut l = Ledger::new();
    let (a, _) = l.add_person(&john(), 1).unwrap();
    l.add_person(&rec("Dwight Schrute", "Sales", "Salesman", "d@dm.com", "USD"), 2)
        .unwrap();
    let user = l.user_exists(&"john-doe".to_string()).unwrap();
    let rates = RateTable::with_usd();
    let (sender, receiver) = l
        .transfer(&a, &user, 50, &"d@dm.com".to_string(), &rates, 3)
        .unwrap();
    assert_eq!(sender.balance, 450);
    assert_eq!(receiver.balance, 550);
    // Both new movements carry the acting user as actor.
    let (_, ms_a) = l.get_statement(a.id).unwrap();
    assert_eq!(ms_a.last().unwrap().actor, "john-doe");
    assert_eq!(ms_a.last().unwrap().value, -50);
    let dwight = l.query_person(&Selection::ByEmail("d@dm.com".to_string()))[0].duplicate();
    let (_, ms_b) = l.get_statement(dwight.id).unwrap();
    assert_eq!(ms_b.last().unwrap().actor, "john-doe");
    assert_eq!(ms_b.last().unwrap().value, 50);
}

#[test]
fn transfer_to_unknown_email_keeps_the_debit() {
    let mut l = Ledger::new();
    let (a, _) = l.add_person(&john(), 1).unwrap();
    let user = l.user_exists(&"john-doe".to_string()).unwrap();
    let rates = RateTable::with_usd();
    let r = l.transfer(&a, &user, 50, &"nobody@dm.com".to_string(), &rates, 2);
    assert_eq!(r.unwrap_err(), LedgerError::NotFound);
    assert_eq!(
        l.query_balance_by_person(&a).unwrap().value,
        450,
        "the debit is not reversed when the credit leg fails"
    );
}

#[test]
fn transfer_with_insufficient_funds_changes_nothing() {
    let mut l = Ledger::new();
    let (a, _) = l.add_person(&john(), 1).unwrap();
    l.add_person(&rec("Dwight Schrute", "Sales", "Salesman", "d@dm.com", "USD"), 2)
        .unwrap();
    let user = l.user_exists(&"john-doe".to_string()).unwrap();
    let rates = RateTable::with_usd();
    let r = l.transfer(&a, &user, 600, &"d@dm.com".to_string(), &rates, 3);
    assert_eq!(r.unwrap_err(), LedgerError::InsufficientBalance);
    assert_eq!(l.query_balance_by_person(&a).unwrap().value, 500);
}

#[test]
fn statement_lists_movements_oldest_first() {
    let mut l = Ledger::new();
    let (p, _) = l.add_person(&john(), 10).unwrap();
    l.add_movement(&p, 1, None, 20).unwrap();
    l.add_movement(&p, 2, None, 15).unwrap(); // clock never goes backwards
    let (_, ms) = l.get_statement(p.id).unwrap();
    assert_eq!(ms.iter().map(|m| m.value).collect::<Vec<_>>(), vec![500, 1, 2]);
    for w in ms.windows(2) {
        assert!(w[0].date <= w[1].date);
    }
    assert_eq!(ms[0].actor, "system");
}

#[test]
fn statement_of_unknown_person_fails() {
    let l = Ledger::new();
    assert_eq!(l.get_statement(7).unwrap_err(), LedgerError::NotFound);
}

#[test]
fn authentication_paths() {
    let mut l = Ledger::new();
    l.add_person(&john(), 1).unwrap();
    let u = l.user_exists(&"john-doe".to_string()).unwrap();
    // Right password.
    let (p, au) = l
        .authenticate_user(&"john-doe".to_string(), &u.password, false)
        .unwrap();
    assert_eq!(p.email, "j@dm.com");
    assert_eq!(au.username, "john-doe");
    // Wrong password.
    assert_eq!(
        l.authenticate_user(&"john-doe".to_string(), &"nope".to_string(), false)
            .unwrap_err(),
        AuthenticationError::UserNotAuthenticated
    );
    // Unknown username.
    assert_eq!(
        l.authenticate_user(&"nobody".to_string(), &"x".to_string(), false)
            .unwrap_err(),
        AuthenticationError::NotFound
    );
    // Missing superuser outranks a wrong password.
    assert_eq!(
        l.authenticate_user(&"john-doe".to_string(), &"nope".to_string(), true)
            .unwrap_err(),
        AuthenticationError::AccessDenied
    );
}

#[test]
fn verify_password_compares_exactly() {
    assert!(dundie_rewards::credentials::verify_password(
        &"abc".to_string(),
        &"abc".to_string()
    ));
    assert!(!dundie_rewards::credentials::verify_password(
        &"abc".to_string(),
        &"abd".to_string()
    ));
}

#[test]
fn join_filters_only_email() {
    let dept = None;
    let email = Some("t@t.com".to_string());
    match dundie_rewards::model::join_filters(&dept, &email) {
        Selection::ByEmail(e) => assert_eq!(e, "t@t.com"),
        _ => panic!("expected an email-only selection"),
    }
}

#[test]
fn join_filters_only_dept() {
    let email = None;
    let dept = Some("Sales".to_string());
    match dundie_rewards::model::join_filters(&dept, &email) {
        Selection::ByDepartment(d) => assert_eq!(d, "Sales"),
        _ => panic!("expected a department-only selection"),
    }
}

#[test]
fn join_filters_both_and_neither() {
    match dundie_rewards::model::join_filters(&None, &None) {
        Selection::All => {}
        _ => panic!("expected the all-persons selection"),
    }
    match dundie_rewards::model::join_filters(
        &Some("Sales".to_string()),
        &Some("t@t.com".to_string()),
    ) {
        Selection::ByEmailAndDepartment(e, d) => {
            assert_eq!(e, "t@t.com");
            assert_eq!(d, "Sales");
        }
        _ => panic!("expected both constraints"),
    }
}

#[test]
fn load_imports_a_batch() {
    let mut l = Ledger::new();
    let records = vec![
        john(),
        rec("Dwight Schrute", "Sales", "Salesman", "d@dm.com", "USD"),
        rec("John Doe Again", "Sales", "Salesman", "j@dm.com", "USD"),
    ];
    let rows = l.load(&records, 1).unwrap();
    assert_eq!(rows.len(), 3);
    assert!(rows[0].created);
    assert!(rows[1].created);
    assert!(!rows[2].created, "the third record re-uses the first email");
    assert_eq!(rows[2].balance, 500, "an update does not touch the balance");
    assert_eq!(rows[2].value, 0);
    assert_eq!(l.query_person(&Selection::All).len(), 2);
}

#[test]
fn load_stops_at_the_first_bad_record() {
    let mut l = Ledger::new();
    let records = vec![john(), rec("Bad", "Sales", "Salesman", "broken", "USD")];
    let r = l.load(&records, 1);
    assert_eq!(r.unwrap_err(), LedgerError::Validation);
    assert_eq!(
        l.query_person(&Selection::All).len(),
        1,
        "the record before the bad one stays imported"
    );
}

#[test]
fn currencies_are_listed_once_in_first_appearance_order() {
    let mut l = Ledger::new();
    l.add_person(&john(), 1).unwrap();
    l.add_person(&rec("Oscar", "Accounting", "Accountant", "o@dm.com", "BRL"), 2)
        .unwrap();
    l.add_person(&rec("Dwight Schrute", "Sales", "Salesman", "d@dm.com", "USD"), 3)
        .unwrap();
    assert_eq!(l.get_currencies(), vec!["USD".to_string(), "BRL".to_string()]);
}

#[test]
fn quote_record_holds_its_fields() {
    let q = dundie_rewards::report::USDRate {
        code: dundie_rewards::report::default_code(),
        codein: "BRL".to_string(),
        name: dundie_rewards::report::default_name(),
        value: "5.2290".to_string(),
    };
    assert_eq!(q.code, "USD");
    assert_eq!(q.value, "5.2290");
}

#[test]
fn quote_values_parse_to_fixed_point() {
    assert_eq!(dundie_rewards::report::rate_e4_of("1"), Some(10000));
    assert_eq!(dundie_rewards::report::rate_e4_of("2.0"), Some(20000));
    assert_eq!(dundie_rewards::report::rate_e4_of("5.1622"), Some(51622));
    assert_eq!(dundie_rewards::report::rate_e4_of("0.5"), Some(5000));
    assert_eq!(
        dundie_rewards::report::rate_e4_of("5.16229"),
        Some(51622),
        "digits beyond the fourth are cut off"
    );
    assert_eq!(dundie_rewards::report::rate_e4_of("5."), Some(50000));
    for bad in ["", ".5", "abc", "1e5", "-1", "1.2.3", "1,5"] {
        assert_eq!(dundie_rewards::report::rate_e4_of(bad), None, "{} is not a plain decimal", bad);
    }
    // A value too large for the fixed-point range is refused.
    assert_eq!(dundie_rewards::report::rate_e4_of("18446744073709551616"), None);
}

#[test]
fn quote_record_converts_itself() {
    let q = dundie_rewards::report::USDRate {
        code: "USD".to_string(),
        codein: "BRL".to_string(),
        name: "Dolar/Real".to_string(),
        value: "5.2290".to_string(),
    };
    assert_eq!(q.rate_e4(), Some(52290));
}
