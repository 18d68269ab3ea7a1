use genea_graph::api::{child_link_path, endpoint_url, new_person_path, people_path, person_path, relations_path, SERVER_ADDRESS};
use genea_graph::date::{default_birth_date, default_death_date, placeholder_birth_date, Date};
use genea_graph::decimal::{parse_u32, u32_to_string};

#[test]
fn decimal_text_of_numbers() {
    assert_eq!(u32_to_string(0), "0");
    assert_eq!(u32_to_string(7), "7");
    assert_eq!(u32_to_string(10), "10");
    assert_eq!(u32_to_string(1234), "1234");
    assert_eq!(u32_to_string(u32::MAX), "4294967295");
}

#[test]
fn parse_accepts_what_std_accepts() {
    assert_eq!(parse_u32("42"), Some(42));
    assert_eq!(parse_u32("+7"), Some(7));
    assert_eq!(parse_u32("007"), Some(7));
    assert_eq!(parse_u32("4294967295"), Some(u32::MAX));
    for s in ["", "+", "-1", "12a", " 1", "4294967296", "99999999999999999999", "node 0", "++1"] {
        assert_eq!(parse_u32(s), s.parse::<u32>().ok(), "{s}");
        assert_eq!(parse_u32(s), None, "{s}");
    }
}

#[test]
fn parse_of_printed_number_round_trips() {
    for n in [0u32, 1, 9, 10, 99, 100, 65535, 123456789, u32::MAX] {
        assert_eq!(parse_u32(&u32_to_string(n)), Some(n));
    }
}

#[test]
fn dates_that_exist() {
    assert_eq!(Date::from_ymd_opt(2015, 3, 14), Some(Date { year: 2015, month: 3, day: 14 }));
    assert!(Date::from_ymd_opt(2024, 2, 29).is_some());
    assert!(Date::from_ymd_opt(2000, 2, 29).is_some());
    assert!(Date::from_ymd_opt(-4, 2, 29).is_some());
    assert!(Date::from_ymd_opt(262142, 12, 31).is_some());
    assert!(Date::from_ymd_opt(-262143, 1, 1).is_some());
}

#[test]
fn dates_that_do_not_exist() {
    assert_eq!(Date::from_ymd_opt(2015, 0, 14), None);
    assert_eq!(Date::from_ymd_opt(2015, 2, 29), None);
    assert_eq!(Date::from_ymd_opt(1900, 2, 29), None);
    assert_eq!(Date::from_ymd_opt(2023, 4, 31), None);
    assert_eq!(Date::from_ymd_opt(2023, 13, 1), None);
    assert_eq!(Date::from_ymd_opt(2023, 1, 0), None);
    assert_eq!(Date::from_ymd_opt(400000, 1, 1), None);
    assert_eq!(Date::from_ymd_opt(-400000, 1, 1), None);
    assert_eq!(Date::from_ymd_opt(262143, 1, 1), None);
    assert_eq!(Date::from_ymd_opt(-262144, 12, 31), None);
}

#[test]
fn default_dates() {
    assert_eq!(default_death_date(), Date { year: 2024, month: 12, day: 6 });
    assert_eq!(default_birth_date(), Date { year: 2024, month: 12, day: 6 });
    assert_eq!(placeholder_birth_date(), Date { year: 1900, month: 1, day: 1 });
}

#[test]
fn server_paths() {
    assert_eq!(people_path(), "/people");
    assert_eq!(relations_path(), "/relations");
    assert_eq!(new_person_path(), "/person");
    assert_eq!(person_path(12), "/person/12");
    assert_eq!(child_link_path(3, 40), "/person/3/child/40");
    assert_eq!(SERVER_ADDRESS, "http://127.0.0.1:5000");
    assert_eq!(endpoint_url("/people"), "http://127.0.0.1:5000/people");
}
