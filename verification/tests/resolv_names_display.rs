use ip_generators::display::display_line;
use ip_generators::message::MessageToPrintOrigin;
use ip_generators::names::{address_text, comparable_in, digit_runs_fit_in, human_sort, names_comparable, names_to_record};
use ip_generators::generators::GeneratorDirection;
use ip_generators::resolv::{check_reserved, check_reserved_toward, ReservedResoult};

#[test]
fn public_addresses_are_checked() {
    assert!(check_reserved(0x0808_0808));
    assert!(check_reserved(0x0101_0101));
    assert!(check_reserved(0xDFFF_FFFF));
}

#[test]
fn reserved_blocks_are_not_checked() {
    assert!(!check_reserved(0x0A00_0001));
    assert!(!check_reserved(0x7F00_0001));
    assert!(!check_reserved(0xC0A8_0101));
    assert!(!check_reserved(0xAC10_0000));
    assert!(!check_reserved(0xE000_0000));
    assert!(!check_reserved(0xFFFF_FFFF));
    assert!(!check_reserved(0));
}

#[test]
fn numbers_past_the_space_are_not_checked() {
    assert!(!check_reserved(1u128 << 32));
    assert!(!check_reserved(u128::MAX));
}

#[test]
fn address_text_is_dotted_decimal() {
    assert_eq!(address_text(0x0A00_0001), "10.0.0.1");
    assert_eq!(address_text(0), "0.0.0.0");
    assert_eq!(address_text(u32::MAX), "255.255.255.255");
    assert_eq!(address_text(0xC0A8_0A64), "192.168.10.100");
}

#[test]
fn human_sort_orders_numbers_by_value() {
    let names: Vec<String> =
        vec!["file10.txt".to_string(), "file2.txt".to_string(), "file1.txt".to_string()];
    assert_eq!(human_sort(&names), vec!["file1.txt", "file2.txt", "file10.txt"]);
    assert_eq!(human_sort(&Vec::new()), Vec::<String>::new());
}

#[test]
fn names_that_are_the_address_are_not_recorded() {
    let names: Vec<String> = vec![
        "dns.google".to_string(),
        "8.8.8.8".to_string(),
        "a10".to_string(),
        "a9".to_string(),
    ];
    assert_eq!(names_to_record(0x0808_0808, &names), vec!["a9", "a10", "dns.google"]);
    let only_self: Vec<String> = vec!["8.8.8.8".to_string()];
    assert!(names_to_record(0x0808_0808, &only_self).is_empty());
}

#[test]
fn display_lines_start_with_the_origin() {
    assert_eq!(
        display_line(&MessageToPrintOrigin::MainThread, "[ x ]"),
        "[ @MAIN_THREAD      ][ x ]"
    );
    assert_eq!(
        display_line(&MessageToPrintOrigin::GeneratorThread, ""),
        "[ @GENERATOR_THREAD ]"
    );
    assert_eq!(
        display_line(&MessageToPrintOrigin::CustomThread("abc".to_string()), "m"),
        format!("[ @{: >17} ]m", "abc")
    );
    let long = "a".repeat(20);
    assert_eq!(
        display_line(&MessageToPrintOrigin::CustomThread(long.clone()), "m"),
        format!("[ @{} ]m", long)
    );
}

#[test]
fn numbers_in_names_must_fit_in_32_bits() {
    assert!(digit_runs_fit_in("host-4294967295.example"));
    assert!(!digit_runs_fit_in("host-4294967296.example"));
    assert!(!digit_runs_fit_in("12345678901"));
    assert!(digit_runs_fit_in("a1b2c3"));
    assert!(digit_runs_fit_in(""));
    assert!(digit_runs_fit_in("00000000000000000001"));
    let names: Vec<String> = vec!["host-1".to_string(), "host-99999999999".to_string()];
    assert!(!names_comparable(&names));
    assert!(names_comparable(&vec!["a1".to_string()]));
    assert!(names_comparable(&vec!["host-99999999999".to_string()]));
}

#[test]
fn only_numbers_a_comparison_reaches_must_fit() {
    assert!(comparable_in("a1", "b99999999999"));
    assert!(comparable_in("static-12345678901.isp.net", "static-12345678902.isp.net"));
    assert!(comparable_in("x99999999999", "x99999999999"));
    assert!(comparable_in("99999999999", "9999999999"));
    assert!(!comparable_in("n1", "n99999999999"));
    assert!(comparable_in("99999999999x", "99999999998y"));
    assert!(!comparable_in("99999999999x", "88888888888y"));
    let names: Vec<String> =
        vec!["static-12345678901.isp.net".to_string(), "other.example".to_string()];
    assert!(names_comparable(&names));
    assert_eq!(
        names_to_record(0x0808_0808, &names),
        vec!["other.example", "static-12345678901.isp.net"]
    );
}

#[test]
fn one_name_is_recorded_whatever_its_numbers() {
    let names: Vec<String> = vec!["static-12345678901.isp.net".to_string()];
    assert_eq!(names_to_record(0x0808_0808, &names), vec!["static-12345678901.isp.net"]);
}

#[test]
fn reserved_answers_depend_on_the_walk() {
    assert_eq!(check_reserved_toward(0x0808_0808, GeneratorDirection::Forward), ReservedResoult::Valid);
    assert_eq!(check_reserved_toward(0x0808_0808, GeneratorDirection::Random), ReservedResoult::Valid);
    assert_eq!(check_reserved_toward(1, GeneratorDirection::Forward), ReservedResoult::Skip(0x00FF_FFFF));
    assert_eq!(check_reserved_toward(0x0A00_0004, GeneratorDirection::Backward), ReservedResoult::Skip(5));
    assert_eq!(check_reserved_toward(0xFFFF_FFFF, GeneratorDirection::Forward), ReservedResoult::Skip(1));
    assert_eq!(check_reserved_toward(3, GeneratorDirection::Random), ReservedResoult::Invalid);
}
