use telltale_pf::observation::IpAddr;
use telltale_pf::pick::{answer, before_asking, menu, parse_choice, prompt, row, Answer};
use telltale_pf::source::InterfaceInfo;

fn interface(name: &str, description: &str, addresses: Vec<IpAddr>) -> InterfaceInfo {
    InterfaceInfo {
        name: name.to_string(),
        description: description.to_string(),
        addresses,
    }
}

fn two() -> Vec<InterfaceInfo> {
    vec![
        interface("lo", "", vec![IpAddr::v4(127, 0, 0, 1), IpAddr::V6(1)]),
        interface("eth0", "Ethernet adapter", vec![]),
    ]
}

#[test]
fn numbers_are_one_based_and_whitespace_is_ignored() {
    assert_eq!(parse_choice("1\n", 3), Some(0));
    assert_eq!(parse_choice("  3 \r\n", 3), Some(2));
}

#[test]
fn anything_outside_the_list_is_rejected() {
    for input in ["0", "4", "-1", "", "eth0", "1.5"] {
        assert_eq!(parse_choice(input, 3), None, "{input:?}");
    }
}

#[test]
fn every_listed_number_is_a_choice() {
    for number in 1..=12usize {
        assert_eq!(parse_choice(&number.to_string(), 12), Some(number - 1));
        assert_eq!(parse_choice(&format!("\u{a0}+{number}\t"), 12), Some(number - 1));
    }
    assert_eq!(parse_choice("18446744073709551616", usize::MAX), None);
}

#[test]
fn rows_show_the_description_and_the_addresses() {
    let interfaces = two();
    assert_eq!(row(&interfaces[0]), "lo  [127.0.0.1, ::1]");
    assert_eq!(row(&interfaces[1]), "Ethernet adapter");
    assert_eq!(interfaces[0].display(), "lo");
    assert_eq!(interfaces[1].display(), "eth0 (Ethernet adapter)");
}

#[test]
fn the_menu_numbers_the_interfaces() {
    assert_eq!(
        menu(&two()),
        "Interfaces:\n   1) lo  [127.0.0.1, ::1]\n   2) Ethernet adapter\n"
    );
    let many: Vec<InterfaceInfo> = (0..10).map(|_| interface("e", "", vec![])).collect();
    assert!(menu(&many).ends_with("   9) e\n  10) e\n"));
    assert_eq!(prompt(2), "Capture on which interface? [1-2]: ");
}

#[test]
fn nobody_is_asked_in_vain() {
    assert!(before_asking(&two(), true).is_ok());
    assert_eq!(
        before_asking(&two(), false).unwrap_err().message(),
        "capture source failed: no --interface given and no terminal to ask on; \
         pass one of: lo, eth0 (Ethernet adapter)"
    );
    assert_eq!(
        before_asking(&vec![], true).unwrap_err().message(),
        "capture source failed: no capture interfaces found on this host"
    );
}

#[test]
fn an_answer_is_a_choice_or_is_asked_again() {
    match answer(Some("2\n"), &two()).unwrap() {
        Answer::Chosen { name, note } => {
            assert_eq!(name, "eth0");
            assert_eq!(note, "Capturing on eth0 (pass `-i eth0` to skip this prompt)");
        }
        Answer::Again(_) => unreachable!(),
    }
    match answer(Some("3"), &two()).unwrap() {
        Answer::Again(note) => assert_eq!(note, "Enter a number from 1 to 2."),
        Answer::Chosen { .. } => unreachable!(),
    }
    assert_eq!(
        answer(None, &two()).unwrap_err().message(),
        "capture source failed: no interface chosen"
    );
}
