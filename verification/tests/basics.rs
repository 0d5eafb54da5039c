use telltale_pf::address::addr_string;
use telltale_pf::config::{OutputMode, PipelineConfig};
use telltale_pf::db::{check_format, unreadable, DatabaseKind};
use telltale_pf::error::Error;
use telltale_pf::manifest::DatabaseSpec;
use telltale_pf::observation::{Endpoint, IpAddr, Transport};
use telltale_pf::session::SessionKey;
use telltale_pf::table::Table;
use telltale_pf::text::{
    copy_of, decimal_string, find, is_white_space, joined_by, parse_unsigned, split_on,
    split_on_at_most, to_lower, trimmed,
};
use telltale_pf::time::{Duration, Timestamp};

fn chars(text: &str) -> Vec<char> {
    text.chars().collect()
}

fn text_of(piece: &[char]) -> String {
    piece.iter().collect()
}

#[test]
fn white_space_is_what_unicode_says_it_is() {
    for code in 0..=0x10ffffu32 {
        if let Some(c) = char::from_u32(code) {
            assert_eq!(is_white_space(c), c.is_whitespace(), "{code:#x}");
        }
    }
}

#[test]
fn trimming_and_lower_case_match_the_standard_library() {
    for text in ["", "  ", " a b ", "\u{2003}x\u{a0}", "MiXeD \u{c4}"] {
        assert_eq!(text_of(trimmed(&chars(text))), text.trim());
        assert_eq!(text_of(&to_lower(&chars(text))), text.to_ascii_lowercase());
    }
}

#[test]
fn splitting_undoes_joining() {
    let pieces: Vec<String> = ["a", "", "bc"].iter().map(|s| copy_of(s)).collect();
    let joined = joined_by(&pieces, ",");
    assert_eq!(joined, "a,,bc");
    let split: Vec<String> = split_on(&chars(&joined), ',').into_iter().map(text_of).collect();
    assert_eq!(split, pieces);
    let some: Vec<String> =
        split_on_at_most(&chars("a:b:c:d"), 2, ':').into_iter().map(text_of).collect();
    assert_eq!(some, ["a", "b:c:d"]);
}

#[test]
fn numbers_read_back() {
    for n in [0, 7, 10, 65535, u64::MAX] {
        assert_eq!(decimal_string(n), n.to_string());
        assert_eq!(parse_unsigned(&chars(&decimal_string(n)), u64::MAX), Some(n));
    }
    assert_eq!(parse_unsigned(&chars("+5"), 9), Some(5));
    assert_eq!(parse_unsigned(&chars("10"), 9), None);
    for text in ["", "+", "-1", "1a", " 1", "18446744073709551616"] {
        assert_eq!(parse_unsigned(&chars(text), u64::MAX), None, "{text:?}");
    }
}

#[test]
fn the_first_occurrence_is_found() {
    assert_eq!(find(&chars("abcabc"), &chars("ca")), Some(2));
    assert_eq!(find(&chars("abc"), &chars("")), Some(0));
    assert_eq!(find(&chars("abc"), &chars("abcd")), None);
}

#[test]
fn addresses_are_written_in_their_usual_form() {
    assert_eq!(addr_string(IpAddr::v4(10, 0, 0, 255)), "10.0.0.255");
    let cases: [(u128, &str); 8] = [
        (0, "::"),
        (1, "::1"),
        (0x2001_0db8_0000_0000_0000_0000_0000_0001, "2001:db8::1"),
        (0xfe80_0000_0000_0000_0202_b3ff_fe1e_8329, "fe80::202:b3ff:fe1e:8329"),
        (0x0001_0000_0000_0002_0000_0000_0000_0003, "1:0:0:2::3"),
        (0x0001_0002_0003_0004_0005_0006_0007_0008, "1:2:3:4:5:6:7:8"),
        (0x0001_0000_0003_0004_0005_0006_0007_0008, "1:0:3:4:5:6:7:8"),
        (0x0000_0000_0000_0000_0000_ffff_c0a8_0101, "::ffff:192.168.1.1"),
    ];
    for (address, text) in cases {
        assert_eq!(addr_string(IpAddr::V6(address)), text);
    }
}

#[test]
fn endpoints_are_ordered_by_address_and_port() {
    let v4 = |last, port| Endpoint { addr: IpAddr::v4(10, 0, 0, last), port };
    assert!(v4(1, 9).is_before(&v4(2, 1)));
    assert!(v4(1, 1).is_before(&v4(1, 2)));
    assert!(!v4(1, 1).is_before(&v4(1, 1)));
    assert!(v4(255, 1).is_before(&Endpoint { addr: IpAddr::V6(0), port: 0 }));
    let key = SessionKey::new(v4(2, 1), v4(1, 9), Transport::Udp);
    assert_eq!(key.low, v4(1, 9));
    assert_ne!(key, SessionKey::new(v4(2, 1), v4(1, 9), Transport::Tcp));
}

#[test]
fn times_are_counted_from_the_epoch() {
    let later = Timestamp::after_epoch(3, 5);
    assert_eq!(later.duration_since(Timestamp::epoch()).unwrap().nanos, 3_000_000_005);
    assert_eq!(Timestamp::epoch().duration_since(later), None);
    assert_eq!(Duration::from_secs(2).nanos, 2_000_000_000);
}

#[test]
fn a_table_keeps_one_value_for_each_key() {
    let mut table: Table<String, u8> = Table::new();
    assert!(table.is_empty());
    table.insert("a".to_string(), 1);
    table.insert("b".to_string(), 2);
    table.insert("a".to_string(), 3);
    assert_eq!(table.len(), 2);
    assert_eq!(table.get(&"a".to_string()), Some(&3));
    *table.get_mut(&"b".to_string()).unwrap() = 4;
    assert_eq!(table.at(1), (&"b".to_string(), &4));
    assert_eq!(table.remove(&"a".to_string()), Some(3));
    assert_eq!(table.remove(&"a".to_string()), None);
    assert!(!table.contains(&"a".to_string()));
    assert_eq!(table.into_entries(), [("b".to_string(), 4)]);
}

#[test]
fn what_is_used_where_nothing_is_configured() {
    let config = PipelineConfig::default_for(Some(8));
    assert_eq!(config.manifest_dir, "methods/manifests");
    assert_eq!(config.session_timeout_secs, 30);
    assert_eq!(config.workers, 8);
    assert_eq!(config.output, OutputMode::PerSession);
    assert!(!config.both_directions);
    assert_eq!(config.session_timeout(), Duration::from_secs(30));
    assert_eq!(PipelineConfig::default_for(None).workers, 4);
}

#[test]
fn databases_in_another_format_are_refused() {
    let spec = |format: &str| DatabaseSpec { path: "p0f.fp".to_string(), format: format.to_string() };
    assert!(check_format("f0p", &spec("p0f"), DatabaseKind::P0f).is_ok());
    assert!(check_format("banner", &spec("rules"), DatabaseKind::Rules).is_ok());
    assert_eq!(
        check_format("f0p", &spec("csv"), DatabaseKind::P0f).unwrap_err().message(),
        "method `f0p` database: format `csv` not supported (expected one of [\"p0f\"])"
    );
    assert_eq!(
        unreadable("f0p", "p0f.fp", "gone").message(),
        "method `f0p` database: p0f.fp: gone"
    );
}

#[test]
fn errors_tell_what_went_wrong() {
    let text = |s: &str| s.to_string();
    let cases = [
        (Error::Capture(text("x")), "capture source failed: x"),
        (Error::Parse { layer: text("tcp"), reason: text("short") }, "could not parse tcp: short"),
        (
            Error::Manifest { path: text("a.yaml"), reason: text("bad") },
            "manifest `a.yaml`: bad",
        ),
        (Error::Yaml(text("yaml")), "yaml"),
        (Error::Io(text("io")), "io"),
    ];
    for (error, message) in cases {
        assert_eq!(error.message(), message);
    }
}
