use telltale_pf::consumer::{BatchConsumer, InferenceConsumer};
use telltale_pf::evidence::{Confidence, Evidence};
use telltale_pf::observation::{Endpoint, IpAddr};
use telltale_pf::profile::{attribute_key, Profile, ProfileStore, Verdict};
use telltale_pf::render::{render_line, render_text};

fn subject() -> Endpoint {
    Endpoint {
        addr: IpAddr::v4(10, 0, 0, 7),
        port: 50726,
    }
}

fn claim(method: &str, key: &str, value: &str, confidence: Confidence) -> Evidence {
    Evidence::new(method, subject(), key, value, confidence)
}

fn attribute(store: &ProfileStore, key: &str) -> String {
    let profile = store.get(&subject()).unwrap();
    profile.attributes.get(&key.to_string()).unwrap().value.clone()
}

#[test]
fn the_same_key_from_two_methods_is_kept_apart() {
    let mut store = ProfileStore::new();
    store.record(claim("f0p", "client", "Safari", Confidence::Likely));
    store.record(claim("banner", "client", "curl", Confidence::Strong));

    assert_eq!(attribute(&store, "f0p.client"), "Safari");
    assert_eq!(attribute(&store, "banner.client"), "curl");
}

#[test]
fn within_a_method_a_weaker_claim_does_not_replace_a_stronger_one() {
    let mut store = ProfileStore::new();
    store.record(claim("f0p", "os", "Linux", Confidence::Strong));
    store.record(claim("f0p", "os", "FreeBSD", Confidence::Weak));
    assert_eq!(attribute(&store, "f0p.os"), "Linux");

    store.record(claim("f0p", "os", "Linux 3.11", Confidence::Strong));
    assert_eq!(attribute(&store, "f0p.os"), "Linux 3.11");
}

#[test]
fn every_claim_is_kept_as_evidence() {
    let mut store = ProfileStore::new();
    store.record(claim("f0p", "os", "Linux", Confidence::Strong));
    store.record(claim("f0p", "os", "FreeBSD", Confidence::Weak));
    let profile = store.get(&subject()).unwrap();
    assert_eq!(profile.attributes.len(), 1);
    assert_eq!(profile.evidence.len(), 2);
    assert_eq!(profile.verdict, Verdict::Unknown);
    let other = Endpoint { addr: IpAddr::v4(10, 0, 0, 8), port: 50726 };
    assert!(store.get(&other).is_none());
    assert_eq!(attribute_key("f0p", "os"), "f0p.os");
}

#[test]
fn a_verdict_leaves_the_claims_alone() {
    let mut store = ProfileStore::new();
    store.record(claim("f0p", "os", "Linux", Confidence::Strong));
    store.set_verdict(subject(), Verdict::Scanner);
    let profile = store.get(&subject()).unwrap();
    assert_eq!(profile.verdict, Verdict::Scanner);
    assert_eq!(profile.evidence.len(), 1);
}

#[test]
fn claims_in_parts_make_the_profile_they_make_at_once() {
    let one = || claim("f0p", "os", "Linux", Confidence::Weak);
    let two = || claim("banner", "client", "curl", Confidence::Strong);
    let at_once = BatchConsumer::consume(vec![vec![one(), two()]]);
    let apart = BatchConsumer::consume(vec![vec![one()], vec![], vec![two()]]);
    let mut streamed = ProfileStore::new();
    InferenceConsumer::consume_streaming(&mut streamed, &vec![one()]);
    InferenceConsumer::consume_streaming(&mut streamed, &vec![two()]);
    assert_eq!(render_text(&at_once), render_text(&apart));
    assert_eq!(render_text(&at_once), render_text(&streamed));
    assert_eq!(streamed.iter().len(), 1);
}

#[test]
fn an_empty_store_says_so() {
    assert_eq!(render_text(&ProfileStore::new()), "no profiles\n");
}

#[test]
fn scanners_are_rendered_first() {
    let mut store = ProfileStore::new();
    store.record(claim("f0p", "os", "Linux", Confidence::Strong));
    let scanner = Endpoint { addr: IpAddr::v4(10, 0, 0, 9), port: 1 };
    store.record(Evidence::new("banner", scanner, "client", "Nmap", Confidence::Likely));
    store.set_verdict(scanner, Verdict::Scanner);
    let text = render_text(&store);
    let first = text.find("10.0.0.9:1").unwrap();
    let second = text.find("10.0.0.7:50726").unwrap();
    assert!(first < second, "{text}");
    assert_eq!(
        text,
        "10.0.0.9:1 [SCANNER]\n  banner.client        Nmap (Likely)\n\
         10.0.0.7:50726 [unknown]\n  f0p.os               Linux (Strong)\n"
    );
}

#[test]
fn a_profile_in_one_line() {
    let mut store = ProfileStore::new();
    store.record(claim("f0p", "os", "Linux", Confidence::Strong));
    store.record(claim("banner", "client", "curl", Confidence::Strong));
    store.record(claim("f0p", "os", "Other", Confidence::Weak));
    let profile = store.get(&subject()).unwrap();
    assert_eq!(
        render_line(&subject(), profile),
        "10.0.0.7:50726 unknown banner.client=curl f0p.os=Linux (2 attrs, 3 evidence)"
    );
    assert_eq!(
        render_line(&subject(), &Profile::default()),
        "10.0.0.7:50726 unknown (0 attrs, 0 evidence)"
    );
}

#[test]
fn a_provisional_claim_is_marked() {
    let guess = claim("f0p", "os", "Linux", Confidence::Weak);
    assert!(!guess.provisional);
    let guess = guess.provisional();
    assert!(guess.provisional);
    assert!(!guess.marked(false).provisional);
    assert!(Confidence::Strong.exceeds(Confidence::Likely));
    assert!(!Confidence::Weak.exceeds(Confidence::Weak));
}

#[test]
fn a_provisional_claim_shows_that_it_is_one() {
    let settled = claim("f0p", "os", "Linux", Confidence::Weak);
    let mut firm = ProfileStore::new();
    firm.record(settled.clone());
    let mut open = ProfileStore::new();
    open.record(settled.provisional());

    assert_eq!(
        render_text(&firm),
        "10.0.0.7:50726 [unknown]\n  f0p.os               Linux (Weak)\n"
    );
    assert_eq!(
        render_text(&open),
        "10.0.0.7:50726 [unknown]\n  f0p.os               Linux (Weak) (provisional)\n"
    );
    assert_eq!(
        render_line(&subject(), firm.get(&subject()).unwrap()),
        "10.0.0.7:50726 unknown f0p.os=Linux (1 attrs, 1 evidence)"
    );
    assert_eq!(
        render_line(&subject(), open.get(&subject()).unwrap()),
        "10.0.0.7:50726 unknown f0p.os=Linux (provisional) (1 attrs, 1 evidence)"
    );

    // Once it is settled, the mark goes.
    open.record(claim("f0p", "os", "Linux", Confidence::Weak));
    assert_eq!(render_text(&open), render_text(&firm));
}

#[test]
fn the_store_holds_the_updates_that_came() {
    let updates = vec![
        vec![
            claim("f0p", "os", "Linux", Confidence::Weak),
            claim("f0p", "distance", "3", Confidence::Strong),
        ],
        vec![],
        vec![claim("f0p", "os", "FreeBSD", Confidence::Likely)],
    ];
    let values = |store: &ProfileStore| -> Vec<String> {
        store.get(&subject()).unwrap().evidence.iter().map(|e| e.value.clone()).collect()
    };
    let mut store = ProfileStore::new();
    let expected: [&[&str]; 3] =
        [&["Linux", "3"], &["Linux", "3"], &["Linux", "3", "FreeBSD"]];
    for (update, expected) in updates.iter().zip(expected) {
        InferenceConsumer::consume_streaming(&mut store, update);
        assert_eq!(values(&store), expected);
    }
    let whole = BatchConsumer::consume(updates);
    assert_eq!(values(&whole), values(&store));
    assert_eq!(render_text(&whole), render_text(&store));
    assert_eq!(attribute(&store, "f0p.os"), "FreeBSD");
}
