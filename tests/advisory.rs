use survey::advisory::{AdvErr, Advisory};
use survey::fixtures::adv;

fn cve(y: u16, n: u64) -> Advisory {
    Advisory::CVE { y, n }
}

#[test]
fn fmt_cve() {
    assert_eq!(cve(2019, 544).to_string(), "CVE-2019-0544");
    assert_eq!(cve(2019, 3544).to_string(), "CVE-2019-3544");
    assert_eq!(cve(2019, 1003544).to_string(), "CVE-2019-1003544");
}

#[test]
fn parse_cve() {
    assert_eq!(
        "CVE-2019-20484"
            .parse::<Advisory>()
            .expect("no parse error"),
        Advisory::CVE { y: 2019, n: 20484 }
    );
    assert!(matches!("".parse::<Advisory>(), Err(AdvErr::ParseCVE { .. })));
    assert!(matches!("foo".parse::<Advisory>(), Err(AdvErr::ParseCVE { .. })));
    assert!(matches!("CVE-20".parse::<Advisory>(), Err(AdvErr::ParseCVE { .. })));
    assert!(matches!("CVE-20-1".parse::<Advisory>(), Err(AdvErr::ParseCVE { .. })));
    assert!(matches!(
        "CVE-2014-".parse::<Advisory>(),
        Err(AdvErr::ParseCVE { .. })
    ));
}

#[test]
fn fmt_cve_small_numbers() {
    assert_eq!(cve(2020, 0).to_string(), "CVE-2020-0000");
    assert_eq!(cve(2020, 7).to_string(), "CVE-2020-0007");
    assert_eq!(cve(2020, 42).to_string(), "CVE-2020-0042");
    assert_eq!(cve(999, 12345).to_string(), "CVE-999-12345");
}

#[test]
fn parse_cve_edges() {
    assert_eq!(adv("CVE-2019-0001"), cve(2019, 1));
    assert_eq!(
        "CVE-2019-18446744073709551615".parse::<Advisory>().ok(),
        Some(cve(2019, u64::MAX))
    );
    assert!("CVE-2019-18446744073709551616".parse::<Advisory>().is_err());
    assert!("CVE-2019-99999999999999999999".parse::<Advisory>().is_err());
    assert!("CVE-19-1234".parse::<Advisory>().is_err());
    assert!("CVE-2019-12a4".parse::<Advisory>().is_err());
    assert!("CVE-2019-1234 ".parse::<Advisory>().is_err());
    assert!("cve-2019-1234".parse::<Advisory>().is_err());
}

#[test]
fn parse_cve_round_trip() {
    let a = cve(2018, 17100);
    assert_eq!(a.to_string().parse::<Advisory>().ok(), Some(a));
}
