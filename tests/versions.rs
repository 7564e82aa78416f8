use std::cmp::Ordering;
use vrc_get_vpm::package::PartialUnityVersion;
use vrc_get_vpm::version::{cmp_text, parse_range, parse_version, text_eq, Op, PreId};

#[test]
fn prerelease_sorts_below_release() {
    let beta = parse_version("1.2.0-beta").unwrap();
    let release = parse_version("1.2.0").unwrap();
    assert!(beta.precedes(&release));
    assert!(!release.precedes(&beta));
    assert_eq!(beta.cmp_precedence(&release), Ordering::Less);
}

#[test]
fn build_label_is_ignored_in_ordering() {
    let a = parse_version("1.2.3+build1").unwrap();
    let b = parse_version("1.2.3+build2").unwrap();
    assert_eq!(a.cmp_precedence(&b), Ordering::Equal);
    assert_eq!(a.build, "build1");
    assert_eq!(b.build, "build2");
}

#[test]
fn range_with_two_bounds() {
    let range = parse_range(">=1.2.0 <2.0.0").unwrap();
    assert_eq!(range.comparators.len(), 2);
    assert_eq!(range.comparators[0].op, Op::Ge);
    assert_eq!(range.comparators[1].op, Op::Lt);
    assert!(range.matches(&parse_version("1.2.3").unwrap()));
    assert!(!range.matches(&parse_version("2.0.0").unwrap()));
    assert!(!range.matches(&parse_version("1.1.9").unwrap()));
}

#[test]
fn empty_and_star_ranges_match_everything() {
    let v = parse_version("0.0.1-rc.1").unwrap();
    assert!(parse_range("").unwrap().matches(&v));
    assert!(parse_range("*").unwrap().matches(&v));
    assert_eq!(parse_range("*").unwrap().comparators.len(), 0);
}

#[test]
fn every_operator() {
    let v = parse_version("1.5.0").unwrap();
    assert!(parse_range("=1.5.0").unwrap().matches(&v));
    assert!(parse_range("<=1.5.0").unwrap().matches(&v));
    assert!(parse_range(">1.4.9").unwrap().matches(&v));
    assert!(!parse_range(">1.5.0").unwrap().matches(&v));
    assert!(!parse_range("<1.5.0").unwrap().matches(&v));
}

#[test]
fn version_fields_are_read() {
    let v = parse_version("10.20.30-alpha.7+exp.sha").unwrap();
    assert_eq!((v.major, v.minor, v.patch), (10, 20, 30));
    assert_eq!(v.pre.len(), 2);
    assert!(matches!(&v.pre[0], PreId::Alpha(s) if s == "alpha"));
    assert!(matches!(&v.pre[1], PreId::Numeric(7)));
    assert_eq!(v.build, "exp.sha");
}

#[test]
fn prerelease_field_order() {
    let numeric = parse_version("1.0.0-1").unwrap();
    let alpha = parse_version("1.0.0-alpha").unwrap();
    let alpha1 = parse_version("1.0.0-alpha.1").unwrap();
    let beta = parse_version("1.0.0-beta").unwrap();
    let two = parse_version("1.0.0-2").unwrap();
    let ten = parse_version("1.0.0-10").unwrap();
    assert!(numeric.precedes(&alpha));
    assert!(alpha.precedes(&alpha1));
    assert!(alpha1.precedes(&beta));
    assert!(two.precedes(&ten));
}

#[test]
fn numeric_fields_compare_numerically() {
    let a = parse_version("1.9.0").unwrap();
    let b = parse_version("1.10.0").unwrap();
    assert!(a.precedes(&b));
    assert_eq!(b.cmp_precedence(&a), Ordering::Greater);
}

#[test]
fn malformed_versions_are_rejected_with_their_text() {
    for text in ["1.2", "1.2.3.4", "a.b.c", "01.2.3", "1.2.3-", "1.2.3+", "1..3", "", "1.2.3 "] {
        let err = parse_version(text).unwrap_err();
        assert_eq!(err.text, text);
    }
    assert!(parse_version("18446744073709551616.0.0").is_err());
    assert!(parse_version("18446744073709551615.0.0").is_ok());
}

#[test]
fn malformed_ranges_are_rejected_with_their_text() {
    for text in [">=1.0", "1.0.0", ">=1.0.0  <2.0.0", "~1.0.0", ">=1.0.0 "] {
        let err = parse_range(text).unwrap_err();
        assert_eq!(err.text, text);
    }
}

#[test]
fn unity_version_parsing() {
    let v = PartialUnityVersion::parse("2022.3").unwrap();
    assert_eq!((v.major(), v.minor()), (2022, 3));
    let v = PartialUnityVersion::parse("2019").unwrap();
    assert_eq!((v.major(), v.minor()), (2019, 0));
    assert_eq!(PartialUnityVersion::parse("x.1").unwrap_err().text, "x.1");
    assert!(PartialUnityVersion::parse("70000.1").is_err());
    assert!(PartialUnityVersion::parse("2022.300").is_err());
    let v = PartialUnityVersion::parse(" 2019 . 4 ").unwrap();
    assert_eq!((v.major(), v.minor()), (2019, 4));
    let v = PartialUnityVersion::parse("2019.04").unwrap();
    assert_eq!((v.major(), v.minor()), (2019, 4));
    let v = PartialUnityVersion::parse("+5").unwrap();
    assert_eq!((v.major(), v.minor()), (5, 0));
    assert!(PartialUnityVersion::parse("2019.").is_err());
    assert!(PartialUnityVersion::parse("2019.4.1").is_err());
    assert!(PartialUnityVersion::parse("").is_err());
}

#[test]
fn text_comparisons() {
    assert!(text_eq("abc", "abc"));
    assert!(!text_eq("abc", "abd"));
    assert!(!text_eq("ab", "abc"));
    assert_eq!(cmp_text("ab", "abc"), Ordering::Less);
    assert_eq!(cmp_text("b", "abc"), Ordering::Greater);
    assert_eq!(cmp_text("", ""), Ordering::Equal);
}
