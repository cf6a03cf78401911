use std::str::FromStr;
use survey::branch::{Branch, BranchErr, Branches};
use survey::fixtures::br;
use survey::tracker::RepoSpec;

#[test]
fn correct_branchspecs() {
    assert_eq!(
        Branch::from_str("nixos-18.09").unwrap(),
        Branch {
            name: "nixos-18.09".into(),
            rev: "nixos-18.09".into()
        }
    );
    assert_eq!(
        Branch::from_str("nixos-18.09=55f4cd48").unwrap(),
        Branch {
            name: "nixos-18.09".into(),
            rev: "55f4cd48".into()
        }
    );
    assert_eq!(
        Branch::from_str("nixos-18.09=origin/release-18.09").unwrap(),
        Branch {
            name: "nixos-18.09".into(),
            rev: "origin/release-18.09".into()
        }
    );
}

#[test]
fn branchspec_invalid_chars() {
    assert!(Branch::from_str("nixos 18.09").is_err());
    assert!(Branch::from_str("origin/nixos-18.09").is_err());
}

#[test]
fn branchspec_empty() {
    assert!(Branch::from_str("nixos=").is_err());
    assert!(Branch::from_str("=abcdefg").is_err());
}

#[test]
fn branchspec_whitespace_in_revision() {
    assert!(Branch::from_str("a=b c").is_err());
    assert!(Branch::from_str("a=b\u{3000}c").is_err());
    assert!(Branch::from_str("a\u{0B}b").is_err());
    assert_eq!(Branch::from_str("a=b=c").unwrap().rev, "b=c");
    assert!(Branch::from_str("").is_err());
}

#[test]
fn no_duplicate_branch_names() {
    assert!(Branches::init(&vec![br("a"), br("b")]).is_ok());
    assert!(Branches::init(&vec![br("a"), br("b"), br("a")]).is_err());
}

#[test]
fn duplicate_branch_is_named() {
    let bs = vec![br("a"), Branch::from_str("b=1").unwrap(), Branch::from_str("b=2").unwrap()];
    match Branches::init(&bs) {
        Err(BranchErr::Duplicate { name }) => assert_eq!(name, "b"),
        _ => panic!("duplicate not reported"),
    }
    let ok = Branches::init(&vec![br("x"), Branch::from_str("y=z").unwrap()]).ok().unwrap();
    assert_eq!(ok.specs().len(), 2);
    assert_eq!(ok.specs()[1].rev, "z");
}

#[test]
fn repospec_parse() {
    assert_eq!(RepoSpec::new("foo", "bar"), "foo/bar".parse().unwrap());
    assert!("".parse::<RepoSpec>().is_err());
    assert!("/".parse::<RepoSpec>().is_err());
    assert!("/foo".parse::<RepoSpec>().is_err());
    assert!("foo/".parse::<RepoSpec>().is_err());
    assert!("foo/bar/".parse::<RepoSpec>().is_err());
}
