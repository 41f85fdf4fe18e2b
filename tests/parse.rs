use pkginfo::assemble::{parse_pkginfo, ParseError, ParseOutcome};
use pkginfo::package::{Entry, Metadata, MetadataMap, Package};
use pkginfo::tokenizer::{tokenize, Lexing, Token};

fn text(s: &str) -> Metadata {
    Metadata::Text(s.to_string())
}

fn list(items: &[&str]) -> Metadata {
    Metadata::List(items.iter().map(|s| s.to_string()).collect())
}

fn package(name: &str, version: &str, arch: &str, metadata: MetadataMap) -> Package {
    Package {
        name: name.to_string(),
        version: version.to_string(),
        arch: arch.to_string(),
        metadata,
    }
}

#[test]
fn test_name_parser() {
    let pkginfo = b"# Generated by makepkg 5.0.1
# using fakeroot version 1.21
# Sun Oct 30 16:09:47 UTC 2016
pkgname = repose-git
pkgver = 6.2.10.gbab93f3-1
pkgdesc = A archlinux repo building tool
url = http://github.com/vodik/repose
builddate = 1477843787
packager = Simon Gomizelj <simongmzlj@gmail.com>
size = 63488
arch = x86_64
license = GPL
conflict = repose
provides = repose
depend = pacman
depend = libarchive
depend = gnupg
makedepend = git
makedepend = ragel
";

    let mut metadata = MetadataMap::new();
    metadata.insert(Entry::InstallSize, Metadata::Size(63488));
    metadata.insert(Entry::Conflicts, list(&["repose"]));
    metadata.insert(Entry::Provides, list(&["repose"]));
    metadata.insert(Entry::Depends, list(&["pacman", "libarchive", "gnupg"]));
    metadata.insert(Entry::Url, text("http://github.com/vodik/repose"));
    metadata.insert(Entry::License, list(&["GPL"]));
    metadata.insert(Entry::Description, text("A archlinux repo building tool"));
    metadata.insert(Entry::Packager, text("Simon Gomizelj <simongmzlj@gmail.com>"));
    metadata.insert(Entry::BuildDate, Metadata::Timestamp(1477843787));
    metadata.insert(Entry::MakeDepends, list(&["git", "ragel"]));

    let pkg = package("repose-git", "6.2.10.gbab93f3-1", "x86_64", metadata);

    let res = parse_pkginfo(pkginfo);
    println!("{:#?}", res);
    assert_eq!(res, ParseOutcome::Done(&b""[..], Some(pkg)));
}

#[test]
fn test_pkginfo_with_backup() {
    let pkginfo = b"pkgname = test-backup
pkgver = 1
arch = any
backup = etc/example/conf
";

    let mut metadata = MetadataMap::new();
    metadata.insert(Entry::Backups, list(&["etc/example/conf"]));

    let pkg = package("test-backup", "1", "any", metadata);

    let res = parse_pkginfo(pkginfo);
    assert_eq!(res, ParseOutcome::Done(&b""[..], Some(pkg)));
}

#[test]
fn test_invalid_pkginfo_entry() {
    let pkginfo = b"pkgname = test-invalid-entry
pkgver = 1
badentry = etc/example/conf
";

    let pkginfo_left = &b"badentry = etc/example/conf\n"[..];
    let pkg = package("test-invalid-entry", "1", "", MetadataMap::new());

    let res = parse_pkginfo(pkginfo);
    assert_eq!(res, ParseOutcome::Done(pkginfo_left, Some(pkg)));
}

#[test]
fn test_empty_pkginfo_entry() {
    let pkginfo = b"pkgname = unspecified-url
pkgver = 1
url =
";

    let mut metadata = MetadataMap::new();
    metadata.insert(Entry::Url, text(""));

    let pkg = package("unspecified-url", "1", "", metadata);

    let res = parse_pkginfo(pkginfo);
    println!("{:#?}", res);
    assert_eq!(res, ParseOutcome::Done(&b""[..], Some(pkg)));
}

#[test]
fn test_makepkgopt() {
    let pkginfo = b"pkgname = test-makepkgopts
pkgver = 1
makepkgopt = strip
makepkgopt = !debug
";

    let mut metadata = MetadataMap::new();
    metadata.insert(Entry::BuildOptions, list(&["strip", "!debug"]));

    let pkg = package("test-makepkgopts", "1", "", metadata);

    let res = parse_pkginfo(pkginfo);
    println!("{:#?}", res);
    assert_eq!(res, ParseOutcome::Done(&b""[..], Some(pkg)));
}

#[test]
fn minimal_record() {
    let res = parse_pkginfo(b"pkgname = foo\npkgver = 1\n");
    let pkg = package("foo", "1", "", MetadataMap::new());
    assert_eq!(res, ParseOutcome::Done(&b""[..], Some(pkg)));
}

#[test]
fn repeated_depends_keep_order() {
    let res = parse_pkginfo(b"pkgname = a\npkgver = 1\ndepend = x\ndepend = y\n");
    match res {
        ParseOutcome::Done(rest, Some(pkg)) => {
            assert!(rest.is_empty());
            assert_eq!(pkg.metadata.get(Entry::Depends), Some(&list(&["x", "y"])));
        }
        other => panic!("unexpected outcome {:?}", other),
    }
}

#[test]
fn list_values_in_file_order_across_other_lines() {
    let input = b"pkgname = a\ndepend = z\npkgver = 1\ngroup = g\ndepend = b\n# c\ndepend = m\n";
    match parse_pkginfo(input) {
        ParseOutcome::Done(_, Some(pkg)) => {
            assert_eq!(pkg.metadata.get(Entry::Depends), Some(&list(&["z", "b", "m"])));
            assert_eq!(pkg.metadata.get(Entry::Groups), Some(&list(&["g"])));
            assert_eq!(pkg.metadata.get(Entry::Provides), None);
        }
        other => panic!("unexpected outcome {:?}", other),
    }
}

#[test]
fn size_is_an_integer() {
    let res = parse_pkginfo(b"pkgname = a\npkgver = 1\nsize = 63488\n");
    match res {
        ParseOutcome::Done(_, Some(pkg)) => {
            assert_eq!(pkg.metadata.get(Entry::InstallSize), Some(&Metadata::Size(63488)));
        }
        other => panic!("unexpected outcome {:?}", other),
    }
}

#[test]
fn negative_timestamp() {
    let res = parse_pkginfo(b"pkgname = a\npkgver = 1\nbuilddate = -42\n");
    match res {
        ParseOutcome::Done(_, Some(pkg)) => {
            assert_eq!(pkg.metadata.get(Entry::BuildDate), Some(&Metadata::Timestamp(-42)));
        }
        other => panic!("unexpected outcome {:?}", other),
    }
}

#[test]
fn unknown_key_stops_with_remainder() {
    let res = parse_pkginfo(b"pkgname = a\npkgver = 1\nbadkey = z\n");
    let pkg = package("a", "1", "", MetadataMap::new());
    assert_eq!(res, ParseOutcome::Done(&b"badkey = z\n"[..], Some(pkg)));
}

#[test]
fn lines_after_unknown_key_are_not_read() {
    let input = b"pkgname = a\nbadkey = z\npkgver = 1\n";
    assert_eq!(
        parse_pkginfo(input),
        ParseOutcome::Done(&b"badkey = z\npkgver = 1\n"[..], None)
    );
    match tokenize(input) {
        Lexing::Done(tokens, at) => {
            assert_eq!(tokens, vec![Token::Name("a".to_string())]);
            assert_eq!(at, 12);
        }
        _ => panic!("tokenizing should stop cleanly"),
    }
}

#[test]
fn empty_url_is_a_value() {
    let res = parse_pkginfo(b"pkgname = a\npkgver = 1\nurl =\n");
    match res {
        ParseOutcome::Done(_, Some(pkg)) => {
            assert_eq!(pkg.metadata.get(Entry::Url), Some(&text("")));
        }
        other => panic!("unexpected outcome {:?}", other),
    }
}

#[test]
fn missing_name_gives_no_record() {
    let res = parse_pkginfo(b"pkgver = 1\ndepend = x\nurl = u\nsize = 3\n");
    assert_eq!(res, ParseOutcome::Done(&b""[..], None));
}

#[test]
fn missing_version_gives_no_record() {
    let res = parse_pkginfo(b"pkgname = a\narch = any\n");
    assert_eq!(res, ParseOutcome::Done(&b""[..], None));
    assert_eq!(Package::pkginfo(b"pkgname = a\n"), None);
}

#[test]
fn arch_defaults_to_empty() {
    match parse_pkginfo(b"pkgname = a\npkgver = 2\nlicense = MIT\n") {
        ParseOutcome::Done(_, Some(pkg)) => assert_eq!(pkg.arch, ""),
        other => panic!("unexpected outcome {:?}", other),
    }
}

#[test]
fn last_name_wins() {
    match parse_pkginfo(b"pkgname = a\npkgname = b\npkgver = 1\narch = x\narch = y\n") {
        ParseOutcome::Done(_, Some(pkg)) => {
            assert_eq!(pkg.name, "b");
            assert_eq!(pkg.arch, "y");
        }
        other => panic!("unexpected outcome {:?}", other),
    }
}

#[test]
fn separator_spacing_is_optional() {
    let res = parse_pkginfo(b"pkgname=a\npkgver\t=  1 \n\n\nurl= u\n");
    let mut metadata = MetadataMap::new();
    metadata.insert(Entry::Url, text("u"));
    let pkg = package("a", "1 ", "", metadata);
    assert_eq!(res, ParseOutcome::Done(&b""[..], Some(pkg)));
}

#[test]
fn utf8_value_is_decoded() {
    let res = parse_pkginfo("pkgname = a\npkgver = 1\npkgdesc = caf\u{e9} \u{2603}\n".as_bytes());
    match res {
        ParseOutcome::Done(_, Some(pkg)) => {
            assert_eq!(pkg.metadata.get(Entry::Description), Some(&text("caf\u{e9} \u{2603}")));
        }
        other => panic!("unexpected outcome {:?}", other),
    }
}

#[test]
fn invalid_utf8_fails() {
    let res = parse_pkginfo(b"pkgname = a\xff\npkgver = 1\n");
    assert_eq!(res, ParseOutcome::Failed(ParseError::InvalidText));
}

#[test]
fn malformed_size_fails() {
    let res = parse_pkginfo(b"pkgname = a\npkgver = 1\nsize = 12k\n");
    assert_eq!(res, ParseOutcome::Failed(ParseError::MalformedNumber));
    let res = parse_pkginfo(b"pkgname = a\npkgver = 1\nsize = -1\n");
    assert_eq!(res, ParseOutcome::Failed(ParseError::MalformedNumber));
}

#[test]
fn repeated_scalar_field_fails() {
    let res = parse_pkginfo(b"pkgname = a\npkgver = 1\nurl = x\nurl = y\n");
    assert_eq!(res, ParseOutcome::Failed(ParseError::DuplicateScalarField));
}

#[test]
fn missing_line_break_is_incomplete() {
    assert_eq!(parse_pkginfo(b"pkgname = a\npkgver = 1"), ParseOutcome::Incomplete);
    assert_eq!(parse_pkginfo(b"# just a comment"), ParseOutcome::Incomplete);
}

#[test]
fn empty_input_gives_no_record() {
    assert_eq!(parse_pkginfo(b""), ParseOutcome::Done(&b""[..], None));
}

#[test]
fn strict_entry_point() {
    let pkg = Package::pkginfo(b"pkgname = a\npkgver = 1\narch = any\n").unwrap();
    assert_eq!(pkg.name, "a");
    assert_eq!(pkg.version, "1");
    assert_eq!(pkg.arch, "any");
    assert_eq!(Package::pkginfo(b"pkgname = a\npkgver = 1\nbadkey = z\n"), None);
    assert_eq!(Package::pkginfo(b"pkgname = a\npkgver = 1\nsize = x\n"), None);
}

#[test]
fn options_and_makepkgopt_share_a_field() {
    match parse_pkginfo(b"pkgname = a\npkgver = 1\noptions = strip\nmakepkgopt = !debug\n") {
        ParseOutcome::Done(_, Some(pkg)) => {
            assert_eq!(pkg.metadata.get(Entry::BuildOptions), Some(&list(&["strip", "!debug"])));
        }
        other => panic!("unexpected outcome {:?}", other),
    }
}

fn write_back(pkg: &Package) -> String {
    let fields = [
        (Entry::Base, "pkgbase"),
        (Entry::Description, "pkgdesc"),
        (Entry::Url, "url"),
        (Entry::BuildDate, "builddate"),
        (Entry::Packager, "packager"),
        (Entry::InstallSize, "size"),
        (Entry::Groups, "group"),
        (Entry::License, "license"),
        (Entry::Replaces, "replaces"),
        (Entry::Depends, "depend"),
        (Entry::Conflicts, "conflict"),
        (Entry::Provides, "provides"),
        (Entry::OptDepends, "optdepend"),
        (Entry::MakeDepends, "makedepend"),
        (Entry::CheckDepends, "checkdepend"),
        (Entry::Backups, "backup"),
        (Entry::BuildOptions, "makepkgopt"),
        (Entry::BuildDirectory, "builddir"),
        (Entry::BuildEnvironment, "buildenv"),
        (Entry::SHA256Sum, "pkgbuild_sha256sum"),
        (Entry::BuildInstalled, "installed"),
    ];
    let mut out = format!(
        "pkgname = {}\npkgver = {}\narch = {}\n",
        pkg.name, pkg.version, pkg.arch
    );
    for (entry, key) in fields.iter() {
        match pkg.metadata.get(*entry) {
            Some(Metadata::Text(v)) => out.push_str(&format!("{} = {}\n", key, v)),
            Some(Metadata::Size(n)) => out.push_str(&format!("{} = {}\n", key, n)),
            Some(Metadata::Timestamp(t)) => out.push_str(&format!("{} = {}\n", key, t)),
            Some(Metadata::List(items)) => {
                for v in items {
                    out.push_str(&format!("{} = {}\n", key, v));
                }
            }
            None => {}
        }
    }
    out
}

#[test]
fn written_back_record_parses_the_same() {
    let input = b"# a comment\npkgname = p\npkgver=2-1\ndepend = b\nsize = +0070\nbuilddate = -3\nurl = x y \noptions = o1\ndepend = a\n";
    let first = match parse_pkginfo(input) {
        ParseOutcome::Done(rest, Some(pkg)) => {
            assert!(rest.is_empty());
            pkg
        }
        other => panic!("unexpected outcome {:?}", other),
    };
    let text = write_back(&first);
    let again = parse_pkginfo(text.as_bytes());
    assert_eq!(again, ParseOutcome::Done(&b""[..], Some(first)));
}
