use nog::local_db::parse_desc;

const DESC: &str = "\
%NAME%
libbluray

%VERSION%
1.4.1-1

%DEPENDS%
glibc
libxml2

%PROVIDES%
libbluray.so=3-64
";

#[test]
fn reads_name_provides_and_depends() {
    let (name, d) = parse_desc(DESC).expect("desc should parse");
    assert_eq!(name, "libbluray");
    assert_eq!(d.provides, vec!["libbluray.so=3-64"]);
    assert_eq!(d.depends, vec!["glibc", "libxml2"]);
}

#[test]
fn multi_value_fields_do_not_bleed_into_each_other() {
    // The bug this guards: treating every line after %DEPENDS% as a
    // dependency until end of file, swallowing %PROVIDES% with it.
    let (_, d) = parse_desc(DESC).unwrap();
    assert!(
        !d.depends.iter().any(|x| x.contains(".so=")),
        "a soname leaked from %PROVIDES% into %DEPENDS%"
    );
}

#[test]
fn missing_fields_are_empty_not_fatal() {
    let (name, d) = parse_desc("%NAME%\nfoo\n").unwrap();
    assert_eq!(name, "foo");
    assert!(d.provides.is_empty());
    assert!(d.depends.is_empty());
}

#[test]
fn no_name_is_no_entry() {
    assert!(parse_desc("%PROVIDES%\nlibfoo.so=1-64\n").is_none());
}

