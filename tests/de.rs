use std::collections::BTreeMap;

use stanza_de::de::Deserializer;
use stanza_de::error::Error;

const S: &str = r#"



Origin: Debian
Architectures: all amd64 arm64 armel armhf i386 mips64el ppc64el riscv64 s390x
Components: main contrib non-free-firmware non-free
Description: Experimental packages - not released; use at your own risk.
MD5Sum:
 3cc222d6694b2de9734c081122a17cb3  3030586 contrib/Contents-all
 1f7d9d3e63b59533f6f5dadc83e71cc7    63339 contrib/Contents-all.diff/Index
 aa5dc8f6f4ab68b4e5b76df04a0532c4   291019 contrib/Contents-all.gz
 55a5553654b03c6a75cd61f79a31257e   271634 contrib/Contents-amd64
 ed5005daa6257830e623e78691c29475    63339 contrib/Contents-amd64.diff Index


Origin: Debian
Architectures: all amd64 arm64 armel armhf i386 mips64el ppc64el riscv64 s390x
Components: main contrib non-free-firmware non-free
Description: Experimental packages - not released; use at your own risk.
MD5Sum:
 3cc222d6694b2de9734c081122a17cb3  3030586 contrib/Contents-all
 1f7d9d3e63b59533f6f5dadc83e71cc7    63339 contrib/Contents-all.diff/Index
 aa5dc8f6f4ab68b4e5b76df04a0532c4   291019 contrib/Contents-all.gz
 55a5553654b03c6a75cd61f79a31257e   271634 contrib/Contents-amd64
 ed5005daa6257830e623e78691c29475    63339 contrib/Contents-amd64.diff/Index

Origin: Debian
Architectures: all amd64 arm64 armel armhf i386 mips64el ppc64el riscv64 s390x
Components: main contrib non-free-firmware non-free
Description: Experimental packages - not released; use at your own risk.
MD5Sum:
 3cc222d6694b2de9734c081122a17cb3  3030586 contrib/Contents-all
 1f7d9d3e63b59533f6f5dadc83e71cc7    63339 contrib/Contents-all.diff/Index
 aa5dc8f6f4ab68b4e5b76df04a0532c4   291019 contrib/Contents-all.gz
 55a5553654b03c6a75cd61f79a31257e   271634 contrib/Contents-amd64
 ed5005daa6257830e623e78691c29475    63339 contrib/Contents-amd64.diff/Index

"#;

fn read_maps(s: &str) -> Result<Vec<BTreeMap<String, String>>, Error> {
    let mut d = Deserializer::from_str(s);
    let mut out = Vec::new();
    while d.has_stanza() {
        let mut m = BTreeMap::new();
        while let Some(k) = d.next_key()? {
            let mut v = d.next_value()?;
            m.insert(k.into_key(), v.string()?);
        }
        d.end_stanza()?;
        out.push(m);
    }
    d.end_stanza()?;
    Ok(out)
}

#[derive(Debug, PartialEq)]
struct Test {
    origin: String,
    description: String,
    architectures: Vec<String>,
    components: Vec<String>,
    md5sum: Vec<(String, u64, String)>,
}

fn read_words(d: &mut Deserializer) -> Result<Vec<String>, Error> {
    let mut v = d.next_value()?;
    v.begin_seq()?;
    let mut out = Vec::new();
    while v.next_element()? {
        out.push(v.string()?);
    }
    v.end_seq()?;
    Ok(out)
}

fn read_sums(d: &mut Deserializer) -> Result<Vec<(String, u64, String)>, Error> {
    let mut v = d.next_value()?;
    v.begin_seq()?;
    let mut out = Vec::new();
    while v.next_element()? {
        v.begin_tuple(3)?;
        assert!(v.next_element()?);
        let a = v.string()?;
        v.element_done();
        assert!(v.next_element()?);
        let b = v.u64()?;
        v.element_done();
        assert!(v.next_element()?);
        let c = v.string()?;
        v.element_done();
        assert!(!v.next_element()?);
        v.end_tuple()?;
        out.push((a, b, c));
    }
    v.end_seq()?;
    Ok(out)
}

fn read_tests(s: &str) -> Result<Vec<Test>, Error> {
    let names: Vec<String> = ["origin", "description", "architectures", "components", "md5sum"]
        .iter()
        .map(|n| n.to_string())
        .collect();
    let mut d = Deserializer::from_str(s);
    let mut out = Vec::new();
    while d.has_stanza() {
        d.set_known_keys(names.clone());
        let mut t = Test {
            origin: String::new(),
            description: String::new(),
            architectures: Vec::new(),
            components: Vec::new(),
            md5sum: Vec::new(),
        };
        while let Some(k) = d.next_key()? {
            match k.into_key().as_str() {
                "origin" => t.origin = d.next_value()?.string()?,
                "description" => t.description = d.next_value()?.string()?,
                "architectures" => t.architectures = read_words(&mut d)?,
                "components" => t.components = read_words(&mut d)?,
                "md5sum" => t.md5sum = read_sums(&mut d)?,
                _ => {
                    d.next_value()?;
                }
            }
        }
        d.clear_known_keys();
        d.end_stanza()?;
        out.push(t);
    }
    d.end_stanza()?;
    Ok(out)
}

#[test]
fn test_file() {
    let data: Vec<BTreeMap<String, String>> = read_maps(S).unwrap();
    assert_eq!(data.len(), 3);
    assert_eq!(data[0]["origin"], "Debian");
    assert!(data[0]["md5sum"].starts_with("3cc222d6694b2de9734c081122a17cb3  3030586"));
}

#[test]
fn test_struct() {
    let test: Vec<Test> = read_tests(S).unwrap();
    assert_eq!(test.len(), 3);
}

#[test]
fn release_scenario_three_records() {
    let test = read_tests(S).unwrap();
    assert_eq!(test.len(), 3);
    for t in &test {
        assert_eq!(t.md5sum.len(), 5);
        assert_eq!(t.origin, test[0].origin);
        assert_eq!(t.description, test[0].description);
        assert_eq!(t.architectures, test[0].architectures);
        assert_eq!(t.components, test[0].components);
    }
    assert_eq!(test[0].origin, "Debian");
    assert_eq!(test[0].architectures.len(), 10);
    assert_eq!(test[0].components, vec!["main", "contrib", "non-free-firmware", "non-free"]);
    assert_eq!(
        test[0].md5sum[0],
        ("3cc222d6694b2de9734c081122a17cb3".to_string(), 3030586, "contrib/Contents-all".to_string())
    );
    assert_eq!(test[0].md5sum[4].2, "contrib/Contents-amd64.diff Index");
    assert_eq!(test[1].md5sum[4].2, "contrib/Contents-amd64.diff/Index");
}

#[test]
fn sequence_tokens_ignore_extra_whitespace() {
    let mut d = Deserializer::from_str("Architectures:   all  amd64\t  arm64  \n");
    assert!(d.next_key().unwrap().is_some());
    assert_eq!(read_words(&mut d).unwrap(), vec!["all", "amd64", "arm64"]);
    let mut d = Deserializer::from_str("Architectures: all amd64 arm64\n");
    assert!(d.next_key().unwrap().is_some());
    assert_eq!(read_words(&mut d).unwrap(), vec!["all", "amd64", "arm64"]);
}

#[test]
fn tuple_keeps_trailing_path_whole() {
    let mut d = Deserializer::from_str("MD5Sum:\n 3cc222d6...  3030586 contrib/Contents-all\n");
    assert!(d.next_key().unwrap().is_some());
    let sums = read_sums(&mut d).unwrap();
    assert_eq!(
        sums,
        vec![("3cc222d6...".to_string(), 3030586, "contrib/Contents-all".to_string())]
    );
    let mut d = Deserializer::from_str("F:\n x 1 a path with spaces \n");
    assert!(d.next_key().unwrap().is_some());
    let sums = read_sums(&mut d).unwrap();
    assert_eq!(sums[0].2, "a path with spaces");
}

#[test]
fn whole_text_joins_continuation_lines() {
    let mut d = Deserializer::from_str("Description:\n first  line\n  second\n");
    assert!(d.next_key().unwrap().is_some());
    assert_eq!(d.next_value().unwrap().string().unwrap(), "first  line\n second");
    let mut d = Deserializer::from_str("Description: head\n tail\n");
    assert!(d.next_key().unwrap().is_some());
    assert_eq!(d.next_value().unwrap().string().unwrap(), "head\ntail");
}

#[test]
fn missing_colon_reports_its_line() {
    let mut d = Deserializer::from_str("\nA: b\nno colon here\nC: d\n");
    assert_eq!(d.next_key().unwrap().unwrap().into_key(), "a");
    d.next_value().unwrap();
    match d.next_key() {
        Err(Error::MissingColon(n)) => assert_eq!(n, 2),
        other => panic!("unexpected {:?}", other.map(|k| k.map(|k| k.into_key()))),
    }
    assert!(d.is_exhausted());
}

#[test]
fn keys_fold_to_declared_name() {
    for raw in ["Origin", "ORIGIN", "origin"] {
        let mut d = Deserializer::from_str(&format!("{raw}: Debian\n"));
        d.set_known_keys(vec!["Description".to_string(), "origin".to_string()]);
        assert_eq!(d.next_key().unwrap().unwrap().into_key(), "origin");
    }
    let mut d = Deserializer::from_str("ORIGIN: Debian\n");
    d.set_known_keys(vec!["Origin".to_string()]);
    assert_eq!(d.next_key().unwrap().unwrap().into_key(), "Origin");
}

#[test]
fn keys_fold_without_declared_names() {
    let mut d = Deserializer::from_str("MD5Sum: x\n");
    assert_eq!(d.next_key().unwrap().unwrap().into_key(), "md5sum");
    let mut d = Deserializer::from_str("Other: x\n");
    d.set_known_keys(vec!["origin".to_string()]);
    assert_eq!(d.next_key().unwrap().unwrap().into_key(), "other");
}

#[test]
fn stanza_not_read_to_its_end() {
    let mut d = Deserializer::from_str("A: 1\nB: 2\n");
    assert!(d.next_key().unwrap().is_some());
    d.next_value().unwrap();
    assert!(matches!(d.end_stanza(), Err(Error::ExpectedStanzaEnd)));
}

#[test]
fn mode_violations_are_errors() {
    let mut d = Deserializer::from_str("A: 12\n");
    assert!(d.next_key().unwrap().is_some());
    let mut v = d.next_value().unwrap();
    assert!(matches!(v.u64(), Err(Error::Message(_))));
    assert!(matches!(v.begin_tuple(2), Err(Error::Message(_))));
    assert!(matches!(v.next_element(), Err(Error::Message(_))));
    v.begin_seq().unwrap();
    assert!(matches!(v.begin_seq(), Err(Error::Message(_))));
    assert_eq!(v.u64().unwrap(), 12);
    assert!(!v.next_element().unwrap());
    assert!(matches!(v.next_token(), Err(Error::Message(_))));
}

#[test]
fn non_numeric_token_is_an_adaptation_error() {
    let mut d = Deserializer::from_str("A: x12 99999999999999999999 +7\n");
    assert!(d.next_key().unwrap().is_some());
    let mut v = d.next_value().unwrap();
    v.begin_seq().unwrap();
    assert!(matches!(v.u64(), Err(Error::Message(_))));
    assert!(matches!(v.u64(), Err(Error::Message(_))));
    assert_eq!(v.u64().unwrap(), 7);
}

#[test]
fn value_without_key_is_an_error() {
    let mut d = Deserializer::from_str("A: 1\n\nB: 2\n");
    assert!(d.next_key().unwrap().is_some());
    d.next_value().unwrap();
    assert!(d.next_key().unwrap().is_none());
    assert!(matches!(d.next_value(), Err(Error::Message(_))));
    d.end_stanza().unwrap();
    assert!(d.has_stanza());
}

#[test]
fn last_tuple_slot_stays_in_its_fragment() {
    let mut d = Deserializer::from_str("MD5Sum:\n abc 123\n def 456 p\n");
    assert!(d.next_key().unwrap().is_some());
    let sums = read_sums(&mut d).unwrap();
    assert_eq!(
        sums,
        vec![
            ("abc".to_string(), 123, "".to_string()),
            ("def".to_string(), 456, "p".to_string())
        ]
    );
}

#[test]
fn ending_a_mode_that_was_not_entered_is_an_error() {
    let mut d = Deserializer::from_str("A: x y\n");
    assert!(d.next_key().unwrap().is_some());
    let mut v = d.next_value().unwrap();
    assert!(matches!(v.end_seq(), Err(Error::Message(_))));
    assert!(matches!(v.end_tuple(), Err(Error::Message(_))));
    v.begin_seq().unwrap();
    assert!(matches!(v.end_tuple(), Err(Error::Message(_))));
    v.begin_tuple(1).unwrap();
    assert!(matches!(v.end_seq(), Err(Error::Message(_))));
    assert_eq!(v.string().unwrap(), "x y");
    v.end_tuple().unwrap();
    v.end_seq().unwrap();
}
