use stanza_de::naive::{from_str, iter_from_str};

const S: &str = r#"



Origin: Debian
Architectures: all amd64 arm64 armel armhf i386 mips64el ppc64el riscv64 s390x
Components: main contrib non-free-firmware non-free
Description: Experimental packages - not released; use at your own risk.
MD5Sum:
 3cc222d6694b2de9734c081122a17cb3  3030586 contrib/Contents-all
 1f7d9d3e63b59533f6f5dadc83e71cc7    63339 contrib/Contents-all.diff/Index
 aa5dc8f6f4ab68b4e5b76df04a0532c4   291019 contrib/Contents-all.gz
 55a5553654b03c6a75cd61f79a31257e   271634 contrib/Contents-amd64
 ed5005daa6257830e623e78691c29475    63339 contrib/Contents-amd64.diff/Index


Origin: Debian
Architectures: all amd64 arm64 armel armhf i386 mips64el ppc64el riscv64 s390x
Components: main contrib non-free-firmware non-free
Description: Experimental packages - not released; use at your own risk.
MD5Sum:
 3cc222d6694b2de9734c081122a17cb3  3030586 contrib/Contents-all
 1f7d9d3e63b59533f6f5dadc83e71cc7    63339 contrib/Contents-all.diff/Index
 aa5dc8f6f4ab68b4e5b76df04a0532c4   291019 contrib/Contents-all.gz
 55a5553654b03c6a75cd61f79a31257e   271634 contrib/Contents-amd64
 ed5005daa6257830e623e78691c29475    63339 contrib/Contents-amd64.diff/Index

Origin: Debian
Architectures: all amd64 arm64 armel armhf i386 mips64el ppc64el riscv64 s390x
Components: main contrib non-free-firmware non-free
Description: Experimental packages - not released; use at your own risk.
MD5Sum:
 3cc222d6694b2de9734c081122a17cb3  3030586 contrib/Contents-all
 1f7d9d3e63b59533f6f5dadc83e71cc7    63339 contrib/Contents-all.diff/Index
 aa5dc8f6f4ab68b4e5b76df04a0532c4   291019 contrib/Contents-all.gz
 55a5553654b03c6a75cd61f79a31257e   271634 contrib/Contents-amd64
 ed5005daa6257830e623e78691c29475    63339 contrib/Contents-amd64.diff/Index

"#;

#[test]
fn a() {
    let s = S;
    let h = from_str(s);
    let h = h.unwrap();
    assert_eq!(h.len(), 3);
    assert_eq!(h[0].len(), 5);
    assert_eq!(h[0][0], ("origin".to_string(), "Debian".to_string()));
    assert_eq!(h[0][4].0, "md5sum");
    assert!(h[0][4].1.starts_with("3cc222d6694b2de9734c081122a17cb3  3030586 contrib/Contents-all\n"));
}

#[test]
fn stanza_count_with_blank_runs_and_comments() {
    let s = "\n\n# leading comment\n\nA: 1\n# inside\nB: 2\n\n\n# between\n\nC: 3\n\n#x\nD: 4\n\n\n";
    let h = from_str(s).unwrap();
    assert_eq!(h.len(), 3);
    assert_eq!(h[0], vec![("a".to_string(), "1".to_string()), ("b".to_string(), "2".to_string())]);
    assert_eq!(h[1], vec![("c".to_string(), "3".to_string())]);
    assert_eq!(h[2], vec![("d".to_string(), "4".to_string())]);
}

#[test]
fn empty_and_blank_texts_have_no_stanza() {
    assert_eq!(from_str("").unwrap().len(), 0);
    assert_eq!(from_str("\n  \n\t\n").unwrap().len(), 0);
    assert_eq!(from_str("# only a comment\n").unwrap().len(), 0);
}

#[test]
fn duplicate_keys_are_all_kept() {
    let h = from_str("K: 1\nk: 2\n").unwrap();
    assert_eq!(h[0], vec![("k".to_string(), "1".to_string()), ("k".to_string(), "2".to_string())]);
}

#[test]
fn missing_colon_message_names_the_line() {
    assert_eq!(from_str("A: 1\n\nbroken\n").unwrap_err(), "Missing colon at line 2");
    assert_eq!(
        from_str(&format!("{}x\n", "\n".repeat(12))).unwrap_err(),
        "Missing colon at line 12"
    );
}

#[test]
fn crlf_line_ends_are_dropped() {
    let h = from_str("A: 1\r\nB:  two\r\n").unwrap();
    assert_eq!(h[0], vec![("a".to_string(), "1".to_string()), ("b".to_string(), " two".to_string())]);
}

#[test]
fn iterator_yields_fields_boundaries_and_error() {
    let mut it = iter_from_str("\n\nKey :  v\n more\n\n\nX: y\nbad\nZ: z\n");
    let f = it.next().unwrap().unwrap().unwrap();
    assert_eq!(f.line, 2);
    assert_eq!(f.key, "Key".chars().collect::<Vec<char>>());
    assert_eq!(
        f.value,
        vec![" v".chars().collect::<Vec<char>>(), "more".chars().collect::<Vec<char>>()]
    );
    assert!(it.next().unwrap().unwrap().is_none());
    assert!(matches!(it.peek(), Some(Ok(Some(_)))));
    let f = it.next().unwrap().unwrap().unwrap();
    assert_eq!(f.line, 6);
    assert!(matches!(it.next(), Some(Err(stanza_de::error::Error::MissingColon(7)))));
    assert!(it.next().is_none());
}

#[test]
fn comment_ends_continuation() {
    let mut it = iter_from_str("A: 1\n# note\n B: 2\n");
    let f = it.next().unwrap().unwrap().unwrap();
    assert_eq!(f.value.len(), 1);
    let g = it.next().unwrap().unwrap().unwrap();
    assert_eq!(g.key, "B".chars().collect::<Vec<char>>());
    assert!(it.next().is_none());
}

#[test]
fn trailing_blank_lines_give_one_final_boundary() {
    let mut it = iter_from_str("A: 1\n\n\n");
    assert!(it.next().unwrap().unwrap().is_some());
    assert!(it.next().unwrap().unwrap().is_none());
    assert!(it.next().is_none());
    let mut it = iter_from_str("A: 1");
    assert!(it.next().unwrap().unwrap().is_some());
    assert!(it.next().is_none());
}

#[test]
fn removing_comments_changes_only_line_numbers() {
    let with = "# head\n\nA: 1\n# mid\nB:\n x\n\n# gap\n\nC: 3\n";
    let without = "\nA: 1\nB:\n x\n\n\nC: 3\n";
    let items = |s: &str| {
        let mut it = iter_from_str(s);
        let mut out = Vec::new();
        while let Some(item) = it.next() {
            out.push(item.unwrap().map(|f| (f.key, f.value)));
        }
        out
    };
    assert_eq!(items(with), items(without));
    assert_eq!(items(with).len(), 4);
}
