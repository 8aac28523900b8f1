use rust_virtual_memory::io::{format_results, parse_virtual_addresses, InitData};

const WORDS: [&str; 34] = [
    "0", "7", "+7", "-7", "+", "-", "", "00", "-0", "+0", "4294967295", "4294967296", "2147483647",
    "2147483648", "-2147483648", "-2147483649", "12a", "a12", "1_000", "0x10", "١٢", "+-1", "-+1",
    "99999999999999999999", "٣", "1.0", "1e3", "007", "+00000000000000000000042", "--0", "0-",
    "18446744073709551616", "-00", "Ⅻ",
];

#[test]
fn numbers_read_as_std_reads_them() {
    for w in WORDS {
        if w.is_empty() {
            continue;
        }
        let line = format!("{} {} {}", w, w, w);
        let ours = InitData::parse(&line);
        let s = w.parse::<u32>();
        let z = w.parse::<i32>();
        match (s, z) {
            (Ok(sv), Ok(zv)) if sv < 512 => {
                assert_eq!(ours.unwrap().st_entries, vec![(sv, zv, zv)], "word {:?}", w)
            }
            (Ok(sv), Ok(_)) => assert_eq!(
                ours.unwrap_err(),
                format!("Segment number {} exceeds max 511", sv),
                "word {:?}",
                w
            ),
            (Ok(_), Err(_)) => {
                assert_eq!(ours.unwrap_err(), format!("Invalid segment size: {}", w), "word {:?}", w)
            }
            (Err(_), _) => {
                assert_eq!(ours.unwrap_err(), format!("Invalid segment number: {}", w), "word {:?}", w)
            }
        }
    }
}

#[test]
fn addresses_read_as_std_reads_them() {
    for w in WORDS {
        let text = format!(" 5\t{}\n6 ", w);
        let ours = parse_virtual_addresses(&text);
        let theirs: Result<Vec<u32>, String> = text
            .split_whitespace()
            .map(|t| t.parse::<u32>().map_err(|_| format!("Invalid virtual address: {}", t)))
            .collect();
        assert_eq!(ours, theirs, "word {:?}", w);
    }
}

#[test]
fn words_split_as_std_splits_them() {
    let texts = [
        "",
        "   ",
        "1 2 3",
        "\t1\n2\r3\u{b}4\u{c}5",
        "1\u{85}2\u{a0}3\u{1680}4\u{2000}5\u{200a}6\u{2028}7\u{2029}8\u{202f}9\u{205f}10\u{3000}11",
        "1\u{200b}2 3",
        "1\u{180e}2 3",
        "  12  34   56  ",
    ];
    for t in texts {
        let expected: Result<Vec<u32>, String> = t
            .split_whitespace()
            .map(|w| w.parse::<u32>().map_err(|_| format!("Invalid virtual address: {}", w)))
            .collect();
        assert_eq!(parse_virtual_addresses(t), expected, "text {:?}", t);
    }
}

#[test]
fn lines_split_as_std_splits_them() {
    let texts = [
        "1 2 3", "1 2 3\n", "1 2 3\n\n", "1 2 3\r\n1 2 3", "1 2 3\n1 2 3\n", "\n1 2 3", "\r\n",
        "1 2 3\n\n1 2 3", "1 2 3\n1 2 3\nx",
    ];
    for t in texts {
        let lines: Vec<&str> = t.lines().collect();
        let d = InitData::parse(t).unwrap();
        let st: Vec<&str> = lines[0].split_whitespace().collect();
        assert_eq!(d.st_entries.len() * 3, st.len(), "text {:?}", t);
        let pt_words = if lines.len() > 1 { lines[1].split_whitespace().count() } else { 0 };
        assert_eq!(d.pt_entries.len() * 3, pt_words, "text {:?}", t);
    }
}

#[test]
fn parse_virtual_addresses_values() {
    assert_eq!(parse_virtual_addresses("1 2\n 4294967295"), Ok(vec![1, 2, 4294967295]));
    assert_eq!(parse_virtual_addresses(""), Ok(vec![]));
    assert_eq!(
        parse_virtual_addresses("1 -2 x"),
        Err("Invalid virtual address: -2".to_string())
    );
}

#[test]
fn format_results_values() {
    assert_eq!(format_results(&[]), "");
    assert_eq!(format_results(&[5]), "5");
    assert_eq!(format_results(&[5125, -1, 0, 42]), "5125 -1 0 42");
    assert_eq!(format_results(&[i32::MIN, i32::MAX]), "-2147483648 2147483647");
}

#[test]
fn format_results_matches_display() {
    let rs = [0, 1, 9, 10, 99, 100, -5, -10, 123456789, i32::MIN, i32::MAX, -1];
    let expected: Vec<String> = rs.iter().map(|r| r.to_string()).collect();
    assert_eq!(format_results(&rs), expected.join(" "));
}

#[test]
fn written_entries_parse_back() {
    let st: Vec<(u32, i32, i32)> = vec![(0, 0, 0), (511, i32::MIN, i32::MAX), (6, 3000, -7)];
    let pt: Vec<(u32, u32, i32)> = vec![(6, 511, -20), (0, 0, 9)];
    let line = |es: Vec<String>| es.join(" ");
    let st_text = line(st.iter().map(|(a, b, c)| format!("{} {} {}", a, b, c)).collect());
    let pt_text = line(pt.iter().map(|(a, b, c)| format!("{} {} {}", a, b, c)).collect());
    let d = InitData::parse(&format!("{}\n{}", st_text, pt_text)).unwrap();
    assert_eq!(d.st_entries, st);
    assert_eq!(d.pt_entries, pt);
    let only_st = InitData::parse(&format!("{}\n", st_text)).unwrap();
    assert_eq!(only_st.st_entries, st);
    assert!(only_st.pt_entries.is_empty());
    let only_pt = InitData::parse(&format!("\n{}", pt_text)).unwrap();
    assert!(only_pt.st_entries.is_empty());
    assert_eq!(only_pt.pt_entries, pt);
}
