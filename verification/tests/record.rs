use clustering::record::{blank_char, fields, next_field, records, Record, Span};

fn chars(s: &str) -> Vec<char> {
    s.chars().collect()
}

fn text(line: &[char], f: Span) -> String {
    line[f.start..f.end].iter().collect()
}

fn pair(s: &str) -> Option<(String, String)> {
    let line = chars(s);
    fields(&line).map(|(x, y)| (text(&line, x), text(&line, y)))
}

#[test]
fn blanks_are_the_white_space_of_unicode() {
    for u in 0u32..=0x10FFFF {
        if let Some(c) = char::from_u32(u) {
            assert_eq!(blank_char(c), c.is_whitespace(), "U+{:04X}", u);
        }
    }
}

#[test]
fn some_blanks_and_some_others() {
    for c in [' ', '\t', '\n', '\r', '\u{0B}', '\u{0C}', '\u{85}', '\u{A0}', '\u{3000}'] {
        assert!(blank_char(c));
    }
    for c in ['a', '0', '.', '-', '\u{08}', '\u{0E}', '\u{200B}', '\u{FEFF}'] {
        assert!(!blank_char(c));
    }
}

#[test]
fn fields_of_a_plain_record() {
    let line = chars("1.5 2.5");
    assert_eq!(
        fields(&line),
        Some((Span { start: 0, end: 3 }, Span { start: 4, end: 7 }))
    );
    assert_eq!(pair("1.5 2.5"), Some(("1.5".to_string(), "2.5".to_string())));
}

#[test]
fn fields_skip_blanks_around_them() {
    let line = chars("  \t-1e3\t \t 42 ");
    assert_eq!(
        fields(&line),
        Some((Span { start: 3, end: 7 }, Span { start: 11, end: 13 }))
    );
    assert_eq!(pair("10\u{A0}20\r"), Some(("10".to_string(), "20".to_string())));
}

#[test]
fn fields_are_the_first_two() {
    assert_eq!(pair("1 2 3 4"), Some(("1".to_string(), "2".to_string())));
    assert_eq!(pair("x y"), Some(("x".to_string(), "y".to_string())));
}

#[test]
fn fewer_than_two_fields_give_none() {
    assert_eq!(fields(&chars("")), None);
    assert_eq!(fields(&chars("   \t ")), None);
    assert_eq!(fields(&chars("3.25")), None);
    assert_eq!(fields(&chars("  3.25  ")), None);
}

#[test]
fn fields_agree_with_splitting_at_white_space() {
    let lines = [
        "0 0",
        "1.0\t0.0",
        " 10  10  ",
        "a",
        "",
        " ",
        "1,2 3",
        "\u{2003}7\u{2003}8\u{2003}9",
        "-0.5 +.25e-3 trailing words",
    ];
    for l in lines {
        let want: Vec<&str> = l.split_whitespace().take(2).collect();
        match pair(l) {
            Some((x, y)) => {
                assert_eq!(want.len(), 2);
                assert_eq!(x, want[0]);
                assert_eq!(y, want[1]);
            }
            None => assert!(want.len() < 2),
        }
    }
}

#[test]
fn next_field_starts_where_it_is_told() {
    let line = chars("ab cd  ef");
    assert_eq!(next_field(&line, 0), Some(Span { start: 0, end: 2 }));
    assert_eq!(next_field(&line, 2), Some(Span { start: 3, end: 5 }));
    assert_eq!(next_field(&line, 5), Some(Span { start: 7, end: 9 }));
    assert_eq!(next_field(&line, 9), None);
    assert_eq!(next_field(&line, 1), Some(Span { start: 1, end: 2 }));
}

#[test]
fn coordinates_parse_from_the_fields() {
    let (x, y) = pair(" 2.5\t-4e1 ").unwrap();
    assert_eq!(x.parse::<f32>().unwrap(), 2.5);
    assert_eq!(y.parse::<f32>().unwrap(), -40.0);
}

fn rows(s: &str) -> Result<Vec<(String, String)>, usize> {
    let all = chars(s);
    records(&all).map(|v| {
        v.iter()
            .map(|r| {
                let line = &all[r.line.start..r.line.end];
                (text(line, r.x), text(line, r.y))
            })
            .collect()
    })
}

fn row(x: &str, y: &str) -> (String, String) {
    (x.to_string(), y.to_string())
}

#[test]
fn records_of_three_lines() {
    let all = chars("0 0\n1 0\n10 10\n");
    let v = records(&all).unwrap();
    assert_eq!(
        v,
        vec![
            Record {
                line: Span { start: 0, end: 3 },
                x: Span { start: 0, end: 1 },
                y: Span { start: 2, end: 3 }
            },
            Record {
                line: Span { start: 4, end: 7 },
                x: Span { start: 0, end: 1 },
                y: Span { start: 2, end: 3 }
            },
            Record {
                line: Span { start: 8, end: 13 },
                x: Span { start: 0, end: 2 },
                y: Span { start: 3, end: 5 }
            },
        ]
    );
    assert_eq!(
        rows("0 0\n1 0\n10 10\n"),
        Ok(vec![row("0", "0"), row("1", "0"), row("10", "10")])
    );
}

#[test]
fn records_do_not_need_a_last_line_feed() {
    assert_eq!(rows("1.5 2.5\n-3 4"), Ok(vec![row("1.5", "2.5"), row("-3", "4")]));
    assert_eq!(rows("7 8"), Ok(vec![row("7", "8")]));
}

#[test]
fn records_take_a_carriage_return_as_a_blank() {
    assert_eq!(rows("1 2\r\n3 4\r\n"), Ok(vec![row("1", "2"), row("3", "4")]));
}

#[test]
fn records_of_no_text_are_none() {
    assert_eq!(records(&chars("")), Ok(vec![]));
}

#[test]
fn records_name_the_first_short_line() {
    assert_eq!(records(&chars("\n")), Err(0));
    assert_eq!(records(&chars("1\n2 3\n")), Err(0));
    assert_eq!(records(&chars("1 2\n\n3 4\n")), Err(1));
    assert_eq!(records(&chars("1 2\n3 4\n\n")), Err(2));
    assert_eq!(records(&chars("1 2\n3 4\n5")), Err(2));
    assert_eq!(records(&chars("1 2\n3 4\n  \t")), Err(2));
    assert_eq!(records(&chars("1 2\n3\n4\n")), Err(1));
}

#[test]
fn records_keep_fields_within_their_line() {
    assert_eq!(records(&chars("1\n2\n")), Err(0));
    assert_eq!(rows("1 2 3\n4 5 6\n"), Ok(vec![row("1", "2"), row("4", "5")]));
}

#[test]
fn records_agree_with_lines_split_at_white_space() {
    let texts = [
        "",
        "\n",
        "1 2",
        "1 2\n",
        "1 2\n\n",
        "\n1 2",
        "a b\nc d\ne f",
        "a b\r\nc d\r\n",
        " a  b \n\tc\td\t\n",
        "a b\nc\nd e\n",
        "a\u{A0}b\u{2028}c d\n e f g\n",
    ];
    for t in texts {
        let mut want: Result<Vec<(String, String)>, usize> = Ok(Vec::new());
        for (k, l) in t.lines().enumerate() {
            let v: Vec<&str> = l.split_whitespace().take(2).collect();
            if v.len() < 2 {
                want = Err(k);
                break;
            }
            if let Ok(w) = &mut want {
                w.push(row(v[0], v[1]));
            }
        }
        assert_eq!(rows(t), want, "{:?}", t);
    }
}
