use emote_catalog::catalog::{parse_emoji_info, EmoteEntry, ParseError};

fn doc(groups: &[(&str, &[(&str, &[&str])])]) -> String {
    let mut s = String::from("# emoji test data\n# preamble\n\n");
    for (g, subs) in groups {
        s.push_str(&format!("# group: {}\n\n", g));
        for (sg, rows) in subs.iter() {
            s.push_str(&format!("# subgroup: {}\n", sg));
            for r in rows.iter() {
                s.push_str(r);
                s.push('\n');
            }
            s.push('\n');
        }
    }
    s.push_str("#EOF\n");
    s
}

fn parse_ok(s: &str) -> Vec<EmoteEntry> {
    match parse_emoji_info(s) {
        Ok(es) => es,
        Err(e) => panic!("unexpected error {:?}", e),
    }
}

#[test]
fn scenario_grinning_face() {
    let d = doc(&[(
        "Smileys & Emotion",
        &[("face-smiling", &["1F600 ; fully-qualified # E1.0 grinning face"])],
    )]);
    let es = parse_ok(&d);
    assert_eq!(es.len(), 1);
    assert_eq!(es[0].text, "\u{1F600}");
    assert_eq!(es[0].name, "grinning face");
    assert_eq!(es[0].group, "Smileys & Emotion");
    assert_eq!(es[0].tags, vec!["face-smiling".to_string()]);
}

#[test]
fn scenario_source_layout_with_glyph_in_comment() {
    let d = doc(&[(
        "Smileys & Emotion",
        &[(
            "face-smiling",
            &["1F600                                                  ; fully-qualified     # \u{1F600} E1.0 grinning face"],
        )],
    )]);
    let es = parse_ok(&d);
    assert_eq!(es.len(), 1);
    assert_eq!(es[0].text, "\u{1F600}");
    assert_eq!(es[0].name, "grinning face");
}

#[test]
fn scenario_rainbow_flag() {
    let d = doc(&[(
        "Flags",
        &[("flag", &["1F3F3 FE0F 200D 1F308 ; fully-qualified # E4.0 rainbow flag"])],
    )]);
    let es = parse_ok(&d);
    assert_eq!(es.len(), 1);
    assert_eq!(es[0].text, "\u{1F3F3}\u{FE0F}\u{200D}\u{1F308}");
    assert_eq!(es[0].text.chars().count(), 4);
    assert_eq!(es[0].name, "rainbow flag");
    assert_eq!(es[0].group, "Flags");
    assert_eq!(es[0].tags, vec!["flag".to_string()]);
}

#[test]
fn scenario_minimally_qualified_dropped() {
    let d = doc(&[(
        "Smileys & Emotion",
        &[("face-smiling", &["1F600 ; minimally-qualified # E1.0 grinning face"])],
    )]);
    assert_eq!(parse_ok(&d).len(), 0);
}

#[test]
fn component_rows_dropped_and_counted() {
    let d = doc(&[(
        "Component",
        &[(
            "skin-tone",
            &[
                "1F3FB ; component # E1.0 light skin tone",
                "263A FE0F ; fully-qualified # E0.6 smiling face",
                "263A ; unqualified # E0.6 smiling face",
                "1F636 200D 1F32B ; minimally-qualified # E13.1 face in clouds",
            ],
        )],
    )]);
    let es = parse_ok(&d);
    assert_eq!(es.len(), 2);
    assert_eq!(es[0].text, "\u{263A}\u{FE0F}");
    assert_eq!(es[1].text, "\u{263A}");
}

#[test]
fn order_is_document_order() {
    let d = doc(&[
        (
            "G1",
            &[
                ("s11", &["0031 ; fully-qualified # E0.0 one one", "0032 ; fully-qualified # E0.0 one two"]),
                ("s12", &["0033 ; fully-qualified # E0.0 one three"]),
            ],
        ),
        (
            "G2",
            &[
                ("s21", &["0034 ; fully-qualified # E0.0 two one"]),
                ("s22", &["0035 ; fully-qualified # E0.0 two two", "0036 ; fully-qualified # E0.0 two three"]),
            ],
        ),
    ]);
    let es = parse_ok(&d);
    let got: Vec<(String, String, String, String)> = es
        .iter()
        .map(|e| (e.text.clone(), e.name.clone(), e.group.clone(), e.tags[0].clone()))
        .collect();
    let want = vec![
        ("1", "one one", "G1", "s11"),
        ("2", "one two", "G1", "s11"),
        ("3", "one three", "G1", "s12"),
        ("4", "two one", "G2", "s21"),
        ("5", "two two", "G2", "s22"),
        ("6", "two three", "G2", "s22"),
    ];
    assert_eq!(got.len(), want.len());
    for (g, w) in got.iter().zip(want.iter()) {
        assert_eq!(g.0, w.0);
        assert_eq!(g.1, w.1);
        assert_eq!(g.2, w.2);
        assert_eq!(g.3, w.3);
    }
    for e in es.iter() {
        assert_eq!(e.tags.len(), 1);
    }
}

#[test]
fn round_trip_of_codepoints() {
    let rows = [
        "1F600 ; fully-qualified # E1.0 grinning face",
        "1F3F3 FE0F 200D 1F308 ; fully-qualified # E4.0 rainbow flag",
        "1F44B 1F3FD ; fully-qualified # E1.0 waving hand medium skin tone",
        "1F1FA 1F1F8 ; fully-qualified # E0.6 flag United States",
    ];
    let d = doc(&[("G", &[("s", &rows)])]);
    let es = parse_ok(&d);
    assert_eq!(es.len(), rows.len());
    for (e, r) in es.iter().zip(rows.iter()) {
        let hex: Vec<String> = e.text.chars().map(|c| format!("{:X}", c as u32)).collect();
        let field = r.split(';').next().unwrap().trim();
        assert_eq!(hex.join(" "), field);
    }
}

#[test]
fn parsing_twice_gives_the_same_entries() {
    let d = doc(&[(
        "G",
        &[("s", &["1F600 ; fully-qualified # E1.0 grinning face", "2764 FE0F ; fully-qualified # E0.6 red heart"])],
    )]);
    let a = parse_ok(&d);
    let b = parse_ok(&d);
    assert_eq!(a.len(), b.len());
    for (x, y) in a.iter().zip(b.iter()) {
        assert_eq!(x.text, y.text);
        assert_eq!(x.name, y.name);
        assert_eq!(x.group, y.group);
        assert_eq!(x.tags, y.tags);
    }
}

#[test]
fn no_group_marker_gives_no_entries() {
    let d = "# subgroup: face-smiling\nface-smiling\n1F600 ; fully-qualified # E1.0 grinning face\n";
    assert_eq!(parse_ok(d).len(), 0);
    assert_eq!(parse_ok("").len(), 0);
}

#[test]
fn group_without_name_is_skipped() {
    let d = "# group: \n# only comments\n\n#EOF\n";
    assert_eq!(parse_ok(d).len(), 0);
}

#[test]
fn subgroup_without_name_is_skipped() {
    let d = "# group: G\nG\n# subgroup: \n   \n# nothing here\n# subgroup: t\nt\n1F601 ; fully-qualified # E0.6 beaming face\n";
    let es = parse_ok(d);
    assert_eq!(es.len(), 1);
    assert_eq!(es[0].text, "\u{1F601}");
    assert_eq!(es[0].tags, vec!["t".to_string()]);
}

#[test]
fn header_names_are_trimmed_and_crlf_tolerated() {
    let d = "# group:   Animals & Nature  \r\n# subgroup: mammal\r\n1F435 ; fully-qualified # E0.6 monkey face\r\n";
    let es = parse_ok(d);
    assert_eq!(es.len(), 1);
    assert_eq!(es[0].group, "Animals & Nature");
    assert_eq!(es[0].tags, vec!["mammal".to_string()]);
    assert_eq!(es[0].name, "monkey face");
}

#[test]
fn name_stops_at_punctuation() {
    let d = doc(&[("G", &[("s", &["1F1E6 1F1E8 ; fully-qualified # E2.0 flag: Ascension Island"])])]);
    let es = parse_ok(&d);
    assert_eq!(es.len(), 1);
    assert_eq!(es[0].name, "flag");
}

#[test]
fn non_ascii_name_characters_are_kept() {
    let d = doc(&[("G", &[("s", &["1FA85 ; fully-qualified # E13.0 pi\u{F1}ata"])])]);
    let es = parse_ok(&d);
    assert_eq!(es.len(), 1);
    assert_eq!(es[0].name, "pi\u{F1}ata");
}

#[test]
fn lines_that_are_not_rows_are_ignored() {
    let d = doc(&[(
        "G",
        &[(
            "s",
            &[
                "# a comment ; fully-qualified # E1.0 nothing",
                "1F600 ; fully-qualified # no version here",
                "1F600 fully-qualified # E1.0 no semicolon",
                "1f600 ; fully-qualified # E1.0 lower case",
                "1F600 ;fully-qualified # E1.0 no space",
                "1F600 ; fully-qualified # E1.0 kept",
            ],
        )],
    )]);
    let es = parse_ok(&d);
    assert_eq!(es.len(), 1);
    assert_eq!(es[0].name, "kept");
}

#[test]
fn surrogate_codepoint_is_an_error() {
    let d = doc(&[("G", &[("s", &["D800 ; fully-qualified # E1.0 surrogate"])])]);
    assert!(matches!(parse_emoji_info(&d), Err(ParseError::InvalidCodepoint)));
}

#[test]
fn codepoint_beyond_unicode_is_an_error() {
    let d = doc(&[("G", &[("s", &["110000 ; fully-qualified # E1.0 too big"])])]);
    assert!(matches!(parse_emoji_info(&d), Err(ParseError::InvalidCodepoint)));
    let d = doc(&[("G", &[("s", &["FFFFFFFFFFFF ; fully-qualified # E1.0 overflow"])])]);
    assert!(matches!(parse_emoji_info(&d), Err(ParseError::InvalidCodepoint)));
}

#[test]
fn invalid_codepoint_in_dropped_row_is_no_error() {
    let d = doc(&[("G", &[("s", &["D800 ; component # E1.0 surrogate", "0041 ; fully-qualified # E1.0 letter"])])]);
    let es = parse_ok(&d);
    assert_eq!(es.len(), 1);
    assert_eq!(es[0].text, "A");
}

#[test]
fn leading_zeros_decode() {
    let d = doc(&[("G", &[("s", &["0000000023 FE0F 20E3 ; fully-qualified # E0.6 keycap"])])]);
    let es = parse_ok(&d);
    assert_eq!(es[0].text, "#\u{FE0F}\u{20E3}");
    assert_eq!(es[0].name, "keycap");
}
