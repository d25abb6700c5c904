use vault_of_cardboard::cdif::{File, Line};

fn assert_parses(line: &str, qty: i32, set: &str, ora: &str) {
    let c = Line::parse(line);
    assert!(c.is_some(), "The line '{}' should parse", line);

    let c = c.unwrap();
    assert_eq!(qty, c.quantity, "Quantity of '{}' should be {}", line, qty);
    assert_eq!(set, c.set, "Set of '{}' should be '{}'", line, set);
    assert_eq!(ora, c.oracle, "Oracle card of '{}' should be '{}'", line, ora);
}

fn assert_no_local_variants(line: &str) {
    let c = Line::parse(line).unwrap();
    assert_eq!(
        0,
        c.lvars.len(),
        "The line '{}' should recognize zero (0) local variants",
        line
    );
}

fn assert_local_variants(line: &str, want: Vec<(&str, &str)>) {
    let c = Line::parse(line);
    assert!(c.is_some(), "The line '{}' should parse", line);

    let c = c.unwrap();
    assert_eq!(
        want.len(),
        c.lvars.len(),
        "The line '{}' should recognize all local variants",
        line
    );
    for (i, wanted) in want.iter().enumerate() {
        let (want_k, want_v) = wanted;
        let (have_k, have_v) = &c.lvars[i];
        assert_eq!(want_k, have_k, "local variant key {} of '{}'", i, line);
        assert_eq!(want_v, have_v, "local variant value {} of '{}'", i, line);
    }
}

fn assert_global_variants(line: &str, want: Vec<&str>) {
    let c = Line::parse(line);
    assert!(c.is_some(), "The line '{}' should parse", line);

    let c = c.unwrap();
    assert_eq!(
        want.len(),
        c.gvars.len(),
        "The line '{}' should recognize all global variants",
        line
    );
    for (i, wanted) in want.iter().enumerate() {
        assert_eq!(wanted, &c.gvars[i], "global variant {} of '{}'", i, line);
    }
}

fn assert_no_global_variants(line: &str) {
    let c = Line::parse(line).unwrap();
    assert_eq!(
        0,
        c.gvars.len(),
        "The line '{}' should recognize zero (0) global variants",
        line
    );
}

#[test]
fn should_format_line_ids_properly() {
    let mut line = Line {
        quantity: 2,
        set: "MIR".to_string(),
        oracle: "Swamp".to_string(),
        gvars: vec![],
        lvars: vec![],
    };
    assert_eq!("MIR Swamp", line.id());
    assert_eq!("2x MIR Swamp", line.as_cdif_string());

    line.oracle = "Femeref Scouts".to_string();
    assert_eq!("MIR Femeref Scouts", line.id());
    assert_eq!("2x MIR Femeref Scouts", line.as_cdif_string());

    line.gvars.push("NM".to_string());
    line.gvars.push("promo".to_string());
    assert_eq!("MIR Femeref Scouts | NM promo", line.id());
    assert_eq!("2x MIR Femeref Scouts | NM promo", line.as_cdif_string());

    line.quantity = 1;
    line.lvars
        .push(("signed".to_string(), "SDCC 2019".to_string()));
    assert_eq!(
        "MIR Femeref Scouts | NM promo (signed: SDCC 2019)",
        line.id()
    );
    assert_eq!(
        "1x MIR Femeref Scouts | NM promo (signed: SDCC 2019)",
        line.as_cdif_string()
    );

    line.gvars = vec![];
    assert_eq!("MIR Femeref Scouts | (signed: SDCC 2019)", line.id());
    assert_eq!(
        "1x MIR Femeref Scouts | (signed: SDCC 2019)",
        line.as_cdif_string()
    );

    line.gvars.push("NM".to_string());
    line.lvars
        .push(("misprint".to_string(), "double-flip".to_string()));
    assert_eq!(
        "MIR Femeref Scouts | NM (signed: SDCC 2019) (misprint: double-flip)",
        line.id()
    );
    assert_eq!(
        "1x MIR Femeref Scouts | NM (signed: SDCC 2019) (misprint: double-flip)",
        line.as_cdif_string()
    );
}

#[test]
fn cdif_should_be_able_to_parse_a_blank_line() {
    assert!(Line::parse("").is_some());
    assert!(Line::parse("                   ").is_some());
    assert_parses("", 0, "", "");
    assert_parses("    ", 0, "", "");
}

#[test]
fn cdif_should_be_able_to_parse_a_full_line_comment() {
    assert!(Line::parse("# this is a test comment").is_some());
    assert_parses("# this is a test comment", 0, "", "");

    assert!(Line::parse("  # this is a test comment").is_some());
    assert_parses("       # this is a test comment", 0, "", "");
}

#[test]
fn cdif_should_be_able_to_parse_simple_lines() {
    assert_parses("1 DOM Opt", 1, "DOM", "Opt");
    assert_parses("1x DOM Opt", 1, "DOM", "Opt");
    assert_parses("1 WAR Return to Nature", 1, "WAR", "Return to Nature");
    assert_parses("1 M19 Ajani's Last Stand", 1, "M19", "Ajani's Last Stand");
}

#[test]
fn should_not_parse_syntactically_incorrect_lines() {
    assert!(Line::parse("1").is_none());
    assert!(Line::parse("1 ").is_none());
    assert!(Line::parse("1x").is_none());
    assert!(Line::parse("1x ").is_none());
    assert!(Line::parse("one LEA Black Lotus").is_none());
    assert!(Line::parse("1 LEA").is_none());
    assert!(Line::parse("1x LEA").is_none());
    assert!(Line::parse("1x LEA ").is_none());
    assert!(Line::parse("1x LEA | NM").is_none());
    assert!(Line::parse("1x LEA | (signed: by artist)").is_none());
    assert!(Line::parse("1x LEA Clone | (signed:").is_none());
}

#[test]
fn cdif_should_be_able_to_parse_multidigit_quantities() {
    assert_parses("23 DOM Opt", 23, "DOM", "Opt");
    assert_parses("23x DOM Opt", 23, "DOM", "Opt");
    assert_parses("1029384756 DOM Opt", 1029384756, "DOM", "Opt");
    assert_parses("055 DOM Opt", 55, "DOM", "Opt");
}

#[test]
fn cdif_should_be_able_to_handle_several_variations_on_set_code() {
    assert_parses("1 DOM Opt", 1, "DOM", "Opt");
    assert_parses("1 M19 Opt", 1, "M19", "Opt");
    assert_parses("1 m19 Opt", 1, "m19", "Opt");
    assert_parses("1 3ED Clone", 1, "3ED", "Clone");
    assert_parses("1 3ed Clone", 1, "3ed", "Clone");
}

#[test]
fn cdif_should_be_able_to_parse_an_inline_comment_after_oracle_card_name() {
    assert_parses("1 DOM Opt # gotta love scry!", 1, "DOM", "Opt");
}

#[test]
fn cdif_should_be_able_to_handle_extra_whitespace() {
    assert_parses("    1 DOM Opt", 1, "DOM", "Opt");
    assert_parses("1     DOM Opt", 1, "DOM", "Opt");
    assert_parses("1 DOM     Opt", 1, "DOM", "Opt");
    assert_parses("  1  DOM  Opt", 1, "DOM", "Opt");
    assert_parses(" 1 DOM Opt   ", 1, "DOM", "Opt");
}

#[test]
fn cdif_should_be_able_to_handle_variants() {
    let test = "1 DOM Opt | ";
    assert_parses(test, 1, "DOM", "Opt");
    assert_no_local_variants(test);
    assert_no_global_variants(test);

    let test = "1 DOM Opt | NM";
    assert_parses(test, 1, "DOM", "Opt");
    assert_no_local_variants(test);
    assert_global_variants(test, vec!["NM"]);

    let test = "1 DOM Opt | VG foil";
    assert_parses(test, 1, "DOM", "Opt");
    assert_no_local_variants(test);
    assert_global_variants(test, vec!["VG", "foil"]);

    let test = "1 DOM Opt | (signed: SDCC 2020)";
    assert_parses(test, 1, "DOM", "Opt");
    assert_no_global_variants(test);
    assert_local_variants(test, vec![("signed", "SDCC 2020")]);

    let test = "1 DOM Opt | EX foil (signed: artist)";
    assert_parses(test, 1, "DOM", "Opt");
    assert_global_variants(test, vec!["EX", "foil"]);
    assert_local_variants(test, vec![("signed", "artist")]);

    let test = "1 DOM Opt | (signed: SDCC 2020) (misprint: Otp not Opt)";
    assert_parses(test, 1, "DOM", "Opt");
    assert_no_global_variants(test);
    assert_local_variants(test, vec![("signed", "SDCC 2020"), ("misprint", "Otp not Opt")]);
}

#[test]
fn cdif_should_be_able_to_handle_inline_comments_in_variants() {
    let test = "1 DOM Opt |#";
    assert_parses(test, 1, "DOM", "Opt");
    assert_no_local_variants(test);
    assert_no_global_variants(test);

    let test = "1 DOM Opt | NM # worth some $$$";
    assert_parses(test, 1, "DOM", "Opt");
    assert_no_local_variants(test);
    assert_global_variants(test, vec!["NM"]);

    let test = "1 DOM Opt | (misprint: double print)# worth SERIOUS $$$";
    assert_parses(test, 1, "DOM", "Opt");
    assert_no_global_variants(test);
    assert_local_variants(test, vec![("misprint", "double print")]);

    let test = "1 DOM Opt | (misprint: double print) # worth SERIOUS $$$";
    assert_parses(test, 1, "DOM", "Opt");
    assert_no_global_variants(test);
    assert_local_variants(test, vec![("misprint", "double print")]);
}

#[test]
fn cdif_should_be_unwilling_to_accept_eol_in_the_middle_of_a_local_variant() {
    assert!(!Line::parse("1 DOM Opt | (").is_some());
    assert!(!Line::parse("1 DOM Opt | (test").is_some());
    assert!(!Line::parse("1 DOM Opt | (test:").is_some());
    assert!(!Line::parse("1 DOM Opt | (test: ").is_some());
    assert!(!Line::parse("1 DOM Opt | (test: foo").is_some());
}

#[test]
fn cdif_should_handle_bad_fsm_transitions_as_syntax_errors() {
    assert!(!Line::parse("1xx DOM Opt").is_some());
    assert!(!Line::parse("1x DOM Opt ||").is_some());
    assert!(!Line::parse("1x DOM Opt | NM ((test:signed))").is_some());
    assert!(!Line::parse("1x DOM Opt | NM (test:signed))").is_some());
}

#[test]
fn should_parse_cdif_files() {
    let test_dot_cdif = "
# simple multi-line CDIF file
# (with embedded comments)

2x DOM Mox Amber
3x DOM Teferi, Hero of Dominaria
";

    let file = File::from_string(test_dot_cdif).unwrap();
    assert_eq!(file.entries().len(), 2);
    assert_eq!(file.count(), (5, 2));

    let line = file.get("DOM Mox Amber");
    assert!(line.is_some());
    let line = line.unwrap();
    assert_eq!(line.quantity, 2);
    assert_eq!(line.set, "DOM");
    assert_eq!(line.oracle, "Mox Amber");

    let line = file.get("DOM Teferi, Hero of Dominaria");
    assert!(line.is_some());
    let line = line.unwrap();
    assert_eq!(line.quantity, 3);
    assert_eq!(line.set, "DOM");
    assert_eq!(line.oracle, "Teferi, Hero of Dominaria");
}

#[test]
fn should_refuse_to_parse_bad_cdif_files() {
    let bad_dot_cdif = "
# a bad cdif file

# one of everything, please
1x GRN
";

    let file = File::from_string(bad_dot_cdif);
    assert!(file.is_err());
    assert_eq!(file.err().unwrap().line, 4);
}

#[test]
fn should_aggregate_repeated_cards_by_summing_their_quantities() {
    let test_dot_cdif = "
2x DOM Mox Amber

# oh!  one more!
1x DOM Mox Amber
";

    let file = File::from_string(test_dot_cdif).unwrap();
    assert_eq!(file.entries().len(), 1);
    assert_eq!(file.count(), (3, 1));

    let line = file.get("DOM Mox Amber");
    assert!(line.is_some());
    let line = line.unwrap();
    assert_eq!(line.quantity, 3);
    assert_eq!(line.set, "DOM");
    assert_eq!(line.oracle, "Mox Amber");
}

#[test]
fn should_handle_strictly_additive_cdif_file_diffs() {
    let a_dot_cdif = "
# a.cdif

4x DOM Opt
4x GRN Radical Idea
";

    let b_dot_cdif = "
# b.cdif

4x DOM Opt
4x GRN Radical Idea
3x RIX Secrets of the Golden City
";

    let a = File::from_string(a_dot_cdif).unwrap();
    let b = File::from_string(b_dot_cdif).unwrap();

    let diff = File::diff(&a, &b);
    assert_eq!(diff.entries().len(), 1);

    let line = &diff.entries()[0];
    assert_eq!(line.quantity, 3);
    assert_eq!(line.set, "RIX");
    assert_eq!(line.oracle, "Secrets of the Golden City");
}

#[test]
fn should_handle_partially_additive_cdif_file_diffs() {
    let a_dot_cdif = "
# a.cdif

4x DOM Opt
4x GRN Radical Idea
";

    let b_dot_cdif = "
# b.cdif

4x DOM Opt
8x GRN Radical Idea
";

    let a = File::from_string(a_dot_cdif).unwrap();
    let b = File::from_string(b_dot_cdif).unwrap();

    let diff = File::diff(&a, &b);
    assert_eq!(diff.entries().len(), 1);

    let line = &diff.entries()[0];
    assert_eq!(line.quantity, 4);
    assert_eq!(line.set, "GRN");
    assert_eq!(line.oracle, "Radical Idea");
}

#[test]
fn should_handle_strictly_subtractive_cdif_file_diffs() {
    let a_dot_cdif = "
# a.cdif

4x DOM Opt
4x GRN Radical Idea
";

    let b_dot_cdif = "
# b.cdif

4x GRN Radical Idea
";

    let a = File::from_string(a_dot_cdif).unwrap();
    let b = File::from_string(b_dot_cdif).unwrap();

    let diff = File::diff(&a, &b);
    assert_eq!(diff.entries().len(), 1);

    let line = &diff.entries()[0];
    assert_eq!(line.quantity, -4);
    assert_eq!(line.set, "DOM");
    assert_eq!(line.oracle, "Opt");
}

#[test]
fn should_handle_partially_subtractive_cdif_file_diffs() {
    let a_dot_cdif = "
# a.cdif

4x DOM Opt
4x GRN Radical Idea
";

    let b_dot_cdif = "
# b.cdif

2x DOM Opt
4x GRN Radical Idea
";

    let a = File::from_string(a_dot_cdif).unwrap();
    let b = File::from_string(b_dot_cdif).unwrap();

    let diff = File::diff(&a, &b);
    assert_eq!(diff.entries().len(), 1);

    let line = &diff.entries()[0];
    assert_eq!(line.quantity, -2);
    assert_eq!(line.set, "DOM");
    assert_eq!(line.oracle, "Opt");
}

#[test]
fn aggregation_sums_duplicate_identities() {
    let file = File::from_string("2x DOM Mox Amber\n1x DOM Mox Amber\n").unwrap();
    assert_eq!(file.entries().len(), 1);
    assert_eq!(file.get("DOM Mox Amber").unwrap().quantity, 3);
}

#[test]
fn diff_emits_the_minimal_patch() {
    let a = File::from_string("4x DOM Opt\n4x GRN Radical Idea\n").unwrap();
    let b = File::from_string("4x DOM Opt\n4x GRN Radical Idea\n3x RIX Secrets of the Golden City\n")
        .unwrap();
    let diff = File::diff(&a, &b);
    assert_eq!(diff.entries().len(), 1);
    let line = &diff.entries()[0];
    assert_eq!(line.quantity, 3);
    assert_eq!(line.id(), "RIX Secrets of the Golden City");
    assert_eq!(line.as_cdif_string(), "3x RIX Secrets of the Golden City");
}

#[test]
fn rejection_set_fails_to_parse() {
    assert!(Line::parse("1x LEA | (signed:").is_none());
    assert!(Line::parse("1xx DOM Opt").is_none());
    assert!(Line::parse("1x DOM Opt ||").is_none());
}

#[test]
fn carriage_returns_are_stripped_from_document_lines() {
    let file = File::from_string("1x DOM Opt\r\n2x DOM Opt\r\n").unwrap();
    assert_eq!(file.entries().len(), 1);
    assert_eq!(file.get("DOM Opt").unwrap().quantity, 3);
}

#[test]
fn negative_quantities_render_with_their_sign() {
    let line = Line {
        quantity: -4,
        set: "DOM".to_string(),
        oracle: "Opt".to_string(),
        gvars: vec![],
        lvars: vec![],
    };
    assert_eq!(line.as_cdif_string(), "-4x DOM Opt");
}
