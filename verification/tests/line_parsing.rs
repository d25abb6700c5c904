use vault_of_cardboard::parser::{parse_line, Line};

fn assert_parses(line: &str, qty: u32, set: &str, ora: &str) {
    let c = parse_line(line);
    assert!(c.is_some(), "The line '{}' should parse", line);

    let c = c.unwrap();
    assert_eq!(qty, c.quantity, "Quantity of '{}' should be {}", line, qty);
    assert_eq!(set, c.set, "Set of '{}' should be '{}'", line, set);
    assert_eq!(ora, c.oracle, "Oracle card of '{}' should be '{}'", line, ora);
}

fn assert_no_local_variants(line: &str) {
    let c = parse_line(line);
    assert!(c.is_some(), "The line '{}' should parse", line);

    let c = c.unwrap();
    assert_eq!(
        0,
        c.lvars.len(),
        "The line '{}' should recognize zero (0) local variants",
        line
    );
}

fn assert_local_variants(line: &str, want: Vec<(&str, &str)>) {
    let c = parse_line(line);
    assert!(c.is_some(), "The line '{}' should parse", line);

    let c = c.unwrap();
    assert_eq!(
        want.len(),
        c.lvars.len(),
        "The line '{}' should recognize all local variants",
        line
    );
    for (i, wanted) in want.iter().enumerate() {
        let (want_k, want_v) = wanted;
        let (have_k, have_v) = &c.lvars[i];
        assert_eq!(
            want_k, have_k,
            "The {}-th local variant should have the expected key ('{}')",
            i, want_k
        );
        assert_eq!(
            want_v, have_v,
            "The {}-th local variant ({}) should have the expected value ('{}')",
            i, want_k, want_v
        );
    }
}

fn assert_global_variants(line: &str, want: Vec<&str>) {
    let c = parse_line(line);
    assert!(c.is_some(), "The line '{}' should parse", line);

    let c = c.unwrap();
    assert_eq!(
        want.len(),
        c.gvars.len(),
        "The line '{}' should recognize all global variants",
        line
    );
    for (i, wanted) in want.iter().enumerate() {
        assert_eq!(
            wanted, &c.gvars[i],
            "The {}-th global variant should be as expected",
            i
        );
    }
}

fn assert_no_global_variants(line: &str) {
    let c = parse_line(line);
    assert!(c.is_some(), "The line '{}' should parse", line);

    let c = c.unwrap();
    assert_eq!(
        0,
        c.gvars.len(),
        "The line '{}' should recognize zero (0) global variants",
        line
    );
}

#[test]
pub fn it_should_format_line_ids_properly() {
    let mut line = Line {
        quantity: 2,
        set: "MIR".to_string(),
        oracle: "Swamp".to_string(),
        gvars: vec![],
        lvars: vec![],
    };
    assert_eq!("MIR Swamp", line.id());
    assert_eq!("2x MIR Swamp", line.as_cdif_string());

    line.oracle = "Femeref Scouts".to_string();
    assert_eq!("MIR Femeref Scouts", line.id());
    assert_eq!("2x MIR Femeref Scouts", line.as_cdif_string());

    line.gvars.push("NM".to_string());
    line.gvars.push("promo".to_string());
    assert_eq!("MIR Femeref Scouts | NM promo", line.id());
    assert_eq!("2x MIR Femeref Scouts | NM promo", line.as_cdif_string());

    line.quantity = 1;
    line.lvars
        .push(("signed".to_string(), "SDCC 2019".to_string()));
    assert_eq!(
        "MIR Femeref Scouts | NM promo (signed: SDCC 2019)",
        line.id()
    );
    assert_eq!(
        "1x MIR Femeref Scouts | NM promo (signed: SDCC 2019)",
        line.as_cdif_string()
    );

    line.gvars = vec![];
    assert_eq!("MIR Femeref Scouts | (signed: SDCC 2019)", line.id());
    assert_eq!(
        "1x MIR Femeref Scouts | (signed: SDCC 2019)",
        line.as_cdif_string()
    );

    line.gvars.push("NM".to_string());
    line.lvars
        .push(("misprint".to_string(), "double-flip".to_string()));
    assert_eq!(
        "MIR Femeref Scouts | NM (signed: SDCC 2019) (misprint: double-flip)",
        line.id()
    );
    assert_eq!(
        "1x MIR Femeref Scouts | NM (signed: SDCC 2019) (misprint: double-flip)",
        line.as_cdif_string()
    );
}

#[test]
fn parser_should_be_able_to_parse_a_blank_line() {
    assert!(parse_line("").is_some());
    assert!(parse_line("                   ").is_some());
}

#[test]
fn parser_should_be_able_to_parse_a_full_line_comment() {
    assert!(parse_line("# this is a test comment").is_some());
}

#[test]
fn parser_should_be_able_to_parse_simple_lines() {
    assert_parses("1 DOM Opt", 1, "DOM", "Opt");
    assert_parses("1x DOM Opt", 1, "DOM", "Opt");
    assert_parses("1 WAR Return to Nature", 1, "WAR", "Return to Nature");
    assert_parses("1 M19 Ajani's Last Stand", 1, "M19", "Ajani's Last Stand");
}

#[test]
fn parser_should_be_able_to_parse_multidigit_quantities() {
    assert_parses("23 DOM Opt", 23, "DOM", "Opt");
    assert_parses("23x DOM Opt", 23, "DOM", "Opt");
    assert_parses("1029384756 DOM Opt", 1029384756, "DOM", "Opt");
    assert_parses("055 DOM Opt", 55, "DOM", "Opt");
}

#[test]
fn parser_should_be_able_to_handle_several_variations_on_set_code() {
    assert_parses("1 DOM Opt", 1, "DOM", "Opt");
    assert_parses("1 M19 Opt", 1, "M19", "Opt");
    assert_parses("1 m19 Opt", 1, "m19", "Opt");
    assert_parses("1 3ED Clone", 1, "3ED", "Clone");
    assert_parses("1 3ed Clone", 1, "3ed", "Clone");
}

#[test]
fn parser_should_be_able_to_parse_an_inline_comment_after_oracle_card_name() {
    assert_parses("1 DOM Opt # gotta love scry!", 1, "DOM", "Opt");
}

#[test]
fn parser_should_be_able_to_handle_extra_whitespace() {
    assert_parses("    1 DOM Opt", 1, "DOM", "Opt");
    assert_parses("1     DOM Opt", 1, "DOM", "Opt");
    assert_parses("1 DOM     Opt", 1, "DOM", "Opt");
    assert_parses("  1  DOM  Opt", 1, "DOM", "Opt");
    assert_parses(" 1 DOM Opt   ", 1, "DOM", "Opt");
}

#[test]
fn parser_should_be_able_to_handle_variants() {
    let test = "1 DOM Opt | ";
    assert_parses(test, 1, "DOM", "Opt");
    assert_no_local_variants(test);
    assert_no_global_variants(test);

    let test = "1 DOM Opt | NM";
    assert_parses(test, 1, "DOM", "Opt");
    assert_no_local_variants(test);
    assert_global_variants(test, vec!["NM"]);

    let test = "1 DOM Opt | VG foil";
    assert_parses(test, 1, "DOM", "Opt");
    assert_no_local_variants(test);
    assert_global_variants(test, vec!["VG", "foil"]);

    let test = "1 DOM Opt | (signed: SDCC 2020)";
    assert_parses(test, 1, "DOM", "Opt");
    assert_no_global_variants(test);
    assert_local_variants(test, vec![("signed", "SDCC 2020")]);

    let test = "1 DOM Opt | EX foil (signed: artist)";
    assert_parses(test, 1, "DOM", "Opt");
    assert_global_variants(test, vec!["EX", "foil"]);
    assert_local_variants(test, vec![("signed", "artist")]);

    let test = "1 DOM Opt | (signed: SDCC 2020) (misprint: Otp not Opt)";
    assert_parses(test, 1, "DOM", "Opt");
    assert_no_global_variants(test);
    assert_local_variants(test, vec![("signed", "SDCC 2020"), ("misprint", "Otp not Opt")]);
}

#[test]
fn parser_should_be_able_to_handle_inline_comments_in_variants() {
    let test = "1 DOM Opt |#";
    assert_parses(test, 1, "DOM", "Opt");
    assert_no_local_variants(test);
    assert_no_global_variants(test);

    let test = "1 DOM Opt | NM # worth some $$$";
    assert_parses(test, 1, "DOM", "Opt");
    assert_no_local_variants(test);
    assert_global_variants(test, vec!["NM"]);

    let test = "1 DOM Opt | (misprint: double print)# worth SERIOUS $$$";
    assert_parses(test, 1, "DOM", "Opt");
    assert_no_global_variants(test);
    assert_local_variants(test, vec![("misprint", "double print")]);

    let test = "1 DOM Opt | (misprint: double print) # worth SERIOUS $$$";
    assert_parses(test, 1, "DOM", "Opt");
    assert_no_global_variants(test);
    assert_local_variants(test, vec![("misprint", "double print")]);
}

#[test]
fn parser_should_be_unwilling_to_accept_eol_in_the_middle_of_a_local_variant() {
    assert!(!parse_line("1 DOM Opt | (").is_some());
    assert!(!parse_line("1 DOM Opt | (test").is_some());
    assert!(!parse_line("1 DOM Opt | (test:").is_some());
    assert!(!parse_line("1 DOM Opt | (test: ").is_some());
    assert!(!parse_line("1 DOM Opt | (test: foo").is_some());
}

#[test]
fn parser_should_handle_bad_fsm_transitions_as_syntax_errors() {
    assert!(!parse_line("1xx DOM Opt").is_some());
    assert!(!parse_line("1x DOM Opt ||").is_some());
    assert!(!parse_line("1x DOM Opt | NM ((test:signed))").is_some());
    assert!(!parse_line("1x DOM Opt | NM (test:signed))").is_some());
}

#[test]
fn parser_round_trips_its_own_rendering() {
    let cases = vec![
        "1x DOM Opt",
        "23x MIR Femeref Scouts | NM promo",
        "4x LEA Clone | EX foil (signed: by the artist) (misprint: double print)",
        "0x DOM Opt",
    ];
    for text in cases {
        let first = parse_line(text).unwrap();
        let rendered = first.as_cdif_string();
        let second = parse_line(&rendered).unwrap();
        assert_eq!(first.quantity, second.quantity, "round trip of '{}'", text);
        assert_eq!(first.set, second.set, "round trip of '{}'", text);
        assert_eq!(first.oracle, second.oracle, "round trip of '{}'", text);
        assert_eq!(first.gvars, second.gvars, "round trip of '{}'", text);
        assert_eq!(first.lvars, second.lvars, "round trip of '{}'", text);
        assert_eq!(rendered, second.as_cdif_string(), "stable rendering of '{}'", text);
    }
}
