use vault_of_cardboard::cdif::Line;
use vault_of_cardboard::cdifdiff;
use vault_of_cardboard::cdifparse;

fn line(text: &str) -> Line {
    Line::parse(text).unwrap()
}

#[test]
fn cdifdiff_differ_computes_a_two_sided_patch() {
    let mut differ = cdifdiff::Differ::new();
    differ.track_a(line("4x DOM Opt"));
    differ.track_a(line("4x GRN Radical Idea"));
    differ.track_b(line("2x DOM Opt"));
    differ.track_b(line("4x GRN Radical Idea"));
    differ.track_b(line("3x RIX Secrets of the Golden City"));

    let patch = differ.diff();
    assert_eq!(patch.len(), 2);
    assert_eq!(patch[0].quantity, -2);
    assert_eq!(patch[0].id(), "DOM Opt");
    assert_eq!(patch[1].quantity, 3);
    assert_eq!(patch[1].id(), "RIX Secrets of the Golden City");
}

#[test]
fn cdifdiff_differ_aggregates_repeated_lines() {
    let mut differ = cdifdiff::Differ::new();
    differ.track_a(line("2x DOM Mox Amber"));
    differ.track_a(line("1x DOM Mox Amber"));
    differ.track_b(line("5x DOM Mox Amber"));

    let patch = differ.diff();
    assert_eq!(patch.len(), 1);
    assert_eq!(patch[0].quantity, 2);
    assert_eq!(patch[0].id(), "DOM Mox Amber");
}

#[test]
fn cdifdiff_differ_drops_identities_that_balance_out() {
    let mut differ = cdifdiff::Differ::new();
    differ.track_a(line("4x DOM Opt"));
    differ.track_b(line("4x DOM Opt"));

    let patch = differ.diff();
    assert_eq!(patch.len(), 0);
}

#[test]
fn cdifparse_differ_subtracts_the_second_tally_from_the_first() {
    let mut differ = cdifparse::Differ::new();
    differ.track_a(line("4x DOM Opt"));
    differ.track_a(line("4x GRN Radical Idea"));
    differ.track_b(line("1x DOM Opt"));

    let patch = differ.diff();
    assert_eq!(patch.len(), 2);
    assert_eq!(patch[0].quantity, 3);
    assert_eq!(patch[0].id(), "DOM Opt");
    assert_eq!(patch[1].quantity, 4);
    assert_eq!(patch[1].id(), "GRN Radical Idea");
}

#[test]
fn cdifparse_differ_ignores_identities_only_the_second_tally_has() {
    let mut differ = cdifparse::Differ::new();
    differ.track_a(line("4x DOM Opt"));
    differ.track_b(line("4x DOM Opt"));
    differ.track_b(line("2x GRN Radical Idea"));

    let patch = differ.diff();
    assert_eq!(patch.len(), 0);
}
