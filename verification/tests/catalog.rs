use vault_of_cardboard::card::{Flags, Frame, Legality};

#[test]
fn should_be_able_to_pack_flags() {
    let new = || -> Flags {
        Flags {
            full_art: false,
            oversized: false,
            reprint: false,
            reserved: false,
            variation: false,
            story_spotlight: false,
            rarity: "".to_string(),
        }
    };
    assert_eq!(new().pack(), "", "the empty Flags packs to an empty string");

    let mut flags = new();
    flags.rarity = "common".to_string();
    assert_eq!(flags.pack(), "1", "commons should encode to '1'");

    let mut flags = new();
    flags.rarity = "uncommon".to_string();
    assert_eq!(flags.pack(), "2", "uncommons should encode to '2'");

    let mut flags = new();
    flags.rarity = "rare".to_string();
    assert_eq!(flags.pack(), "3", "rares should encode to '3'");

    let mut flags = new();
    flags.rarity = "mythic".to_string();
    assert_eq!(flags.pack(), "4", "commons should encode to '4'");

    let mut flags = new();
    flags.full_art = true;
    assert_eq!(flags.pack(), "^", "'full art' is packed to '^'");

    let mut flags = new();
    flags.reprint = true;
    assert_eq!(flags.pack(), "+", "'reprint' is packed to '+'");

    let mut flags = new();
    flags.reserved = true;
    assert_eq!(flags.pack(), "!", "'reserved' is packed to '!'");

    let mut flags = new();
    flags.variation = true;
    assert_eq!(flags.pack(), "~", "'variation' is packed to '~'");

    let mut flags = new();
    flags.story_spotlight = true;
    assert_eq!(flags.pack(), "@", "'story spotlight' is packed to '@'");

    let mut flags = new();
    flags.rarity = "rare".to_string();
    flags.full_art = true;
    flags.reprint = true;
    flags.reserved = true;
    flags.variation = true;
    flags.story_spotlight = true;
    assert_eq!(flags.pack(), "^+!~@3", "all flags can coexist");

    let mut flags = new();
    flags.rarity = "mythic".to_string();
    flags.variation = true;
    flags.story_spotlight = true;
    assert_eq!(flags.pack(), "~@4", "subsets of flags can coexist");
}

#[test]
fn should_be_able_to_pack_legality() {
    let new = |on: bool| -> Legality {
        Legality {
            brawl: on,
            commander: on,
            duel: on,
            frontier: on,
            future: on,
            historic: on,
            legacy: on,
            modern: on,
            old_school: on,
            pauper: on,
            penny: on,
            pioneer: on,
            standard: on,
            vintage: on,
        }
    };

    assert_eq!(
        new(false).pack(),
        "",
        "the empty Legality packs to the empty string"
    );

    assert_eq!(
        new(true).pack(),
        "BEdjfhlmoP$psv",
        "the full Legality packs appropriately"
    );

    let mut legal = new(false);
    legal.brawl = true;
    assert_eq!(legal.pack(), "B", "'brawl' is packed to 'B'");

    let mut legal = new(false);
    legal.commander = true;
    assert_eq!(legal.pack(), "E", "'commander' is packed to 'E'");

    let mut legal = new(false);
    legal.duel = true;
    assert_eq!(legal.pack(), "d", "'duel' is packed to 'd'");

    let mut legal = new(false);
    legal.frontier = true;
    assert_eq!(legal.pack(), "j", "'frontier' is packed to 'j'");

    let mut legal = new(false);
    legal.future = true;
    assert_eq!(legal.pack(), "f", "'future' is packed to 'f'");

    let mut legal = new(false);
    legal.historic = true;
    assert_eq!(legal.pack(), "h", "'historic' is packed to 'h'");

    let mut legal = new(false);
    legal.legacy = true;
    assert_eq!(legal.pack(), "l", "'legacy' is packed to 'l'");

    let mut legal = new(false);
    legal.modern = true;
    assert_eq!(legal.pack(), "m", "'modern' is packed to 'm'");

    let mut legal = new(false);
    legal.old_school = true;
    assert_eq!(legal.pack(), "o", "'old_school' is packed to 'o'");

    let mut legal = new(false);
    legal.pauper = true;
    assert_eq!(legal.pack(), "P", "'pauper' is packed to 'P'");

    let mut legal = new(false);
    legal.penny = true;
    assert_eq!(legal.pack(), "$", "'penny' is packed to '$'");

    let mut legal = new(false);
    legal.pioneer = true;
    assert_eq!(legal.pack(), "p", "'pioneer' is packed to 'p'");

    let mut legal = new(false);
    legal.standard = true;
    assert_eq!(legal.pack(), "s", "'standard' is packed to 's'");

    let mut legal = new(false);
    legal.vintage = true;
    assert_eq!(legal.pack(), "v", "'vintage' is packed to 'v'");

    let mut legal = new(true);
    legal.vintage = false;
    legal.modern = false;
    assert_eq!(
        legal.pack(),
        "BEdjfhloP$ps",
        "subsets of legalities can be packed"
    );
}

#[test]
fn should_be_able_to_pack_frames() {
    let new = |on: bool| -> Frame {
        Frame {
            frame: "".to_string(),

            legendary: on,
            miracle: on,
            nyx_touched: on,
            draft: on,
            devoid: on,
            tombstone: on,
            color_shifted: on,
            showcase: on,
            compass: on,
            extended_art: on,
            companion: on,
        }
    };

    assert_eq!(
        new(false).pack(),
        "",
        "the empty Frame packs to the empty string"
    );
    assert_eq!(
        new(true).pack(),
        "LmnDdt$sc+C",
        "the full Frame packs appropriately"
    );

    let mut frame = new(false);
    frame.frame = "1993".to_string();
    assert_eq!(frame.pack(), "3", "'1993' should pack to '3'");

    let mut frame = new(false);
    frame.frame = "1997".to_string();
    assert_eq!(frame.pack(), "7", "'1997' should pack to '7'");

    let mut frame = new(false);
    frame.frame = "2003".to_string();
    assert_eq!(frame.pack(), "M", "'modern' should pack to 'M'");

    frame.frame = "2015".to_string();
    assert_eq!(frame.pack(), "N", "'2015' should back to 'N'");

    let mut frame = new(false);
    frame.frame = "future".to_string();
    assert_eq!(frame.pack(), "F", "'future' should pack to 'F'");

    let mut frame = new(false);
    frame.legendary = true;
    assert_eq!(frame.pack(), "L", "'legendary' should pack to 'L'");

    let mut frame = new(false);
    frame.miracle = true;
    assert_eq!(frame.pack(), "m", "'miracle' should pack to 'm'");

    let mut frame = new(false);
    frame.nyx_touched = true;
    assert_eq!(frame.pack(), "n", "'nyx-touched' should pack to 'n'");

    let mut frame = new(false);
    frame.draft = true;
    assert_eq!(frame.pack(), "D", "'draft' should pack to 'D'");

    let mut frame = new(false);
    frame.devoid = true;
    assert_eq!(frame.pack(), "d", "'devoid' should pack to 'd'");

    let mut frame = new(false);
    frame.tombstone = true;
    assert_eq!(frame.pack(), "t", "'tombstone' should pack to 't'");

    let mut frame = new(false);
    frame.color_shifted = true;
    assert_eq!(frame.pack(), "$", "'color-shifted' should pack to '$'");

    let mut frame = new(false);
    frame.showcase = true;
    assert_eq!(frame.pack(), "s", "'showcase' should pack to 's'");

    let mut frame = new(false);
    frame.compass = true;
    assert_eq!(frame.pack(), "c", "'compass' should pack to 'c'");

    let mut frame = new(false);
    frame.extended_art = true;
    assert_eq!(frame.pack(), "+", "'extended-art' should pack to '+'");

    let mut frame = new(false);
    frame.companion = true;
    assert_eq!(frame.pack(), "C", "'companion' should pack to 'C'");

    let mut frame = new(false);
    frame.frame = "2003".to_string();
    frame.legendary = true;
    frame.companion = true;
    assert_eq!(frame.pack(), "LCM", "subsets of frames can coexist");
}
